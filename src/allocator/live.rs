use vstd::prelude::*;
use vstd::arithmetic::power2::is_pow2;
use super::lemma_align_up;
use super::block::{
    block_alloc_outcome, block_dealloc_outcome, block_size_spec, class_of, lemma_class_layout,
    lemma_class_of, BLOCK_CLASSES,
};
use super::pool::{
    alloc_outcome, carve, disjoint, eff_align, eff_size, first_fit, fits, layout_ok,
    lemma_eff_layout, lemma_first_fit, regions_wf, ListNode,
};

verus! {

/// The byte ranges `[s1, s1 + n1)` and `[s2, s2 + n2)` share no byte.
pub open spec fn apart(s1: int, n1: int, s2: int, n2: int) -> bool {
    s1 + n1 <= s2 || s2 + n2 <= s1
}

pub open spec fn valid_block(lists: Seq<Seq<usize>>, k: int, j: int) -> bool {
    0 <= k < lists.len() && 0 <= j < lists[k].len()
}

/// Bytes taken by an allocation of `size` bytes aligned to `align`, as given back later.
pub open spec fn footprint(size: usize, align: usize) -> int {
    match class_of(size, align) {
        Some(k) => block_size_spec(k),
        None => eff_size(size, align),
    }
}

/// The free pieces of a block allocator, its class blocks and its pool regions, are well formed
/// and no two of them share a byte; every class block is aligned to its class size.
pub open spec fn free_ok(lists: Seq<Seq<usize>>, pool: Seq<ListNode>) -> bool {
    &&& lists.len() == BLOCK_CLASSES
    &&& regions_wf(pool)
    &&& forall|k: int, j: int|
        valid_block(lists, k, j) ==> #[trigger] lists[k][j] + block_size_spec(k) <= usize::MAX
    &&& forall|k: int, j: int|
        valid_block(lists, k, j) ==> #[trigger] lists[k][j] as int % block_size_spec(k) == 0
    &&& forall|k1: int, j1: int, k2: int, j2: int|
        valid_block(lists, k1, j1) && valid_block(lists, k2, j2) && (k1 != k2 || j1 != j2)
            ==> apart(
            #[trigger] lists[k1][j1] as int,
            block_size_spec(k1),
            #[trigger] lists[k2][j2] as int,
            block_size_spec(k2),
        )
    &&& forall|k: int, j: int, i: int|
        valid_block(lists, k, j) && 0 <= i < pool.len() ==> apart(
            #[trigger] lists[k][j] as int,
            block_size_spec(k),
            #[trigger] pool[i].start as int,
            pool[i].size as int,
        )
}

/// A live allocation `(addr, size, align)` that may be given back.
pub open spec fn live_wf(l: (usize, usize, usize)) -> bool {
    &&& layout_ok(l.1, l.2)
    &&& l.0 + footprint(l.1, l.2) <= usize::MAX
    &&& class_of(l.1, l.2) is None ==> l.0 as int % 8 == 0 && l.0 as int % eff_align(l.2) == 0
    &&& class_of(l.1, l.2) is Some ==> l.0 as int % block_size_spec(class_of(l.1, l.2)->0) == 0
}

/// The live allocations share no byte with a free piece nor with each other.
pub open spec fn live_ok(
    lists: Seq<Seq<usize>>,
    pool: Seq<ListNode>,
    live: Seq<(usize, usize, usize)>,
) -> bool {
    &&& forall|i: int| 0 <= i < live.len() ==> live_wf(#[trigger] live[i])
    &&& forall|i: int, k: int, j: int|
        0 <= i < live.len() && valid_block(lists, k, j) ==> apart(
            (#[trigger] live[i]).0 as int,
            footprint(live[i].1, live[i].2),
            #[trigger] lists[k][j] as int,
            block_size_spec(k),
        )
    &&& forall|i: int, r: int|
        0 <= i < live.len() && 0 <= r < pool.len() ==> apart(
            (#[trigger] live[i]).0 as int,
            footprint(live[i].1, live[i].2),
            #[trigger] pool[r].start as int,
            pool[r].size as int,
        )
    &&& forall|i: int, j: int|
        0 <= i < live.len() && 0 <= j < live.len() && i != j ==> apart(
            (#[trigger] live[i]).0 as int,
            footprint(live[i].1, live[i].2),
            (#[trigger] live[j]).0 as int,
            footprint(live[j].1, live[j].2),
        )
}

/// What a pool allocation does to the free list: the block comes out of one old region, every
/// region afterwards lies inside an old one and keeps clear of the block.
pub proof fn lemma_pool_outcome(pool: Seq<ListNode>, size: usize, align: usize)
    requires
        regions_wf(pool),
        layout_ok(size, align),
    ensures
        ({
            let (r, pool2) = alloc_outcome(pool, size, align);
            let s = eff_size(size, align);
            &&& regions_wf(pool2)
            &&& r is Err ==> pool2 == pool
            &&& r is Ok ==> {
                &&& r->Ok_0 as int % 8 == 0
                &&& r->Ok_0 as int % eff_align(align) == 0
                &&& exists|u: int|
                    0 <= u < pool.len() && #[trigger] pool[u].start <= r->Ok_0 && r->Ok_0 + s
                        <= pool[u].end()
                &&& forall|t: int|
                    0 <= t < pool2.len() ==> apart(
                        r->Ok_0 as int,
                        s,
                        #[trigger] pool2[t].start as int,
                        pool2[t].size as int,
                    )
                &&& forall|t: int|
                    0 <= t < pool2.len() ==> exists|u: int|
                        0 <= u < pool.len() && #[trigger] pool[u].start <= (#[trigger] pool2[t]).start
                            && pool2[t].end() <= pool[u].end()
            }
        }),
{
    let s = eff_size(size, align);
    let a = eff_align(align);
    lemma_eff_layout(size, align);
    lemma_first_fit(pool, s, a);
    let i = first_fit(pool, s, a);
    if i < pool.len() {
        let (start, pool2) = carve(pool, i, s, a);
        lemma_align_up(pool[i].start as int, a);
        let r = start as usize;
        assert(fits(pool[i], s, a));
        assert(r as int % 8 == 0) by {
            let q = start / a;
            vstd::arithmetic::div_mod::lemma_fundamental_div_mod(start, a);
            vstd::arithmetic::div_mod::lemma_fundamental_div_mod(a, 8);
            assert(start == 8 * ((a / 8) * q)) by (nonlinear_arith)
                requires
                    start == a * q + start % a,
                    start % a == 0,
                    a == 8 * (a / 8) + a % 8,
                    a % 8 == 0,
            ;
            vstd::arithmetic::div_mod::lemma_mod_multiples_basic((a / 8) * q, 8);
        }
        let rest = pool.remove(i);
        let end = start + s;
        let has_tail = end < pool[i].end();
        let tail = ListNode { start: end as usize, size: (pool[i].end() - end) as usize };
        assert forall|t: int| 0 <= t < rest.len() implies {
            &&& apart(start, s, #[trigger] rest[t].start as int, rest[t].size as int)
            &&& exists|u: int|
                0 <= u < pool.len() && #[trigger] pool[u].start <= rest[t].start && rest[t].end()
                    <= pool[u].end()
            &&& rest[t].wf()
            &&& disjoint(rest[t], pool[i])
        } by {
            let u = if t < i {
                t
            } else {
                t + 1
            };
            assert(rest[t] == pool[u]);
            assert(disjoint(pool[u], pool[i]));
        }
        assert forall|t1: int, t2: int|
            0 <= t1 < rest.len() && 0 <= t2 < rest.len() && t1 != t2 implies disjoint(
            #[trigger] rest[t1],
            #[trigger] rest[t2],
        ) by {
            let u1 = if t1 < i {
                t1
            } else {
                t1 + 1
            };
            let u2 = if t2 < i {
                t2
            } else {
                t2 + 1
            };
            assert(rest[t1] == pool[u1]);
            assert(rest[t2] == pool[u2]);
        }
        if has_tail {
            assert(pool2 == seq![tail] + rest);
            assert(end % 8 == 0) by {
                vstd::arithmetic::div_mod::lemma_add_mod_noop(start, s, 8);
            }
            assert forall|t: int| 0 <= t < pool2.len() implies {
                &&& apart(start, s, #[trigger] pool2[t].start as int, pool2[t].size as int)
                &&& exists|u: int|
                    0 <= u < pool.len() && #[trigger] pool[u].start <= (#[trigger] pool2[t]).start
                        && pool2[t].end() <= pool[u].end()
            } by {
                if t == 0 {
                    assert(pool2[0] == tail);
                    assert(pool[i].start <= tail.start);
                } else {
                    assert(pool2[t] == rest[t - 1]);
                }
            }
            assert forall|t: int| 0 <= t < pool2.len() implies (#[trigger] pool2[t]).wf() by {
                if t > 0 {
                    assert(pool2[t] == rest[t - 1]);
                }
            }
            assert forall|t1: int, t2: int|
                0 <= t1 < pool2.len() && 0 <= t2 < pool2.len() && t1 != t2 implies disjoint(
                #[trigger] pool2[t1],
                #[trigger] pool2[t2],
            ) by {
                if t1 > 0 {
                    assert(pool2[t1] == rest[t1 - 1]);
                }
                if t2 > 0 {
                    assert(pool2[t2] == rest[t2 - 1]);
                }
            }
        } else {
            assert(pool2 == rest);
        }
        assert(pool[i].start <= r && r + s <= pool[i].end());
    }
}

/// Allocation keeps every live allocation apart: a block handed out comes from free bytes, and
/// afterwards no free piece and no other live allocation shares a byte with it.
pub proof fn lemma_allocate_keeps_live_apart(
    lists: Seq<Seq<usize>>,
    pool: Seq<ListNode>,
    live: Seq<(usize, usize, usize)>,
    size: usize,
    align: usize,
)
    requires
        free_ok(lists, pool),
        live_ok(lists, pool, live),
        layout_ok(size, align),
    ensures
        ({
            let (r, lists2, pool2) = block_alloc_outcome(lists, pool, size, align);
            &&& free_ok(lists2, pool2)
            &&& r is Some ==> live_ok(lists2, pool2, live.push((r->0, size, align)))
            &&& r is None ==> live_ok(lists2, pool2, live)
        }),
{
    lemma_class_of(size, align);
    let (r, lists2, pool2) = block_alloc_outcome(lists, pool, size, align);
    let fp = footprint(size, align);
    match class_of(size, align) {
        Some(k) => {
            if lists[k].len() > 0 {
                let last = lists[k].len() - 1;
                let b = lists[k][last];
                assert(lists2 == lists.update(k, lists[k].drop_last()));
                assert(pool2 == pool);
                assert forall|k2: int, j: int| valid_block(lists2, k2, j) implies #[trigger] lists2[k2][j]
                    == lists[k2][j] && valid_block(lists, k2, j) && (k2 != k || j != last) by {
                    if k2 == k {
                        assert(lists2[k2] == lists[k].drop_last());
                    }
                }
                let live2 = live.push((b, size, align));
                assert(live2[live.len() as int] == (b, size, align));
                assert forall|i: int| 0 <= i < live.len() implies #[trigger] live2[i] == live[i] by {}
                assert(live_ok(lists2, pool2, live2)) by {
                    assert forall|i: int, k2: int, j: int|
                        0 <= i < live2.len() && valid_block(lists2, k2, j) implies apart(
                        (#[trigger] live2[i]).0 as int,
                        footprint(live2[i].1, live2[i].2),
                        #[trigger] lists2[k2][j] as int,
                        block_size_spec(k2),
                    ) by {
                        assert(lists2[k2][j] == lists[k2][j]);
                        if i == live.len() {
                            assert(valid_block(lists, k, last));
                        }
                    }
                    assert forall|i: int, j: int|
                        0 <= i < live2.len() && 0 <= j < live2.len() && i != j implies apart(
                        (#[trigger] live2[i]).0 as int,
                        footprint(live2[i].1, live2[i].2),
                        (#[trigger] live2[j]).0 as int,
                        footprint(live2[j].1, live2[j].2),
                    ) by {
                        assert(valid_block(lists, k, last));
                    }
                    assert forall|i: int, q: int|
                        0 <= i < live2.len() && 0 <= q < pool2.len() implies apart(
                        (#[trigger] live2[i]).0 as int,
                        footprint(live2[i].1, live2[i].2),
                        #[trigger] pool2[q].start as int,
                        pool2[q].size as int,
                    ) by {
                        assert(valid_block(lists, k, last));
                    }
                    assert(valid_block(lists, k, last));
                    assert(lists[k][last] + block_size_spec(k) <= usize::MAX);
                }
            } else {
                let bs = block_size_spec(k) as usize;
                lemma_class_layout(k);
                lemma_pool_outcome(pool, bs, bs);
                lemma_eff_layout(bs, bs);
                lemma_align_up(bs as int, eff_align(bs));
                assert(eff_size(bs, bs) >= fp);
                assert(eff_align(bs) == bs);
                lemma_carved(lists, pool, live, pool2, r, eff_size(bs, bs), size, align);
            }
        },
        None => {
            lemma_pool_outcome(pool, size, align);
            lemma_carved(lists, pool, live, pool2, r, eff_size(size, align), size, align);
        },
    }
}

/// The invariant survives a block of `s` bytes carved from the pool, of which the caller's
/// allocation takes the first `footprint(size, align)`.
proof fn lemma_carved(
    lists: Seq<Seq<usize>>,
    pool: Seq<ListNode>,
    live: Seq<(usize, usize, usize)>,
    pool2: Seq<ListNode>,
    r: Option<usize>,
    s: int,
    size: usize,
    align: usize,
)
    requires
        free_ok(lists, pool),
        live_ok(lists, pool, live),
        layout_ok(size, align),
        footprint(size, align) <= s,
        regions_wf(pool2),
        r is None ==> pool2 == pool,
        r is Some ==> {
            &&& (class_of(size, align) is None ==> r->0 as int % 8 == 0 && r->0 as int % eff_align(
                align,
            ) == 0)
            &&& (class_of(size, align) is Some ==> r->0 as int % block_size_spec(
                class_of(size, align)->0,
            ) == 0)
            &&& exists|u: int|
                0 <= u < pool.len() && #[trigger] pool[u].start <= r->0 && r->0 + s <= pool[u].end()
            &&& forall|t: int|
                0 <= t < pool2.len() ==> apart(
                    r->0 as int,
                    s,
                    #[trigger] pool2[t].start as int,
                    pool2[t].size as int,
                )
        },
        forall|t: int|
            0 <= t < pool2.len() ==> exists|u: int|
                0 <= u < pool.len() && #[trigger] pool[u].start <= (#[trigger] pool2[t]).start
                    && pool2[t].end() <= pool[u].end(),
    ensures
        free_ok(lists, pool2),
        r is Some ==> live_ok(lists, pool2, live.push((r->0, size, align))),
        r is None ==> live_ok(lists, pool2, live),
{
    assert forall|k: int, j: int, t: int| valid_block(lists, k, j) && 0 <= t < pool2.len() implies apart(
        #[trigger] lists[k][j] as int,
        block_size_spec(k),
        #[trigger] pool2[t].start as int,
        pool2[t].size as int,
    ) by {
        let u = choose|u: int|
            0 <= u < pool.len() && #[trigger] pool[u].start <= pool2[t].start && pool2[t].end()
                <= pool[u].end();
        assert(apart(lists[k][j] as int, block_size_spec(k), pool[u].start as int, pool[u].size as int));
    }
    assert forall|i: int, t: int| 0 <= i < live.len() && 0 <= t < pool2.len() implies apart(
        (#[trigger] live[i]).0 as int,
        footprint(live[i].1, live[i].2),
        #[trigger] pool2[t].start as int,
        pool2[t].size as int,
    ) by {
        let u = choose|u: int|
            0 <= u < pool.len() && #[trigger] pool[u].start <= pool2[t].start && pool2[t].end()
                <= pool[u].end();
        assert(apart(
            live[i].0 as int,
            footprint(live[i].1, live[i].2),
            pool[u].start as int,
            pool[u].size as int,
        ));
    }
    if r is Some {
        let a = r->0;
        let u = choose|u: int|
            0 <= u < pool.len() && #[trigger] pool[u].start <= a && a + s <= pool[u].end();
        let live2 = live.push((a, size, align));
        assert(live2[live.len() as int] == (a, size, align));
        assert forall|i: int| 0 <= i < live.len() implies #[trigger] live2[i] == live[i] by {}
        assert forall|i: int, k: int, j: int|
            0 <= i < live2.len() && valid_block(lists, k, j) implies apart(
            (#[trigger] live2[i]).0 as int,
            footprint(live2[i].1, live2[i].2),
            #[trigger] lists[k][j] as int,
            block_size_spec(k),
        ) by {
            if i == live.len() {
                assert(apart(
                    lists[k][j] as int,
                    block_size_spec(k),
                    pool[u].start as int,
                    pool[u].size as int,
                ));
            }
        }
        assert forall|i: int, t: int| 0 <= i < live2.len() && 0 <= t < pool2.len() implies apart(
            (#[trigger] live2[i]).0 as int,
            footprint(live2[i].1, live2[i].2),
            #[trigger] pool2[t].start as int,
            pool2[t].size as int,
        ) by {
            if i < live.len() {
                assert(live2[i] == live[i]);
            }
        }
        assert forall|i: int, j: int|
            0 <= i < live2.len() && 0 <= j < live2.len() && i != j implies apart(
            (#[trigger] live2[i]).0 as int,
            footprint(live2[i].1, live2[i].2),
            (#[trigger] live2[j]).0 as int,
            footprint(live2[j].1, live2[j].2),
        ) by {
            if i == live.len() {
                assert(apart(
                    live[j].0 as int,
                    footprint(live[j].1, live[j].2),
                    pool[u].start as int,
                    pool[u].size as int,
                ));
            } else if j == live.len() {
                assert(apart(
                    live[i].0 as int,
                    footprint(live[i].1, live[i].2),
                    pool[u].start as int,
                    pool[u].size as int,
                ));
            }
        }
        assert forall|i: int| 0 <= i < live2.len() implies live_wf(#[trigger] live2[i]) by {}
    }
}

/// Giving an allocation back keeps the rest apart: its bytes become one free piece, which shares
/// no byte with any other free piece or live allocation; and the pool's conditions for taking a
/// region back hold.
pub proof fn lemma_deallocate_keeps_live_apart(
    lists: Seq<Seq<usize>>,
    pool: Seq<ListNode>,
    live: Seq<(usize, usize, usize)>,
    i: int,
)
    requires
        free_ok(lists, pool),
        live_ok(lists, pool, live),
        0 <= i < live.len(),
    ensures
        ({
            let (addr, size, align) = live[i];
            let (lists2, pool2) = block_dealloc_outcome(lists, pool, addr, size, align);
            &&& free_ok(lists2, pool2)
            &&& live_ok(lists2, pool2, live.remove(i))
            &&& class_of(size, align) is None ==> forall|q: int|
                0 <= q < pool.len() ==> disjoint(
                    #[trigger] pool[q],
                    ListNode { start: addr, size: eff_size(size, align) as usize },
                )
        }),
{
    let (addr, size, align) = live[i];
    assert(live_wf(live[i]));
    lemma_class_of(size, align);
    lemma_eff_layout(size, align);
    let (lists2, pool2) = block_dealloc_outcome(lists, pool, addr, size, align);
    let live2 = live.remove(i);
    assert forall|t: int| 0 <= t < live2.len() implies #[trigger] live2[t] == live[if t < i {
        t
    } else {
        t + 1
    }] by {}
    match class_of(size, align) {
        Some(k) => {
            let n = lists[k].len() as int;
            assert(lists2 == lists.update(k, lists[k].push(addr)));
            assert(pool2 == pool);
            assert forall|k2: int, j: int| valid_block(lists2, k2, j) implies (#[trigger] lists2[k2][j]
                == lists[k2][j] && valid_block(lists, k2, j)) || (k2 == k && j == n && lists2[k2][j]
                == addr) by {
                if k2 == k {
                    assert(lists2[k2] == lists[k].push(addr));
                }
            }
            assert forall|t: int, k2: int, j: int|
                0 <= t < live2.len() && valid_block(lists2, k2, j) implies apart(
                (#[trigger] live2[t]).0 as int,
                footprint(live2[t].1, live2[t].2),
                #[trigger] lists2[k2][j] as int,
                block_size_spec(k2),
            ) by {
                let tt = if t < i {
                    t
                } else {
                    t + 1
                };
                assert(live2[t] == live[tt]);
                if k2 == k && j == n {
                } else {
                    assert(lists2[k2][j] == lists[k2][j]);
                }
            }
            assert forall|t: int, q: int| 0 <= t < live2.len() && 0 <= q < pool2.len() implies apart(
                (#[trigger] live2[t]).0 as int,
                footprint(live2[t].1, live2[t].2),
                #[trigger] pool2[q].start as int,
                pool2[q].size as int,
            ) by {
                let tt = if t < i {
                    t
                } else {
                    t + 1
                };
                assert(live2[t] == live[tt]);
            }
            assert forall|t1: int, t2: int|
                0 <= t1 < live2.len() && 0 <= t2 < live2.len() && t1 != t2 implies apart(
                (#[trigger] live2[t1]).0 as int,
                footprint(live2[t1].1, live2[t1].2),
                (#[trigger] live2[t2]).0 as int,
                footprint(live2[t2].1, live2[t2].2),
            ) by {
                let u1 = if t1 < i {
                    t1
                } else {
                    t1 + 1
                };
                let u2 = if t2 < i {
                    t2
                } else {
                    t2 + 1
                };
                assert(live2[t1] == live[u1]);
                assert(live2[t2] == live[u2]);
            }
            assert forall|t: int| 0 <= t < live2.len() implies live_wf(#[trigger] live2[t]) by {
                let tt = if t < i {
                    t
                } else {
                    t + 1
                };
                assert(live2[t] == live[tt]);
            }
            assert forall|k1: int, j1: int, k2: int, j2: int|
                valid_block(lists2, k1, j1) && valid_block(lists2, k2, j2) && (k1 != k2 || j1 != j2)
                    implies apart(
                #[trigger] lists2[k1][j1] as int,
                block_size_spec(k1),
                #[trigger] lists2[k2][j2] as int,
                block_size_spec(k2),
            ) by {
                if k1 == k && j1 == n {
                    assert(lists2[k2][j2] == lists[k2][j2]);
                } else if k2 == k && j2 == n {
                    assert(lists2[k1][j1] == lists[k1][j1]);
                } else {
                    assert(lists2[k1][j1] == lists[k1][j1]);
                    assert(lists2[k2][j2] == lists[k2][j2]);
                }
            }
            assert forall|k2: int, j: int, q: int| valid_block(lists2, k2, j) && 0 <= q < pool2.len() implies apart(
                #[trigger] lists2[k2][j] as int,
                block_size_spec(k2),
                #[trigger] pool2[q].start as int,
                pool2[q].size as int,
            ) by {
                if !(k2 == k && j == n) {
                    assert(lists2[k2][j] == lists[k2][j]);
                }
            }
            assert forall|k2: int, j: int| valid_block(lists2, k2, j) implies #[trigger] lists2[k2][j]
                + block_size_spec(k2) <= usize::MAX by {
                if !(k2 == k && j == n) {
                    assert(lists2[k2][j] == lists[k2][j]);
                }
            }
        },
        None => {
            let node = ListNode { start: addr, size: eff_size(size, align) as usize };
            assert(lists2 == lists);
            assert(pool2 == seq![node] + pool);
            assert forall|q: int| 0 <= q < pool.len() implies disjoint(#[trigger] pool[q], node) by {
                assert(apart(
                    live[i].0 as int,
                    footprint(live[i].1, live[i].2),
                    pool[q].start as int,
                    pool[q].size as int,
                ));
            }
            assert forall|q: int| 0 <= q < pool2.len() implies (#[trigger] pool2[q]).wf() by {
                if q > 0 {
                    assert(pool2[q] == pool[q - 1]);
                }
            }
            assert forall|q1: int, q2: int|
                0 <= q1 < pool2.len() && 0 <= q2 < pool2.len() && q1 != q2 implies disjoint(
                #[trigger] pool2[q1],
                #[trigger] pool2[q2],
            ) by {
                if q1 > 0 {
                    assert(pool2[q1] == pool[q1 - 1]);
                }
                if q2 > 0 {
                    assert(pool2[q2] == pool[q2 - 1]);
                }
            }
            assert forall|k: int, j: int, q: int| valid_block(lists2, k, j) && 0 <= q < pool2.len() implies apart(
                #[trigger] lists2[k][j] as int,
                block_size_spec(k),
                #[trigger] pool2[q].start as int,
                pool2[q].size as int,
            ) by {
                if q > 0 {
                    assert(pool2[q] == pool[q - 1]);
                } else {
                    assert(apart(
                        live[i].0 as int,
                        footprint(live[i].1, live[i].2),
                        lists[k][j] as int,
                        block_size_spec(k),
                    ));
                }
            }
            assert forall|t: int, q: int| 0 <= t < live2.len() && 0 <= q < pool2.len() implies apart(
                (#[trigger] live2[t]).0 as int,
                footprint(live2[t].1, live2[t].2),
                #[trigger] pool2[q].start as int,
                pool2[q].size as int,
            ) by {
                let tt = if t < i {
                    t
                } else {
                    t + 1
                };
                assert(live2[t] == live[tt]);
                if q > 0 {
                    assert(pool2[q] == pool[q - 1]);
                }
            }
            assert forall|t: int, k: int, j: int|
                0 <= t < live2.len() && valid_block(lists2, k, j) implies apart(
                (#[trigger] live2[t]).0 as int,
                footprint(live2[t].1, live2[t].2),
                #[trigger] lists2[k][j] as int,
                block_size_spec(k),
            ) by {
                let tt = if t < i {
                    t
                } else {
                    t + 1
                };
                assert(live2[t] == live[tt]);
            }
            assert forall|t1: int, t2: int|
                0 <= t1 < live2.len() && 0 <= t2 < live2.len() && t1 != t2 implies apart(
                (#[trigger] live2[t1]).0 as int,
                footprint(live2[t1].1, live2[t1].2),
                (#[trigger] live2[t2]).0 as int,
                footprint(live2[t2].1, live2[t2].2),
            ) by {
                let u1 = if t1 < i {
                    t1
                } else {
                    t1 + 1
                };
                let u2 = if t2 < i {
                    t2
                } else {
                    t2 + 1
                };
                assert(live2[t1] == live[u1]);
                assert(live2[t2] == live[u2]);
            }
            assert forall|t: int| 0 <= t < live2.len() implies live_wf(#[trigger] live2[t]) by {
                let tt = if t < i {
                    t
                } else {
                    t + 1
                };
                assert(live2[t] == live[tt]);
            }
        },
    }
}

/// A smaller power of two divides a larger one.
proof fn lemma_pow2_divides(a: int, b: int)
    requires
        is_pow2(a),
        is_pow2(b),
        a <= b,
    ensures
        b % a == 0,
    decreases a,
{
    reveal(is_pow2);
    if a > 1 {
        lemma_pow2_divides(a / 2, b / 2);
        let q = (b / 2) / (a / 2);
        vstd::arithmetic::div_mod::lemma_fundamental_div_mod(b / 2, a / 2);
        assert(b == a * q) by (nonlinear_arith)
            requires
                b == 2 * (b / 2),
                a == 2 * (a / 2),
                b / 2 == (a / 2) * q + (b / 2) % (a / 2),
                (b / 2) % (a / 2) == 0,
        ;
        vstd::arithmetic::div_mod::lemma_mod_multiples_basic(q, a);
        assert((q * a) % a == 0);
        assert(q * a == a * q) by (nonlinear_arith);
    }
}

/// A multiple of `m` is a multiple of every divisor of `m`.
proof fn lemma_mod_trans(x: int, m: int, d: int)
    requires
        x >= 0,
        m > 0,
        d > 0,
        x % m == 0,
        m % d == 0,
    ensures
        x % d == 0,
{
    vstd::arithmetic::div_mod::lemma_fundamental_div_mod(x, m);
    vstd::arithmetic::div_mod::lemma_fundamental_div_mod(m, d);
    let k = (m / d) * (x / m);
    assert(x == k * d) by (nonlinear_arith)
        requires
            x == m * (x / m),
            m == d * (m / d),
            k == (m / d) * (x / m),
    ;
    vstd::arithmetic::div_mod::lemma_mod_multiples_basic(k, d);
}

/// Every address that allocation hands out is aligned as requested: a class block to its class
/// size, which is a multiple of the requested alignment, and a pool block to the effective
/// alignment.
pub proof fn lemma_allocation_aligned(
    lists: Seq<Seq<usize>>,
    pool: Seq<ListNode>,
    size: usize,
    align: usize,
)
    requires
        free_ok(lists, pool),
        layout_ok(size, align),
    ensures
        ({
            let (r, lists2, pool2) = block_alloc_outcome(lists, pool, size, align);
            r is Some ==> r->0 as int % align as int == 0
        }),
{
    lemma_class_of(size, align);
    reveal(is_pow2);
    let (r, lists2, pool2) = block_alloc_outcome(lists, pool, size, align);
    if r is Some {
        let x = r->0 as int;
        match class_of(size, align) {
            Some(k) => {
                let bs = block_size_spec(k);
                lemma_class_layout(k);
                if lists[k].len() > 0 {
                    assert(valid_block(lists, k, lists[k].len() - 1));
                    assert(x % bs == 0);
                } else {
                    lemma_pool_outcome(pool, bs as usize, bs as usize);
                    assert(eff_align(bs as usize) == bs);
                }
                lemma_pow2_divides(align as int, bs);
                lemma_mod_trans(x, bs, align as int);
            },
            None => {
                lemma_pool_outcome(pool, size, align);
                if align < 8 {
                    assert(is_pow2(8)) by {
                        reveal_with_fuel(is_pow2, 4);
                    }
                    lemma_pow2_divides(align as int, 8);
                    lemma_mod_trans(x, 8, align as int);
                }
            },
        }
    }
}

/// A fresh block allocator over one heap region starts with the invariant and no live
/// allocation.
pub proof fn lemma_fresh_heap(heap_start: usize, heap_size: usize)
    requires
        (ListNode { start: heap_start, size: heap_size }).wf(),
    ensures
        free_ok(
            Seq::new(BLOCK_CLASSES as nat, |k: int| Seq::<usize>::empty()),
            seq![ListNode { start: heap_start, size: heap_size }],
        ),
        live_ok(
            Seq::new(BLOCK_CLASSES as nat, |k: int| Seq::<usize>::empty()),
            seq![ListNode { start: heap_start, size: heap_size }],
            Seq::empty(),
        ),
{
    let p = seq![ListNode { start: heap_start, size: heap_size }];
    assert forall|i: int| 0 <= i < p.len() implies (#[trigger] p[i]).wf() by {}
}

} // verus!
