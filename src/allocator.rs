use vstd::prelude::*;

pub mod block;
pub mod live;
pub mod pool;

verus! {

/// The smallest multiple of `align` that is at least `addr`.
pub open spec fn align_up_spec(addr: int, align: int) -> int {
    if addr % align == 0 {
        addr
    } else {
        addr + (align - addr % align)
    }
}

/// Rounds `addr` up to a multiple of `align`, or `None` where that does not fit in a `usize`.
pub fn align_up(addr: usize, align: usize) -> (r: Option<usize>)
    requires
        align > 0,
    ensures
        align_up_spec(addr as int, align as int) <= usize::MAX ==> r == Some(
            align_up_spec(addr as int, align as int) as usize,
        ),
        align_up_spec(addr as int, align as int) > usize::MAX ==> r is None,
{
    let rem = addr % align;
    if rem == 0 {
        Some(addr)
    } else {
        addr.checked_add(align - rem)
    }
}

/// Rounding up gives a multiple of `align` no smaller than `addr` and less than `addr + align`.
pub proof fn lemma_align_up(addr: int, align: int)
    requires
        addr >= 0,
        align > 0,
    ensures
        addr <= align_up_spec(addr, align) < addr + align,
        align_up_spec(addr, align) % align == 0,
{
    if addr % align != 0 {
        vstd::arithmetic::div_mod::lemma_fundamental_div_mod(addr, align);
        vstd::arithmetic::div_mod::lemma_mod_multiples_basic(addr / align + 1, align);
        assert(addr + (align - addr % align) == align * (addr / align + 1)) by (nonlinear_arith)
            requires
                addr == align * (addr / align) + addr % align,
        ;
    }
}

} // verus!
