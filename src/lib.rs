use vstd::prelude::*;
use crate::utils::QemuExitCode;

pub mod allocator;
pub mod interrupts;
pub mod memory;
pub mod paging;
pub mod utils;

verus! {

/// A test the kernel's test harness can run.
pub trait Testable {
    fn run(&self);
}

/// Runs every test in order and gives the exit status to report: a failing test panics before
/// this returns, so reaching the end means success.
pub fn test_runner<T: Testable>(tests: &[T]) -> (r: QemuExitCode)
    ensures
        r == QemuExitCode::Success,
{
    let mut i: usize = 0;
    while i < tests.len()
        invariant
            i <= tests@.len(),
        decreases tests@.len() - i,
    {
        tests[i].run();
        i += 1;
    }
    QemuExitCode::Success
}

} // verus!
