use sos::utils::QemuExitCode;
use sos::{test_runner, Testable};
use std::cell::Cell;

struct Counted<'a>(&'a Cell<u32>);

impl Testable for Counted<'_> {
    fn run(&self) {
        self.0.set(self.0.get() + 1);
    }
}

#[test]
fn exit_codes() {
    assert_eq!(QemuExitCode::Success.code(), 0x10);
    assert_eq!(QemuExitCode::Failed.code(), 0x11);
}

#[test]
fn test_runner_runs_every_test() {
    let n = Cell::new(0);
    let tests = [Counted(&n), Counted(&n), Counted(&n)];
    assert_eq!(test_runner(&tests), QemuExitCode::Success);
    assert_eq!(n.get(), 3);
}
