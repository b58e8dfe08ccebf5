//! Exit codes understood by QEMU's `isa-debug-exit` device.
use vstd::prelude::*;

verus! {

/// Exit status the kernel reports to QEMU.
#[derive(Clone, Copy, Debug, PartialEq, Eq, Structural)]
pub enum ExitCode {
    Success,
    Failure,
}

impl ExitCode {
    /// The value written to the exit port: QEMU exits with status
    /// `value * 2 + 1`.
    pub fn code(self) -> (r: u32)
        ensures
            self == ExitCode::Success ==> r == 0x10,
            self == ExitCode::Failure ==> r == 0x11,
    {
        match self {
            ExitCode::Success => 0x10,
            ExitCode::Failure => 0x11,
        }
    }
}

} // verus!
