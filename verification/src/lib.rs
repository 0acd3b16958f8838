use vstd::prelude::*;

pub mod allocator;
pub mod interrupts;
pub mod memory;
pub mod vga_buffer;

verus! {

/// Status code reported to the external test supervisor through the dedicated
/// exit port; the supervisor interprets the 4-byte value as the run's result.
#[derive(Debug, Clone, Copy, PartialEq, Eq, Structural)]
pub enum QemuExitCode {
    Success,
    Failed,
}

pub open spec fn exit_code_value(c: QemuExitCode) -> u32 {
    match c {
        QemuExitCode::Success => 0x10,
        QemuExitCode::Failed => 0x11,
    }
}

impl QemuExitCode {
    /// The 4-byte status value that the exit port expects for this code.
    pub fn as_u32(self) -> (v: u32)
        ensures
            v == exit_code_value(self),
    {
        match self {
            QemuExitCode::Success => 0x10,
            QemuExitCode::Failed => 0x11,
        }
    }
}

} // verus!
