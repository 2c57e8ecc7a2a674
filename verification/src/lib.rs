//! Verified core of a small x86_64 teaching kernel: heap allocators, the
//! physical frame bitmap, the keyboard ring buffer, the process table and its
//! round-robin scheduler, the ramdisk, the syscall layer and the shell's line
//! handling.
pub mod allocator;
pub mod frame_allocator;
pub mod fs;
pub mod heap;
pub mod keyboard;
pub mod process;
pub mod shell;
pub mod syscall;

use vstd::prelude::*;

verus! {

/// Exit status reported to QEMU through its debug exit device; QEMU exits with
/// `(code << 1) | 1`.
#[derive(Clone, Copy, Debug, PartialEq, Eq, Structural)]
pub enum QemuExitCode {
    Success,
    Failed,
}

impl QemuExitCode {
    /// The value written to the exit device.
    pub fn code(self) -> (r: u32)
        ensures
            self == QemuExitCode::Success ==> r == 0x10,
            self == QemuExitCode::Failed ==> r == 0x11,
    {
        match self {
            QemuExitCode::Success => 0x10,
            QemuExitCode::Failed => 0x11,
        }
    }
}

} // verus!
