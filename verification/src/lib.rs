//! Memory management and cooperative scheduling core of a small x86_64 kernel.
//!
//! The crate holds the parts of the kernel that decide something: how a
//! firmware memory map becomes a sequence of free frames, how a four-level
//! page table is grown and walked, how the heap region is mapped and handed
//! to the allocator, how tasks are queued and woken, and how scancodes travel
//! from the keyboard interrupt to the task that reads them. Hardware access
//! is left to the caller, which passes plain values in and out.

pub mod addr;
pub mod allocator;
pub mod interrupts;
pub mod memory;
pub mod paging;
pub mod task;
pub mod vga_buffer;

use vstd::prelude::*;

verus! {

/// How a test run ended, as told to the emulator through its exit device.
#[derive(Clone, Copy, Debug, PartialEq, Eq, Structural)]
pub enum QemuExitCode {
    /// Every test passed.
    Success,
    /// A test failed.
    Failed,
}

impl QemuExitCode {
    /// The value that is written to the exit device.
    pub open spec fn spec_code(self) -> u32 {
        match self {
            QemuExitCode::Success => 0x10,
            QemuExitCode::Failed => 0x11,
        }
    }

    /// The value that is written to the exit device.
    #[verifier::when_used_as_spec(spec_code)]
    pub fn code(self) -> (r: u32)
        ensures
            r == self.spec_code(),
    {
        match self {
            QemuExitCode::Success => 0x10,
            QemuExitCode::Failed => 0x11,
        }
    }

    /// The status with which the emulator exits: twice the value written,
    /// plus one.
    pub fn exit_status(self) -> (r: u32)
        ensures
            r == 2 * self.code() + 1,
    {
        let code: u32 = self.code();
        assert((code << 1) | 1 == 2 * code + 1) by (bit_vector)
            requires
                code < 0x100,
        ;
        (code << 1) | 1
    }
}

} // verus!
