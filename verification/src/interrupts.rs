//! Hardware interrupts: where the interrupt controllers place them, and
//! what the handlers decide.

use vstd::prelude::*;
use crate::task::keyboard::add_scancode;
use crate::task::keyboard::AddScancode;
use crate::task::keyboard::ScancodeBridge;

verus! {

/// First interrupt vector of the primary interrupt controller.
pub const PIC_1_OFFSET: u8 = 32;

/// First interrupt vector of the secondary interrupt controller.
pub const PIC_2_OFFSET: u8 = 40;

/// The lines of the interrupt controllers that the kernel handles.
#[derive(Clone, Copy, Debug, PartialEq, Eq, Structural)]
pub enum InterruptIndex {
    /// The timer, on line 0 of the primary controller.
    Timer,
    /// The keyboard, on line 1 of the primary controller.
    KeyBoard,
}

impl InterruptIndex {
    /// The interrupt vector of the line.
    pub open spec fn vector(self) -> u8 {
        match self {
            InterruptIndex::Timer => PIC_1_OFFSET,
            InterruptIndex::KeyBoard => (PIC_1_OFFSET + 1) as u8,
        }
    }

    /// The interrupt vector of the line.
    pub fn as_u8(self) -> (r: u8)
        ensures
            r == self.vector(),
            PIC_1_OFFSET <= r < PIC_2_OFFSET,
    {
        match self {
            InterruptIndex::Timer => PIC_1_OFFSET,
            InterruptIndex::KeyBoard => PIC_1_OFFSET + 1,
        }
    }

    /// The interrupt vector of the line, as an index into the table of
    /// handlers.
    pub fn as_usize(self) -> (r: usize)
        ensures
            r == self.vector(),
    {
        self.as_u8() as usize
    }
}

/// What the keyboard interrupt handler does with the scancode that it has
/// read from the keyboard: it hands the scancode to `bridge`, and then
/// signals the end of the interrupt for the vector returned, so that the
/// next keyboard interrupt can come.
pub fn keyboard_interrupt(bridge: &mut ScancodeBridge, scancode: u8) -> (r: (AddScancode, u8))
    requires
        old(bridge).wf(),
    ensures
        final(bridge).wf(),
        final(bridge).initialized() == old(bridge).initialized(),
        r.1 == InterruptIndex::KeyBoard.vector(),
        !old(bridge).initialized() ==> r.0 == AddScancode::QueueUninitialized && final(bridge).state() == old(
            bridge,
        ).state(),
        old(bridge).initialized() ==> (final(bridge).state(), r.0) == old(bridge).state().add(scancode),
{
    let added: AddScancode = add_scancode(bridge, scancode);
    (added, InterruptIndex::KeyBoard.as_u8())
}

} // verus!
