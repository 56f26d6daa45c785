//! The fatal conditions the bootloader can report before it halts.

use vstd::prelude::*;

verus! {

#[derive(Clone, Copy, Debug, PartialEq, Eq, Structural)]
pub enum BootError {
    /// The stack region rounds up to a single page: only the guard, no
    /// usable frame.
    StackTooSmall,
    /// The free-frame pool is exhausted.
    OutOfFrames,
    /// A page was already mapped to a different frame; remapping is not
    /// supported.
    AlreadyMapped,
    /// The boot-information layout does not fit the address space.
    LayoutOverflow,
    /// A module's file name exceeds the fixed name capacity.
    NameTooLong,
    /// More consolidated memory regions than reserved slots.
    TooManyRegions,
}

} // verus!
