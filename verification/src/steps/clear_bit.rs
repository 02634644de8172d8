//! Clearing the bit of a shard that was just seen empty.
//!
//! A push can slip in between the moment the shard was seen empty and the moment its bit is
//! cleared. So the head is read once more after the clearing, and the bit is set again if the
//! shard turns out to hold something.

use crate::bits;
use crate::head::Head;
use vstd::prelude::*;

verus! {

/// The next access while a bit is being cleared.
#[derive(Debug, Clone, Copy)]
pub enum ClearBitStep {
    /// Read the bitmap.
    LoadBitmap { shard: usize },
    /// Clear the shard's bit in the bitmap.
    ClearBit { shard: usize },
    /// Read the shard's head.
    LoadHead { shard: usize },
    /// Set the shard's bit in the bitmap.
    SetBit { shard: usize },
    Return,
}

impl ClearBitStep {
    /// A bit that is clear already is left alone.
    pub open spec fn after_bitmap(shard: usize, bitmap: usize) -> Self {
        if bits::has_bit(bitmap, shard as int) {
            ClearBitStep::ClearBit { shard }
        } else {
            ClearBitStep::Return
        }
    }

    /// A shard that holds something after all gets its bit back.
    pub open spec fn after_head<P>(shard: usize, head: Head<P>) -> Self {
        if head.ptr is None {
            ClearBitStep::Return
        } else {
            ClearBitStep::SetBit { shard }
        }
    }

    /// The step that a clearing begins with.
    pub open spec fn first(shard: usize) -> Self {
        ClearBitStep::LoadBitmap { shard }
    }

    /// After the bit was cleared, the head is read again.
    pub open spec fn after_cleared(shard: usize) -> Self {
        ClearBitStep::LoadHead { shard }
    }

    /// A clearing that has set the bit again is over.
    pub open spec fn after_bit_set() -> Self {
        ClearBitStep::Return
    }

    pub fn start(shard: usize) -> (step: Self)
        ensures
            step == Self::first(shard),
            step == (ClearBitStep::LoadBitmap { shard }),
    {
        ClearBitStep::LoadBitmap { shard }
    }

    /// The bitmap was read.
    pub fn on_bitmap(shard: usize, bitmap: usize) -> (step: Self)
        requires
            shard < usize::BITS,
        ensures
            step == Self::after_bitmap(shard, bitmap),
    {
        if bits::is_set(bitmap, shard) {
            ClearBitStep::ClearBit { shard }
        } else {
            ClearBitStep::Return
        }
    }

    /// The bit was cleared.
    pub fn on_cleared(shard: usize) -> (step: Self)
        ensures
            step == Self::after_cleared(shard),
            step == (ClearBitStep::LoadHead { shard }),
    {
        ClearBitStep::LoadHead { shard }
    }

    /// The head was read again.
    pub fn on_head<P>(shard: usize, head: Head<P>) -> (step: Self)
        ensures
            step == Self::after_head(shard, head),
    {
        if head.is_null() {
            ClearBitStep::Return
        } else {
            ClearBitStep::SetBit { shard }
        }
    }

    /// The bit was set again.
    pub fn on_bit_set() -> (step: Self)
        ensures
            step == Self::after_bit_set(),
            step == ClearBitStep::Return,
    {
        ClearBitStep::Return
    }
}

} // verus!
