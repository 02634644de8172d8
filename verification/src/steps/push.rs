//! Pushing a node onto a shard.

use crate::bits;
use crate::error::PushError;
use crate::head::{Head, CLOSED_TAG};
use vstd::prelude::*;

verus! {

/// The next access of a push. `N` is the node that is being pushed, still private to the push;
/// `P` names a node that is already shared.
#[derive(Debug)]
pub enum PushStep<P, N> {
    /// Read the shard's head.
    LoadHead { shard: usize, node: N },
    /// Point the node at `head` and swing the shard's head from `head` to the node. This may
    /// fail for no reason.
    Publish { shard: usize, node: N, head: Head<P> },
    /// Read the bitmap.
    LoadBitmap { shard: usize },
    /// Set the shard's bit in the bitmap.
    SetBit { shard: usize },
    /// The push is over. A refused node comes back in the error.
    Return { result: Result<(), PushError<N>> },
}

impl<P, N> PushStep<P, N> {
    /// A closed shard refuses the node; an open one is tried.
    pub open spec fn after_head(shard: usize, node: N, head: Head<P>) -> Self {
        if head.closed() {
            PushStep::Return { result: Err(PushError::Closed(node)) }
        } else {
            PushStep::Publish { shard, node, head }
        }
    }

    /// Only a push that finds the shard empty looks after the shard's bit.
    pub open spec fn after_published(shard: usize, head: Head<P>) -> Self {
        if head.ptr is None {
            PushStep::LoadBitmap { shard }
        } else {
            PushStep::Return { result: Ok(()) }
        }
    }

    /// A bit that is set already is left alone.
    pub open spec fn after_bitmap(shard: usize, bitmap: usize) -> Self {
        if bits::has_bit(bitmap, shard as int) {
            PushStep::Return { result: Ok(()) }
        } else {
            PushStep::SetBit { shard }
        }
    }

    /// The step that a push begins with.
    pub open spec fn first(shard: usize, node: N) -> Self {
        PushStep::LoadHead { shard, node }
    }

    /// A push whose node was not put in place reads the head again.
    pub open spec fn after_refused(shard: usize, node: N) -> Self {
        PushStep::LoadHead { shard, node }
    }

    /// A push that has set the bit is over.
    pub open spec fn after_bit_set() -> Self {
        PushStep::Return { result: Ok(()) }
    }

    pub fn start(shard: usize, node: N) -> (step: Self)
        ensures
            step == Self::first(shard, node),
            step == (PushStep::<P, N>::LoadHead { shard, node }),
    {
        PushStep::LoadHead { shard, node }
    }

    /// The head of the shard was read.
    pub fn on_head(shard: usize, node: N, head: Head<P>) -> (step: Self)
        ensures
            step == Self::after_head(shard, node, head),
    {
        if head.tag == CLOSED_TAG {
            PushStep::Return { result: Err(PushError::Closed(node)) }
        } else {
            PushStep::Publish { shard, node, head }
        }
    }

    /// The node is in; `head` is what it was put on top of.
    pub fn on_published(shard: usize, head: Head<P>) -> (step: Self)
        ensures
            step == Self::after_published(shard, head),
    {
        if head.is_null() {
            PushStep::LoadBitmap { shard }
        } else {
            PushStep::Return { result: Ok(()) }
        }
    }

    /// The head had changed, or the attempt failed for no reason: start over.
    pub fn on_refused(shard: usize, node: N) -> (step: Self)
        ensures
            step == Self::after_refused(shard, node),
            step == (PushStep::<P, N>::LoadHead { shard, node }),
    {
        PushStep::LoadHead { shard, node }
    }

    /// The bitmap was read.
    pub fn on_bitmap(shard: usize, bitmap: usize) -> (step: Self)
        requires
            shard < usize::BITS,
        ensures
            step == Self::after_bitmap(shard, bitmap),
    {
        if bits::is_set(bitmap, shard) {
            PushStep::Return { result: Ok(()) }
        } else {
            PushStep::SetBit { shard }
        }
    }

    /// The shard's bit was set.
    pub fn on_bit_set() -> (step: Self)
        ensures
            step == Self::after_bit_set(),
            step == (PushStep::<P, N>::Return { result: Ok(()) }),
    {
        PushStep::Return { result: Ok(()) }
    }
}

} // verus!
