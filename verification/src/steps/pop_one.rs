//! One attempt to take the top value off one shard.

use crate::head::Head;
use vstd::prelude::*;

verus! {

/// The next access of an attempt. `P` names a node, `V` is what a node hands out.
#[derive(Debug)]
pub enum PopOneStep<P, V> {
    /// Read the shard's head.
    LoadHead { shard: usize },
    /// Read which node lies under `node`, the top node that was seen under `tag`.
    LoadNext { shard: usize, node: P, tag: usize },
    /// Swing the shard's head from `node` to `next`, both under `tag`. This fails only if the
    /// head has changed.
    Exchange { shard: usize, node: P, tag: usize, next: Option<P> },
    /// Clear the shard's bit. `popped` is the node that was unlinked, if any.
    ClearBit { shard: usize, popped: Option<P> },
    /// Move the value out of the unlinked node and give the node up for reclamation.
    Take { node: P },
    /// The attempt is over: a value, nothing there, or the head was lost to another thread.
    Return { result: Result<Option<V>, ()> },
}

impl<P, V> PopOneStep<P, V> {
    /// An empty shard, open or closed, has its bit cleared.
    pub open spec fn after_head(shard: usize, head: Head<P>) -> Self {
        match head.ptr {
            Some(node) => PopOneStep::LoadNext { shard, node, tag: head.tag },
            None => PopOneStep::ClearBit { shard, popped: None },
        }
    }

    /// The bit is cleared as well when the last node was unlinked.
    pub open spec fn after_exchanged(shard: usize, node: P, next: Option<P>) -> Self {
        if next is None {
            PopOneStep::ClearBit { shard, popped: Some(node) }
        } else {
            PopOneStep::Take { node }
        }
    }

    /// Once the bit has been seen to, an unlinked node is taken; otherwise nothing was there.
    pub open spec fn after_bit_cleared(popped: Option<P>) -> Self {
        match popped {
            Some(node) => PopOneStep::Take { node },
            None => PopOneStep::Return { result: Ok(None) },
        }
    }

    /// The step that an attempt begins with.
    pub open spec fn first(shard: usize) -> Self {
        PopOneStep::LoadHead { shard }
    }

    /// Once the node under the top node is known, the top node is to be unlinked.
    pub open spec fn after_next(shard: usize, node: P, tag: usize, next: Option<P>) -> Self {
        PopOneStep::Exchange { shard, node, tag, next }
    }

    /// An attempt that found the head changed is lost.
    pub open spec fn after_lost() -> Self {
        PopOneStep::Return { result: Err(()) }
    }

    /// An attempt that has moved a value out is over.
    pub open spec fn after_taken(value: V) -> Self {
        PopOneStep::Return { result: Ok(Some(value)) }
    }

    pub fn start(shard: usize) -> (step: Self)
        ensures
            step == Self::first(shard),
            step == (PopOneStep::<P, V>::LoadHead { shard }),
    {
        PopOneStep::LoadHead { shard }
    }

    /// The head of the shard was read.
    pub fn on_head(shard: usize, head: Head<P>) -> (step: Self)
        ensures
            step == Self::after_head(shard, head),
    {
        match head.ptr {
            Some(node) => PopOneStep::LoadNext { shard, node, tag: head.tag },
            None => PopOneStep::ClearBit { shard, popped: None },
        }
    }

    /// The node under the top node was read.
    pub fn on_next(shard: usize, node: P, tag: usize, next: Option<P>) -> (step: Self)
        ensures
            step == Self::after_next(shard, node, tag, next),
            step == (PopOneStep::<P, V>::Exchange { shard, node, tag, next }),
    {
        PopOneStep::Exchange { shard, node, tag, next }
    }

    /// The node was unlinked.
    pub fn on_exchanged(shard: usize, node: P, next: Option<P>) -> (step: Self)
        ensures
            step == Self::after_exchanged(shard, node, next),
    {
        match next {
            None => PopOneStep::ClearBit { shard, popped: Some(node) },
            Some(_) => PopOneStep::Take { node },
        }
    }

    /// The head had changed.
    pub fn on_lost() -> (step: Self)
        ensures
            step == Self::after_lost(),
            step == (PopOneStep::<P, V>::Return { result: Err(()) }),
    {
        PopOneStep::Return { result: Err(()) }
    }

    /// The bit has been seen to.
    pub fn on_bit_cleared(popped: Option<P>) -> (step: Self)
        ensures
            step == Self::after_bit_cleared(popped),
    {
        match popped {
            Some(node) => PopOneStep::Take { node },
            None => PopOneStep::Return { result: Ok(None) },
        }
    }

    /// The value was moved out.
    pub fn on_taken(value: V) -> (step: Self)
        ensures
            step == Self::after_taken(value),
            step == (PopOneStep::<P, V>::Return { result: Ok(Some(value)) }),
    {
        PopOneStep::Return { result: Ok(Some(value)) }
    }
}

} // verus!
