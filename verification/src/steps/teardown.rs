//! Giving up every node that was never popped, when the stack itself goes away.

use vstd::prelude::*;

verus! {

/// The next access while `shard_count` shards are being emptied. No other thread is left.
#[derive(Debug)]
pub enum TeardownStep<P> {
    /// Read the shard's head.
    LoadHead { shard_count: usize, shard: usize },
    /// Read which node lies under `node`.
    LoadNext { shard_count: usize, shard: usize, node: P },
    /// Drop the value of `node` and release the node. `next` lay under it.
    Free { shard_count: usize, shard: usize, node: P, next: Option<P> },
    Return,
}

impl<P> TeardownStep<P> {
    /// The next node of the shard is `node`; where there is none, the next shard follows.
    pub open spec fn advance(shard_count: usize, shard: usize, node: Option<P>) -> Self {
        match node {
            Some(node) => TeardownStep::LoadNext { shard_count, shard, node },
            None => if shard + 1 < shard_count {
                TeardownStep::LoadHead { shard_count, shard: (shard + 1) as usize }
            } else {
                TeardownStep::Return
            },
        }
    }

    pub fn start(shard_count: usize) -> (step: Self)
        requires
            shard_count > 0,
        ensures
            step == (TeardownStep::<P>::LoadHead { shard_count, shard: 0 }),
    {
        TeardownStep::LoadHead { shard_count, shard: 0 }
    }

    /// The shard's top node, or the node under the one just released, is `node`.
    pub fn on_node(shard_count: usize, shard: usize, node: Option<P>) -> (step: Self)
        requires
            shard < shard_count,
        ensures
            step == Self::advance(shard_count, shard, node),
    {
        match node {
            Some(node) => TeardownStep::LoadNext { shard_count, shard, node },
            None => if shard + 1 < shard_count {
                TeardownStep::LoadHead { shard_count, shard: shard + 1 }
            } else {
                TeardownStep::Return
            },
        }
    }

    /// The node under `node` was read.
    pub fn on_next(shard_count: usize, shard: usize, node: P, next: Option<P>) -> (step: Self)
        ensures
            step == (TeardownStep::<P>::Free { shard_count, shard, node, next }),
    {
        TeardownStep::Free { shard_count, shard, node, next }
    }
}

} // verus!
