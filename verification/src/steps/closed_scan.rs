//! Finding out whether every shard is closed.

use crate::head::Head;
use vstd::prelude::*;

verus! {

/// The next access of a scan over `shard_count` shards.
#[derive(Debug, Clone, Copy)]
pub enum ClosedScanStep {
    /// Read the shard's head. All shards below it were seen closed.
    LoadHead { shard_count: usize, shard: usize },
    Return { closed: bool },
}

impl ClosedScanStep {
    pub open spec fn wf(self) -> bool {
        self matches ClosedScanStep::LoadHead { shard_count, shard } ==> shard < shard_count
    }

    /// The scan ends at the first open shard, or behind the last one.
    pub open spec fn after_head<P>(shard_count: usize, shard: usize, head: Head<P>) -> Self {
        if !head.closed() {
            ClosedScanStep::Return { closed: false }
        } else if shard + 1 < shard_count {
            ClosedScanStep::LoadHead { shard_count, shard: (shard + 1) as usize }
        } else {
            ClosedScanStep::Return { closed: true }
        }
    }

    /// The step that a scan begins with.
    pub open spec fn first(shard_count: usize) -> Self {
        ClosedScanStep::LoadHead { shard_count, shard: 0 }
    }

    pub fn start(shard_count: usize) -> (step: Self)
        requires
            shard_count > 0,
        ensures
            step == Self::first(shard_count),
            step == (ClosedScanStep::LoadHead { shard_count, shard: 0 }),
    {
        ClosedScanStep::LoadHead { shard_count, shard: 0 }
    }

    /// The head of the shard was read.
    pub fn on_head<P>(shard_count: usize, shard: usize, head: Head<P>) -> (step: Self)
        requires
            shard < shard_count,
        ensures
            step == Self::after_head(shard_count, shard, head),
            step.wf(),
    {
        if !head.is_closed() {
            ClosedScanStep::Return { closed: false }
        } else if shard + 1 < shard_count {
            ClosedScanStep::LoadHead { shard_count, shard: shard + 1 }
        } else {
            ClosedScanStep::Return { closed: true }
        }
    }
}

} // verus!
