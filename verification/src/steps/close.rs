//! Closing the shards one after the other.

use crate::head::Head;
use vstd::prelude::*;

verus! {

/// The next access while `shard_count` shards are being closed. `changed` tells whether this
/// call has closed a shard so far.
#[derive(Debug)]
pub enum CloseStep<P> {
    /// Read the shard's head. All shards below it are closed.
    LoadHead { shard_count: usize, shard: usize, changed: bool },
    /// Put the closed tag on the shard's head, provided it is still `head`. This may fail for
    /// no reason.
    Seal { shard_count: usize, shard: usize, changed: bool, head: Head<P> },
    Return { changed: bool },
}

impl<P> CloseStep<P> {
    pub open spec fn wf(self) -> bool {
        match self {
            CloseStep::LoadHead { shard_count, shard, .. } => shard < shard_count,
            CloseStep::Seal { shard_count, shard, .. } => shard < shard_count,
            CloseStep::Return { .. } => true,
        }
    }

    /// The shard is closed: on to the next one.
    pub open spec fn advance(shard_count: usize, shard: usize, changed: bool) -> Self {
        if shard + 1 < shard_count {
            CloseStep::LoadHead { shard_count, shard: (shard + 1) as usize, changed }
        } else {
            CloseStep::Return { changed }
        }
    }

    /// A shard that is closed already is passed over.
    pub open spec fn after_head(
        shard_count: usize,
        shard: usize,
        changed: bool,
        head: Head<P>,
    ) -> Self {
        if head.closed() {
            Self::advance(shard_count, shard, changed)
        } else {
            CloseStep::Seal { shard_count, shard, changed, head }
        }
    }

    /// The step that a close begins with.
    pub open spec fn first(shard_count: usize) -> Self {
        CloseStep::LoadHead { shard_count, shard: 0, changed: false }
    }

    /// A close that has put the tag on goes on to the next shard, and has changed something.
    pub open spec fn after_sealed(shard_count: usize, shard: usize) -> Self {
        Self::advance(shard_count, shard, true)
    }

    /// A close that could not put the tag on reads the head again.
    pub open spec fn after_refused(shard_count: usize, shard: usize, changed: bool) -> Self {
        CloseStep::LoadHead { shard_count, shard, changed }
    }

    pub fn start(shard_count: usize) -> (step: Self)
        requires
            shard_count > 0,
        ensures
            step == Self::first(shard_count),
            step == (CloseStep::<P>::LoadHead { shard_count, shard: 0, changed: false }),
    {
        CloseStep::LoadHead { shard_count, shard: 0, changed: false }
    }

    fn next(shard_count: usize, shard: usize, changed: bool) -> (step: Self)
        requires
            shard < shard_count,
        ensures
            step == Self::advance(shard_count, shard, changed),
            step.wf(),
    {
        if shard + 1 < shard_count {
            CloseStep::LoadHead { shard_count, shard: shard + 1, changed }
        } else {
            CloseStep::Return { changed }
        }
    }

    /// The head of the shard was read.
    pub fn on_head(shard_count: usize, shard: usize, changed: bool, head: Head<P>) -> (step: Self)
        requires
            shard < shard_count,
        ensures
            step == Self::after_head(shard_count, shard, changed, head),
            step.wf(),
    {
        if head.is_closed() {
            Self::next(shard_count, shard, changed)
        } else {
            CloseStep::Seal { shard_count, shard, changed, head }
        }
    }

    /// The closed tag is on.
    pub fn on_sealed(shard_count: usize, shard: usize) -> (step: Self)
        requires
            shard < shard_count,
        ensures
            step == Self::after_sealed(shard_count, shard),
            step == Self::advance(shard_count, shard, true),
            step.wf(),
    {
        Self::next(shard_count, shard, true)
    }

    /// The head had changed, or the attempt failed for no reason: look again.
    pub fn on_refused(shard_count: usize, shard: usize, changed: bool) -> (step: Self)
        requires
            shard < shard_count,
        ensures
            step == Self::after_refused(shard_count, shard, changed),
            step == (CloseStep::<P>::LoadHead { shard_count, shard, changed }),
    {
        CloseStep::LoadHead { shard_count, shard, changed }
    }
}

} // verus!
