//! Where a pop looks for a value, and when it gives up.
//!
//! A pop tries the calling thread's own shard first, and then the shards whose bit is set in the
//! bitmap. If neither gives a value, the pop ends, unless the whole stack is closed: then no value
//! can arrive any more, and every shard is drained in turn before the pop reports that the stack
//! is finished.
//!
//! Shards are visited in the order `start`, `start ^ 1`, `start ^ 2`, `start ^ 3` and so on, in
//! which a walk level by level goes through a binary tree over the shards: near ones first.

use crate::bits;
use crate::error::PopError;
use crate::layout;
use vstd::prelude::*;

verus! {

/// How many lost attempts on one shard make a pop move on. An empty shard makes it move on at
/// once.
pub const CURRENT_SHARD_CAS_RETRIES: usize = 3;

/// Why a shard is being tried.
#[derive(Debug, Clone, Copy)]
pub enum Stage {
    /// It is the thread's own. `losses` attempts on it were lost so far.
    Local { losses: usize },
    /// Its bit was set. `rest` holds the bits of the shards still to come.
    Steal { rest: usize, losses: usize },
    /// The stack is closed, and this is the shard at distance `offset` from the thread's own.
    Drain { offset: usize },
}

/// A pop that is about to make one attempt on `shard`.
#[derive(Debug, Clone, Copy)]
pub struct Visit {
    pub start: usize,
    pub shard_count: usize,
    pub shard: usize,
    pub stage: Stage,
}

impl Visit {
    pub open spec fn wf(self) -> bool {
        &&& layout::valid_shard_count(self.shard_count as int)
        &&& self.start < self.shard_count
        &&& self.shard < self.shard_count
        &&& match self.stage {
            Stage::Local { losses } => {
                &&& self.shard == self.start
                &&& losses < CURRENT_SHARD_CAS_RETRIES
            },
            Stage::Steal { rest, losses } => {
                &&& self.shard != self.start
                &&& bits::bits_below(rest, self.shard_count as int)
                &&& !bits::has_bit(rest, self.start as int)
                &&& losses < CURRENT_SHARD_CAS_RETRIES
            },
            Stage::Drain { offset } => {
                &&& offset < self.shard_count
                &&& self.shard == at_distance(self.start, offset)
            },
        }
    }
}

/// The shard at distance `offset` from `start`.
pub open spec fn at_distance(start: usize, offset: usize) -> int {
    (start ^ offset) as int
}

/// What a pop does next. `V` is what it is to return.
#[derive(Debug)]
pub enum PopStep<V> {
    /// Make one attempt on a shard.
    PopOne { visit: Visit },
    /// Read the bitmap.
    LoadBitmap { start: usize, shard_count: usize },
    /// Find out whether every shard is closed.
    AllShardsClosed { start: usize, shard_count: usize },
    Return { result: Result<V, PopError> },
}

impl<V> PopStep<V> {
    pub open spec fn wf(self) -> bool {
        match self {
            PopStep::PopOne { visit } => visit.wf(),
            PopStep::LoadBitmap { start, shard_count } => {
                &&& layout::valid_shard_count(shard_count as int)
                &&& start < shard_count
            },
            PopStep::AllShardsClosed { start, shard_count } => {
                &&& layout::valid_shard_count(shard_count as int)
                &&& start < shard_count
            },
            PopStep::Return { .. } => true,
        }
    }

    /// The step that a pop begins with.
    pub open spec fn first(start: usize, shard_count: usize) -> Self {
        PopStep::PopOne {
            visit: Visit { start, shard_count, shard: start, stage: Stage::Local { losses: 0 } },
        }
    }

    /// Goes to the nearest shard among `candidates`, or to the question whether the stack is
    /// closed when none is left.
    pub open spec fn steal(start: usize, shard_count: usize, candidates: usize) -> Self {
        if candidates == 0 {
            PopStep::AllShardsClosed { start, shard_count }
        } else {
            let shard = bits::nearest(candidates, start as int);
            PopStep::PopOne {
                visit: Visit {
                    start,
                    shard_count,
                    shard: shard as usize,
                    stage: Stage::Steal { rest: bits::without_bit(candidates, shard), losses: 0 },
                },
            }
        }
    }

    /// Goes on after the bitmap was read, to the shards with a bit other than the own one.
    pub open spec fn after_bitmap(start: usize, shard_count: usize, bitmap: usize) -> Self {
        Self::steal(start, shard_count, bits::without_bit(bitmap, start as int))
    }

    /// Goes on after a shard was seen empty.
    pub open spec fn after_empty(visit: Visit) -> Self {
        match visit.stage {
            Stage::Local { .. } => PopStep::LoadBitmap {
                start: visit.start,
                shard_count: visit.shard_count,
            },
            Stage::Steal { rest, .. } => Self::steal(visit.start, visit.shard_count, rest),
            Stage::Drain { offset } => if offset + 1 < visit.shard_count {
                Self::drain(visit.start, visit.shard_count, (offset + 1) as usize)
            } else {
                PopStep::Return { result: Err(PopError::Closed) }
            },
        }
    }

    /// Goes on after an attempt was lost. A shard is tried a limited number of times before the
    /// pop moves on as if it were empty, but a closed stack is drained without a limit.
    pub open spec fn after_loss(visit: Visit) -> Self {
        match visit.stage {
            Stage::Local { losses } => if losses + 1 < CURRENT_SHARD_CAS_RETRIES {
                PopStep::PopOne {
                    visit: Visit { stage: Stage::Local { losses: (losses + 1) as usize }, ..visit },
                }
            } else {
                Self::after_empty(visit)
            },
            Stage::Steal { rest, losses } => if losses + 1 < CURRENT_SHARD_CAS_RETRIES {
                PopStep::PopOne {
                    visit: Visit {
                        stage: Stage::Steal { rest, losses: (losses + 1) as usize },
                        ..visit
                    },
                }
            } else {
                Self::after_empty(visit)
            },
            Stage::Drain { .. } => PopStep::PopOne { visit },
        }
    }

    /// Goes on after an attempt.
    pub open spec fn after_attempt(visit: Visit, outcome: Result<Option<V>, ()>) -> Self {
        match outcome {
            Ok(Some(value)) => PopStep::Return { result: Ok(value) },
            Ok(None) => Self::after_empty(visit),
            Err(()) => Self::after_loss(visit),
        }
    }

    /// The attempt on the shard at distance `offset` from the thread's own.
    pub open spec fn drain(start: usize, shard_count: usize, offset: usize) -> Self {
        PopStep::PopOne {
            visit: Visit {
                start,
                shard_count,
                shard: at_distance(start, offset) as usize,
                stage: Stage::Drain { offset },
            },
        }
    }

    /// An open stack makes the pop end without a value; a closed one is drained.
    pub open spec fn after_scan(start: usize, shard_count: usize, closed: bool) -> Self {
        if closed {
            Self::drain(start, shard_count, 0)
        } else {
            PopStep::Return { result: Err(PopError::Empty) }
        }
    }

    /// Whether the pop is one over `shard_count` shards, as far as the step tells.
    pub open spec fn spans(self, shard_count: int) -> bool {
        match self {
            PopStep::PopOne { visit } => visit.shard_count == shard_count,
            PopStep::LoadBitmap { shard_count: c, .. } => c == shard_count,
            PopStep::AllShardsClosed { shard_count: c, .. } => c == shard_count,
            PopStep::Return { .. } => true,
        }
    }

    /// Whether the pop is draining a closed stack.
    pub open spec fn drains(self) -> bool {
        match self {
            PopStep::PopOne { visit } => visit.stage is Drain,
            _ => false,
        }
    }

    /// Stealing goes to an existing shard other than the thread's own.
    pub proof fn lemma_steal(start: usize, shard_count: usize, candidates: usize)
        requires
            layout::valid_shard_count(shard_count as int),
            start < shard_count,
            bits::bits_below(candidates, shard_count as int),
            !bits::has_bit(candidates, start as int),
        ensures
            Self::steal(start, shard_count, candidates).wf(),
            Self::steal(start, shard_count, candidates).spans(shard_count as int),
    {
        if candidates != 0 {
            bits::lemma_nearest(candidates, start as int);
            bits::lemma_without_bit(candidates, bits::nearest(candidates, start as int));
        }
    }

    /// Draining goes to an existing shard.
    pub proof fn lemma_drain(start: usize, shard_count: usize, offset: usize)
        requires
            layout::valid_shard_count(shard_count as int),
            start < shard_count,
            offset < shard_count,
        ensures
            Self::drain(start, shard_count, offset).wf(),
            Self::drain(start, shard_count, offset).spans(shard_count as int),
    {
        layout::lemma_distance_below(start, offset, shard_count);
    }

    /// Whatever an attempt brings, the pop goes on in order.
    pub proof fn lemma_after_attempt(visit: Visit, outcome: Result<Option<V>, ()>)
        requires
            visit.wf(),
        ensures
            Self::after_attempt(visit, outcome).wf(),
            Self::after_attempt(visit, outcome).spans(visit.shard_count as int),
    {
        match visit.stage {
            Stage::Local { .. } => {},
            Stage::Steal { rest, .. } => {
                Self::lemma_steal(visit.start, visit.shard_count, rest);
            },
            Stage::Drain { offset } => {
                if offset + 1 < visit.shard_count {
                    Self::lemma_drain(visit.start, visit.shard_count, (offset + 1) as usize);
                }
            },
        }
    }

    pub fn start(start: usize, shard_count: usize) -> (step: Self)
        requires
            layout::valid_shard_count(shard_count as int),
            start < shard_count,
        ensures
            step == Self::first(start, shard_count),
            step.wf(),
    {
        PopStep::PopOne {
            visit: Visit { start, shard_count, shard: start, stage: Stage::Local { losses: 0 } },
        }
    }

    /// An attempt came to an end.
    pub fn on_attempt(visit: Visit, outcome: Result<Option<V>, ()>) -> (step: Self)
        requires
            visit.wf(),
        ensures
            step == Self::after_attempt(visit, outcome),
            step.wf(),
    {
        match outcome {
            Ok(Some(value)) => PopStep::Return { result: Ok(value) },
            Ok(None) => Self::move_on(visit),
            Err(()) => Self::retry(visit),
        }
    }

    /// The bitmap was read.
    pub fn on_bitmap(start: usize, shard_count: usize, bitmap: usize) -> (step: Self)
        requires
            layout::valid_shard_count(shard_count as int),
            start < shard_count,
            bits::bits_below(bitmap, shard_count as int),
        ensures
            step == Self::after_bitmap(start, shard_count, bitmap),
            step == Self::steal(start, shard_count, bits::without_bit(bitmap, start as int)),
            step.wf(),
    {
        let own: usize = bits::shard_bit(start);
        proof {
            bits::lemma_without_bit(bitmap, start as int);
        }
        Self::next_victim(start, shard_count, bitmap & !own)
    }

    /// All shards were seen closed, or one was seen open.
    pub fn on_scan(start: usize, shard_count: usize, closed: bool) -> (step: Self)
        requires
            layout::valid_shard_count(shard_count as int),
            start < shard_count,
        ensures
            step == Self::after_scan(start, shard_count, closed),
            step.wf(),
    {
        if closed {
            Self::drain_at(start, shard_count, 0)
        } else {
            PopStep::Return { result: Err(PopError::Empty) }
        }
    }

    fn next_victim(start: usize, shard_count: usize, candidates: usize) -> (step: Self)
        requires
            layout::valid_shard_count(shard_count as int),
            start < shard_count,
            bits::bits_below(candidates, shard_count as int),
            !bits::has_bit(candidates, start as int),
        ensures
            step == Self::steal(start, shard_count, candidates),
            step.wf(),
    {
        if candidates == 0 {
            PopStep::AllShardsClosed { start, shard_count }
        } else {
            let shard: usize = bits::nearest_bit(candidates, start);
            let rest: usize = candidates & !bits::shard_bit(shard);
            proof {
                Self::lemma_steal(start, shard_count, candidates);
            }
            PopStep::PopOne {
                visit: Visit { start, shard_count, shard, stage: Stage::Steal { rest, losses: 0 } },
            }
        }
    }

    fn drain_at(start: usize, shard_count: usize, offset: usize) -> (step: Self)
        requires
            layout::valid_shard_count(shard_count as int),
            start < shard_count,
            offset < shard_count,
        ensures
            step == Self::drain(start, shard_count, offset),
            step.wf(),
    {
        proof {
            layout::lemma_distance_below(start, offset, shard_count);
        }
        let shard: usize = start ^ offset;
        let stage = Stage::Drain { offset };
        PopStep::PopOne { visit: Visit { start, shard_count, shard, stage } }
    }

    fn move_on(visit: Visit) -> (step: Self)
        requires
            visit.wf(),
        ensures
            step == Self::after_empty(visit),
            step.wf(),
    {
        match visit.stage {
            Stage::Local { .. } => PopStep::LoadBitmap {
                start: visit.start,
                shard_count: visit.shard_count,
            },
            Stage::Steal { rest, .. } => Self::next_victim(visit.start, visit.shard_count, rest),
            Stage::Drain { offset } => if offset + 1 < visit.shard_count {
                Self::drain_at(visit.start, visit.shard_count, offset + 1)
            } else {
                PopStep::Return { result: Err(PopError::Closed) }
            },
        }
    }

    fn retry(visit: Visit) -> (step: Self)
        requires
            visit.wf(),
        ensures
            step == Self::after_loss(visit),
            step.wf(),
    {
        match visit.stage {
            Stage::Local { losses } => if losses + 1 < CURRENT_SHARD_CAS_RETRIES {
                PopStep::PopOne {
                    visit: Visit { stage: Stage::Local { losses: losses + 1 }, ..visit },
                }
            } else {
                Self::move_on(visit)
            },
            Stage::Steal { rest, losses } => if losses + 1 < CURRENT_SHARD_CAS_RETRIES {
                PopStep::PopOne {
                    visit: Visit { stage: Stage::Steal { rest, losses: losses + 1 }, ..visit },
                }
            } else {
                Self::move_on(visit)
            },
            Stage::Drain { .. } => PopStep::PopOne { visit },
        }
    }
}

/// How many attempts on the shard of `visit` may still be lost, the last of which makes the pop
/// move on.
pub open spec fn losses_left(visit: Visit) -> int {
    match visit.stage {
        Stage::Local { losses } => CURRENT_SHARD_CAS_RETRIES - losses,
        Stage::Steal { losses, .. } => CURRENT_SHARD_CAS_RETRIES - losses,
        Stage::Drain { .. } => 0,
    }
}

/// The step of a pop after `n` attempts in a row were lost.
pub open spec fn after_losses<V>(visit: Visit, n: nat) -> PopStep<V>
    decreases n,
{
    if n == 0 {
        PopStep::PopOne { visit }
    } else {
        match after_losses::<V>(visit, (n - 1) as nat) {
            PopStep::PopOne { visit: last } => PopStep::after_attempt(last, Err(())),
            step => step,
        }
    }
}

/// A pop stays at a shard for a limited number of lost attempts, and then moves on as if the shard
/// were empty; but it never moves on from a shard of a closed stack that it is draining.
pub proof fn law_losses_are_limited<V>(visit: Visit, n: nat)
    requires
        visit.wf(),
        !(visit.stage is Drain) ==> n <= losses_left(visit),
    ensures
        visit.stage is Drain ==> after_losses::<V>(visit, n) == (PopStep::<V>::PopOne { visit }),
        !(visit.stage is Drain) && n < losses_left(visit) ==> {
            &&& after_losses::<V>(visit, n) matches PopStep::PopOne { visit: last }
            &&& last.shard == visit.shard
            &&& losses_left(last) == losses_left(visit) - n
            &&& PopStep::<V>::after_attempt(last, Ok(None)) == PopStep::<V>::after_attempt(
                visit,
                Ok(None),
            )
        },
        !(visit.stage is Drain) && n == losses_left(visit) ==> after_losses::<V>(visit, n)
            == PopStep::<V>::after_attempt(visit, Ok(None)),
    decreases n,
{
    if n > 0 {
        law_losses_are_limited::<V>(visit, (n - 1) as nat);
    }
}

/// Whether the pop goes to the nearest shard of those with a bit in `candidates`, with a fresh
/// count of losses and the others still to come, or asks whether the stack is closed if there is
/// none.
pub open spec fn goes_to_nearest<V>(
    step: PopStep<V>,
    start: usize,
    shard_count: usize,
    candidates: spec_fn(int) -> bool,
) -> bool {
    match step {
        PopStep::PopOne { visit } => {
            &&& visit.start == start
            &&& visit.shard_count == shard_count
            &&& candidates(visit.shard as int)
            &&& forall|i: usize| candidates(i as int) ==> (visit.shard ^ start) <= #[trigger] (i
                ^ start)
            &&& visit.stage matches Stage::Steal { rest, losses }
            &&& losses == 0
            &&& forall|i: int| #[trigger]
                bits::has_bit(rest, i) <==> candidates(i) && i != visit.shard
        },
        PopStep::AllShardsClosed { start: s, shard_count: c } => {
            &&& s == start
            &&& c == shard_count
            &&& forall|i: int| !#[trigger] candidates(i)
        },
        _ => false,
    }
}

proof fn lemma_goes_to_nearest<V>(start: usize, shard_count: usize, word: usize)
    ensures
        goes_to_nearest(
            PopStep::<V>::steal(start, shard_count, word),
            start,
            shard_count,
            |i: int| bits::has_bit(word, i),
        ),
{
    let candidates = |i: int| bits::has_bit(word, i);
    if word == 0 {
        bits::lemma_zero_has_no_bit();
        assert forall|i: int| !#[trigger] candidates(i) by {
            assert(!bits::has_bit(word, i));
        }
    } else {
        let shard = bits::nearest(word, start as int);
        bits::lemma_nearest(word, start as int);
        bits::lemma_without_bit(word, shard);
        assert forall|i: usize| candidates(i as int) implies ((shard as usize) ^ start)
            <= #[trigger] (i ^ start) by {
            assert(bits::distance(start as int, shard) <= bits::distance(start as int, i as int));
        }
    }
}

/// An attempt that brings a value ends the pop with it.
pub proof fn law_value_ends_the_pop<V>(visit: Visit, value: V)
    requires
        visit.wf(),
    ensures
        PopStep::after_attempt(visit, Ok(Some(value))) == (PopStep::Return { result: Ok(value) }),
{
}

/// An attempt that finds its shard empty makes the pop move on, however many attempts were lost
/// before: from its own shard to the bitmap, and from a shard that was hinted at to the nearest of
/// those still to come, until none is left.
pub proof fn law_empty_shard_is_left<V>(visit: Visit)
    requires
        visit.wf(),
    ensures
        match visit.stage {
            Stage::Local { .. } => PopStep::<V>::after_attempt(visit, Ok(None)) == (
            PopStep::<V>::LoadBitmap { start: visit.start, shard_count: visit.shard_count }),
            Stage::Steal { rest, .. } => goes_to_nearest(
                PopStep::<V>::after_attempt(visit, Ok(None)),
                visit.start,
                visit.shard_count,
                |i: int| bits::has_bit(rest, i),
            ),
            Stage::Drain { offset } => if offset + 1 < visit.shard_count {
                &&& PopStep::<V>::after_attempt(visit, Ok(None)) matches PopStep::PopOne {
                    visit: next,
                }
                &&& next.start == visit.start
                &&& next.shard_count == visit.shard_count
                &&& next.shard == visit.start ^ ((offset + 1) as usize)
                &&& next.stage == (Stage::Drain { offset: (offset + 1) as usize })
            } else {
                PopStep::<V>::after_attempt(visit, Ok(None)) == (PopStep::<V>::Return {
                    result: Err(PopError::Closed),
                })
            },
        },
{
    if let Stage::Steal { rest, .. } = visit.stage {
        lemma_goes_to_nearest::<V>(visit.start, visit.shard_count, rest);
    }
}

/// An attempt that was lost is made again on the same shard, as long as fewer than three were lost
/// in a row; the third makes the pop move on exactly as if it had found the shard empty. A pop that
/// drains a closed stack makes it again in any case.
pub proof fn law_lost_attempt_is_repeated<V>(visit: Visit)
    requires
        visit.wf(),
    ensures
        match visit.stage {
            Stage::Local { losses } => if losses < 2 {
                PopStep::<V>::after_attempt(visit, Err(())) == (PopStep::<V>::PopOne {
                    visit: Visit { stage: Stage::Local { losses: (losses + 1) as usize }, ..visit },
                })
            } else {
                PopStep::<V>::after_attempt(visit, Err(())) == PopStep::<V>::after_attempt(
                    visit,
                    Ok(None),
                )
            },
            Stage::Steal { rest, losses } => if losses < 2 {
                PopStep::<V>::after_attempt(visit, Err(())) == (PopStep::<V>::PopOne {
                    visit: Visit {
                        stage: Stage::Steal { rest, losses: (losses + 1) as usize },
                        ..visit
                    },
                })
            } else {
                PopStep::<V>::after_attempt(visit, Err(())) == PopStep::<V>::after_attempt(
                    visit,
                    Ok(None),
                )
            },
            Stage::Drain { .. } => PopStep::<V>::after_attempt(visit, Err(())) == (
            PopStep::<V>::PopOne { visit }),
        },
{
}

/// Whatever the bitmap holds, the pop goes on to the nearest shard with a bit other than its own.
pub proof fn law_bitmap_guides<V>(start: usize, shard_count: usize, bitmap: usize)
    requires
        start < shard_count,
        layout::valid_shard_count(shard_count as int),
    ensures
        goes_to_nearest(
            PopStep::<V>::after_bitmap(start, shard_count, bitmap),
            start,
            shard_count,
            |i: int| bits::has_bit(bitmap, i) && i != start,
        ),
{
    let word = bits::without_bit(bitmap, start as int);
    layout::lemma_valid_shard_counts(shard_count as int);
    bits::lemma_without_bit(bitmap, start as int);
    lemma_goes_to_nearest::<V>(start, shard_count, word);
    let a = |i: int| bits::has_bit(word, i);
    let b = |i: int| bits::has_bit(bitmap, i) && i != start;
    assert forall|i: int| #[trigger] a(i) == b(i) by {
        assert(bits::has_bit(word, i) <==> bits::has_bit(bitmap, i) && i != start);
    }
    assert(a =~= b);
}

/// A pop that found nothing ends as soon as a shard is seen open, and otherwise drains every shard,
/// its own first.
pub proof fn law_scan_decides<V>(start: usize, shard_count: usize)
    requires
        start < shard_count,
        layout::valid_shard_count(shard_count as int),
    ensures
        PopStep::<V>::after_scan(start, shard_count, false) == (PopStep::<V>::Return {
            result: Err(PopError::Empty),
        }),
        PopStep::<V>::after_scan(start, shard_count, true) == (PopStep::<V>::PopOne {
            visit: Visit { start, shard_count, shard: start, stage: Stage::Drain { offset: 0 } },
        }),
        PopStep::<V>::first(start, shard_count) == (PopStep::<V>::PopOne {
            visit: Visit { start, shard_count, shard: start, stage: Stage::Local { losses: 0 } },
        }),
{
    assert(start ^ 0 == start) by (bit_vector);
}

} // verus!
