//! What a pop finds while other operations get in its way.

use crate::bits;
use crate::head::Head;
use crate::interleaving::consistency;
use crate::interleaving::drain;
use crate::interleaving::laws;
use crate::interleaving::system;
use crate::interleaving::system::{Effect, Event, Inner, Operation, Outcome, Progress, System};
use crate::lists;
use crate::steps::pop::CURRENT_SHARD_CAS_RETRIES;
use crate::steps::{PopOneStep, PopStep, Stage};
use vstd::prelude::*;

verus! {

/// How many events between states `p` and `j` change the head of shard `i`.
pub open spec fn head_changes<T>(states: Seq<System<T>>, i: int, p: int, j: int) -> nat
    decreases j - p,
{
    if j <= p {
        0
    } else {
        head_changes(states, i, p, j - 1) + (if states[j].memory.heads[i] != states[j
            - 1].memory.heads[i] {
            1nat
        } else {
            0
        })
    }
}

/// Whether from state `p` to state `j` shard `i` is within reach of a pop by the owner of shard
/// `start`: it holds a value all the time, it is the pop's own shard or its bit is set all the
/// time, and its head does not change so often that the pop may give it up.
pub open spec fn within_reach<T>(
    states: Seq<System<T>>,
    start: usize,
    i: int,
    p: int,
    j: int,
) -> bool {
    &&& forall|m: int|
        p <= m <= j ==> {
            &&& (#[trigger] laws::contents(states[m], i)).len() > 0
            &&& i == start || bits::has_bit(states[m].memory.bitmap, i)
        }
    &&& head_changes(states, i, p, j) < CURRENT_SHARD_CAS_RETRIES
}

/// Every attempt on shard `i` that was lost is answered by a change of its head, and so is the
/// attempt that is bound to be lost.
spec fn losses_explained<T>(
    s: System<T>,
    one: PopOneStep<usize, T>,
    i: int,
    losses: usize,
    changes: nat,
) -> bool {
    match one {
        PopOneStep::LoadHead { .. } => losses <= changes,
        PopOneStep::LoadNext { node, tag, .. } => {
            &&& losses <= changes
            &&& s.memory.heads[i] != (Head { ptr: Some(node), tag }) ==> losses < changes
        },
        PopOneStep::Exchange { node, tag, .. } => {
            &&& losses <= changes
            &&& s.memory.heads[i] != (Head { ptr: Some(node), tag }) ==> losses < changes
        },
        _ => false,
    }
}

/// A pop that has not passed shard `i`.
spec fn approaches<T>(
    s: System<T>,
    operation: Operation<T>,
    start: usize,
    i: int,
    changes: nat,
) -> bool {
    match operation {
        Operation::Pop { step, inner } => match step {
            PopStep::PopOne { visit } => {
                &&& visit.start == start
                &&& inner matches Inner::Attempt { one, .. } && match visit.stage {
                    Stage::Local { losses } => i == start ==> losses_explained(
                        s,
                        one,
                        i,
                        losses,
                        changes,
                    ),
                    Stage::Steal { rest, losses } => {
                        &&& i != start
                        &&& bits::distance(start as int, visit.shard as int) <= bits::distance(
                            start as int,
                            i,
                        )
                        &&& if visit.shard == i {
                            losses_explained(s, one, i, losses, changes)
                        } else {
                            bits::has_bit(rest, i)
                        }
                    },
                    Stage::Drain { .. } => false,
                }
            },
            PopStep::LoadBitmap { start: own, .. } => own == start && i != start,
            _ => false,
        },
        _ => false,
    }
}

/// Going to the nearest candidate does not pass another candidate.
proof fn lemma_steal_approaches<T>(
    t: System<T>,
    start: usize,
    shard_count: usize,
    candidates: usize,
    i: int,
    changes: nat,
)
    requires
        bits::has_bit(candidates, i),
        i != start,
    ensures
        ({
            let step = PopStep::<T>::steal(start, shard_count, candidates);
            &&& system::pop_at(step) matches Progress::Running { operation }
            &&& approaches(t, operation, start, i, changes)
        }),
{
    bits::lemma_zero_has_no_bit();
    let next = bits::nearest(candidates, start as int);
    bits::lemma_nearest(candidates, start as int);
    bits::lemma_without_bit(candidates, next);
}

/// A turn of the pop does not take it past a shard that is within reach.
proof fn lemma_turn_approaches<T>(
    s: System<T>,
    o: nat,
    spurious: bool,
    start: usize,
    i: int,
    changes: nat,
)
    requires
        s.consistent(),
        s.running.contains_key(o),
        s.running[o].unlinked() is None,
        approaches(s, s.running[o], start, i, changes),
        0 <= i < s.shard_count(),
        laws::contents(s, i).len() > 0,
        i == start || bits::has_bit(s.memory.bitmap, i),
        changes < CURRENT_SHARD_CAS_RETRIES,
    ensures
        ({
            let t = s.after_access(o, spurious);
            match s.effect(o, spurious) {
                Effect::Unlink { shard, .. } => bits::distance(start as int, shard as int)
                    <= bits::distance(start as int, i),
                _ => {
                    &&& t.memory.heads == s.memory.heads
                    &&& s.progress(o, spurious) matches Progress::Running { operation }
                    &&& operation.unlinked() is None
                    &&& approaches(t, operation, start, i, changes)
                },
            }
        }),
{
    let t = s.after_access(o, spurious);
    consistency::lemma_access(s, o, spurious);
    assert(lists::chained(s.memory, i, s.lists[i]));
    bits::lemma_distance_is_mutual(start, start);
    assert(bits::distance(start as int, start as int) == 0) by {
        assert(start ^ start == 0) by (bit_vector);
    }
    if let Operation::Pop { step, inner } = s.running[o] {
        match step {
            PopStep::PopOne { visit } => {
                if let Stage::Steal { rest, .. } = visit.stage {
                    if visit.shard != i {
                        lemma_steal_approaches(
                            t,
                            start,
                            visit.shard_count,
                            rest,
                            i,
                            changes,
                        );
                    }
                }
            },
            PopStep::LoadBitmap { shard_count, .. } => {
                let candidates = bits::without_bit(s.memory.bitmap, start as int);
                bits::lemma_without_bit(s.memory.bitmap, start as int);
                lemma_steal_approaches(t, start, shard_count, candidates, i, changes);
            },
            _ => {},
        }
    }
}

/// A pop has not passed a shard that is within reach, or has a value in hand.
proof fn lemma_approaches<T>(
    shard_count: nat,
    states: Seq<System<T>>,
    events: Seq<Event<T>>,
    p: int,
    m: int,
    j: int,
    start: usize,
    i: int,
)
    requires
        system::is_execution(shard_count, states, events),
        0 <= p < m <= j < states.len(),
        events[p] == (Event::<T>::BeginPop { start }),
        0 <= i < shard_count,
        within_reach(states, start, i, p, j),
        states[m].running.contains_key(states[p].begun),
    ensures
        states[m].running[states[p].begun].unlinked() is Some || approaches(
            states[m],
            states[m].running[states[p].begun],
            start,
            i,
            head_changes(states, i, p, m),
        ),
    decreases m - p,
{
    let o = states[p].begun;
    let l = m - 1;
    let s = states[l];
    assert(s.enabled(events[l]));
    assert(states[m] == s.after(events[l]));
    consistency::lemma_execution_consistent(shard_count, states, events, l);
    consistency::lemma_shaped(s);
    laws::lemma_shard_count(shard_count, states, events, l);
    if p < l {
        drain::lemma_over_for_good(shard_count, states, events, p + 1, l, o);
        assert(states[p + 1] == states[p].after(events[p])) by {
            assert(states[p].enabled(events[p]));
        }
        assert(s.running.contains_key(o));
        lemma_approaches(shard_count, states, events, p, l, j, start, i);
        lemma_changes_grow(states, i, p, l, j);
        assert(laws::contents(s, i).len() > 0);
        if let Event::Access { operation, spurious } = events[l] {
            consistency::lemma_access(s, operation, spurious);
            if operation == o && s.running[o].unlinked() is None {
                lemma_turn_approaches(
                    s,
                    o,
                    spurious,
                    start,
                    i,
                    head_changes(states, i, p, l),
                );
            }
        }
    }
}

proof fn lemma_changes_grow<T>(states: Seq<System<T>>, i: int, p: int, m: int, j: int)
    requires
        p <= m <= j,
    ensures
        head_changes(states, i, p, m) <= head_changes(states, i, p, j),
    decreases j - m,
{
    if m < j {
        lemma_changes_grow(states, i, p, m, j - 1);
    }
}

/// A pop among any other operations finds a value that is within its reach, or a nearer one. As
/// long as some shard holds a value, with its bit set unless it is the pop's own, and its head
/// changes fewer times than the pop tries a shard, the pop does not fail, whatever happens to the
/// other shards; and the value that it takes is from a shard that lies no farther away.
pub proof fn law_contended_pop<T>(
    shard_count: nat,
    states: Seq<System<T>>,
    events: Seq<Event<T>>,
    p: int,
    j: int,
    start: usize,
    i: int,
)
    requires
        system::is_execution(shard_count, states, events),
        0 <= p < j < events.len(),
        events[p] == (Event::<T>::BeginPop { start }),
        drain::is_turn(events[j], states[p].begun),
        0 <= i < shard_count,
        within_reach(states, start, i, p, j),
    ensures
        !(states[j].outcome(events[j]) matches Some(Outcome::Pop { result: Err(_) })),
        laws::effect_of(states[j], events[j]) matches Effect::Unlink { shard, .. } ==> (shard
            ^ start) <= ((i as usize) ^ start),
{
    let o = states[p].begun;
    let s = states[j];
    assert(s.enabled(events[j]));
    lemma_approaches(shard_count, states, events, p, j, j, start, i);
    consistency::lemma_execution_consistent(shard_count, states, events, j);
    laws::lemma_shard_count(shard_count, states, events, j);
    assert(laws::contents(s, i).len() > 0);
    if let Event::Access { spurious, .. } = events[j] {
        consistency::lemma_access(s, o, spurious);
        if s.running[o].unlinked() is None {
            lemma_turn_approaches(s, o, spurious, start, i, head_changes(states, i, p, j));
        }
    }
}

} // verus!
