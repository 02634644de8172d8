//! What the users of a stack can rely on, whatever the other threads do.
//!
//! Each law speaks of an execution: any sequence of states in which any number of operations are
//! begun and make their accesses in any order.

use crate::bits;
use crate::error::{PopError, PushError};
use crate::interleaving::consistency;
use crate::interleaving::system;
use crate::interleaving::system::{Effect, Event, Inner, Operation, Outcome, Progress, System};
use crate::layout;
use crate::lists;
use crate::steps::pop;
use crate::steps::{CloseStep, PopOneStep, PopStep, PushStep, Stage};
use vstd::prelude::*;

verus! {

/// The values in a shard, top value last.
pub open spec fn contents<T>(s: System<T>, shard: int) -> Seq<T> {
    lists::items(s.memory, s.lists[shard])
}

/// Whether a shard takes no more values.
pub open spec fn shard_closed<T>(s: System<T>, shard: int) -> bool {
    s.memory.heads[shard].closed()
}

/// Whether every shard is closed.
pub open spec fn all_closed<T>(s: System<T>) -> bool {
    forall|i: int| 0 <= i < s.shard_count() ==> #[trigger] shard_closed(s, i)
}

/// Whether every shard is empty.
pub open spec fn all_empty<T>(s: System<T>) -> bool {
    forall|i: int| 0 <= i < s.shard_count() ==> (#[trigger] contents(s, i)).len() == 0
}

/// The value that a pop has taken off a shard and not yet returned.
pub open spec fn in_hand<T>(s: System<T>, operation: nat) -> Option<T> {
    if s.running.contains_key(operation) {
        match s.running[operation].unlinked() {
            Some(node) => s.memory.nodes[node].value,
            None => None,
        }
    } else {
        None
    }
}

/// Whether a state follows another within an execution, by `event`.
pub open spec fn follows<T>(
    shard_count: nat,
    states: Seq<System<T>>,
    events: Seq<Event<T>>,
    k: int,
) -> bool {
    &&& system::is_execution(shard_count, states, events)
    &&& 0 <= k < events.len()
}

/// The two states around an event are in order.
proof fn lemma_around<T>(shard_count: nat, states: Seq<System<T>>, events: Seq<Event<T>>, k: int)
    requires
        follows(shard_count, states, events, k),
    ensures
        states[k].consistent(),
        states[k + 1].consistent(),
        states[k].enabled(events[k]),
        states[k + 1] == states[k].after(events[k]),
        states[k + 1].shard_count() == states[k].shard_count(),
{
    consistency::lemma_execution_consistent(shard_count, states, events, k);
    consistency::lemma_execution_consistent(shard_count, states, events, k + 1);
    assert(states[k].enabled(events[k]));
    if let Event::Access { operation, spurious } = events[k] {
        consistency::lemma_access(states[k], operation, spurious);
    }
}

/// A pop reports that the stack is finished only when every shard is closed and empty.
pub proof fn law_closed_pop_means_finished<T>(
    shard_count: nat,
    states: Seq<System<T>>,
    events: Seq<Event<T>>,
    k: int,
)
    requires
        follows(shard_count, states, events, k),
        states[k].outcome(events[k]) == Some(
            Outcome::<T>::Pop { result: Err(PopError::Closed) },
        ),
    ensures
        all_closed(states[k + 1]),
        all_empty(states[k + 1]),
{
    lemma_around(shard_count, states, events, k);
    let s = states[k];
    let t = states[k + 1];
    if let Event::Access { operation, spurious } = events[k] {
        consistency::lemma_in_order(s, operation);
        if let Operation::Pop { step: PopStep::PopOne { visit }, .. } = s.running[operation] {
            if let Stage::Drain { offset } = visit.stage {
                layout::lemma_valid_shard_counts(s.shard_count());
                assert forall|i: int| 0 <= i < t.shard_count() implies #[trigger] shard_closed(
                    t,
                    i,
                ) by {
                    assert(s.memory.heads[i].closed());
                }
                assert forall|i: int| 0 <= i < t.shard_count() implies (#[trigger] contents(
                    t,
                    i,
                )).len() == 0 by {
                    lemma_offset_of(visit.start, visit.shard_count, i);
                }
            }
        }
    }
}

/// Every shard lies at some distance from any other.
proof fn lemma_offset_of(start: usize, shard_count: usize, shard: int)
    requires
        layout::valid_shard_count(shard_count as int),
        start < shard_count,
        0 <= shard < shard_count,
    ensures
        exists|k: usize| k < shard_count && #[trigger] pop::at_distance(start, k) == shard,
{
    let k = start ^ (shard as usize);
    layout::lemma_distance_below(start, shard as usize, shard_count);
    bits::lemma_distance_is_mutual(start, shard as usize);
    assert(pop::at_distance(start, k) == shard);
}

/// What an event does to the memory besides making or releasing nodes that nobody uses.
pub open spec fn effect_of<T>(s: System<T>, event: Event<T>) -> Effect {
    match event {
        Event::Access { operation, spurious } => s.effect(operation, spurious),
        _ => Effect::Nothing,
    }
}

/// What a shard holds after an access.
pub open spec fn contents_after<T>(s: System<T>, effect: Effect, shard: int) -> Seq<T> {
    match effect {
        Effect::Publish { shard: i, node, .. } => if i == shard {
            contents(s, shard).push(s.memory.nodes[node].value->0)
        } else {
            contents(s, shard)
        },
        Effect::Unlink { shard: i, .. } => if i == shard {
            contents(s, shard).drop_last()
        } else {
            contents(s, shard)
        },
        _ => contents(s, shard),
    }
}

/// Only a publication and an unlinking change what a shard holds.
pub proof fn lemma_contents_step<T>(s: System<T>, event: Event<T>)
    requires
        s.consistent(),
        s.enabled(event),
    ensures
        forall|i: int|
            0 <= i < s.shard_count() ==> #[trigger] contents(s.after(event), i) == contents_after(
                s,
                effect_of(s, event),
                i,
            ),
        effect_of(s, event) matches Effect::Unlink { shard, node, .. } ==> contents(
            s,
            shard as int,
        ).len() > 0 && s.memory.nodes[node].value == Some(contents(s, shard as int).last()),
{
    let t = s.after(event);
    consistency::lemma_shaped(s);
    assert forall|id: usize| #[trigger] lists::listed(s.lists, id) implies s.stored(id) by {
        lists::lemma_listed_has_value(s.memory, s.lists, id);
    }
    match event {
        Event::Access { operation, spurious } => {
            let effect = s.effect(operation, spurious);
            consistency::lemma_access(s, operation, spurious);
            match effect {
                Effect::Publish { shard, node, head } => {
                    lists::lemma_publish(s.memory, s.lists, shard as int, node, head);
                },
                Effect::Unlink { shard, node, tag, .. } => {
                    lists::lemma_unlink(s.memory, s.lists, shard as int, node, tag);
                },
                _ => {
                    lists::lemma_frame(s.memory, t.memory, s.lists);
                },
            }
        },
        _ => {
            lists::lemma_frame(s.memory, t.memory, s.lists);
        },
    }
    assert forall|i: int| 0 <= i < s.shard_count() implies #[trigger] contents(t, i)
        == contents_after(s, effect_of(s, event), i) by {
        assert(s.lists[i] == s.lists[i]);
    }
}

/// Each event puts at most one value on top of one shard, or takes the top value off one shard.
/// The push whose access it is puts the value it was begun with there, on its own shard, and only
/// while that is open; the pop whose access it is had nothing in hand, and then has what it took
/// off the shard that it was trying.
pub proof fn law_last_in_first_out<T>(
    shard_count: nat,
    states: Seq<System<T>>,
    events: Seq<Event<T>>,
    k: int,
)
    requires
        follows(shard_count, states, events, k),
    ensures
        ({
            let s = states[k];
            let t = states[k + 1];
            ||| forall|i: int|
                0 <= i < s.shard_count() ==> #[trigger] contents(t, i) == contents(s, i)
            ||| events[k] matches Event::Access { operation, .. } && exists|shard: int|
                {
                    &&& 0 <= shard < s.shard_count()
                    &&& s.running[operation] matches Operation::Push {
                        step: PushStep::Publish { shard: own, .. },
                    } && own == shard
                    &&& !shard_closed(s, shard)
                    &&& s.history.offered.contains_key(operation)
                    &&& #[trigger] contents(t, shard) == contents(s, shard).push(
                        s.history.offered[operation],
                    )
                    &&& forall|i: int|
                        0 <= i < s.shard_count() && i != shard ==> #[trigger] contents(t, i)
                            == contents(s, i)
                }
            ||| events[k] matches Event::Access { operation, .. } && exists|shard: int|
                {
                    &&& 0 <= shard < s.shard_count()
                    &&& s.running[operation] matches Operation::Pop {
                        inner: Inner::Attempt {
                            one: PopOneStep::Exchange { shard: tried, .. },
                            ..
                        },
                        ..
                    } && tried == shard
                    &&& in_hand(s, operation) is None
                    &&& contents(s, shard).len() > 0
                    &&& #[trigger] contents(t, shard) == contents(s, shard).drop_last()
                    &&& in_hand(t, operation) == Some(contents(s, shard).last())
                    &&& forall|i: int|
                        0 <= i < s.shard_count() && i != shard ==> #[trigger] contents(t, i)
                            == contents(s, i)
                }
        }),
{
    lemma_around(shard_count, states, events, k);
    let s = states[k];
    let t = states[k + 1];
    lemma_contents_step(s, events[k]);
    if let Event::Access { operation, spurious } = events[k] {
        let effect = s.effect(operation, spurious);
        consistency::lemma_access(s, operation, spurious);
        match effect {
            Effect::Publish { shard, node, head } => {
                consistency::lemma_stored(s, node);
                assert(s.memory.nodes[node].value == Some(s.history.offered[operation]));
                assert(contents(t, shard as int) == contents(s, shard as int).push(
                    s.history.offered[operation],
                ));
            },
            Effect::Unlink { shard, node, tag, next } => {
                assert(in_hand(t, operation) == Some(contents(s, shard as int).last()));
                assert(contents(t, shard as int) == contents(s, shard as int).drop_last());
            },
            _ => {},
        }
    }
}

/// The shard that a push is for.
pub open spec fn push_shard<T>(operation: Operation<T>) -> Option<usize> {
    match operation {
        Operation::Push { step } => match step {
            PushStep::LoadHead { shard, .. } => Some(shard),
            PushStep::Publish { shard, .. } => Some(shard),
            PushStep::LoadBitmap { shard } => Some(shard),
            PushStep::SetBit { shard } => Some(shard),
            PushStep::Return { .. } => None,
        },
        _ => None,
    }
}

/// A push keeps the shard and the value that it was begun with for as long as it is in flight.
pub proof fn law_push_keeps_its_shard<T>(
    shard_count: nat,
    states: Seq<System<T>>,
    events: Seq<Event<T>>,
    k: int,
    j: int,
    start: usize,
    node: usize,
    value: T,
)
    requires
        system::is_execution(shard_count, states, events),
        0 <= k < j < states.len(),
        events[k] == (Event::BeginPush { start, node, value }),
    ensures
        states[k].begun < states[j].begun,
        states[j].history.offered.contains_key(states[k].begun),
        states[j].history.offered[states[k].begun] == value,
        states[j].running.contains_key(states[k].begun) ==> push_shard(
            states[j].running[states[k].begun],
        ) == Some(start),
    decreases j - k,
{
    let o = states[k].begun;
    lemma_around(shard_count, states, events, j - 1);
    if j > k + 1 {
        law_push_keeps_its_shard(shard_count, states, events, k, j - 1, start, node, value);
        let s = states[j - 1];
        if let Event::Access { operation, spurious } = events[j - 1] {
            consistency::lemma_access(s, operation, spurious);
        }
    }
}

/// A pop returns the value it has in hand, and keeps it in hand until it returns.
pub proof fn law_pop_returns_what_it_took<T>(
    shard_count: nat,
    states: Seq<System<T>>,
    events: Seq<Event<T>>,
    k: int,
    operation: nat,
    value: T,
)
    requires
        follows(shard_count, states, events, k),
        in_hand(states[k], operation) == Some(value),
    ensures
        in_hand(states[k + 1], operation) == Some(value) || (events[k] matches Event::Access {
            operation: o,
            ..
        } && o == operation && states[k].outcome(events[k]) == Some(
            Outcome::Pop { result: Ok::<T, PopError>(value) },
        )),
{
    lemma_around(shard_count, states, events, k);
    let s = states[k];
    let t = states[k + 1];
    consistency::lemma_in_order(s, operation);
    match events[k] {
        Event::Access { operation: o, spurious } => {
            consistency::lemma_access(s, o, spurious);
            if o != operation {
                consistency::lemma_unshared(s, o, operation);
            }
        },
        _ => {},
    }
}

/// A pop that returns a value had it in hand.
pub proof fn law_popped_value_was_in_hand<T>(
    shard_count: nat,
    states: Seq<System<T>>,
    events: Seq<Event<T>>,
    k: int,
    value: T,
)
    requires
        follows(shard_count, states, events, k),
        states[k].outcome(events[k]) == Some(Outcome::Pop { result: Ok::<T, PopError>(value) }),
    ensures
        events[k] matches Event::Access { operation, .. } && in_hand(states[k], operation) == Some(
            value,
        ),
{
    lemma_around(shard_count, states, events, k);
    let s = states[k];
    if let Event::Access { operation, spurious } = events[k] {
        consistency::lemma_in_order(s, operation);
    }
}

/// A closed shard is closed for good, and nothing is ever added to it.
pub proof fn law_closed_for_good<T>(
    shard_count: nat,
    states: Seq<System<T>>,
    events: Seq<Event<T>>,
    k: int,
    j: int,
    shard: int,
)
    requires
        system::is_execution(shard_count, states, events),
        0 <= k <= j < states.len(),
        0 <= shard < shard_count,
        shard_closed(states[k], shard),
    ensures
        shard_closed(states[j], shard),
        contents(states[j], shard).is_prefix_of(contents(states[k], shard)),
    decreases j - k,
{
    lemma_shard_count(shard_count, states, events, k);
    if k < j {
        lemma_around(shard_count, states, events, k);
        let s = states[k];
        lemma_contents_step(s, events[k]);
        if let Event::Access { operation, spurious } = events[k] {
            consistency::lemma_access(s, operation, spurious);
        }
        assert(contents(s.after(events[k]), shard) == contents_after(
            s,
            effect_of(s, events[k]),
            shard,
        ));
        law_closed_for_good(shard_count, states, events, k + 1, j, shard);
    }
}

/// The number of shards never changes.
pub proof fn lemma_shard_count<T>(
    shard_count: nat,
    states: Seq<System<T>>,
    events: Seq<Event<T>>,
    k: int,
)
    requires
        system::is_execution(shard_count, states, events),
        0 <= k < states.len(),
    ensures
        states[k].shard_count() == shard_count,
        states[k].lists.len() == shard_count,
    decreases k,
{
    consistency::lemma_execution_consistent(shard_count, states, events, k);
    consistency::lemma_shaped(states[k]);
    if k > 0 {
        lemma_shard_count(shard_count, states, events, k - 1);
        lemma_around(shard_count, states, events, k - 1);
    }
}

/// A stack that is closed and empty stays so: once one pop has reported that the stack is
/// finished, no value is ever found in it again.
pub proof fn law_finished_for_good<T>(
    shard_count: nat,
    states: Seq<System<T>>,
    events: Seq<Event<T>>,
    k: int,
    j: int,
)
    requires
        system::is_execution(shard_count, states, events),
        0 <= k <= j < states.len(),
        all_closed(states[k]),
        all_empty(states[k]),
    ensures
        all_closed(states[j]),
        all_empty(states[j]),
{
    lemma_shard_count(shard_count, states, events, k);
    lemma_shard_count(shard_count, states, events, j);
    assert forall|i: int| 0 <= i < shard_count implies #[trigger] shard_closed(states[j], i) by {
        assert(shard_closed(states[k], i));
        law_closed_for_good(shard_count, states, events, k, j, i);
    }
    assert forall|i: int| 0 <= i < shard_count implies (#[trigger] contents(states[j], i)).len()
        == 0 by {
        assert(shard_closed(states[k], i));
        assert(contents(states[k], i).len() == 0);
        law_closed_for_good(shard_count, states, events, k, j, i);
    }
}

/// A pop that comes back empty-handed from a stack that is not finished saw a shard that was
/// open.
pub proof fn law_empty_pop_means_open<T>(
    shard_count: nat,
    states: Seq<System<T>>,
    events: Seq<Event<T>>,
    k: int,
)
    requires
        follows(shard_count, states, events, k),
        states[k].outcome(events[k]) == Some(Outcome::<T>::Pop { result: Err(PopError::Empty) }),
    ensures
        !all_closed(states[k]),
{
    lemma_around(shard_count, states, events, k);
    let s = states[k];
    if let Event::Access { operation, spurious } = events[k] {
        consistency::lemma_in_order(s, operation);
        if let Operation::Pop { inner: Inner::Scan { scan }, .. } = s.running[operation] {
            if let crate::steps::ClosedScanStep::LoadHead { shard, .. } = scan {
                assert(!shard_closed(s, shard as int));
            }
        }
    }
}

/// When a close returns, the stack is closed; it tells whether it closed a shard itself.
pub proof fn law_close<T>(
    shard_count: nat,
    states: Seq<System<T>>,
    events: Seq<Event<T>>,
    k: int,
    changed: bool,
)
    requires
        follows(shard_count, states, events, k),
        states[k].outcome(events[k]) == Some(Outcome::<T>::Close { changed }),
    ensures
        all_closed(states[k + 1]),
        events[k] matches Event::Access { operation, .. } && changed == consistency::sealed_by(
            states[k + 1].history.sealed,
            operation,
        ),
{
    lemma_around(shard_count, states, events, k);
    if let Event::Access { operation, spurious } = events[k] {
        consistency::lemma_in_order(states[k], operation);
        lemma_close_returns(states[k], operation, spurious, changed);
    }
}

proof fn lemma_close_returns<T>(s: System<T>, o: nat, spurious: bool, changed: bool)
    requires
        s.shaped(),
        s.closings_recorded(),
        s.running.contains_key(o),
        s.in_order(o, s.running[o]),
        s.progress(o, spurious) == (Progress::Finished {
            outcome: Outcome::<T>::Close { changed },
        }),
    ensures
        all_closed(s.after_access(o, spurious)),
        changed == s.after_access(o, spurious).has_sealed(o),
{
    let t = s.after_access(o, spurious);
    consistency::lemma_harmless(s, o, spurious);
    consistency::lemma_sealed_kept(s, o, spurious, o);
    consistency::lemma_closed_kept(s, o, spurious);
    if let Operation::Close { step } = s.running[o] {
        assert forall|i: int| 0 <= i < t.shard_count() implies #[trigger] shard_closed(t, i) by {
            match step {
                CloseStep::LoadHead { shard, .. } => {
                    assert(s.memory.heads[i].closed());
                },
                CloseStep::Seal { shard, .. } => {
                    if i < shard {
                        assert(s.memory.heads[i].closed());
                    }
                },
                CloseStep::Return { .. } => {},
            }
        }
    }
}

/// A shard is closed by one close alone, and a shard that is closed was closed by one.
pub proof fn law_closed_once<T>(
    shard_count: nat,
    states: Seq<System<T>>,
    events: Seq<Event<T>>,
    k: int,
    j: int,
    shard: usize,
)
    requires
        system::is_execution(shard_count, states, events),
        0 <= k <= j < states.len(),
        shard < shard_count,
        shard_closed(states[k], shard as int),
    ensures
        states[k].history.sealed.contains_key(shard),
        states[j].history.sealed.contains_key(shard),
        states[j].history.sealed[shard] == states[k].history.sealed[shard],
    decreases j - k,
{
    lemma_shard_count(shard_count, states, events, k);
    consistency::lemma_execution_consistent(shard_count, states, events, k);
    consistency::lemma_closings(states[k]);
    if k < j {
        lemma_around(shard_count, states, events, k);
        let s = states[k];
        if let Event::Access { operation, spurious } = events[k] {
            consistency::lemma_access(s, operation, spurious);
        }
        law_closed_for_good(shard_count, states, events, k, k + 1, shard as int);
        law_closed_once(shard_count, states, events, k + 1, j, shard);
    }
}

/// The question whether the stack is closed is answered for the moment at which it returns.
pub proof fn law_is_closed<T>(
    shard_count: nat,
    states: Seq<System<T>>,
    events: Seq<Event<T>>,
    k: int,
    closed: bool,
)
    requires
        follows(shard_count, states, events, k),
        states[k].outcome(events[k]) == Some(Outcome::<T>::IsClosed { closed }),
    ensures
        closed == all_closed(states[k]),
{
    lemma_around(shard_count, states, events, k);
    let s = states[k];
    if let Event::Access { operation, spurious } = events[k] {
        consistency::lemma_in_order(s, operation);
        if let Operation::IsClosed { step } = s.running[operation] {
            if let crate::steps::ClosedScanStep::LoadHead { shard, .. } = step {
                if closed {
                    assert forall|i: int| 0 <= i < s.shard_count() implies #[trigger] shard_closed(
                        s,
                        i,
                    ) by {
                        assert(s.memory.heads[i].closed());
                    }
                } else {
                    assert(!shard_closed(s, shard as int));
                }
            }
        }
    }
}

/// A push is refused only by a closed shard, and hands back the value it was begun with.
pub proof fn law_refused_push<T>(
    shard_count: nat,
    states: Seq<System<T>>,
    events: Seq<Event<T>>,
    k: int,
    value: T,
)
    requires
        follows(shard_count, states, events, k),
        states[k].outcome(events[k]) == Some(
            Outcome::Push { result: Err(PushError::Closed(value)) },
        ),
    ensures
        events[k] matches Event::Access { operation, .. } && {
            &&& states[k].history.offered.contains_key(operation)
            &&& states[k].history.offered[operation] == value
            &&& states[k].running[operation] matches Operation::Push {
                step: PushStep::LoadHead { shard, .. },
            } && shard_closed(states[k], shard as int)
            &&& states[k + 1].history.refused == states[k].history.refused.insert(operation)
        },
{
    lemma_around(shard_count, states, events, k);
    let s = states[k];
    if let Event::Access { operation, spurious } = events[k] {
        consistency::lemma_in_order(s, operation);
        if let Operation::Push { step: PushStep::LoadHead { node, .. } } = s.running[operation] {
            consistency::lemma_stored(s, node);
            assert(s.memory.nodes[node].value == Some(s.history.offered[operation]));
        }
    }
}

/// A push that succeeds is never refused: its value has been popped or is in the stack.
pub proof fn law_accepted_push<T>(
    shard_count: nat,
    states: Seq<System<T>>,
    events: Seq<Event<T>>,
    k: int,
)
    requires
        follows(shard_count, states, events, k),
        states[k].outcome(events[k]) == Some(
            Outcome::Push { result: Ok::<(), PushError<T>>(()) },
        ),
    ensures
        events[k] matches Event::Access { operation, .. } && {
            let t = states[k + 1];
            &&& t.history.offered.contains_key(operation)
            &&& !t.history.refused.contains(operation)
            &&& t.history.popped.contains_key(operation) || t.stored_somewhere(operation)
        },
{
    lemma_around(shard_count, states, events, k);
    let s = states[k];
    let t = states[k + 1];
    if let Event::Access { operation, spurious } = events[k] {
        consistency::lemma_in_order(s, operation);
        consistency::lemma_accounted(t, operation);
    }
}

/// The value of a push that was begun is in exactly one place: one node holds it, or one pop has
/// got it, or it was handed back. The node that holds it is in one place of one shard or belongs
/// to one operation in flight.
pub proof fn law_value_in_one_place<T>(
    shard_count: nat,
    states: Seq<System<T>>,
    events: Seq<Event<T>>,
    k: int,
    push: nat,
)
    requires
        system::is_execution(shard_count, states, events),
        0 <= k < states.len(),
        states[k].history.offered.contains_key(push),
    ensures
        ({
            let s = states[k];
            let h = s.history;
            &&& h.popped.contains_key(push) || h.refused.contains(push) || s.stored_somewhere(push)
            &&& !(h.popped.contains_key(push) && h.refused.contains(push))
            &&& s.stored_somewhere(push) ==> !h.popped.contains_key(push) && !h.refused.contains(
                push,
            )
            &&& forall|m: usize, n: usize|
                s.stored(m) && s.stored(n) && #[trigger] h.origin[m] == push
                    && #[trigger] h.origin[n] == push ==> m == n
            &&& forall|node: usize|
                s.stored(node) && #[trigger] h.origin[node] == push ==> {
                    &&& s.memory.nodes[node].value == Some(h.offered[push])
                    &&& lists::listed(s.lists, node) != s.owned_by_some(node)
                }
        }),
{
    consistency::lemma_execution_consistent(shard_count, states, events, k);
    let s = states[k];
    let h = s.history;
    consistency::lemma_accounted(s, push);
    if s.stored_somewhere(push) {
        let node = choose|node: usize| s.stored(node) && #[trigger] h.origin[node] == push;
        consistency::lemma_stored(s, node);
    }
    assert forall|m: usize, n: usize|
        s.stored(m) && s.stored(n) && #[trigger] h.origin[m] == push && #[trigger] h.origin[n]
            == push implies m == n by {
        consistency::lemma_origin_unique(s, m, n);
    }
    assert forall|node: usize| s.stored(node) && #[trigger] h.origin[node] == push implies {
        &&& s.memory.nodes[node].value == Some(h.offered[push])
        &&& lists::listed(s.lists, node) != s.owned_by_some(node)
    } by {
        consistency::lemma_stored(s, node);
        if s.owned_by_some(node) {
            let o = choose|o: nat| #[trigger]
                s.running.contains_key(o) && s.running[o].owned() == Some(node);
            consistency::lemma_in_order(s, o);
        }
    }
}

/// A value goes to one pop alone: the pop that returns it is recorded for a push that no pop was
/// recorded for, and that offered that value.
pub proof fn law_value_popped_once<T>(
    shard_count: nat,
    states: Seq<System<T>>,
    events: Seq<Event<T>>,
    k: int,
    value: T,
)
    requires
        follows(shard_count, states, events, k),
        states[k].outcome(events[k]) == Some(Outcome::Pop { result: Ok::<T, PopError>(value) }),
    ensures
        events[k] matches Event::Access { operation, .. } && exists|push: nat|
            {
                &&& states[k].history.offered.contains_key(push)
                &&& #[trigger] states[k].history.offered[push] == value
                &&& !states[k].history.popped.contains_key(push)
                &&& !states[k].history.refused.contains(push)
                &&& states[k + 1].history.popped == states[k].history.popped.insert(
                    push,
                    operation,
                )
            },
{
    lemma_around(shard_count, states, events, k);
    let s = states[k];
    if let Event::Access { operation, spurious } = events[k] {
        consistency::lemma_in_order(s, operation);
        if let Some(node) = s.running[operation].unlinked() {
            consistency::lemma_stored(s, node);
            let push = s.history.origin[node];
            assert(s.history.offered[push] == value);
        }
    }
}

/// What was recorded of a push stays recorded.
pub proof fn law_history_kept<T>(
    shard_count: nat,
    states: Seq<System<T>>,
    events: Seq<Event<T>>,
    k: int,
    j: int,
    push: nat,
)
    requires
        system::is_execution(shard_count, states, events),
        0 <= k <= j < states.len(),
        states[k].history.offered.contains_key(push),
    ensures
        states[j].history.offered.contains_key(push),
        states[j].history.offered[push] == states[k].history.offered[push],
        states[k].history.popped.contains_key(push) ==> states[j].history.popped.contains_key(push)
            && states[j].history.popped[push] == states[k].history.popped[push],
        states[k].history.refused.contains(push) ==> states[j].history.refused.contains(push),
    decreases j - k,
{
    if k < j {
        lemma_around(shard_count, states, events, k);
        let s = states[k];
        match events[k] {
            Event::Access { operation, spurious } => {
                consistency::lemma_access(s, operation, spurious);
                if let Effect::Take { node } = s.effect(operation, spurious) {
                    consistency::lemma_stored(s, node);
                }
            },
            _ => {
                consistency::lemma_accounted(s, push);
            },
        }
        law_history_kept(shard_count, states, events, k + 1, j, push);
    }
}

/// When no operation is in flight, the bit of every shard that holds a value is set, so that a
/// pop by any thread finds the value; and every value that was neither popped nor handed back is
/// in a shard.
pub proof fn law_nothing_hidden_at_rest<T>(
    shard_count: nat,
    states: Seq<System<T>>,
    events: Seq<Event<T>>,
    k: int,
)
    requires
        system::is_execution(shard_count, states, events),
        0 <= k < states.len(),
        forall|o: nat| !#[trigger] states[k].running.contains_key(o),
    ensures
        forall|i: int|
            0 <= i < shard_count && (#[trigger] contents(states[k], i)).len() > 0 ==> bits::has_bit(
                states[k].memory.bitmap,
                i,
            ),
        forall|push: nat| #[trigger]
            states[k].history.offered.contains_key(push) && !states[k].history.popped.contains_key(
                push,
            ) && !states[k].history.refused.contains(push) ==> exists|i: int, place: int|
                0 <= i < shard_count && 0 <= place < contents(states[k], i).len()
                    && #[trigger] contents(states[k], i)[place] == states[k].history.offered[push],
{
    lemma_shard_count(shard_count, states, events, k);
    consistency::lemma_execution_consistent(shard_count, states, events, k);
    let s = states[k];
    assert forall|i: int|
        0 <= i < shard_count && (#[trigger] contents(s, i)).len() > 0 implies bits::has_bit(
        s.memory.bitmap,
        i,
    ) by {
        consistency::lemma_bit(s, i);
    }
    assert forall|push: nat| #[trigger]
        s.history.offered.contains_key(push) && !s.history.popped.contains_key(push)
            && !s.history.refused.contains(push) implies exists|i: int, place: int|
        0 <= i < shard_count && 0 <= place < contents(s, i).len() && #[trigger] contents(
            s,
            i,
        )[place] == s.history.offered[push] by {
        consistency::lemma_accounted(s, push);
        let node = choose|node: usize| s.stored(node) && #[trigger] s.history.origin[node] == push;
        consistency::lemma_stored(s, node);
        let (i, place) = choose|i: int, place: int|
            0 <= i < s.lists.len() && 0 <= place < s.lists[i].len() && #[trigger] s.lists[i][place]
                == node;
        assert(contents(s, i)[place] == s.history.offered[push]);
    }
}

/// A shard's bit is missing over a value only while some operation is about to see to it.
pub proof fn law_missing_bit_is_minded<T>(
    shard_count: nat,
    states: Seq<System<T>>,
    events: Seq<Event<T>>,
    k: int,
    shard: int,
)
    requires
        system::is_execution(shard_count, states, events),
        0 <= k < states.len(),
        0 <= shard < shard_count,
        contents(states[k], shard).len() > 0,
        !bits::has_bit(states[k].memory.bitmap, shard),
    ensures
        states[k].bit_minded(shard),
{
    lemma_shard_count(shard_count, states, events, k);
    consistency::lemma_execution_consistent(shard_count, states, events, k);
    consistency::lemma_bit(states[k], shard);
}

/// An operation reads and takes only nodes that were not released, and takes a value only where
/// there is one.
pub proof fn law_no_access_after_release<T>(
    shard_count: nat,
    states: Seq<System<T>>,
    events: Seq<Event<T>>,
    k: int,
)
    requires
        follows(shard_count, states, events, k),
    ensures
        events[k] matches Event::Access { operation, .. } ==> {
            let s = states[k];
            &&& s.running[operation].seen() matches Some(node) ==> s.memory.nodes.contains_key(node)
            &&& s.running[operation].owned() matches Some(node) ==> s.memory.nodes.contains_key(
                node,
            )
                && s.memory.nodes[node].value is Some
        },
{
    lemma_around(shard_count, states, events, k);
    if let Event::Access { operation, spurious } = events[k] {
        consistency::lemma_in_order(states[k], operation);
    }
}

/// A pop loses an attempt only to another operation that has changed the head since the pop read
/// it. So whenever one operation is held up, another has got on.
pub proof fn law_lost_attempt_was_overtaken<T>(
    shard_count: nat,
    states: Seq<System<T>>,
    events: Seq<Event<T>>,
    k: int,
    operation: nat,
    spurious: bool,
)
    requires
        follows(shard_count, states, events, k),
        events[k] == (Event::<T>::Access { operation, spurious }),
        states[k].running[operation] matches Operation::Pop {
            inner: Inner::Attempt { one: PopOneStep::Exchange { .. }, .. },
            ..
        },
        !(states[k].effect(operation, spurious) is Unlink),
    ensures
        states[k].overtaken.contains(operation),
{
    lemma_around(shard_count, states, events, k);
    consistency::lemma_in_order(states[k], operation);
}

/// The same holds of a push and of a close, where the exchange does not fail for no reason.
pub proof fn law_lost_exchange_was_overtaken<T>(
    shard_count: nat,
    states: Seq<System<T>>,
    events: Seq<Event<T>>,
    k: int,
    operation: nat,
)
    requires
        follows(shard_count, states, events, k),
        events[k] == (Event::<T>::Access { operation, spurious: false }),
        states[k].running[operation].watched() is Some,
        !(states[k].running[operation] is Pop),
        !(states[k].effect(operation, false) is Publish),
        !(states[k].effect(operation, false) is Seal),
    ensures
        states[k].overtaken.contains(operation),
{
    lemma_around(shard_count, states, events, k);
    consistency::lemma_in_order(states[k], operation);
}

} // verus!
