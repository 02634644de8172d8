//! What becomes of operations that are begun when a shard or the stack is closed, or the stack is
//! closed and drained.

use crate::error::{PopError, PushError};
use crate::interleaving::consistency;
use crate::interleaving::laws;
use crate::interleaving::system;
use crate::interleaving::system::{Effect, Event, Operation, Outcome, System};
use crate::steps::PushStep;
use vstd::prelude::*;

verus! {

/// Whether no push numbered `first` or later has read an open head.
spec fn no_head_read<T>(s: System<T>, first: nat) -> bool {
    forall|o: nat| #[trigger]
        s.running.contains_key(o) && first <= o && s.running[o] is Push ==> s.running[o] matches
            Operation::Push { step: PushStep::LoadHead { .. } }
}

/// Whether no pop numbered `first` or later has taken a value.
spec fn nothing_taken<T>(s: System<T>, first: nat) -> bool {
    forall|o: nat| #[trigger]
        s.running.contains_key(o) && first <= o ==> s.running[o].unlinked() is None
}

/// All shards stay closed.
proof fn lemma_stays_closed<T>(
    shard_count: nat,
    states: Seq<System<T>>,
    events: Seq<Event<T>>,
    k: int,
    j: int,
)
    requires
        system::is_execution(shard_count, states, events),
        0 <= k <= j < states.len(),
        laws::all_closed(states[k]),
    ensures
        laws::all_closed(states[j]),
{
    laws::lemma_shard_count(shard_count, states, events, k);
    laws::lemma_shard_count(shard_count, states, events, j);
    assert forall|i: int| 0 <= i < shard_count implies #[trigger] laws::shard_closed(
        states[j],
        i,
    ) by {
        assert(laws::shard_closed(states[k], i));
        laws::law_closed_for_good(shard_count, states, events, k, j, i);
    }
}

proof fn lemma_no_head_read<T>(
    shard_count: nat,
    states: Seq<System<T>>,
    events: Seq<Event<T>>,
    k: int,
    j: int,
)
    requires
        system::is_execution(shard_count, states, events),
        0 <= k <= j < states.len(),
        laws::all_closed(states[k]),
    ensures
        no_head_read(states[j], states[k].begun),
        states[k].begun <= states[j].begun,
    decreases j - k,
{
    consistency::lemma_execution_consistent(shard_count, states, events, k);
    consistency::lemma_shaped(states[k]);
    if k < j {
        lemma_no_head_read(shard_count, states, events, k, j - 1);
        lemma_stays_closed(shard_count, states, events, k, j - 1);
        consistency::lemma_execution_consistent(shard_count, states, events, j - 1);
        let s = states[j - 1];
        let event = events[j - 1];
        assert(s.enabled(event));
        assert(states[j] == s.after(event));
        if let Event::Access { operation, spurious } = event {
            consistency::lemma_access(s, operation, spurious);
            let waiting = s.running[operation];
            if let Operation::Push { step: PushStep::LoadHead { shard, .. } } = waiting {
                assert(laws::shard_closed(s, shard as int));
            }
        }
    }
}

/// A push that is begun when every shard is closed is refused, and hands back its value.
pub proof fn law_push_after_close<T>(
    shard_count: nat,
    states: Seq<System<T>>,
    events: Seq<Event<T>>,
    k: int,
    j: int,
    operation: nat,
    spurious: bool,
    result: Result<(), PushError<T>>,
)
    requires
        system::is_execution(shard_count, states, events),
        0 <= k <= j < events.len(),
        laws::all_closed(states[k]),
        states[k].begun <= operation,
        events[j] == (Event::<T>::Access { operation, spurious }),
        states[j].outcome(events[j]) == Some(Outcome::Push { result }),
    ensures
        states[j].history.offered.contains_key(operation),
        result == Err::<(), _>(PushError::Closed(states[j].history.offered[operation])),
{
    lemma_no_head_read(shard_count, states, events, k, j);
    lemma_stays_closed(shard_count, states, events, k, j);
    consistency::lemma_execution_consistent(shard_count, states, events, j);
    let s = states[j];
    assert(s.enabled(events[j]));
    consistency::lemma_access(s, operation, spurious);
    if let Operation::Push { step: PushStep::LoadHead { shard, .. } } = s.running[operation] {
        assert(laws::shard_closed(s, shard as int));
        if let Err(PushError::Closed(value)) = result {
            laws::law_refused_push(shard_count, states, events, j, value);
        }
    }
}

/// A close that is begun when every shard is closed has nothing to do, and says so.
pub proof fn law_close_after_close<T>(
    shard_count: nat,
    states: Seq<System<T>>,
    events: Seq<Event<T>>,
    k: int,
    j: int,
    operation: nat,
    spurious: bool,
    changed: bool,
)
    requires
        system::is_execution(shard_count, states, events),
        0 <= k <= j < events.len(),
        laws::all_closed(states[k]),
        states[k].begun <= operation,
        events[j] == (Event::<T>::Access { operation, spurious }),
        states[j].outcome(events[j]) == Some(Outcome::<T>::Close { changed }),
    ensures
        !changed,
{
    laws::law_close(shard_count, states, events, j, changed);
    laws::lemma_shard_count(shard_count, states, events, k);
    laws::lemma_shard_count(shard_count, states, events, j + 1);
    consistency::lemma_execution_consistent(shard_count, states, events, k);
    consistency::lemma_execution_consistent(shard_count, states, events, j + 1);
    consistency::lemma_closings(states[k]);
    consistency::lemma_closings(states[j + 1]);
    let sealed = states[j + 1].history.sealed;
    assert forall|i: usize| #[trigger] sealed.contains_key(i) implies sealed[i] != operation by {
        assert(laws::shard_closed(states[k], i as int));
        laws::law_closed_once(shard_count, states, events, k, j + 1, i);
    }
}

proof fn lemma_nothing_taken<T>(
    shard_count: nat,
    states: Seq<System<T>>,
    events: Seq<Event<T>>,
    k: int,
    j: int,
)
    requires
        system::is_execution(shard_count, states, events),
        0 <= k <= j < states.len(),
        laws::all_closed(states[k]),
        laws::all_empty(states[k]),
    ensures
        nothing_taken(states[j], states[k].begun),
    decreases j - k,
{
    consistency::lemma_execution_consistent(shard_count, states, events, k);
    consistency::lemma_shaped(states[k]);
    if k < j {
        lemma_nothing_taken(shard_count, states, events, k, j - 1);
        laws::law_finished_for_good(shard_count, states, events, k, j - 1);
        consistency::lemma_execution_consistent(shard_count, states, events, j - 1);
        let s = states[j - 1];
        let event = events[j - 1];
        assert(s.enabled(event));
        assert(states[j] == s.after(event));
        laws::lemma_contents_step(s, event);
        if let Event::Access { operation, spurious } = event {
            consistency::lemma_access(s, operation, spurious);
            if let Effect::Unlink { shard, .. } = s.effect(operation, spurious) {
                assert(laws::contents(s, shard as int).len() == 0);
            }
        }
    }
}

/// A pop that is begun when every shard is closed and empty reports that the stack is finished.
pub proof fn law_pop_after_finish<T>(
    shard_count: nat,
    states: Seq<System<T>>,
    events: Seq<Event<T>>,
    k: int,
    j: int,
    operation: nat,
    spurious: bool,
    result: Result<T, PopError>,
)
    requires
        system::is_execution(shard_count, states, events),
        0 <= k <= j < events.len(),
        laws::all_closed(states[k]),
        laws::all_empty(states[k]),
        states[k].begun <= operation,
        events[j] == (Event::<T>::Access { operation, spurious }),
        states[j].outcome(events[j]) == Some(Outcome::Pop { result }),
    ensures
        result == Err::<T, _>(PopError::Closed),
{
    lemma_nothing_taken(shard_count, states, events, k, j);
    lemma_stays_closed(shard_count, states, events, k, j);
    assert(states[j].enabled(events[j]));
    match result {
        Ok(value) => {
            laws::law_popped_value_was_in_hand(shard_count, states, events, j, value);
        },
        Err(PopError::Empty) => {
            laws::law_empty_pop_means_open(shard_count, states, events, j);
        },
        Err(PopError::Closed) => {},
    }
}

/// A closed stack loses nothing: once a pop has reported that the stack is finished, and no
/// operation is in flight any more, every value has been returned by a pop or handed back.
pub proof fn law_nothing_lost_by_close<T>(
    shard_count: nat,
    states: Seq<System<T>>,
    events: Seq<Event<T>>,
    k: int,
    j: int,
)
    requires
        laws::follows(shard_count, states, events, k),
        states[k].outcome(events[k]) == Some(
            Outcome::<T>::Pop { result: Err(PopError::Closed) },
        ),
        k < j < states.len(),
        forall|o: nat| !#[trigger] states[j].running.contains_key(o),
    ensures
        forall|push: nat| #[trigger]
            states[j].history.offered.contains_key(push) ==> states[j].history.popped.contains_key(
                push,
            ) != states[j].history.refused.contains(push),
{
    laws::law_closed_pop_means_finished(shard_count, states, events, k);
    laws::law_finished_for_good(shard_count, states, events, k + 1, j);
    laws::law_nothing_hidden_at_rest(shard_count, states, events, j);
    laws::lemma_shard_count(shard_count, states, events, j);
    consistency::lemma_execution_consistent(shard_count, states, events, j);
    assert forall|push: nat| #[trigger]
        states[j].history.offered.contains_key(push) implies states[j].history.popped.contains_key(
        push,
    ) != states[j].history.refused.contains(push) by {
        consistency::lemma_accounted(states[j], push);
    }
}

/// A push whose own shard is closed when it is begun gets no further than to read the head.
pub proof fn lemma_waits<T>(
    shard_count: nat,
    states: Seq<System<T>>,
    events: Seq<Event<T>>,
    b: int,
    j: int,
    start: usize,
    node: usize,
    value: T,
)
    requires
        system::is_execution(shard_count, states, events),
        0 <= b < j < states.len(),
        events[b] == (Event::BeginPush { start, node, value }),
        laws::shard_closed(states[b], start as int),
    ensures
        states[j].running.contains_key(states[b].begun) ==> (
        states[j].running[states[b].begun] matches Operation::Push {
            step: PushStep::LoadHead { shard, .. },
        } && shard == start),
        laws::shard_closed(states[j], start as int),
    decreases j - b,
{
    let s = states[j - 1];
    let event = events[j - 1];
    laws::lemma_shard_count(shard_count, states, events, b);
    assert(states[b].enabled(events[b]));
    assert(s.enabled(event));
    assert(states[j] == s.after(event));
    laws::law_closed_for_good(shard_count, states, events, b, j, start as int);
    laws::law_push_keeps_its_shard(shard_count, states, events, b, j, start, node, value);
    if b < j - 1 {
        lemma_waits(shard_count, states, events, b, j - 1, start, node, value);
        laws::law_push_keeps_its_shard(shard_count, states, events, b, j - 1, start, node, value);
    }
}

/// A push whose own shard is closed when it is begun is refused, and hands back its value,
/// whatever the other shards are.
pub proof fn law_push_on_closed_shard<T>(
    shard_count: nat,
    states: Seq<System<T>>,
    events: Seq<Event<T>>,
    b: int,
    j: int,
    start: usize,
    node: usize,
    value: T,
    spurious: bool,
)
    requires
        system::is_execution(shard_count, states, events),
        0 <= b < j < events.len(),
        events[b] == (Event::BeginPush { start, node, value }),
        laws::shard_closed(states[b], start as int),
        events[j] == (Event::<T>::Access { operation: states[b].begun, spurious }),
        states[j].outcome(events[j]) is Some,
    ensures
        states[j].outcome(events[j]) == Some(
            Outcome::<T>::Push { result: Err(PushError::Closed(value)) },
        ),
{
    let o = states[b].begun;
    lemma_waits(shard_count, states, events, b, j, start, node, value);
    laws::law_push_keeps_its_shard(shard_count, states, events, b, j, start, node, value);
    assert(states[j].enabled(events[j]));
    if let Some(Outcome::Push { result: Err(PushError::Closed(refused)) }) = states[j].outcome(
        events[j],
    ) {
        laws::law_refused_push(shard_count, states, events, j, refused);
    }
}

/// A thread that was refused stays refused: once a push onto a shard was refused, every push that
/// is begun on that shard is.
pub proof fn law_refused_for_good<T>(
    shard_count: nat,
    states: Seq<System<T>>,
    events: Seq<Event<T>>,
    a: int,
    r: int,
    b: int,
    j: int,
    start: usize,
    nodes: (usize, usize),
    values: (T, T),
    spurious: (bool, bool),
)
    requires
        system::is_execution(shard_count, states, events),
        0 <= a < r < b < j < events.len(),
        events[a] == (Event::BeginPush { start, node: nodes.0, value: values.0 }),
        events[r] == (Event::<T>::Access { operation: states[a].begun, spurious: spurious.0 }),
        states[r].outcome(events[r]) matches Some(Outcome::Push { result: Err(_) }),
        events[b] == (Event::BeginPush { start, node: nodes.1, value: values.1 }),
        events[j] == (Event::<T>::Access { operation: states[b].begun, spurious: spurious.1 }),
        states[j].outcome(events[j]) is Some,
    ensures
        states[j].outcome(events[j]) == Some(
            Outcome::<T>::Push { result: Err(PushError::Closed(values.1)) },
        ),
{
    laws::law_push_keeps_its_shard(
        shard_count,
        states,
        events,
        a,
        r,
        start,
        nodes.0,
        values.0,
    );
    assert(states[r].enabled(events[r]));
    if let Some(Outcome::Push { result: Err(PushError::Closed(refused)) }) = states[r].outcome(
        events[r],
    ) {
        laws::law_refused_push(shard_count, states, events, r, refused);
    }
    assert(states[a].enabled(events[a]));
    laws::lemma_shard_count(shard_count, states, events, a);
    laws::law_closed_for_good(shard_count, states, events, r, b, start as int);
    law_push_on_closed_shard(
        shard_count,
        states,
        events,
        b,
        j,
        start,
        nodes.1,
        values.1,
        spurious.1,
    );
}

} // verus!
