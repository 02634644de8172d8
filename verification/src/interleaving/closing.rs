//! Which close is the one that closed the stack.

use crate::interleaving::afterwards;
use crate::interleaving::consistency;
use crate::interleaving::independence;
use crate::interleaving::laws;
use crate::interleaving::system;
use crate::interleaving::system::{Event, Outcome, System};
use crate::interleaving::undisturbed;
use crate::layout;
use crate::shards;
use vstd::prelude::*;

verus! {

/// Whether the close `operation` returned by event `r`, and with `changed`.
pub open spec fn close_returned<T>(
    states: Seq<System<T>>,
    events: Seq<Event<T>>,
    r: int,
    operation: nat,
    changed: bool,
) -> bool {
    &&& events[r] matches Event::Access { operation: o, .. } && o == operation
    &&& states[r].outcome(events[r]) == Some(Outcome::<T>::Close { changed })
}

/// Whether the close `operation` has returned `true` before state `e`.
pub open spec fn has_said_so<T>(
    states: Seq<System<T>>,
    events: Seq<Event<T>>,
    e: int,
    operation: nat,
) -> bool {
    exists|r: int| 0 <= r < e && #[trigger] close_returned(states, events, r, operation, true)
}

/// Whether the close `operation` is in flight in state `m` or has returned before.
spec fn on_record<T>(
    states: Seq<System<T>>,
    events: Seq<Event<T>>,
    m: int,
    operation: nat,
) -> bool {
    ||| states[m].running.contains_key(operation) && states[m].running[operation] is Close
    ||| exists|r: int, changed: bool|
        0 <= r < m && #[trigger] close_returned(states, events, r, operation, changed)
}

/// A close that is on record stays so.
proof fn lemma_stays_on_record<T>(
    shard_count: nat,
    states: Seq<System<T>>,
    events: Seq<Event<T>>,
    m: int,
    o: nat,
)
    requires
        laws::follows(shard_count, states, events, m),
        on_record(states, events, m, o),
    ensures
        on_record(states, events, m + 1, o),
{
    let s = states[m];
    consistency::lemma_execution_consistent(shard_count, states, events, m);
    consistency::lemma_shaped(s);
    assert(s.enabled(events[m]));
    assert(states[m + 1] == s.after(events[m]));
    if s.running.contains_key(o) && s.running[o] is Close {
        if let Event::Access { operation, spurious } = events[m] {
            if operation == o {
                consistency::lemma_in_order(s, o);
                if let Some(Outcome::Close { changed }) = s.outcome(events[m]) {
                    assert(close_returned(states, events, m, o, changed));
                }
            }
        }
    } else {
        let (r, changed) = choose|r: int, changed: bool|
            0 <= r < m && #[trigger] close_returned(states, events, r, o, changed);
        assert(close_returned(states, events, r, o, changed));
    }
}

/// Whoever closed a shard is on record.
proof fn lemma_sealer_on_record<T>(
    shard_count: nat,
    states: Seq<System<T>>,
    events: Seq<Event<T>>,
    m: int,
    shard: usize,
)
    requires
        system::is_execution(shard_count, states, events),
        0 <= m < states.len(),
        states[m].history.sealed.contains_key(shard),
    ensures
        on_record(states, events, m, states[m].history.sealed[shard]),
    decreases m,
{
    if m > 0 {
        let l = m - 1;
        let s = states[l];
        assert(s.enabled(events[l]));
        assert(states[m] == s.after(events[l]));
        let o = states[m].history.sealed[shard];
        if s.history.sealed.contains_key(shard) && s.history.sealed[shard] == o {
            lemma_sealer_on_record(shard_count, states, events, l, shard);
            lemma_stays_on_record(shard_count, states, events, l, o);
        } else {
            assert(on_record(states, events, l, o));
            lemma_stays_on_record(shard_count, states, events, l, o);
        }
    }
}

/// A close that was begun is on record.
proof fn lemma_close_on_record<T>(
    shard_count: nat,
    states: Seq<System<T>>,
    events: Seq<Event<T>>,
    b: int,
    m: int,
)
    requires
        system::is_execution(shard_count, states, events),
        0 <= b < m < states.len(),
        events[b] is BeginClose,
    ensures
        on_record(states, events, m, states[b].begun),
    decreases m - b,
{
    if m == b + 1 {
        assert(states[b].enabled(events[b]));
        assert(states[m] == states[b].after(events[b]));
    } else {
        lemma_close_on_record(shard_count, states, events, b, m - 1);
        lemma_stays_on_record(shard_count, states, events, m - 1, states[b].begun);
    }
}

/// A close that has closed a shard says so when it returns.
proof fn lemma_sealer_says_so<T>(
    shard_count: nat,
    states: Seq<System<T>>,
    events: Seq<Event<T>>,
    r: int,
    m: int,
    o: nat,
    changed: bool,
    shard: usize,
)
    requires
        system::is_execution(shard_count, states, events),
        0 <= r < m < states.len(),
        close_returned(states, events, r, o, changed),
        states[m].history.sealed.contains_key(shard),
        states[m].history.sealed[shard] == o,
    ensures
        changed,
{
    laws::law_close(shard_count, states, events, r, changed);
    laws::lemma_shard_count(shard_count, states, events, r + 1);
    laws::lemma_shard_count(shard_count, states, events, m);
    consistency::lemma_execution_consistent(shard_count, states, events, m);
    consistency::lemma_closings(states[m]);
    assert(laws::shard_closed(states[r + 1], shard as int));
    laws::law_closed_once(shard_count, states, events, r + 1, m, shard);
    assert(states[r + 1].history.sealed.contains_key(shard));
}

/// Somebody closed the stack: of the closes that were begun, once they are all over, at least one
/// has returned `true`. Each shard was closed by such a one.
pub proof fn law_some_close_says_so<T>(
    shard_count: nat,
    states: Seq<System<T>>,
    events: Seq<Event<T>>,
    b: int,
    e: int,
)
    requires
        system::is_execution(shard_count, states, events),
        0 <= b < e < states.len(),
        events[b] is BeginClose,
        forall|o: nat| #[trigger]
            states[e].running.contains_key(o) ==> !(states[e].running[o] is Close),
    ensures
        laws::all_closed(states[e]),
        exists|o: nat| #[trigger] has_said_so(states, events, e, o),
        forall|shard: usize|
            shard < shard_count ==> has_said_so(
                states,
                events,
                e,
                #[trigger] states[e].history.sealed[shard],
            ),
{
    lemma_close_on_record(shard_count, states, events, b, e);
    let first = states[b].begun;
    let (x, said) = choose|x: int, said: bool|
        0 <= x < e && #[trigger] close_returned(states, events, x, first, said);
    laws::law_close(shard_count, states, events, x, said);
    laws::lemma_shard_count(shard_count, states, events, x + 1);
    laws::lemma_shard_count(shard_count, states, events, e);
    consistency::lemma_execution_consistent(shard_count, states, events, e);
    consistency::lemma_shaped(states[e]);
    layout::lemma_valid_shard_counts(shard_count as int);
    assert forall|i: int| 0 <= i < shard_count implies #[trigger] laws::shard_closed(
        states[e],
        i,
    ) by {
        assert(laws::shard_closed(states[x + 1], i));
        laws::law_closed_for_good(shard_count, states, events, x + 1, e, i);
    }
    assert forall|shard: usize| shard < shard_count implies has_said_so(
        states,
        events,
        e,
        #[trigger] states[e].history.sealed[shard],
    ) by {
        assert(laws::shard_closed(states[e], shard as int));
        consistency::lemma_closings(states[e]);
        lemma_sealer_on_record(shard_count, states, events, e, shard);
        let o = states[e].history.sealed[shard];
        let (r, changed) = choose|r: int, changed: bool|
            0 <= r < e && #[trigger] close_returned(states, events, r, o, changed);
        lemma_sealer_says_so(shard_count, states, events, r, e, o, changed, shard);
        assert(close_returned(states, events, r, o, true));
    }
    assert(has_said_so(states, events, e, states[e].history.sealed[0usize]));
}

/// Where a close stands that has all the turns: it has changed nothing but which shards are closed,
/// and whatever was closed since was closed by it.
proof fn lemma_close_alone<T>(
    shard_count: nat,
    states: Seq<System<T>>,
    events: Seq<Event<T>>,
    k: int,
    m: int,
    j: int,
)
    requires
        system::is_execution(shard_count, states, events),
        0 <= k < m <= j + 1 < states.len(),
        events[k] is BeginClose,
        independence::has_all_turns(states, events, k, j),
    ensures
        states[m].running.contains_key(states[k].begun)
            ==> states[m].running[states[k].begun] is Close,
        forall|i: int|
            0 <= i < shard_count ==> #[trigger] laws::contents(states[m], i) == laws::contents(
                states[k],
                i,
            ),
        forall|i: usize| #[trigger]
            states[m].history.sealed.contains_key(i) ==> states[m].history.sealed[i]
                == states[k].begun || states[k].history.sealed.contains_key(i),
    decreases m - k,
{
    let o = states[k].begun;
    let l = m - 1;
    let s = states[l];
    assert(s.enabled(events[l]));
    assert(states[m] == s.after(events[l]));
    consistency::lemma_execution_consistent(shard_count, states, events, l);
    laws::lemma_shard_count(shard_count, states, events, l);
    laws::lemma_contents_step(s, events[l]);
    if l > k {
        lemma_close_alone(shard_count, states, events, k, l, j);
        if let Event::Access { spurious, .. } = events[l] {
            consistency::lemma_access(s, o, spurious);
        }
    }
    assert forall|i: int| 0 <= i < shard_count implies #[trigger] laws::contents(states[m], i)
        == laws::contents(states[k], i) by {
        assert(laws::contents(s.after(events[l]), i) == laws::contents_after(
            s,
            laws::effect_of(s, events[l]),
            i,
        ));
        assert(laws::contents(s, i) == laws::contents(states[k], i));
    }
}

/// A close that has all the turns does to the shards what a close does when calls come one after
/// the other: it keeps what they hold, leaves them all closed, and says whether one was open.
pub proof fn law_undisturbed_close<T>(
    shard_count: nat,
    states: Seq<System<T>>,
    events: Seq<Event<T>>,
    k: int,
    j: int,
    changed: bool,
)
    requires
        system::is_execution(shard_count, states, events),
        0 <= k < j < events.len(),
        events[k] is BeginClose,
        independence::has_all_turns(states, events, k, j),
        states[j].outcome(events[j]) == Some(Outcome::<T>::Close { changed }),
    ensures
        shards::is_close(
            undisturbed::shards_of(states[k]),
            changed,
            undisturbed::shards_of(states[j + 1]),
        ),
        changed == !shards::all_closed(undisturbed::shards_of(states[k])),
        undisturbed::shards_of(states[j + 1]) == shards::closed(undisturbed::shards_of(states[k])),
{
    let before = undisturbed::shards_of(states[k]);
    let after = undisturbed::shards_of(states[j + 1]);
    let o = states[k].begun;
    laws::lemma_shard_count(shard_count, states, events, k);
    laws::lemma_shard_count(shard_count, states, events, j + 1);
    laws::law_close(shard_count, states, events, j, changed);
    lemma_close_alone(shard_count, states, events, k, j + 1, j);
    consistency::lemma_execution_consistent(shard_count, states, events, k);
    consistency::lemma_execution_consistent(shard_count, states, events, j + 1);
    consistency::lemma_closings(states[k]);
    consistency::lemma_closings(states[j + 1]);
    layout::lemma_valid_shard_counts(shard_count as int);
    if let Event::Access { spurious, .. } = events[j] {
        if shards::all_closed(before) {
            assert forall|i: int| 0 <= i < shard_count implies #[trigger] laws::shard_closed(
                states[k],
                i,
            ) by {
                assert(before[i].closed);
            }
            afterwards::law_close_after_close(
                shard_count,
                states,
                events,
                k,
                j,
                o,
                spurious,
                changed,
            );
        } else {
            let i = choose|i: int| 0 <= i < before.len() && !(#[trigger] before[i]).closed;
            assert(laws::shard_closed(states[j + 1], i));
            let sealed = states[j + 1].history.sealed;
            assert(sealed.contains_key(i as usize));
            assert(!states[k].history.sealed.contains_key(i as usize));
        }
    }
    assert forall|i: int| 0 <= i < shard_count implies #[trigger] after[i] == shards::closed(
        before,
    )[i] by {
        assert(laws::shard_closed(states[j + 1], i));
        assert(laws::contents(states[j + 1], i) == laws::contents(states[k], i));
    }
    assert(after =~= shards::closed(before));
}

/// The question whether the stack is closed is answered as when calls come one after the other, for
/// the moment at which it returns, whatever other operations are in flight.
pub proof fn law_answer_is_up_to_date<T>(
    shard_count: nat,
    states: Seq<System<T>>,
    events: Seq<Event<T>>,
    k: int,
    closed: bool,
)
    requires
        laws::follows(shard_count, states, events, k),
        states[k].outcome(events[k]) == Some(Outcome::<T>::IsClosed { closed }),
    ensures
        shards::is_answer(undisturbed::shards_of(states[k]), closed),
        undisturbed::shards_of(states[k + 1]) == undisturbed::shards_of(states[k]),
{
    let s = states[k];
    let shards = undisturbed::shards_of(s);
    laws::law_is_closed(shard_count, states, events, k, closed);
    assert(s.enabled(events[k]));
    assert(states[k + 1] == s.after(events[k]));
    consistency::lemma_execution_consistent(shard_count, states, events, k);
    if let Event::Access { operation, spurious } = events[k] {
        undisturbed::lemma_shards_step(s, operation, spurious);
        consistency::lemma_in_order(s, operation);
    }
    assert forall|i: int| 0 <= i < shards.len() implies (#[trigger] shards[i]).closed
        == laws::shard_closed(s, i) by {}
    if !laws::all_closed(s) {
        let i = choose|i: int| 0 <= i < s.shard_count() && !#[trigger] laws::shard_closed(s, i);
        assert(!shards[i].closed);
    }
}

} // verus!
