//! What becomes of pushes on different shards that overlap.

use crate::error::PushError;
use crate::interleaving::afterwards;
use crate::interleaving::consistency;
use crate::interleaving::laws;
use crate::interleaving::system;
use crate::interleaving::system::{Effect, Event, Outcome, Progress, System};
use crate::interleaving::undisturbed;
use crate::shards;
use crate::shards::ShardView;
use vstd::prelude::*;

verus! {

/// Whether `operation` returned by event `k`, and had succeeded as a push.
pub open spec fn push_returned<T>(
    states: Seq<System<T>>,
    events: Seq<Event<T>>,
    k: int,
    operation: nat,
) -> bool {
    &&& events[k] matches Event::Access { operation: o, .. } && o == operation
    &&& states[k].outcome(events[k]) == Some(
        Outcome::Push { result: Ok::<(), PushError<T>>(()) },
    )
}

/// Whether the push `o` has put its value on its shard, once it was begun.
spec fn landed<T>(s: System<T>, o: nat) -> bool {
    s.running.contains_key(o) ==> s.running[o].private() is None
}

/// The shards `before`, with `value` on top of shard `i` if it is there already.
spec fn with_value<T>(before: Seq<ShardView<T>>, i: int, value: T, there: bool) -> Seq<
    ShardView<T>,
> {
    if there {
        before.update(i, before[i].push(value))
    } else {
        before
    }
}

/// Making and releasing nodes does not show in the shards.
proof fn lemma_no_access<T>(s: System<T>, event: Event<T>)
    requires
        s.consistent(),
        s.enabled(event),
        !(event is Access),
    ensures
        undisturbed::shards_of(s.after(event)) == undisturbed::shards_of(s),
{
    let t = s.after(event);
    laws::lemma_contents_step(s, event);
    assert forall|i: int| 0 <= i < s.shard_count() implies #[trigger] undisturbed::shards_of(t)[i]
        == undisturbed::shards_of(s)[i] by {
        assert(laws::contents(t, i) == laws::contents_after(s, laws::effect_of(s, event), i));
    }
    assert(undisturbed::shards_of(t) =~= undisturbed::shards_of(s));
}

/// An access of a push on an open shard puts its value there or leaves the shards alone, and ends
/// the push only with success.
proof fn lemma_push_access<T>(s: System<T>, o: nat, spurious: bool, shard: usize, value: T)
    requires
        s.consistent(),
        s.running.contains_key(o),
        laws::push_shard(s.running[o]) == Some(shard),
        s.history.offered[o] == value,
        !laws::shard_closed(s, shard as int),
    ensures
        ({
            let t = s.after_access(o, spurious);
            &&& landed(s, o) ==> landed(t, o)
            &&& undisturbed::shards_of(t) == with_value(
                undisturbed::shards_of(s),
                shard as int,
                value,
                !landed(s, o) && landed(t, o),
            )
            &&& match s.progress(o, spurious) {
                Progress::Finished { outcome } => {
                    &&& outcome == (Outcome::Push { result: Ok::<(), PushError<T>>(()) })
                    &&& !t.running.contains_key(o)
                },
                Progress::Running { .. } => t.running.contains_key(o),
            }
        }),
{
    let t = s.after_access(o, spurious);
    let b = undisturbed::shards_of(s);
    let event = Event::<T>::Access { operation: o, spurious };
    let effect = s.effect(o, spurious);
    consistency::lemma_access(s, o, spurious);
    laws::lemma_contents_step(s, event);
    assert(t == s.after(event));
    if let Effect::Publish { node, .. } = effect {
        consistency::lemma_stored(s, node);
    }
    let expected = with_value(b, shard as int, value, !landed(s, o) && landed(t, o));
    assert forall|i: int| 0 <= i < b.len() implies #[trigger] undisturbed::shards_of(t)[i]
        == expected[i] by {
        assert(laws::contents(t, i) == laws::contents_after(s, effect, i));
    }
    assert(undisturbed::shards_of(t) =~= expected);
}

/// A push of `value` onto `shard` that is begun by event `at`.
#[verifier::reject_recursive_types(T)]
pub struct Offer<T> {
    pub at: int,
    pub shard: usize,
    pub value: T,
}

impl<T> Offer<T> {
    /// Whether that is what happens in an execution.
    pub open spec fn happens(self, events: Seq<Event<T>>) -> bool {
        &&& events[self.at] matches Event::BeginPush { start, value, .. }
        &&& start == self.shard
        &&& value == self.value
    }

    /// The number of the push.
    pub open spec fn number(self, states: Seq<System<T>>) -> nat {
        states[self.at].begun
    }

    /// Whether the value is on its shard in state `m`.
    spec fn there(self, states: Seq<System<T>>, m: int) -> bool {
        self.at < m && landed(states[m], self.number(states))
    }

    /// Whether the push has returned with success if it is over in state `m`.
    spec fn well(self, states: Seq<System<T>>, events: Seq<Event<T>>, m: int) -> bool {
        self.at < m && !states[m].running.contains_key(self.number(states)) ==> exists|r: int|
            self.at < r < m && #[trigger] push_returned(states, events, r, self.number(states))
    }
}

/// Whether no other operation than the two pushes takes a turn between states `k` and `j`.
pub open spec fn only_pushes<T>(
    states: Seq<System<T>>,
    events: Seq<Event<T>>,
    k: int,
    j: int,
    one: Offer<T>,
    other: Offer<T>,
) -> bool {
    forall|m: int|
        k <= m < j && m != one.at && m != other.at ==> match #[trigger] events[m] {
            Event::Access { operation, .. } => operation == one.number(states) || operation
                == other.number(states),
            Event::Collect { .. } => true,
            _ => false,
        }
}

/// What the shards `before` become by the pushes, as far as they have come.
spec fn expected<T>(
    before: Seq<ShardView<T>>,
    states: Seq<System<T>>,
    m: int,
    one: Offer<T>,
    other: Offer<T>,
) -> Seq<ShardView<T>> {
    with_value(
        with_value(before, one.shard as int, one.value, one.there(states, m)),
        other.shard as int,
        other.value,
        other.there(states, m),
    )
}

/// The turn of one of the two pushes.
proof fn lemma_turn<T>(
    shard_count: nat,
    states: Seq<System<T>>,
    events: Seq<Event<T>>,
    m: int,
    mine: Offer<T>,
    yours: Offer<T>,
)
    requires
        laws::follows(shard_count, states, events, m),
        0 <= mine.at < m,
        0 <= yours.at < events.len(),
        mine.happens(events),
        yours.happens(events),
        mine.at != yours.at,
        mine.number(states) != yours.number(states),
        !laws::shard_closed(states[m], mine.shard as int),
        events[m] matches Event::Access { operation, .. } && operation == mine.number(states),
    ensures
        undisturbed::shards_of(states[m + 1]) == with_value(
            undisturbed::shards_of(states[m]),
            mine.shard as int,
            mine.value,
            !mine.there(states, m) && mine.there(states, m + 1),
        ),
        mine.there(states, m) ==> mine.there(states, m + 1),
        yours.at < m ==> yours.there(states, m + 1) == yours.there(states, m),
        mine.well(states, events, m + 1),
        yours.at < m && yours.well(states, events, m) ==> yours.well(states, events, m + 1),
        states[m].outcome(events[m]) matches Some(outcome) ==> outcome == (Outcome::Push {
            result: Ok::<(), PushError<T>>(()),
        }),
        states[m].running.contains_key(mine.number(states)),
{
    let o = mine.number(states);
    let s = states[m];
    assert(s.enabled(events[m]));
    assert(states[m + 1] == s.after(events[m]));
    consistency::lemma_execution_consistent(shard_count, states, events, m);
    if let Event::BeginPush { start, node, value } = events[mine.at] {
        laws::law_push_keeps_its_shard(
            shard_count,
            states,
            events,
            mine.at,
            m,
            start,
            node,
            value,
        );
    }
    if let Event::Access { spurious, .. } = events[m] {
        lemma_push_access(s, o, spurious, mine.shard, mine.value);
        if !states[m + 1].running.contains_key(o) {
            assert(push_returned(states, events, m, o));
        }
    }
    if yours.well(states, events, m) && yours.at < m && !s.running.contains_key(
        yours.number(states),
    ) {
        let r = choose|r: int|
            yours.at < r < m && #[trigger] push_returned(states, events, r, yours.number(states));
        assert(push_returned(states, events, r, yours.number(states)));
    }
}

/// Numbers are given out in order.
proof fn lemma_begun_grows<T>(
    shard_count: nat,
    states: Seq<System<T>>,
    events: Seq<Event<T>>,
    k: int,
    j: int,
)
    requires
        system::is_execution(shard_count, states, events),
        0 <= k <= j < states.len(),
    ensures
        states[k].begun <= states[j].begun,
    decreases j - k,
{
    if k < j {
        lemma_begun_grows(shard_count, states, events, k, j - 1);
        assert(states[j - 1].enabled(events[j - 1]));
        assert(states[j] == states[j - 1].after(events[j - 1]));
    }
}

/// The two pushes have different numbers.
proof fn lemma_numbers<T>(
    shard_count: nat,
    states: Seq<System<T>>,
    events: Seq<Event<T>>,
    one: Offer<T>,
    other: Offer<T>,
)
    requires
        system::is_execution(shard_count, states, events),
        0 <= one.at < events.len(),
        0 <= other.at < events.len(),
        one.at != other.at,
        one.happens(events),
        other.happens(events),
    ensures
        one.number(states) != other.number(states),
{
    let (first, second) = if one.at < other.at {
        (one, other)
    } else {
        (other, one)
    };
    assert(states[first.at].enabled(events[first.at]));
    assert(states[first.at + 1] == states[first.at].after(events[first.at]));
    lemma_begun_grows(shard_count, states, events, first.at + 1, second.at);
}

/// A push takes turns only after it was begun.
proof fn lemma_access_is_later<T>(
    shard_count: nat,
    states: Seq<System<T>>,
    events: Seq<Event<T>>,
    l: int,
    offer: Offer<T>,
)
    requires
        laws::follows(shard_count, states, events, l),
        0 <= offer.at < events.len(),
        offer.happens(events),
        events[l] matches Event::Access { operation, .. } && operation == offer.number(states),
    ensures
        offer.at < l,
{
    assert(states[l].enabled(events[l]));
    consistency::lemma_execution_consistent(shard_count, states, events, l);
    consistency::lemma_shaped(states[l]);
    if l < offer.at {
        lemma_begun_grows(shard_count, states, events, l, offer.at);
    }
}

/// An event that is no access does not end a push.
proof fn lemma_well_kept<T>(
    states: Seq<System<T>>,
    events: Seq<Event<T>>,
    l: int,
    offer: Offer<T>,
)
    requires
        offer.well(states, events, l),
        offer.happens(events),
        !(events[l] is Access),
        states[l + 1] == states[l].after(events[l]),
    ensures
        offer.well(states, events, l + 1),
{
    if offer.at < l && !states[l + 1].running.contains_key(offer.number(states)) {
        assert(!states[l].running.contains_key(offer.number(states)));
        let r = choose|r: int|
            offer.at < r < l && #[trigger] push_returned(states, events, r, offer.number(states));
        assert(push_returned(states, events, r, offer.number(states)));
    }
}

/// How the shards and the two pushes stand after each event.
proof fn lemma_under_way<T>(
    shard_count: nat,
    states: Seq<System<T>>,
    events: Seq<Event<T>>,
    k: int,
    m: int,
    j: int,
    one: Offer<T>,
    other: Offer<T>,
)
    requires
        system::is_execution(shard_count, states, events),
        0 <= k <= m <= j < states.len(),
        k <= one.at < j,
        k <= other.at < j,
        one.at != other.at,
        one.happens(events),
        other.happens(events),
        one.shard != other.shard,
        !laws::shard_closed(states[k], one.shard as int),
        !laws::shard_closed(states[k], other.shard as int),
        only_pushes(states, events, k, j, one, other),
    ensures
        undisturbed::shards_of(states[m]) == expected(
            undisturbed::shards_of(states[k]),
            states,
            m,
            one,
            other,
        ),
        one.well(states, events, m),
        other.well(states, events, m),
        forall|x: int|
            k <= x < m ==> (states[x].outcome(#[trigger] events[x]) matches Some(outcome)
                ==> outcome == (Outcome::Push { result: Ok::<(), PushError<T>>(()) })),
    decreases m - k,
{
    let before = undisturbed::shards_of(states[k]);
    laws::lemma_shard_count(shard_count, states, events, one.at);
    laws::lemma_shard_count(shard_count, states, events, other.at);
    laws::lemma_shard_count(shard_count, states, events, k);
    assert(states[one.at].enabled(events[one.at]));
    assert(states[other.at].enabled(events[other.at]));
    lemma_numbers(shard_count, states, events, one, other);
    if m > k {
        let l = m - 1;
        lemma_under_way(shard_count, states, events, k, l, j, one, other);
        let s = states[l];
        consistency::lemma_execution_consistent(shard_count, states, events, l);
        consistency::lemma_shaped(s);
        laws::lemma_shard_count(shard_count, states, events, l);
        assert(s.enabled(events[l]));
        assert(states[m] == s.after(events[l]));
        assert(undisturbed::shards_of(s)[one.shard as int].closed == laws::shard_closed(
            s,
            one.shard as int,
        ));
        assert(undisturbed::shards_of(s)[other.shard as int].closed == laws::shard_closed(
            s,
            other.shard as int,
        ));
        assert(before[one.shard as int].closed == laws::shard_closed(
            states[k],
            one.shard as int,
        ));
        assert(before[other.shard as int].closed == laws::shard_closed(
            states[k],
            other.shard as int,
        ));
        if let Event::Access { operation, .. } = events[l] {
            if operation == one.number(states) {
                lemma_access_is_later(shard_count, states, events, l, one);
                lemma_turn(shard_count, states, events, l, one, other);
            } else {
                lemma_access_is_later(shard_count, states, events, l, other);
                lemma_turn(shard_count, states, events, l, other, one);
            }
        } else {
            lemma_no_access(s, events[l]);
            lemma_well_kept(states, events, l, one);
            lemma_well_kept(states, events, l, other);
        }
        assert(undisturbed::shards_of(states[m]) =~= expected(before, states, m, one, other));
    }
}

/// A push is for a shard that exists.
proof fn lemma_shard_exists<T>(
    shard_count: nat,
    states: Seq<System<T>>,
    events: Seq<Event<T>>,
    k: int,
    offer: Offer<T>,
)
    requires
        system::is_execution(shard_count, states, events),
        0 <= k < states.len(),
        0 <= offer.at < events.len(),
        offer.happens(events),
    ensures
        offer.shard < undisturbed::shards_of(states[k]).len(),
{
    laws::lemma_shard_count(shard_count, states, events, k);
    laws::lemma_shard_count(shard_count, states, events, offer.at);
    assert(states[offer.at].enabled(events[offer.at]));
}

/// A value on one shard does not change what is on another.
proof fn lemma_both_values<T>(before: Seq<ShardView<T>>, one: Offer<T>, other: Offer<T>)
    requires
        one.shard < before.len(),
        other.shard < before.len(),
        one.shard != other.shard,
    ensures
        with_value(
            with_value(before, one.shard as int, one.value, true),
            other.shard as int,
            other.value,
            true,
        ) == before.update(one.shard as int, before[one.shard as int].push(one.value)).update(
            other.shard as int,
            before[other.shard as int].push(other.value),
        ),
{
}

/// Shards are independent, also of pushes that overlap: two pushes on different open shards, of
/// which the accesses take turns in any order, both return with success, and leave the same behind
/// as one after the other.
pub proof fn law_overlapping_pushes<T>(
    shard_count: nat,
    states: Seq<System<T>>,
    events: Seq<Event<T>>,
    k: int,
    j: int,
    one: Offer<T>,
    other: Offer<T>,
)
    requires
        system::is_execution(shard_count, states, events),
        0 <= k <= one.at < j < states.len(),
        k <= other.at < j,
        one.at != other.at,
        one.happens(events),
        other.happens(events),
        one.shard != other.shard,
        !laws::shard_closed(states[k], one.shard as int),
        !laws::shard_closed(states[k], other.shard as int),
        only_pushes(states, events, k, j, one, other),
        !states[j].running.contains_key(one.number(states)),
        !states[j].running.contains_key(other.number(states)),
    ensures
        ({
            let before = undisturbed::shards_of(states[k]);
            let i = one.shard as int;
            let h = other.shard as int;
            undisturbed::shards_of(states[j]) == before.update(i, before[i].push(one.value)).update(
                h,
                before[h].push(other.value),
            )
        }),
        exists|r: int|
            one.at < r < j && #[trigger] push_returned(states, events, r, one.number(states)),
        exists|r: int|
            other.at < r < j && #[trigger] push_returned(states, events, r, other.number(states)),
        forall|x: int|
            k <= x < j ==> (states[x].outcome(#[trigger] events[x]) matches Some(outcome)
                ==> outcome == (Outcome::Push { result: Ok::<(), PushError<T>>(()) })),
{
    lemma_under_way(shard_count, states, events, k, j, j, one, other);
    let before = undisturbed::shards_of(states[k]);
    lemma_shard_exists(shard_count, states, events, k, one);
    lemma_shard_exists(shard_count, states, events, k, other);
    lemma_both_values(before, one, other);
}

/// Whether from event `k` on, by which an operation is begun, until event `j` that operation has
/// all the turns.
pub open spec fn has_all_turns<T>(
    states: Seq<System<T>>,
    events: Seq<Event<T>>,
    k: int,
    j: int,
) -> bool {
    forall|m: int|
        k < m <= j ==> (#[trigger] events[m] matches Event::Access { operation, .. } && operation
            == states[k].begun)
}

/// Where a push stands that has all the turns, on a shard that was open.
proof fn lemma_push_alone<T>(
    shard_count: nat,
    states: Seq<System<T>>,
    events: Seq<Event<T>>,
    k: int,
    m: int,
    j: int,
    offer: Offer<T>,
)
    requires
        system::is_execution(shard_count, states, events),
        0 <= k < m <= j < events.len(),
        offer.at == k,
        offer.happens(events),
        has_all_turns(states, events, k, j),
        !laws::shard_closed(states[k], offer.shard as int),
    ensures
        undisturbed::shards_of(states[m]) == with_value(
            undisturbed::shards_of(states[k]),
            offer.shard as int,
            offer.value,
            landed(states[m], states[k].begun),
        ),
        states[m].running.contains_key(states[k].begun),
        !laws::shard_closed(states[m], offer.shard as int),
    decreases m - k,
{
    let o = states[k].begun;
    let l = m - 1;
    let s = states[l];
    lemma_shard_exists(shard_count, states, events, k, offer);
    lemma_shard_exists(shard_count, states, events, m, offer);
    assert(s.enabled(events[l]));
    assert(states[m] == s.after(events[l]));
    assert(states[m].enabled(events[m]));
    consistency::lemma_execution_consistent(shard_count, states, events, l);
    let before = undisturbed::shards_of(states[k]);
    assert(before[offer.shard as int].closed == laws::shard_closed(
        states[k],
        offer.shard as int,
    ));
    if l == k {
        lemma_no_access(s, events[l]);
    } else {
        lemma_push_alone(shard_count, states, events, k, l, j, offer);
        if let Event::BeginPush { start, node, value } = events[k] {
            laws::law_push_keeps_its_shard(
                shard_count,
                states,
                events,
                k,
                l,
                start,
                node,
                value,
            );
        }
        if let Event::Access { spurious, .. } = events[l] {
            lemma_push_access(s, o, spurious, offer.shard, offer.value);
        }
    }
    assert(undisturbed::shards_of(states[m])[offer.shard as int].closed == laws::shard_closed(
        states[m],
        offer.shard as int,
    ));
}

/// A push that has all the turns does to the shards what a push does when calls come one after the
/// other.
pub proof fn law_undisturbed_push<T>(
    shard_count: nat,
    states: Seq<System<T>>,
    events: Seq<Event<T>>,
    k: int,
    j: int,
    start: usize,
    node: usize,
    value: T,
    result: Result<(), PushError<T>>,
)
    requires
        system::is_execution(shard_count, states, events),
        0 <= k < j < events.len(),
        events[k] == (Event::BeginPush { start, node, value }),
        has_all_turns(states, events, k, j),
        states[j].outcome(events[j]) == Some(Outcome::Push { result }),
    ensures
        start < shard_count,
        shards::is_push(
            undisturbed::shards_of(states[k]),
            start as int,
            value,
            result,
            undisturbed::shards_of(states[j + 1]),
        ),
{
    let o = states[k].begun;
    let s = states[j];
    let offer = Offer { at: k, shard: start, value };
    let before = undisturbed::shards_of(states[k]);
    lemma_shard_exists(shard_count, states, events, k, offer);
    laws::lemma_shard_count(shard_count, states, events, k);
    assert(before[start as int].closed == laws::shard_closed(states[k], start as int));
    assert(s.enabled(events[j]));
    assert(states[j + 1] == s.after(events[j]));
    consistency::lemma_execution_consistent(shard_count, states, events, j);
    if let Event::Access { spurious, .. } = events[j] {
        if laws::shard_closed(states[k], start as int) {
            afterwards::law_push_on_closed_shard(
                shard_count,
                states,
                events,
                k,
                j,
                start,
                node,
                value,
                spurious,
            );
            lemma_first_turn(shard_count, states, events, k, j, start, node, value);
            consistency::lemma_execution_consistent(shard_count, states, events, k);
            assert(states[k].enabled(events[k]));
            assert(states[k + 1] == states[k].after(events[k]));
            lemma_no_access(states[k], events[k]);
            undisturbed::lemma_shards_step(s, o, spurious);
            consistency::lemma_access(s, o, spurious);
            afterwards::lemma_waits(shard_count, states, events, k, j, start, node, value);
        } else {
            lemma_push_alone(shard_count, states, events, k, j, j, offer);
            laws::law_push_keeps_its_shard(
                shard_count,
                states,
                events,
                k,
                j,
                start,
                node,
                value,
            );
            lemma_push_access(s, o, spurious, start, value);
        }
    }
}

/// A push whose shard is closed is over with its first turn.
proof fn lemma_first_turn<T>(
    shard_count: nat,
    states: Seq<System<T>>,
    events: Seq<Event<T>>,
    k: int,
    j: int,
    start: usize,
    node: usize,
    value: T,
)
    requires
        system::is_execution(shard_count, states, events),
        0 <= k < j < events.len(),
        events[k] == (Event::BeginPush { start, node, value }),
        has_all_turns(states, events, k, j),
        laws::shard_closed(states[k], start as int),
    ensures
        j == k + 1,
{
    if j > k + 1 {
        let m = k + 1;
        afterwards::lemma_waits(shard_count, states, events, k, m, start, node, value);
        assert(states[m].enabled(events[m]));
        assert(states[m + 1] == states[m].after(events[m]));
        assert(states[m + 1].enabled(events[m + 1]));
    }
}

} // verus!
