//! What becomes of the values in a stack that is popped from only.

use crate::bits;
use crate::error::PopError;
use crate::head::Head;
use crate::interleaving::consistency;
use crate::interleaving::laws;
use crate::interleaving::system;
use crate::interleaving::system::{Effect, Event, Inner, Operation, Outcome, Progress, System};
use crate::lists;
use crate::steps::{PopOneStep, PopStep, Stage};
use vstd::prelude::*;

verus! {

/// Whether the event is a turn of operation `o`.
pub open spec fn is_turn<T>(event: Event<T>, o: nat) -> bool {
    event matches Event::Access { operation, .. } && operation == o
}

/// Whether the operation neither adds a value nor closes a shard.
pub open spec fn looks<T>(operation: Operation<T>) -> bool {
    operation is Pop || operation is IsClosed
}

/// What a pop has found out that was begun since no value is taken off any more.
pub open spec fn finds<T>(s: System<T>, operation: Operation<T>) -> bool {
    &&& operation.unlinked() is None
    &&& match operation {
        Operation::Pop { inner: Inner::Attempt { one, .. }, .. } => match one {
            PopOneStep::LoadNext { shard, node, tag } => s.memory.heads[shard as int] == (Head {
                ptr: Some(node),
                tag,
            }),
            PopOneStep::Exchange { shard, node, tag, .. } => s.memory.heads[shard as int] == (Head {
                ptr: Some(node),
                tag,
            }),
            PopOneStep::ClearBit { shard, .. } => s.lists[shard as int].len() == 0,
            _ => true,
        },
        _ => true,
    }
}

/// A turn that takes no value off keeps to what was found.
pub proof fn lemma_finds<T>(s: System<T>, o: nat, spurious: bool)
    requires
        s.consistent(),
        s.running.contains_key(o),
        finds(s, s.running[o]),
        !(s.effect(o, spurious) is Unlink),
    ensures
        s.progress(o, spurious) matches Progress::Running { operation } ==> finds(s, operation),
{
    consistency::lemma_in_order(s, o);
    if let Operation::Pop {
        inner: Inner::Attempt { one: PopOneStep::LoadHead { shard }, .. },
        ..
    } = s.running[o] {
        assert(lists::chained(s.memory, shard as int, s.lists[shard as int]));
    }
}

/// A pop that is bound to come to shard `i`.
pub open spec fn bound_for<T>(operation: Operation<T>, i: int) -> bool {
    match operation {
        Operation::Pop { step, .. } => match step {
            PopStep::PopOne { visit } => match visit.stage {
                Stage::Local { .. } => true,
                Stage::Steal { rest, .. } => visit.shard == i || bits::has_bit(rest, i),
                Stage::Drain { .. } => false,
            },
            PopStep::LoadBitmap { start, .. } => start != i,
            _ => false,
        },
        _ => false,
    }
}

/// Going to the nearest candidate does not lose sight of another.
proof fn lemma_steal_bound_for<T>(start: usize, shard_count: usize, candidates: usize, i: int)
    requires
        bits::has_bit(candidates, i),
    ensures
        ({
            let step = PopStep::<T>::steal(start, shard_count, candidates);
            &&& system::pop_at(step) matches Progress::Running { operation }
            &&& bound_for(operation, i)
        }),
{
    bits::lemma_zero_has_no_bit();
    bits::lemma_nearest(candidates, start as int);
    bits::lemma_without_bit(candidates, bits::nearest(candidates, start as int));
}

/// A pop that is bound to come to a shard with a value does not end without taking a value.
pub proof fn lemma_stays_bound<T>(s: System<T>, o: nat, spurious: bool, i: int)
    requires
        s.consistent(),
        s.running.contains_key(o),
        finds(s, s.running[o]),
        bound_for(s.running[o], i),
        0 <= i < s.shard_count(),
        s.lists[i].len() > 0,
        bits::has_bit(s.memory.bitmap, i),
        !(s.effect(o, spurious) is Unlink),
    ensures
        s.progress(o, spurious) matches Progress::Running { operation } && bound_for(operation, i),
{
    consistency::lemma_in_order(s, o);
    if let Operation::Pop { step, inner } = s.running[o] {
        match step {
            PopStep::PopOne { visit } => {
                if let Stage::Steal { rest, .. } = visit.stage {
                    if visit.shard != i {
                        lemma_steal_bound_for::<T>(visit.start, visit.shard_count, rest, i);
                    }
                }
            },
            PopStep::LoadBitmap { start, shard_count } => {
                let candidates = bits::without_bit(s.memory.bitmap, start as int);
                bits::lemma_without_bit(s.memory.bitmap, start as int);
                lemma_steal_bound_for::<T>(start, shard_count, candidates, i);
            },
            _ => {},
        }
    }
}

/// Whether from state `k` to state `e` no push or close is in flight or begun.
pub open spec fn popped_from_only<T>(
    states: Seq<System<T>>,
    events: Seq<Event<T>>,
    k: int,
    e: int,
) -> bool {
    &&& forall|o: nat| #[trigger]
        states[k].running.contains_key(o) ==> looks(states[k].running[o])
    &&& forall|m: int|
        k <= m < e ==> !(#[trigger] events[m] is BeginPush) && !(events[m] is BeginClose)
}

/// Whether a value is taken off a shard by event `m`.
pub open spec fn takes<T>(states: Seq<System<T>>, events: Seq<Event<T>>, m: int) -> bool {
    laws::effect_of(states[m], events[m]) is Unlink
}

/// Whether the pop that is begun by event `p` fails by event `j`.
pub open spec fn pop_fails<T>(
    states: Seq<System<T>>,
    events: Seq<Event<T>>,
    p: int,
    j: int,
) -> bool {
    &&& p < j
    &&& events[p] is BeginPop
    &&& is_turn(events[j], states[p].begun)
    &&& states[j].outcome(events[j]) matches Some(Outcome::Pop { result: Err(_) })
}

/// Whether a pop returns a value by event `r`.
pub open spec fn pop_succeeds<T>(states: Seq<System<T>>, events: Seq<Event<T>>, r: int) -> bool {
    states[r].outcome(events[r]) matches Some(Outcome::Pop { result: Ok(_) })
}

/// Numbers are given out in order, and an operation that is over stays over.
pub proof fn lemma_over_for_good<T>(
    shard_count: nat,
    states: Seq<System<T>>,
    events: Seq<Event<T>>,
    n: int,
    m: int,
    o: nat,
)
    requires
        system::is_execution(shard_count, states, events),
        0 <= n <= m < states.len(),
    ensures
        states[n].begun <= states[m].begun,
        o < states[n].begun && !states[n].running.contains_key(o)
            ==> !states[m].running.contains_key(o),
    decreases m - n,
{
    if n < m {
        lemma_over_for_good(shard_count, states, events, n, m - 1, o);
        assert(states[m - 1].enabled(events[m - 1]));
        assert(states[m] == states[m - 1].after(events[m - 1]));
    }
}

/// Only pops and questions are in flight.
proof fn lemma_looks<T>(
    shard_count: nat,
    states: Seq<System<T>>,
    events: Seq<Event<T>>,
    k: int,
    m: int,
    e: int,
    o: nat,
)
    requires
        system::is_execution(shard_count, states, events),
        0 <= k <= m <= e < states.len(),
        popped_from_only(states, events, k, e),
        states[m].running.contains_key(o),
    ensures
        looks(states[m].running[o]),
    decreases m - k,
{
    if k < m {
        let s = states[m - 1];
        assert(s.enabled(events[m - 1]));
        assert(states[m] == s.after(events[m - 1]));
        if s.running.contains_key(o) {
            lemma_looks(shard_count, states, events, k, m - 1, e, o);
        }
        if let Event::Access { operation, spurious } = events[m - 1] {
            if operation == o {
                consistency::lemma_execution_consistent(shard_count, states, events, m - 1);
                consistency::lemma_in_order(s, o);
            }
        }
    }
}

/// What an event does to the heads and lists when only pops and questions are in flight.
proof fn lemma_shrinks<T>(
    shard_count: nat,
    states: Seq<System<T>>,
    events: Seq<Event<T>>,
    k: int,
    m: int,
    e: int,
)
    requires
        system::is_execution(shard_count, states, events),
        0 <= k <= m < e < states.len(),
        popped_from_only(states, events, k, e),
    ensures
        forall|i: int|
            0 <= i < shard_count ==> (#[trigger] states[m + 1].lists[i]).is_prefix_of(
                states[m].lists[i],
            ),
        !takes(states, events, m) ==> states[m + 1].lists == states[m].lists && states[m
            + 1].memory.heads == states[m].memory.heads,
{
    let s = states[m];
    assert(s.enabled(events[m]));
    assert(states[m + 1] == s.after(events[m]));
    laws::lemma_shard_count(shard_count, states, events, m);
    if let Event::Access { operation, spurious } = events[m] {
        lemma_looks(shard_count, states, events, k, m, e, operation);
        consistency::lemma_execution_consistent(shard_count, states, events, m);
        consistency::lemma_access(s, operation, spurious);
        laws::lemma_contents_step(s, events[m]);
        if let Effect::Unlink { shard, .. } = s.effect(operation, spurious) {
            assert(laws::contents(s, shard as int).len() == s.lists[shard as int].len());
        }
    }
}

/// A shard that is empty stays so.
proof fn lemma_stays_empty<T>(
    shard_count: nat,
    states: Seq<System<T>>,
    events: Seq<Event<T>>,
    k: int,
    m: int,
    n: int,
    e: int,
    i: int,
)
    requires
        system::is_execution(shard_count, states, events),
        0 <= k <= m <= n <= e < states.len(),
        popped_from_only(states, events, k, e),
        0 <= i < shard_count,
        states[m].lists[i].len() == 0,
    ensures
        states[n].lists[i].len() == 0,
    decreases n - m,
{
    if m < n {
        lemma_stays_empty(shard_count, states, events, k, m, n - 1, e, i);
        lemma_shrinks(shard_count, states, events, k, n - 1, e);
        assert(states[n].lists[i].is_prefix_of(states[n - 1].lists[i]));
    }
}

/// An operation that was begun since then clears the bit of an empty shard only.
proof fn lemma_clears_empty<T>(
    shard_count: nat,
    states: Seq<System<T>>,
    events: Seq<Event<T>>,
    k: int,
    m: int,
    e: int,
    o: nat,
    shard: usize,
    popped: Option<usize>,
)
    requires
        system::is_execution(shard_count, states, events),
        0 <= k <= m <= e < states.len(),
        popped_from_only(states, events, k, e),
        states[k].begun <= o,
        states[m].running.contains_key(o),
        states[m].running[o] matches Operation::Pop { inner: Inner::Attempt { one, .. }, .. } && one
            == (PopOneStep::<usize, T>::ClearBit { shard, popped }),
    ensures
        shard < shard_count,
        states[m].lists[shard as int].len() == 0,
    decreases m - k,
{
    consistency::lemma_execution_consistent(shard_count, states, events, m);
    consistency::lemma_in_order(states[m], o);
    laws::lemma_shard_count(shard_count, states, events, m);
    consistency::lemma_execution_consistent(shard_count, states, events, k);
    consistency::lemma_shaped(states[k]);
    if k < m {
        let l = m - 1;
        let s = states[l];
        assert(s.enabled(events[l]));
        assert(states[m] == s.after(events[l]));
        consistency::lemma_execution_consistent(shard_count, states, events, l);
        laws::lemma_shard_count(shard_count, states, events, l);
        lemma_shrinks(shard_count, states, events, k, l, e);
        assert(states[m].lists[shard as int].is_prefix_of(s.lists[shard as int]));
        if s.running.contains_key(o) {
            consistency::lemma_in_order(s, o);
            assert(lists::chained(s.memory, shard as int, s.lists[shard as int]));
            if let Operation::Pop {
                inner: Inner::Attempt { one: PopOneStep::ClearBit { shard: x, popped: y }, .. },
                ..
            } = s.running[o] {
                lemma_clears_empty(shard_count, states, events, k, l, e, o, x, y);
            }
            if let Event::Access { operation, spurious } = events[l] {
                if operation == o {
                    consistency::lemma_access(s, o, spurious);
                }
            }
        }
    }
}

/// Once the operations are over that were in flight in state `k`, the bit of a shard with a value
/// is set.
proof fn lemma_bit_set<T>(
    shard_count: nat,
    states: Seq<System<T>>,
    events: Seq<Event<T>>,
    k: int,
    m: int,
    e: int,
    i: int,
)
    requires
        system::is_execution(shard_count, states, events),
        0 <= k <= m <= e < states.len(),
        popped_from_only(states, events, k, e),
        forall|o: nat| o < states[k].begun ==> !#[trigger] states[m].running.contains_key(o),
        0 <= i < shard_count,
        states[m].lists[i].len() > 0,
    ensures
        bits::has_bit(states[m].memory.bitmap, i),
{
    let s = states[m];
    consistency::lemma_execution_consistent(shard_count, states, events, m);
    laws::lemma_shard_count(shard_count, states, events, m);
    consistency::lemma_bit(s, i);
    if s.bit_minded(i) {
        let o = choose|o: nat| #[trigger] s.running.contains_key(o) && s.running[o].minds_bit(i);
        lemma_looks(shard_count, states, events, k, m, e, o);
        consistency::lemma_in_order(s, o);
        if let Operation::Pop {
            inner: Inner::Attempt { one: PopOneStep::ClearBit { shard, popped }, .. },
            ..
        } = s.running[o] {
            lemma_clears_empty(shard_count, states, events, k, m, e, o, shard, popped);
        }
    }
}

/// A value that a pop has in hand stays there until the pop returns it.
proof fn lemma_hand_returns<T>(
    shard_count: nat,
    states: Seq<System<T>>,
    events: Seq<Event<T>>,
    m: int,
    n: int,
    o: nat,
    value: T,
)
    requires
        system::is_execution(shard_count, states, events),
        0 <= m <= n < states.len(),
        laws::in_hand(states[m], o) == Some(value),
    ensures
        laws::in_hand(states[n], o) == Some(value) || exists|r: int|
            m <= r < n && is_turn(#[trigger] events[r], o) && states[r].outcome(events[r]) == Some(
                Outcome::Pop { result: Ok::<T, PopError>(value) },
            ),
    decreases n - m,
{
    if m < n {
        laws::law_pop_returns_what_it_took(shard_count, states, events, m, o, value);
        if laws::in_hand(states[m + 1], o) == Some(value) {
            lemma_hand_returns(shard_count, states, events, m + 1, n, o, value);
        } else {
            assert(is_turn(events[m], o));
        }
    }
}

/// A pop that takes a value off has it in hand.
proof fn lemma_taker<T>(
    shard_count: nat,
    states: Seq<System<T>>,
    events: Seq<Event<T>>,
    m: int,
) -> (o: nat)
    requires
        laws::follows(shard_count, states, events, m),
        takes(states, events, m),
    ensures
        is_turn(events[m], o),
        laws::in_hand(states[m + 1], o) is Some,
        o < states[m].begun,
{
    let s = states[m];
    assert(s.enabled(events[m]));
    assert(states[m + 1] == s.after(events[m]));
    consistency::lemma_execution_consistent(shard_count, states, events, m);
    laws::lemma_contents_step(s, events[m]);
    match events[m] {
        Event::Access { operation, spurious } => {
            consistency::lemma_access(s, operation, spurious);
            operation
        },
        _ => 0,
    }
}

/// A pop that takes a value off does not fail.
proof fn lemma_taker_succeeds<T>(
    shard_count: nat,
    states: Seq<System<T>>,
    events: Seq<Event<T>>,
    m: int,
    p: int,
    j: int,
)
    requires
        system::is_execution(shard_count, states, events),
        0 <= p < m <= j < events.len(),
        pop_fails(states, events, p, j),
        takes(states, events, m),
    ensures
        !is_turn(events[m], states[p].begun),
{
    let o = lemma_taker(shard_count, states, events, m);
    if o == states[p].begun {
        assert(states[j].enabled(events[j]));
        assert(states[j + 1] == states[j].after(events[j]));
        let value = laws::in_hand(states[m + 1], o)->0;
        lemma_hand_returns(shard_count, states, events, m + 1, j + 1, o, value);
        let r = choose|r: int|
            m + 1 <= r < j + 1 && is_turn(#[trigger] events[r], o) && states[r].outcome(events[r])
                == Some(Outcome::Pop { result: Ok::<T, PopError>(value) });
        assert(states[r].enabled(events[r]));
        assert(states[r + 1] == states[r].after(events[r]));
        consistency::lemma_execution_consistent(shard_count, states, events, r);
        consistency::lemma_shaped(states[r]);
        if r < j {
            lemma_over_for_good(shard_count, states, events, r + 1, j, o);
        }
    }
}

/// A pop that is bound to come to a shard with a value is in flight for as long as no value is
/// taken off.
proof fn lemma_stays_bound_for<T>(
    shard_count: nat,
    states: Seq<System<T>>,
    events: Seq<Event<T>>,
    k: int,
    p: int,
    m: int,
    e: int,
    i: int,
)
    requires
        system::is_execution(shard_count, states, events),
        0 <= k <= p < m <= e < states.len(),
        popped_from_only(states, events, k, e),
        forall|o: nat| o < states[k].begun ==> !#[trigger] states[p].running.contains_key(o),
        events[p] is BeginPop,
        forall|x: int| p < x < m ==> !#[trigger] takes(states, events, x),
        0 <= i < shard_count,
        states[m].lists[i].len() > 0,
    ensures
        ({
            let o = states[p].begun;
            &&& states[m].running.contains_key(o)
            &&& finds(states[m], states[m].running[o])
            &&& bound_for(states[m].running[o], i)
        }),
    decreases m - p,
{
    let o = states[p].begun;
    let l = m - 1;
    let s = states[l];
    assert(s.enabled(events[l]));
    assert(states[m] == s.after(events[l]));
    consistency::lemma_execution_consistent(shard_count, states, events, l);
    consistency::lemma_shaped(s);
    laws::lemma_shard_count(shard_count, states, events, l);
    if p < l {
        assert(!takes(states, events, l));
        lemma_shrinks(shard_count, states, events, k, l, e);
        lemma_stays_bound_for(shard_count, states, events, k, p, l, e, i);
        assert forall|x: nat| x < states[k].begun implies !#[trigger] s.running.contains_key(x) by {
            lemma_over_for_good(shard_count, states, events, k, p, x);
            lemma_over_for_good(shard_count, states, events, p, l, x);
        }
        lemma_bit_set(shard_count, states, events, k, l, e, i);
        if let Event::Access { operation, spurious } = events[l] {
            if operation == o {
                lemma_finds(s, o, spurious);
                lemma_stays_bound(s, o, spurious, i);
            }
        }
    }
}

/// A pop among other pops fails only for a reason. Once the pushes are over, and the operations
/// that were in flight then are over too, a pop that is begun fails only if every shard is empty
/// when it returns, or if another pop took a value off some shard meanwhile.
pub proof fn law_failed_pop<T>(
    shard_count: nat,
    states: Seq<System<T>>,
    events: Seq<Event<T>>,
    k: int,
    p: int,
    j: int,
)
    requires
        system::is_execution(shard_count, states, events),
        0 <= k <= p < j < events.len(),
        popped_from_only(states, events, k, j + 1),
        forall|o: nat| o < states[k].begun ==> !#[trigger] states[p].running.contains_key(o),
        pop_fails(states, events, p, j),
    ensures
        laws::all_empty(states[j + 1]) || exists|m: int|
            p < m < j && #[trigger] takes(states, events, m) && !is_turn(
                events[m],
                states[p].begun,
            ),
{
    let o = states[p].begun;
    laws::lemma_shard_count(shard_count, states, events, j + 1);
    if exists|m: int| p < m < j && #[trigger] takes(states, events, m) {
        let m = choose|m: int| p < m < j && #[trigger] takes(states, events, m);
        lemma_taker_succeeds(shard_count, states, events, m, p, j);
    } else {
        if takes(states, events, j) {
            lemma_taker_succeeds(shard_count, states, events, j, p, j);
        }
        lemma_shrinks(shard_count, states, events, k, j, j + 1);
        assert(states[j].enabled(events[j]));
        consistency::lemma_execution_consistent(shard_count, states, events, j);
        laws::lemma_shard_count(shard_count, states, events, j);
        assert forall|i: int| 0 <= i < shard_count implies (#[trigger] laws::contents(
            states[j + 1],
            i,
        )).len() == 0 by {
            if states[j].lists[i].len() > 0 {
                lemma_stays_bound_for(shard_count, states, events, k, p, j, j + 1, i);
                assert forall|x: nat| x < states[k].begun implies !#[trigger] states[
                    j
                ].running.contains_key(x) by {
                    lemma_over_for_good(shard_count, states, events, k, p, x);
                    lemma_over_for_good(shard_count, states, events, p, j, x);
                }
                lemma_bit_set(shard_count, states, events, k, j, j + 1, i);
                if let Event::Access { spurious, .. } = events[j] {
                    lemma_stays_bound(states[j], o, spurious, i);
                }
            }
        }
    }
}

/// Whether some pop that is begun after event `r` fails before state `e`.
pub open spec fn fails_later<T>(
    states: Seq<System<T>>,
    events: Seq<Event<T>>,
    r: int,
    e: int,
) -> bool {
    exists|p: int, j: int| r < p && j < e && #[trigger] pop_fails(states, events, p, j)
}

/// Pops by any number of threads drain the stack. From rest, let there be pops and no push or
/// close, let every pop that returns a value be followed by one that fails, as when each thread
/// pops until it fails, and let there be a pop that fails. Then, at rest again, every shard is
/// empty, and every value that was accepted has been returned.
pub proof fn law_pops_until_failure_drain<T>(
    shard_count: nat,
    states: Seq<System<T>>,
    events: Seq<Event<T>>,
    k: int,
    e: int,
)
    requires
        system::is_execution(shard_count, states, events),
        0 <= k <= e < states.len(),
        forall|o: nat| !#[trigger] states[k].running.contains_key(o),
        forall|o: nat| !#[trigger] states[e].running.contains_key(o),
        popped_from_only(states, events, k, e),
        fails_later(states, events, k - 1, e),
        forall|r: int|
            k <= r < e && #[trigger] pop_succeeds(states, events, r) ==> fails_later(
                states,
                events,
                r,
                e,
            ),
    ensures
        laws::all_empty(states[e]),
        forall|push: nat| #[trigger]
            states[e].history.offered.contains_key(push) ==> states[e].history.popped.contains_key(
                push,
            ) != states[e].history.refused.contains(push),
{
    let (p, j) = choose|p: int, j: int|
        k - 1 < p && j < e && #[trigger] pop_fails(states, events, p, j);
    lemma_last_failure(shard_count, states, events, k, p, j, e);
    laws::law_nothing_hidden_at_rest(shard_count, states, events, e);
    laws::lemma_shard_count(shard_count, states, events, e);
    consistency::lemma_execution_consistent(shard_count, states, events, e);
    assert forall|push: nat| #[trigger]
        states[e].history.offered.contains_key(push) implies states[e].history.popped.contains_key(
        push,
    ) != states[e].history.refused.contains(push) by {
        consistency::lemma_accounted(states[e], push);
    }
}

/// The pop that is begun last of those that fail leaves the stack empty.
proof fn lemma_last_failure<T>(
    shard_count: nat,
    states: Seq<System<T>>,
    events: Seq<Event<T>>,
    k: int,
    p: int,
    j: int,
    e: int,
)
    requires
        system::is_execution(shard_count, states, events),
        0 <= k <= p < j < e < states.len(),
        forall|o: nat| !#[trigger] states[k].running.contains_key(o),
        forall|o: nat| !#[trigger] states[e].running.contains_key(o),
        popped_from_only(states, events, k, e),
        pop_fails(states, events, p, j),
        forall|r: int|
            k <= r < e && #[trigger] pop_succeeds(states, events, r) ==> fails_later(
                states,
                events,
                r,
                e,
            ),
    ensures
        laws::all_empty(states[e]),
    decreases e - p,
{
    assert forall|o: nat| o < states[k].begun implies !#[trigger] states[p].running.contains_key(
        o,
    ) by {
        lemma_over_for_good(shard_count, states, events, k, p, o);
    }
    law_failed_pop(shard_count, states, events, k, p, j);
    laws::lemma_shard_count(shard_count, states, events, j + 1);
    laws::lemma_shard_count(shard_count, states, events, e);
    if laws::all_empty(states[j + 1]) {
        assert forall|i: int| 0 <= i < shard_count implies (#[trigger] laws::contents(
            states[e],
            i,
        )).len() == 0 by {
            assert(laws::contents(states[j + 1], i).len() == 0);
            lemma_stays_empty(shard_count, states, events, k, j + 1, e, e, i);
        }
    } else {
        let m = choose|m: int|
            p < m < j && #[trigger] takes(states, events, m) && !is_turn(
                events[m],
                states[p].begun,
            );
        let o = lemma_taker(shard_count, states, events, m);
        let value = laws::in_hand(states[m + 1], o)->0;
        lemma_hand_returns(shard_count, states, events, m + 1, e, o, value);
        let r = choose|r: int|
            m + 1 <= r < e && is_turn(#[trigger] events[r], o) && states[r].outcome(events[r])
                == Some(Outcome::Pop { result: Ok::<T, PopError>(value) });
        assert(pop_succeeds(states, events, r));
        let (q, n) = choose|q: int, n: int|
            r < q && n < e && #[trigger] pop_fails(states, events, q, n);
        lemma_last_failure(shard_count, states, events, k, q, n, e);
    }
}

} // verus!
