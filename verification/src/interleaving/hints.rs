//! When an operation reads or writes the bitmap, and why.

use crate::bits;
use crate::error::PushError;
use crate::interleaving::consistency;
use crate::interleaving::drain;
use crate::interleaving::laws;
use crate::interleaving::system;
use crate::interleaving::system::{Effect, Event, Inner, Operation, Outcome, System};
use crate::lists;
use crate::steps::{PopOneStep, PushStep};
use vstd::prelude::*;

verus! {

/// Whether operation `o` puts a value on shard `i` by event `r`, and the shard was empty before.
pub open spec fn fills<T>(
    states: Seq<System<T>>,
    events: Seq<Event<T>>,
    r: int,
    o: nat,
    i: int,
) -> bool {
    &&& drain::is_turn(events[r], o)
    &&& laws::contents(states[r], i).len() == 0
    &&& laws::contents(states[r + 1], i).len() == 1
}

/// Whether shard `i` was empty in some state after `p`, up to `m`.
pub open spec fn was_empty<T>(states: Seq<System<T>>, i: int, p: int, m: int) -> bool {
    exists|r: int| p < r <= m && (#[trigger] laws::contents(states[r], i)).len() == 0
}

/// Whether the bit of shard `i` was as `set` says in some state after `p`, up to `m`.
pub open spec fn bit_was<T>(states: Seq<System<T>>, i: int, set: bool, p: int, m: int) -> bool {
    exists|r: int| p < r <= m && #[trigger] bits::has_bit(states[r].memory.bitmap, i) == set
}

/// A push looks after the bit of its own shard, and only if it found that shard empty.
proof fn lemma_push_minds<T>(
    shard_count: nat,
    states: Seq<System<T>>,
    events: Seq<Event<T>>,
    b: int,
    m: int,
    start: usize,
    node: usize,
    value: T,
)
    requires
        system::is_execution(shard_count, states, events),
        0 <= b < m < states.len(),
        events[b] == (Event::BeginPush { start, node, value }),
        states[m].running.contains_key(states[b].begun),
    ensures
        match states[m].running[states[b].begun] {
            Operation::Push { step: PushStep::LoadBitmap { shard } } => {
                &&& shard == start
                &&& exists|r: int|
                    b < r < m && #[trigger] fills(
                        states,
                        events,
                        r,
                        states[b].begun,
                        start as int,
                    )
            },
            Operation::Push { step: PushStep::SetBit { shard } } => {
                &&& shard == start
                &&& bit_was(states, start as int, false, b, m)
                &&& exists|r: int|
                    b < r < m && #[trigger] fills(
                        states,
                        events,
                        r,
                        states[b].begun,
                        start as int,
                    )
            },
            Operation::Push { .. } => true,
            _ => false,
        },
    decreases m - b,
{
    let o = states[b].begun;
    let l = m - 1;
    let s = states[l];
    assert(s.enabled(events[l]));
    assert(states[m] == s.after(events[l]));
    laws::law_push_keeps_its_shard(shard_count, states, events, b, m, start, node, value);
    if l > b {
        laws::law_push_keeps_its_shard(shard_count, states, events, b, l, start, node, value);
        consistency::lemma_execution_consistent(shard_count, states, events, l);
        consistency::lemma_shaped(s);
        lemma_push_minds(shard_count, states, events, b, l, start, node, value);
        if s.running[o] == states[m].running[o] {
            if s.running[o] matches Operation::Push { step: PushStep::SetBit { .. } } {
                let q = choose|q: int|
                    b < q <= l && #[trigger] bits::has_bit(
                        states[q].memory.bitmap,
                        start as int,
                    ) == false;
                assert(bits::has_bit(states[q].memory.bitmap, start as int) == false);
            }
        }
        if let Event::Access { operation, spurious } = events[l] {
            if operation == o {
                consistency::lemma_access(s, o, spurious);
                laws::lemma_contents_step(s, events[l]);
                if let Operation::Push { step: PushStep::Publish { shard, head, .. } } = s.running[
                    o
                ] {
                    if let Effect::Publish { .. } = s.effect(o, spurious) {
                        assert(lists::chained(s.memory, shard as int, s.lists[shard as int]));
                        assert(laws::contents(states[m], shard as int) == laws::contents_after(
                            s,
                            s.effect(o, spurious),
                            shard as int,
                        ));
                        if head.ptr is None {
                            assert(fills(states, events, l, o, start as int));
                        }
                    }
                }
                if let Operation::Push { step: PushStep::LoadBitmap { .. } } = s.running[o] {
                    if !bits::has_bit(s.memory.bitmap, start as int) {
                        assert(bits::has_bit(states[l].memory.bitmap, start as int) == false);
                    }
                }
            }
        }
    }
}

/// A push writes to the bitmap only if it found its own shard empty when it put its value there,
/// and saw the shard's bit clear; and it writes nothing but that bit.
pub proof fn law_push_writes_bit<T>(
    shard_count: nat,
    states: Seq<System<T>>,
    events: Seq<Event<T>>,
    b: int,
    k: int,
    start: usize,
    node: usize,
    value: T,
)
    requires
        system::is_execution(shard_count, states, events),
        0 <= b < k < events.len(),
        events[b] == (Event::BeginPush { start, node, value }),
        drain::is_turn(events[k], states[b].begun),
    ensures
        states[k + 1].memory.bitmap == states[k].memory.bitmap || {
            &&& states[k + 1].memory.bitmap == bits::with_bit(
                states[k].memory.bitmap,
                start as int,
            )
            &&& bit_was(states, start as int, false, b, k)
            &&& exists|r: int|
                b < r < k && #[trigger] fills(states, events, r, states[b].begun, start as int)
        },
        !(laws::effect_of(states[k], events[k]) is ClearBit),
        laws::effect_of(states[k], events[k]) is SetBit ==> {
            &&& bit_was(states, start as int, false, b, k)
            &&& exists|r: int|
                b < r < k && #[trigger] fills(states, events, r, states[b].begun, start as int)
        },
{
    assert(states[k].enabled(events[k]));
    assert(states[k + 1] == states[k].after(events[k]));
    lemma_push_minds(shard_count, states, events, b, k, start, node, value);
}

/// A push that puts its value on top of another is over with that: it does not so much as read the
/// bitmap.
pub proof fn law_push_onto_values_is_done<T>(
    shard_count: nat,
    states: Seq<System<T>>,
    events: Seq<Event<T>>,
    b: int,
    k: int,
    start: usize,
    node: usize,
    value: T,
)
    requires
        system::is_execution(shard_count, states, events),
        0 <= b < k < events.len(),
        events[b] == (Event::BeginPush { start, node, value }),
        drain::is_turn(events[k], states[b].begun),
        laws::contents(states[k], start as int).len() > 0,
        laws::contents(states[k + 1], start as int).len() > laws::contents(
            states[k],
            start as int,
        ).len(),
    ensures
        states[k].outcome(events[k]) == Some(
            Outcome::Push { result: Ok::<(), PushError<T>>(()) },
        ),
{
    let s = states[k];
    let o = states[b].begun;
    assert(s.enabled(events[k]));
    assert(states[k + 1] == s.after(events[k]));
    laws::law_push_keeps_its_shard(shard_count, states, events, b, k, start, node, value);
    consistency::lemma_execution_consistent(shard_count, states, events, k);
    laws::lemma_shard_count(shard_count, states, events, k);
    laws::lemma_contents_step(s, events[k]);
    if let Event::Access { spurious, .. } = events[k] {
        consistency::lemma_access(s, o, spurious);
        assert(lists::chained(s.memory, start as int, s.lists[start as int]));
        assert(laws::contents(states[k + 1], start as int) == laws::contents_after(
            s,
            s.effect(o, spurious),
            start as int,
        ));
    }
}

/// What a pop knows that is about to clear a bit or to set it again.
spec fn clearing_known<T>(states: Seq<System<T>>, p: int, m: int, operation: Operation<T>) -> bool {
    match operation {
        Operation::Pop {
            inner: Inner::Attempt { one: PopOneStep::ClearBit { shard, .. }, clearing },
            ..
        } => {
            &&& was_empty(states, shard as int, p, m)
            &&& !(clearing is LoadBitmap) ==> bit_was(states, shard as int, true, p, m)
            &&& clearing is SetBit ==> exists|r: int|
                p < r <= m && (#[trigger] laws::contents(states[r], shard as int)).len() > 0
        },
        _ => true,
    }
}

proof fn lemma_clearing_known<T>(
    shard_count: nat,
    states: Seq<System<T>>,
    events: Seq<Event<T>>,
    p: int,
    m: int,
)
    requires
        system::is_execution(shard_count, states, events),
        0 <= p < m < states.len(),
        events[p] is BeginPop,
        states[m].running.contains_key(states[p].begun),
    ensures
        clearing_known(states, p, m, states[m].running[states[p].begun]),
        states[m].running[states[p].begun] is Pop,
    decreases m - p,
{
    let o = states[p].begun;
    let l = m - 1;
    let s = states[l];
    assert(s.enabled(events[l]));
    assert(states[m] == s.after(events[l]));
    if l > p {
        assert(states[p].enabled(events[p]));
        assert(states[p + 1] == states[p].after(events[p]));
        drain::lemma_over_for_good(shard_count, states, events, p + 1, l, o);
        consistency::lemma_execution_consistent(shard_count, states, events, l);
        consistency::lemma_shaped(s);
        assert(s.running.contains_key(o));
        lemma_clearing_known(shard_count, states, events, p, l);
        if s.running[o] == states[m].running[o] {
            lemma_still_known(states, p, l, s.running[o]);
        }
        if let Event::Access { operation, spurious } = events[l] {
            if operation == o {
                consistency::lemma_access(s, o, spurious);
                lemma_turn_known(shard_count, states, events, p, l, spurious);
            }
        }
    }
}

/// What is known stays known.
proof fn lemma_still_known<T>(states: Seq<System<T>>, p: int, l: int, operation: Operation<T>)
    requires
        clearing_known(states, p, l, operation),
    ensures
        clearing_known(states, p, l + 1, operation),
{
    if let Operation::Pop {
        inner: Inner::Attempt { one: PopOneStep::ClearBit { shard, .. }, clearing },
        ..
    } = operation {
        let i = shard as int;
        let r = choose|r: int| p < r <= l && (#[trigger] laws::contents(states[r], i)).len() == 0;
        assert(laws::contents(states[r], i).len() == 0);
        if !(clearing is LoadBitmap) {
            let q = choose|q: int|
                p < q <= l && #[trigger] bits::has_bit(states[q].memory.bitmap, i) == true;
            assert(bits::has_bit(states[q].memory.bitmap, i) == true);
        }
        if clearing is SetBit {
            let q = choose|q: int|
                p < q <= l && (#[trigger] laws::contents(states[q], i)).len() > 0;
            assert(laws::contents(states[q], i).len() > 0);
        }
    }
}

/// A turn of the pop adds to what is known.
proof fn lemma_turn_known<T>(
    shard_count: nat,
    states: Seq<System<T>>,
    events: Seq<Event<T>>,
    p: int,
    l: int,
    spurious: bool,
)
    requires
        system::is_execution(shard_count, states, events),
        0 <= p < l < events.len(),
        states[l].running.contains_key(states[p].begun),
        states[l].running[states[p].begun] is Pop,
        events[l] == (Event::<T>::Access { operation: states[p].begun, spurious }),
        clearing_known(states, p, l, states[l].running[states[p].begun]),
    ensures
        states[l + 1].running.contains_key(states[p].begun) ==> clearing_known(
            states,
            p,
            l + 1,
            states[l + 1].running[states[p].begun],
        ),
{
    let o = states[p].begun;
    let s = states[l];
    let t = states[l + 1];
    assert(s.enabled(events[l]));
    assert(t == s.after(events[l]));
    consistency::lemma_execution_consistent(shard_count, states, events, l);
    laws::lemma_shard_count(shard_count, states, events, l);
    consistency::lemma_access(s, o, spurious);
    laws::lemma_contents_step(s, events[l]);
    if let Operation::Pop { inner: Inner::Attempt { one, clearing }, .. } = s.running[o] {
        match one {
            PopOneStep::LoadHead { shard } => {
                assert(lists::chained(s.memory, shard as int, s.lists[shard as int]));
                if s.memory.heads[shard as int].ptr is None {
                    assert(laws::contents(states[l], shard as int).len() == 0);
                }
            },
            PopOneStep::Exchange { shard, next, .. } => {
                assert(lists::chained(s.memory, shard as int, s.lists[shard as int]));
                assert(laws::contents(t, shard as int) == laws::contents_after(
                    s,
                    s.effect(o, spurious),
                    shard as int,
                ));
                if next is None && s.effect(o, spurious) is Unlink {
                    assert(laws::contents(states[l + 1], shard as int).len() == 0);
                }
            },
            PopOneStep::ClearBit { shard, .. } => {
                lemma_still_known(states, p, l, s.running[o]);
                let i = shard as int;
                assert(lists::chained(s.memory, i, s.lists[i]));
                if clearing is LoadBitmap && bits::has_bit(s.memory.bitmap, i) {
                    assert(bits::has_bit(states[l].memory.bitmap, i) == true);
                }
                if clearing is LoadHead && s.memory.heads[i].ptr is Some {
                    assert(laws::contents(states[l], i).len() > 0);
                }
            },
            _ => {},
        }
    }
}

/// A pop clears a bit only if, since it was begun, it has found the shard empty or made it so, and
/// has seen the bit set; it sets a bit only if moreover the shard has held a value since it was
/// begun.
pub proof fn law_pop_writes_bit<T>(
    shard_count: nat,
    states: Seq<System<T>>,
    events: Seq<Event<T>>,
    p: int,
    k: int,
)
    requires
        system::is_execution(shard_count, states, events),
        0 <= p < k < events.len(),
        events[p] is BeginPop,
        drain::is_turn(events[k], states[p].begun),
    ensures
        match laws::effect_of(states[k], events[k]) {
            Effect::ClearBit { shard } => {
                &&& states[k + 1].memory.bitmap == bits::without_bit(
                    states[k].memory.bitmap,
                    shard as int,
                )
                &&& was_empty(states, shard as int, p, k)
                &&& bit_was(states, shard as int, true, p, k)
            },
            Effect::SetBit { shard } => {
                &&& states[k + 1].memory.bitmap == bits::with_bit(
                    states[k].memory.bitmap,
                    shard as int,
                )
                &&& was_empty(states, shard as int, p, k)
                &&& exists|r: int|
                    p < r <= k && (#[trigger] laws::contents(states[r], shard as int)).len() > 0
            },
            _ => states[k + 1].memory.bitmap == states[k].memory.bitmap,
        },
{
    assert(states[k].enabled(events[k]));
    assert(states[k + 1] == states[k].after(events[k]));
    lemma_clearing_known(shard_count, states, events, p, k);
    consistency::lemma_execution_consistent(shard_count, states, events, k);
    consistency::lemma_in_order(states[k], states[p].begun);
}

} // verus!
