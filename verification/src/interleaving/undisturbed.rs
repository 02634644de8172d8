//! A pop that no other operation gets in the way of.

use crate::bits;
use crate::error::PopError;
use crate::head::Head;
use crate::interleaving::consistency;
use crate::interleaving::laws;
use crate::interleaving::system;
use crate::interleaving::system::{Effect, Event, Inner, Operation, Outcome, Progress, System};
use crate::layout;
use crate::lists;
use crate::shards;
use crate::shards::ShardView;
use crate::steps::{ClearBitStep, ClosedScanStep, PopOneStep, PopStep, Stage, Visit};
use vstd::prelude::*;

verus! {

/// The shards of a stack with operations in flight.
pub open spec fn shards_of<T>(s: System<T>) -> Seq<ShardView<T>> {
    Seq::new(
        s.shard_count() as nat,
        |i: int| ShardView { items: laws::contents(s, i), closed: laws::shard_closed(s, i) },
    )
}

/// Whether `operation` is the only one in flight.
pub open spec fn alone<T>(s: System<T>, operation: nat) -> bool {
    forall|o: nat| #[trigger] s.running.contains_key(o) <==> o == operation
}

/// How far the pop `o` has come that was begun on the shards `before` and has been alone since.
spec fn on_course<T>(before: Seq<ShardView<T>>, s: System<T>, o: nat, start: usize) -> bool {
    &&& s.consistent()
    &&& alone(s, o)
    &&& !s.overtaken.contains(o)
    &&& before.len() == s.shard_count()
    &&& start < s.shard_count()
    &&& s.running[o] is Pop
    &&& match s.running[o].unlinked() {
        Some(node) => has_victim(before, s, o, start),
        None => shards_of(s) == before && seeking(before, s.running[o], start),
    }
}

/// The pop has taken the value that is due to it.
spec fn has_victim<T>(before: Seq<ShardView<T>>, s: System<T>, o: nat, start: usize) -> bool {
    exists|victim: int|
        {
            &&& #[trigger] shards::is_victim(before, start as int, victim)
            &&& laws::in_hand(s, o) == Some(before[victim].items.last())
            &&& shards_of(s) == before.update(victim, before[victim].pop())
        }
}

/// The pop has taken nothing yet, and has passed over no value.
spec fn seeking<T>(before: Seq<ShardView<T>>, operation: Operation<T>, start: usize) -> bool {
    match operation {
        Operation::Pop { step, inner } => {
            &&& shards::searching(step, before, start, before.len() as usize)
            &&& match inner {
                Inner::Attempt { one: PopOneStep::ClearBit { shard, popped: None }, .. } =>
                    before[shard as int].items.len() == 0,
                _ => true,
            }
        },
        _ => false,
    }
}

/// Where a pop stands that was about to take its next part.
spec fn gets_on<T>(
    before: Seq<ShardView<T>>,
    t: System<T>,
    progress: Progress<T>,
    start: usize,
) -> bool {
    match progress {
        Progress::Running { operation } => {
            &&& operation is Pop
            &&& operation.unlinked() is None
            &&& shards_of(t) == before
            &&& seeking(before, operation, start)
        },
        Progress::Finished { outcome } => outcome matches Outcome::Pop { result } && shards::is_pop(
            before,
            start as int,
            result,
            shards_of(t),
        ),
    }
}

/// Beginning the next part of a search loses nothing.
proof fn lemma_pop_at_gets_on<T>(
    before: Seq<ShardView<T>>,
    t: System<T>,
    step: PopStep<T>,
    start: usize,
)
    requires
        shards_of(t) == before,
        shards::searching(step, before, start, before.len() as usize),
    ensures
        gets_on(before, t, system::pop_at(step), start),
{
}

/// A shard that turned out empty is passed over rightly.
proof fn lemma_empty_gets_on<T>(
    before: Seq<ShardView<T>>,
    t: System<T>,
    visit: Visit,
    start: usize,
)
    requires
        shards_of(t) == before,
        start < before.len(),
        before.len() <= usize::MAX,
        visit.wf(),
        shards::searching(PopStep::<T>::PopOne { visit }, before, start, before.len() as usize),
        before[visit.shard as int].items.len() == 0,
    ensures
        gets_on(before, t, system::pop_at(PopStep::<T>::after_empty(visit)), start),
{
    if let Stage::Steal { rest, .. } = visit.stage {
        shards::lemma_steal(before, start, visit.shard_count, rest);
    }
    lemma_pop_at_gets_on(before, t, PopStep::<T>::after_empty(visit), start);
}

/// The heads and contents of the shards are what the effect makes of them.
pub proof fn lemma_shards_step<T>(s: System<T>, o: nat, spurious: bool)
    requires
        s.consistent(),
        s.running.contains_key(o),
    ensures
        ({
            let t = s.after_access(o, spurious);
            let b = shards_of(s);
            match s.effect(o, spurious) {
                Effect::Unlink { shard, node, .. } => {
                    &&& shard < b.len()
                    &&& b[shard as int].items.len() > 0
                    &&& s.memory.nodes[node].value == Some(b[shard as int].items.last())
                    &&& shards_of(t) == b.update(shard as int, b[shard as int].pop())
                },
                Effect::Publish { .. } => true,
                Effect::Seal { .. } => true,
                _ => shards_of(t) == b,
            }
        }),
{
    let t = s.after_access(o, spurious);
    let b = shards_of(s);
    let event = Event::<T>::Access { operation: o, spurious };
    consistency::lemma_access(s, o, spurious);
    laws::lemma_contents_step(s, event);
    assert(t == s.after(event));
    match s.effect(o, spurious) {
        Effect::Unlink { shard, node, .. } => {
            assert forall|i: int| 0 <= i < b.len() implies #[trigger] shards_of(t)[i] == b.update(
                shard as int,
                b[shard as int].pop(),
            )[i] by {
                assert(laws::contents(t, i) == laws::contents_after(s, s.effect(o, spurious), i));
            }
            assert(shards_of(t) =~= b.update(shard as int, b[shard as int].pop()));
        },
        Effect::Publish { .. } => {},
        Effect::Seal { .. } => {},
        _ => {
            assert forall|i: int| 0 <= i < b.len() implies #[trigger] shards_of(t)[i] == b[i] by {
                assert(laws::contents(t, i) == laws::contents_after(s, s.effect(o, spurious), i));
            }
            assert(shards_of(t) =~= b);
        },
    }
}

/// An attempt that has taken nothing yet gets on.
proof fn lemma_attempt_gets_on<T>(
    before: Seq<ShardView<T>>,
    s: System<T>,
    o: nat,
    start: usize,
    spurious: bool,
    visit: Visit,
    one: PopOneStep<usize, T>,
    clearing: ClearBitStep,
)
    requires
        on_course(before, s, o, start),
        s.running[o] == (Operation::Pop {
            step: PopStep::PopOne { visit },
            inner: Inner::Attempt { one, clearing },
        }),
        s.running[o].unlinked() is None,
    ensures
        ({
            let t = s.after_access(o, spurious);
            let progress = s.progress(o, spurious);
            ||| gets_on(before, t, progress, start)
            ||| progress matches Progress::Running { operation } && operation.unlinked() is Some
                && has_victim(before, t, o, start) && operation is Pop
        }),
{
    let t = s.after_access(o, spurious);
    consistency::lemma_access(s, o, spurious);
    lemma_shards_step(s, o, spurious);
    layout::lemma_valid_shard_counts(s.shard_count());
    match one {
        PopOneStep::LoadHead { shard } => {
            assert(lists::chained(s.memory, shard as int, s.lists[shard as int]));
            assert(before[shard as int].items == laws::contents(s, shard as int));
        },
        PopOneStep::LoadNext { .. } => {},
        PopOneStep::Exchange { shard, node, tag, next } => {
            assert(s.memory.heads[shard as int] == (Head { ptr: Some(node), tag }));
            assert(shards::is_victim(before, start as int, shard as int));
            assert(laws::in_hand(t, o) == Some(before[shard as int].items.last()));
            assert(has_victim(before, t, o, start));
        },
        PopOneStep::ClearBit { shard, popped } => {
            lemma_empty_gets_on(before, t, visit, start);
        },
        _ => {},
    }
}

/// An access of a pop that is alone keeps it on course, or ends it as it should end.
proof fn lemma_stays_on_course<T>(
    before: Seq<ShardView<T>>,
    s: System<T>,
    o: nat,
    start: usize,
    spurious: bool,
)
    requires
        on_course(before, s, o, start),
    ensures
        ({
            let t = s.after_access(o, spurious);
            match s.progress(o, spurious) {
                Progress::Running { .. } => on_course(before, t, o, start),
                Progress::Finished { outcome } => outcome matches Outcome::Pop { result }
                    && shards::is_pop(before, start as int, result, shards_of(t)),
            }
        }),
{
    let t = s.after_access(o, spurious);
    consistency::lemma_access(s, o, spurious);
    consistency::lemma_access_consistent(s, o, spurious);
    lemma_shards_step(s, o, spurious);
    layout::lemma_valid_shard_counts(s.shard_count());
    if let Operation::Pop { step, inner } = s.running[o] {
        match inner {
            Inner::Attempt { one, clearing } => {
                if let PopStep::PopOne { visit } = step {
                    if s.running[o].unlinked() is None {
                        lemma_attempt_gets_on(before, s, o, start, spurious, visit, one, clearing);
                    } else {
                        let victim = choose|victim: int|
                            {
                                &&& #[trigger] shards::is_victim(before, start as int, victim)
                                &&& laws::in_hand(s, o) == Some(before[victim].items.last())
                                &&& shards_of(s) == before.update(victim, before[victim].pop())
                            };
                        assert(shards::is_victim(before, start as int, victim));
                    }
                }
            },
            Inner::Scan { scan } => {
                if let ClosedScanStep::LoadHead { shard, .. } = scan {
                    if let PopStep::AllShardsClosed { start: b, shard_count } = step {
                        lemma_scan_gets_on(before, s, start, shard);
                        let closed = s.memory.heads[shard as int].closed();
                        if !closed || shard + 1 == shard_count {
                            lemma_pop_at_gets_on(
                                before,
                                t,
                                PopStep::<T>::after_scan(start, shard_count, closed),
                                start,
                            );
                        }
                    }
                }
            },
            Inner::Own => {
                if let PopStep::LoadBitmap { shard_count, .. } = step {
                    let candidates = bits::without_bit(s.memory.bitmap, start as int);
                    bits::lemma_without_bit(s.memory.bitmap, start as int);
                    assert forall|i: int|
                        0 <= i < before.len() && (#[trigger] before[i]).items.len() > 0 implies
                        bits::has_bit(candidates, i) by {
                        assert(before[i].items == laws::contents(s, i));
                        consistency::lemma_bit(s, i);
                    }
                    shards::lemma_steal(before, start, shard_count, candidates);
                    lemma_pop_at_gets_on(
                        before,
                        t,
                        PopStep::<T>::steal(start, shard_count, candidates),
                        start,
                    );
                }
            },
        }
    }
}

/// A scan that ends has told the truth about the shards.
proof fn lemma_scan_gets_on<T>(
    before: Seq<ShardView<T>>,
    s: System<T>,
    start: usize,
    shard: usize,
)
    requires
        shards_of(s) == before,
        shard < s.shard_count(),
        shards::all_empty(before),
        consistency::closed_below(s.memory, shard as int),
    ensures
        !s.memory.heads[shard as int].closed() ==> !shards::all_closed(before),
        s.memory.heads[shard as int].closed() && shard + 1 == s.shard_count()
            ==> shards::all_closed(before),
{
    assert(before[shard as int].closed == s.memory.heads[shard as int].closed());
    if s.memory.heads[shard as int].closed() && shard + 1 == s.shard_count() {
        assert forall|i: int| 0 <= i < before.len() implies (#[trigger] before[i]).closed by {
            assert(before[i].closed == s.memory.heads[i].closed());
        }
    }
}

/// A pop that is begun when no operation is in flight, and stays alone, finds a value whenever
/// there is one: its own shard's top value, or else that of the nearest shard with a value. It
/// comes back without a value only from an empty stack, and then tells whether the stack is
/// closed. So no value that operations left behind is out of a pop's reach.
pub proof fn law_undisturbed_pop<T>(
    shard_count: nat,
    states: Seq<System<T>>,
    events: Seq<Event<T>>,
    k: int,
    j: int,
    start: usize,
    result: Result<T, PopError>,
)
    requires
        system::is_execution(shard_count, states, events),
        0 <= k < j < events.len(),
        forall|o: nat| !#[trigger] states[k].running.contains_key(o),
        events[k] == (Event::<T>::BeginPop { start }),
        forall|m: int|
            k < m <= j ==> (#[trigger] events[m] matches Event::Access { operation, .. }
                && operation == states[k].begun),
        states[j].outcome(events[j]) == Some(Outcome::Pop { result }),
    ensures
        shards::is_pop(shards_of(states[k]), start as int, result, shards_of(states[j + 1])),
{
    lemma_course(shard_count, states, events, k, j, start);
    let before = shards_of(states[k]);
    let o = states[k].begun;
    assert(states[j].enabled(events[j]));
    if let Event::Access { operation, spurious } = events[j] {
        lemma_stays_on_course(before, states[j], o, start, spurious);
    }
}

/// The pop is on course before each of its accesses.
proof fn lemma_course<T>(
    shard_count: nat,
    states: Seq<System<T>>,
    events: Seq<Event<T>>,
    k: int,
    j: int,
    start: usize,
)
    requires
        system::is_execution(shard_count, states, events),
        0 <= k < j < events.len(),
        forall|o: nat| !#[trigger] states[k].running.contains_key(o),
        events[k] == (Event::<T>::BeginPop { start }),
        forall|m: int|
            k < m <= j ==> (#[trigger] events[m] matches Event::Access { operation, .. }
                && operation == states[k].begun),
    ensures
        on_course(shards_of(states[k]), states[j], states[k].begun, start),
    decreases j - k,
{
    let before = shards_of(states[k]);
    let o = states[k].begun;
    consistency::lemma_execution_consistent(shard_count, states, events, j);
    if j == k + 1 {
        consistency::lemma_execution_consistent(shard_count, states, events, k);
        consistency::lemma_shaped(states[k]);
        layout::lemma_valid_shard_counts(states[k].shard_count());
        assert(states[k].enabled(events[k]));
        assert(states[j] == states[k].after(events[k]));
        assert(shards_of(states[j]) =~= before);
    } else {
        lemma_course(shard_count, states, events, k, j - 1, start);
        let event = events[j - 1];
        assert(states[j - 1].enabled(event));
        assert(states[j] == states[j - 1].after(event));
        assert(states[j].enabled(events[j]));
        if let Event::Access { operation, spurious } = event {
            lemma_stays_on_course(before, states[j - 1], o, start, spurious);
        }
    }
}

/// Whether a pop by the owner of shard `start` is begun by event `k`, has all turns until state
/// `e`, and then has returned `result`.
pub open spec fn pops_alone<T>(
    states: Seq<System<T>>,
    events: Seq<Event<T>>,
    k: int,
    e: int,
    start: usize,
    result: Result<T, PopError>,
) -> bool {
    &&& 0 <= k
    &&& k + 1 < e <= events.len()
    &&& events[k] == (Event::<T>::BeginPop { start })
    &&& forall|m: int|
        k < m < e ==> (#[trigger] events[m] matches Event::Access { operation, .. } && operation
            == states[k].begun)
    &&& states[e - 1].outcome(events[e - 1]) == Some(Outcome::Pop { result })
}

/// A pop that was alone leaves the stack at rest.
proof fn lemma_rest_kept<T>(
    shard_count: nat,
    states: Seq<System<T>>,
    events: Seq<Event<T>>,
    k: int,
    e: int,
    start: usize,
    result: Result<T, PopError>,
)
    requires
        system::is_execution(shard_count, states, events),
        forall|o: nat| !#[trigger] states[k].running.contains_key(o),
        pops_alone(states, events, k, e, start, result),
    ensures
        forall|o: nat| !#[trigger] states[e].running.contains_key(o),
        shards::is_pop(shards_of(states[k]), start as int, result, shards_of(states[e])),
        start < shards_of(states[k]).len(),
{
    law_undisturbed_pop(shard_count, states, events, k, e - 1, start, result);
    lemma_course(shard_count, states, events, k, e - 1, start);
    assert(states[e - 1].enabled(events[e - 1]));
    assert(states[e] == states[e - 1].after(events[e - 1]));
    assert(states[k].enabled(events[k]));
}

/// No value is out of reach for good: from rest, of any pops that have the stack to themselves
/// one after the other, by whichever threads, the first ones return a value each, as many as the
/// stack holds, and all that follow fail. They return the values that have left the stack.
pub proof fn law_undisturbed_pops_drain<T>(
    shard_count: nat,
    states: Seq<System<T>>,
    events: Seq<Event<T>>,
    times: Seq<int>,
    starts: Seq<usize>,
    results: Seq<Result<T, PopError>>,
    n: nat,
)
    requires
        system::is_execution(shard_count, states, events),
        times.len() == n + 1,
        starts.len() == n,
        results.len() == n,
        0 <= times[0] < states.len(),
        forall|o: nat| !#[trigger] states[times[0]].running.contains_key(o),
        forall|x: int|
            0 <= x < n ==> pops_alone(
                states,
                events,
                times[x],
                times[x + 1],
                #[trigger] starts[x],
                results[x],
            ),
    ensures
        ({
            let first = shards_of(states[times[0]]);
            let last = shards_of(states[times[n as int]]);
            let held = shards::values(first, first.len());
            let left = shards::values(last, last.len());
            &&& forall|x: int| 0 <= x < n ==> (#[trigger] results[x] is Ok <==> x < held.len())
            &&& held == shards::returned(results).add(left)
            &&& n >= held.len() ==> left.len() == 0
        }),
{
    let stages = Seq::new(n + 1, |x: int| shards_of(states[times[x]]));
    let owners = Seq::new(n, |x: int| starts[x] as int);
    assert forall|x: int| 0 <= x < n implies {
        &&& 0 <= #[trigger] owners[x] < stages[x].len()
        &&& shards::is_pop(stages[x], owners[x], results[x], stages[x + 1])
    } by {
        lemma_at_rest(shard_count, states, events, times, starts, results, x);
        assert(starts[x] == owners[x]);
        lemma_rest_kept(
            shard_count,
            states,
            events,
            times[x],
            times[x + 1],
            starts[x],
            results[x],
        );
    }
    shards::law_pops_drain(stages, owners, results, n);
}

/// Before each of the pops the stack is at rest.
proof fn lemma_at_rest<T>(
    shard_count: nat,
    states: Seq<System<T>>,
    events: Seq<Event<T>>,
    times: Seq<int>,
    starts: Seq<usize>,
    results: Seq<Result<T, PopError>>,
    x: int,
)
    requires
        system::is_execution(shard_count, states, events),
        forall|o: nat| !#[trigger] states[times[0]].running.contains_key(o),
        0 <= x,
        forall|y: int|
            0 <= y < x ==> pops_alone(
                states,
                events,
                times[y],
                times[y + 1],
                #[trigger] starts[y],
                results[y],
            ),
    ensures
        forall|o: nat| !#[trigger] states[times[x]].running.contains_key(o),
    decreases x,
{
    if x > 0 {
        lemma_at_rest(shard_count, states, events, times, starts, results, x - 1);
        assert(starts[x - 1] == starts[x - 1]);
        lemma_rest_kept(
            shard_count,
            states,
            events,
            times[x - 1],
            times[x],
            starts[x - 1],
            results[x - 1],
        );
    }
}

/// The shards that a bitmap hints at.
pub open spec fn hints_of(bitmap: usize) -> Set<int> {
    Set::new(|i: int| bits::has_bit(bitmap, i))
}

/// Whether an attempt has done with the bit of its shard, and the shard is empty.
spec fn bit_gone<T>(
    s: System<T>,
    one: PopOneStep<usize, T>,
    clearing: ClearBitStep,
    v: int,
) -> bool {
    match one {
        PopOneStep::ClearBit { .. } => clearing is LoadHead,
        PopOneStep::Take { .. } => s.lists[v].len() == 0,
        _ => false,
    }
}

/// What the pop `o`, which was begun on the shards `before` and the bitmap `was` and has been alone
/// since, has made of the bitmap.
spec fn hints_on_course<T>(
    before: Seq<ShardView<T>>,
    was: usize,
    s: System<T>,
    o: nat,
    start: usize,
) -> bool {
    let now = s.memory.bitmap;
    match s.running[o] {
        Operation::Pop { step, inner } => match inner {
            Inner::Attempt { one, clearing } => {
                &&& step matches PopStep::PopOne { visit }
                &&& exists|reached: usize|
                    {
                        &&& #[trigger] shards::hints_at(was, reached, step, start as int)
                        &&& forall|i: int| #[trigger]
                            bits::has_bit(now, i) <==> bits::has_bit(reached, i) && !(i
                                == visit.shard && bit_gone(s, one, clearing, visit.shard as int))
                    }
                &&& one is ClearBit ==> s.lists[visit.shard as int].len() == 0 && !(
                clearing is SetBit)
                &&& s.running[o].unlinked() is Some ==> {
                    &&& shards::is_victim(before, start as int, visit.shard as int)
                    &&& shards_of(s) == before.update(
                        visit.shard as int,
                        before[visit.shard as int].pop(),
                    )
                    &&& !(visit.stage is Drain)
                }
            },
            _ => shards::hints_at(was, now, step, start as int),
        },
        _ => false,
    }
}

/// The bitmap as it should be when the pop goes on or ends.
spec fn hints_get_on<T>(
    before: Seq<ShardView<T>>,
    was: usize,
    t: System<T>,
    o: nat,
    progress: Progress<T>,
    start: usize,
) -> bool {
    match progress {
        Progress::Running { operation } => hints_on_course(
            before,
            was,
            System { running: t.running.insert(o, operation), ..t },
            o,
            start,
        ),
        Progress::Finished { outcome } => outcome matches Outcome::Pop { result }
            && shards::hints_kept(
            hints_of(was),
            hints_of(t.memory.bitmap),
            start as int,
            result,
            before,
            shards_of(t),
        ),
    }
}

/// The pop goes on to a step without a value.
proof fn lemma_hints_pop_at<T>(
    before: Seq<ShardView<T>>,
    was: usize,
    t: System<T>,
    o: nat,
    step: PopStep<T>,
    start: usize,
)
    requires
        shards::hints_at(was, t.memory.bitmap, step, start as int),
        step matches PopStep::Return { result } ==> result is Err && t.memory.bitmap == 0,
    ensures
        hints_get_on(before, was, t, o, system::pop_at(step), start),
{
    bits::lemma_zero_has_no_bit();
    assert(hints_of(0) =~= Set::<int>::empty());
    if let PopStep::PopOne { .. } = step {
        let now = t.memory.bitmap;
        assert(shards::hints_at(was, now, step, start as int));
    }
}

/// An attempt that has found nothing goes on.
proof fn lemma_hints_moved_on<T>(
    before: Seq<ShardView<T>>,
    was: usize,
    reached: usize,
    t: System<T>,
    o: nat,
    visit: Visit,
    start: usize,
)
    requires
        visit.wf(),
        visit.start == start,
        shards::searching(PopStep::<T>::PopOne { visit }, before, start, visit.shard_count),
        shards::hints_at(was, reached, PopStep::<T>::PopOne { visit }, start as int),
        forall|i: int| #[trigger]
            bits::has_bit(t.memory.bitmap, i) <==> bits::has_bit(reached, i) && i != visit.shard,
    ensures
        hints_get_on(
            before,
            was,
            t,
            o,
            system::pop_at(PopStep::<T>::after_attempt(visit, Ok(None))),
            start,
        ),
{
    shards::lemma_hints_after_empty::<T>(was, reached, t.memory.bitmap, visit);
    lemma_hints_pop_at(before, was, t, o, PopStep::<T>::after_empty(visit), start);
}

/// A turn of an attempt keeps track of the bitmap.
proof fn lemma_hints_attempt<T>(
    before: Seq<ShardView<T>>,
    was: usize,
    s: System<T>,
    o: nat,
    start: usize,
    spurious: bool,
    visit: Visit,
    one: PopOneStep<usize, T>,
    clearing: ClearBitStep,
)
    requires
        on_course(before, s, o, start),
        hints_on_course(before, was, s, o, start),
        s.running[o] == (Operation::Pop {
            step: PopStep::PopOne { visit },
            inner: Inner::Attempt { one, clearing },
        }),
        visit.start == start,
        bits::bits_below(was, before.len() as int),
    ensures
        hints_get_on(before, was, s.after_access(o, spurious), o, s.progress(o, spurious), start),
{
    let t = s.after_access(o, spurious);
    let step = PopStep::<T>::PopOne { visit };
    let v = visit.shard as int;
    let now = s.memory.bitmap;
    consistency::lemma_access(s, o, spurious);
    consistency::lemma_access_consistent(s, o, spurious);
    consistency::lemma_shaped(t);
    lemma_shards_step(s, o, spurious);
    layout::lemma_valid_shard_counts(s.shard_count());
    let reached = choose|reached: usize|
        {
            &&& #[trigger] shards::hints_at(was, reached, step, start as int)
            &&& forall|i: int| #[trigger]
                bits::has_bit(now, i) <==> bits::has_bit(reached, i) && !(i == v && bit_gone(
                    s,
                    one,
                    clearing,
                    v,
                ))
        };
    assert(shards::hints_at(was, reached, step, start as int));
    assert(lists::chained(s.memory, v, s.lists[v]));
    if let Progress::Running { operation } = s.progress(o, spurious) {
        let u = System { running: t.running.insert(o, operation), ..t };
        assert forall|i: int| 0 <= i < t.shard_count() implies #[trigger] shards_of(u)[i]
            == shards_of(t)[i] by {
            assert(laws::contents(u, i) == laws::contents(t, i));
        }
        assert(shards_of(u) =~= shards_of(t));
    }
    match one {
        PopOneStep::LoadHead { .. } => {},
        PopOneStep::LoadNext { .. } => {},
        PopOneStep::Exchange { shard, node, tag, next } => {
            assert(s.memory.heads[v] == (Head { ptr: Some(node), tag }));
            assert(before[v].items == laws::contents(s, v));
            assert(before[v].items.len() > 0);
            assert(shards::is_victim(before, start as int, v));
            assert(lists::chained(t.memory, v, t.lists[v]));
        },
        PopOneStep::ClearBit { popped, .. } => {
            bits::lemma_without_bit(now, v);
            match clearing {
                ClearBitStep::LoadBitmap { .. } => {
                    if !bits::has_bit(now, v) && popped is None {
                        lemma_hints_moved_on(before, was, reached, t, o, visit, start);
                    }
                },
                ClearBitStep::ClearBit { .. } => {},
                ClearBitStep::LoadHead { .. } => {
                    if popped is None {
                        lemma_hints_moved_on(before, was, reached, t, o, visit, start);
                    }
                },
                _ => {},
            }
        },
        PopOneStep::Take { node } => {
            let value = s.memory.nodes[node].value->0;
            lemma_hints_taken(before, was, reached, s, o, start, visit, value);
        },
        PopOneStep::Return { .. } => {},
    }
}

/// A pop that has taken its value has kept track of the bitmap.
proof fn lemma_hints_taken<T>(
    before: Seq<ShardView<T>>,
    was: usize,
    reached: usize,
    s: System<T>,
    o: nat,
    start: usize,
    visit: Visit,
    value: T,
)
    requires
        s.consistent(),
        before.len() == s.shard_count(),
        start < before.len(),
        visit.wf(),
        visit.start == start,
        visit.shard_count == before.len(),
        !(visit.stage is Drain),
        shards::hints_at(was, reached, PopStep::<T>::PopOne { visit }, start as int),
        forall|i: int| #[trigger]
            bits::has_bit(s.memory.bitmap, i) <==> bits::has_bit(reached, i) && !(i == visit.shard
                && s.lists[visit.shard as int].len() == 0),
        shards::is_victim(before, start as int, visit.shard as int),
        shards_of(s) == before.update(visit.shard as int, before[visit.shard as int].pop()),
        bits::bits_below(was, before.len() as int),
    ensures
        shards::hints_kept(
            hints_of(was),
            hints_of(s.memory.bitmap),
            start as int,
            Ok::<T, PopError>(value),
            before,
            shards_of(s),
        ),
{
    let v = visit.shard as int;
    let left = before.update(v, before[v].pop());
    layout::lemma_valid_shard_counts(before.len() as int);
    bits::lemma_distance_zero(start as int, v);
    assert(shards_of(s)[v].items == laws::contents(s, v));
    assert(left[v].items.len() == s.lists[v].len());
    assert forall|i: int| #[trigger]
        hints_of(s.memory.bitmap).contains(i) <==> hints_of(was).contains(i) && bits::distance(
            start as int,
            v,
        ) <= bits::distance(start as int, i) && !(i == v && left[i].items.len() == 0) by {
        assert(bits::has_bit(s.memory.bitmap, i) <==> bits::has_bit(reached, i) && !(i == v
            && s.lists[v].len() == 0));
    }
    shards::lemma_hints_after_take(
        before,
        start as int,
        v,
        hints_of(was),
        hints_of(s.memory.bitmap),
        value,
    );
}

/// A turn of a pop that is alone keeps track of the bitmap.
proof fn lemma_hints_turn<T>(
    before: Seq<ShardView<T>>,
    was: usize,
    s: System<T>,
    o: nat,
    start: usize,
    spurious: bool,
)
    requires
        on_course(before, s, o, start),
        hints_on_course(before, was, s, o, start),
        bits::bits_below(was, before.len() as int),
        pop_start(s.running[o]) == Some(start),
    ensures
        hints_get_on(before, was, s.after_access(o, spurious), o, s.progress(o, spurious), start),
        s.progress(o, spurious) matches Progress::Running { operation } ==> pop_start(operation)
            == Some(start),
{
    let t = s.after_access(o, spurious);
    consistency::lemma_access(s, o, spurious);
    layout::lemma_valid_shard_counts(s.shard_count());
    if let Operation::Pop { step, inner } = s.running[o] {
        match inner {
            Inner::Attempt { one, clearing } => {
                if let PopStep::PopOne { visit } = step {
                    lemma_hints_attempt(before, was, s, o, start, spurious, visit, one, clearing);
                }
            },
            Inner::Scan { scan } => {
                if let ClosedScanStep::LoadHead { shard, .. } = scan {
                    if let PopStep::AllShardsClosed { shard_count, .. } = step {
                        let closed = s.memory.heads[shard as int].closed();
                        if !closed || shard + 1 == shard_count {
                            lemma_hints_pop_at(
                                before,
                                was,
                                t,
                                o,
                                PopStep::<T>::after_scan(start, shard_count, closed),
                                start,
                            );
                        }
                    }
                }
            },
            Inner::Own => {
                if let PopStep::LoadBitmap { shard_count, .. } = step {
                    shards::lemma_hints_after_bitmap::<T>(
                        was,
                        s.memory.bitmap,
                        start,
                        shard_count,
                    );
                    lemma_hints_pop_at(
                        before,
                        was,
                        t,
                        o,
                        PopStep::<T>::after_bitmap(start, shard_count, s.memory.bitmap),
                        start,
                    );
                }
            },
        }
    }
}

/// The own shard of a pop.
spec fn pop_start<T>(operation: Operation<T>) -> Option<usize> {
    match operation {
        Operation::Pop { step, .. } => match step {
            PopStep::PopOne { visit } => Some(visit.start),
            PopStep::LoadBitmap { start, .. } => Some(start),
            PopStep::AllShardsClosed { start, .. } => Some(start),
            PopStep::Return { .. } => None,
        },
        _ => None,
    }
}

/// The bitmap is on course before each turn of the pop.
proof fn lemma_hints_course<T>(
    shard_count: nat,
    states: Seq<System<T>>,
    events: Seq<Event<T>>,
    k: int,
    j: int,
    start: usize,
)
    requires
        system::is_execution(shard_count, states, events),
        0 <= k < j < events.len(),
        forall|o: nat| !#[trigger] states[k].running.contains_key(o),
        events[k] == (Event::<T>::BeginPop { start }),
        forall|m: int|
            k < m <= j ==> (#[trigger] events[m] matches Event::Access { operation, .. }
                && operation == states[k].begun),
    ensures
        hints_on_course(
            shards_of(states[k]),
            states[k].memory.bitmap,
            states[j],
            states[k].begun,
            start,
        ),
        pop_start(states[j].running[states[k].begun]) == Some(start),
        bits::bits_below(states[k].memory.bitmap, shards_of(states[k]).len() as int),
    decreases j - k,
{
    let before = shards_of(states[k]);
    let was = states[k].memory.bitmap;
    let o = states[k].begun;
    consistency::lemma_execution_consistent(shard_count, states, events, k);
    consistency::lemma_shaped(states[k]);
    if j == k + 1 {
        assert(states[k].enabled(events[k]));
        assert(states[j] == states[k].after(events[k]));
        let step = PopStep::<T>::first(start, states[k].shard_count() as usize);
        assert(shards::hints_at(was, was, step, start as int));
    } else {
        let l = j - 1;
        lemma_hints_course(shard_count, states, events, k, l, start);
        lemma_course(shard_count, states, events, k, l, start);
        assert(states[l].enabled(events[l]));
        assert(states[j] == states[l].after(events[l]));
        assert(states[j].enabled(events[j]));
        if let Event::Access { spurious, .. } = events[l] {
            lemma_hints_turn(before, was, states[l], o, start, spurious);
            if let Progress::Running { operation } = states[l].progress(o, spurious) {
                assert(states[j].running.insert(o, operation) =~= states[j].running);
            }
        }
    }
}

/// A pop that is begun when no operation is in flight, and stays alone, makes of the bitmap what a
/// pop does when calls come one after the other: it clears the bits of all shards that it comes by
/// and that hold nothing then, and no other bit. So a bit that is set over an empty shard does not
/// stay for good.
pub proof fn law_undisturbed_pop_heals_hints<T>(
    shard_count: nat,
    states: Seq<System<T>>,
    events: Seq<Event<T>>,
    k: int,
    j: int,
    start: usize,
    result: Result<T, PopError>,
)
    requires
        system::is_execution(shard_count, states, events),
        0 <= k < j < events.len(),
        forall|o: nat| !#[trigger] states[k].running.contains_key(o),
        events[k] == (Event::<T>::BeginPop { start }),
        forall|m: int|
            k < m <= j ==> (#[trigger] events[m] matches Event::Access { operation, .. }
                && operation == states[k].begun),
        states[j].outcome(events[j]) == Some(Outcome::Pop { result }),
    ensures
        shards::hints_kept(
            hints_of(states[k].memory.bitmap),
            hints_of(states[j + 1].memory.bitmap),
            start as int,
            result,
            shards_of(states[k]),
            shards_of(states[j + 1]),
        ),
        result is Err ==> states[j + 1].memory.bitmap == 0,
{
    let o = states[k].begun;
    lemma_hints_course(shard_count, states, events, k, j, start);
    lemma_course(shard_count, states, events, k, j, start);
    assert(states[j].enabled(events[j]));
    assert(states[j + 1] == states[j].after(events[j]));
    if let Event::Access { spurious, .. } = events[j] {
        lemma_hints_turn(
            shards_of(states[k]),
            states[k].memory.bitmap,
            states[j],
            o,
            start,
            spurious,
        );
    }
    if result is Err {
        let now = states[j + 1].memory.bitmap;
        assert forall|i: int| !#[trigger] bits::has_bit(now, i) by {
            assert(!hints_of(now).contains(i));
        }
        bits::lemma_no_bit_is_zero(now);
    }
}

} // verus!
