//! What the shards of a stack hold, and where a pop finds its value.

use crate::bits;
use crate::error::{PopError, PushError};
use crate::steps::{PopStep, Stage, Visit};
use vstd::multiset::*;
use vstd::prelude::*;

verus! {

/// What a shard holds, top value last, and whether it is closed.
#[verifier::ext_equal]
#[verifier::reject_recursive_types(T)]
pub struct ShardView<T> {
    pub items: Seq<T>,
    pub closed: bool,
}

impl<T> ShardView<T> {
    pub open spec fn empty() -> Self {
        ShardView { items: Seq::empty(), closed: false }
    }

    pub open spec fn push(self, value: T) -> Self {
        ShardView { items: self.items.push(value), ..self }
    }

    pub open spec fn pop(self) -> Self {
        ShardView { items: self.items.drop_last(), ..self }
    }

    pub open spec fn close(self) -> Self {
        ShardView { closed: true, ..self }
    }
}

/// Whether every shard is closed.
pub open spec fn all_closed<T>(shards: Seq<ShardView<T>>) -> bool {
    forall|i: int| 0 <= i < shards.len() ==> (#[trigger] shards[i]).closed
}

/// Whether all shards are open or all are closed.
pub open spec fn closed_together<T>(shards: Seq<ShardView<T>>) -> bool {
    forall|i: int, j: int|
        #![trigger shards[i], shards[j]]
        0 <= i < shards.len() && 0 <= j < shards.len() ==> shards[i].closed == shards[j].closed
}

/// Whether no shard holds a value.
pub open spec fn all_empty<T>(shards: Seq<ShardView<T>>) -> bool {
    forall|i: int| 0 <= i < shards.len() ==> (#[trigger] shards[i]).items.len() == 0
}

/// Whether a pop by the owner of shard `start` takes its value from shard `victim`: the own
/// shard if it holds a value, and else, in the order `start ^ 1`, `start ^ 2`, `start ^ 3` and so
/// on, the first shard that does.
pub open spec fn is_victim<T>(shards: Seq<ShardView<T>>, start: int, victim: int) -> bool {
    &&& 0 <= victim < shards.len()
    &&& shards[victim].items.len() > 0
    &&& victim != start ==> {
        &&& shards[start].items.len() == 0
        &&& forall|i: int|
            0 <= i < shards.len() && bits::distance(start, i) < bits::distance(start, victim)
                ==> (#[trigger] shards[i]).items.len() == 0
    }
}

/// What a push of `value` by the owner of shard `start` makes of the shards `before`, when it has
/// them to itself: the value goes on top of that shard, or comes back because the shard is closed.
pub open spec fn is_push<T>(
    before: Seq<ShardView<T>>,
    start: int,
    value: T,
    result: Result<(), PushError<T>>,
    after: Seq<ShardView<T>>,
) -> bool {
    if before[start].closed {
        &&& result == Err::<(), _>(PushError::Closed(value))
        &&& after == before
    } else {
        &&& result == Ok::<_, PushError<T>>(())
        &&& after == before.update(start, before[start].push(value))
    }
}

/// What a pop by the owner of shard `start` makes of the shards `before`, when it has them to
/// itself: it takes the top value of a shard, or there is none, and then the error tells whether
/// the stack is closed.
pub open spec fn is_pop<T>(
    before: Seq<ShardView<T>>,
    start: int,
    result: Result<T, PopError>,
    after: Seq<ShardView<T>>,
) -> bool {
    match result {
        Ok(value) => exists|victim: int|
            {
                &&& #[trigger] is_victim(before, start, victim)
                &&& value == before[victim].items.last()
                &&& after == before.update(victim, before[victim].pop())
            },
        Err(error) => {
            &&& all_empty(before)
            &&& error == (if all_closed(before) {
                PopError::Closed
            } else {
                PopError::Empty
            })
            &&& after == before
        },
    }
}

/// What a pop by the owner of shard `start` makes of the hints, when it has the stack to itself.
/// A shard that it comes by and that then holds nothing is no longer hinted at. It comes by every
/// shard that is hinted at if it fails, and otherwise by those that lie no farther away than the
/// shard that its value is from.
pub open spec fn hints_kept<T>(
    before: Set<int>,
    after: Set<int>,
    start: int,
    result: Result<T, PopError>,
    shards: Seq<ShardView<T>>,
    left: Seq<ShardView<T>>,
) -> bool {
    match result {
        Ok(_) => forall|victim: int, i: int|
            #![trigger is_victim(shards, start, victim), after.contains(i)]
            is_victim(shards, start, victim) ==> (after.contains(i) <==> before.contains(i) && !(
            bits::distance(start, i) <= bits::distance(start, victim) && left[i].items.len()
                == 0)),
        Err(_) => after == Set::<int>::empty(),
    }
}

/// What a pop that was begun on the bitmap `was` has made of it when it reaches a step without a
/// value: it has cleared the bits of the shards that it has come by.
pub open spec fn hints_at<V>(was: usize, now: usize, step: PopStep<V>, start: int) -> bool {
    match step {
        PopStep::PopOne { visit } => match visit.stage {
            Stage::Local { .. } => now == was,
            Stage::Steal { rest, .. } => {
                &&& forall|i: int| #[trigger]
                    bits::has_bit(now, i) <==> i == visit.shard || bits::has_bit(rest, i)
                &&& forall|i: int| #[trigger]
                    bits::has_bit(now, i) <==> bits::has_bit(was, i) && bits::distance(
                        start,
                        visit.shard as int,
                    ) <= bits::distance(start, i)
            },
            Stage::Drain { .. } => now == 0,
        },
        PopStep::LoadBitmap { .. } => forall|i: int| #[trigger]
            bits::has_bit(now, i) <==> bits::has_bit(was, i) && i != start,
        PopStep::AllShardsClosed { .. } => now == 0,
        PopStep::Return { .. } => true,
    }
}

/// Going to the nearest candidate keeps track of the hints, where the candidates are the shards
/// that were hinted at and lie farther away than `last`.
proof fn lemma_hints_after_steal<V>(
    was: usize,
    now: usize,
    start: usize,
    shard_count: usize,
    candidates: usize,
    last: int,
)
    requires
        forall|i: int| #[trigger] bits::has_bit(now, i) <==> bits::has_bit(candidates, i),
        forall|i: int| #[trigger]
            bits::has_bit(candidates, i) <==> bits::has_bit(was, i) && bits::distance(
                start as int,
                last,
            ) < bits::distance(start as int, i),
    ensures
        hints_at(was, now, PopStep::<V>::steal(start, shard_count, candidates), start as int),
{
    if candidates == 0 {
        bits::lemma_zero_has_no_bit();
        bits::lemma_no_bit_is_zero(now);
    } else {
        let shard = bits::nearest(candidates, start as int);
        bits::lemma_nearest(candidates, start as int);
        bits::lemma_without_bit(candidates, shard);
        assert forall|i: int| #[trigger] bits::has_bit(now, i) <==> bits::has_bit(was, i)
            && bits::distance(start as int, shard) <= bits::distance(start as int, i) by {
            assert(bits::has_bit(candidates, i) ==> bits::distance(start as int, shard)
                <= bits::distance(start as int, i));
            assert(bits::has_bit(candidates, shard));
        }
    }
}

/// Leaving an empty shard keeps track of the hints.
pub proof fn lemma_hints_after_empty<V>(was: usize, reached: usize, now: usize, visit: Visit)
    requires
        visit.wf(),
        hints_at(was, reached, PopStep::<V>::PopOne { visit }, visit.start as int),
        visit.stage matches Stage::Steal { rest, .. } ==> forall|i: int| #[trigger]
            bits::has_bit(rest, i) ==> bits::distance(visit.start as int, visit.shard as int)
                < bits::distance(visit.start as int, i),
        forall|i: int| #[trigger]
            bits::has_bit(now, i) <==> bits::has_bit(reached, i) && i != visit.shard,
    ensures
        hints_at(was, now, PopStep::<V>::after_empty(visit), visit.start as int),
        visit.stage is Drain ==> now == 0,
{
    match visit.stage {
        Stage::Local { .. } => {},
        Stage::Steal { rest, .. } => {
            let here = bits::distance(visit.start as int, visit.shard as int);
            assert forall|i: int| #[trigger]
                bits::has_bit(now, i) <==> bits::has_bit(rest, i) by {
                assert(bits::has_bit(reached, i) <==> i == visit.shard || bits::has_bit(rest, i));
            }
            assert forall|i: int| #[trigger]
                bits::has_bit(rest, i) <==> bits::has_bit(was, i) && here < bits::distance(
                    visit.start as int,
                    i,
                ) by {
                assert(bits::has_bit(reached, i) <==> i == visit.shard || bits::has_bit(rest, i));
            }
            lemma_hints_after_steal::<V>(
                was,
                now,
                visit.start,
                visit.shard_count,
                rest,
                visit.shard as int,
            );
        },
        Stage::Drain { .. } => {
            bits::lemma_zero_has_no_bit();
            bits::lemma_no_bit_is_zero(now);
        },
    }
}

/// Reading the bitmap keeps track of the hints.
pub proof fn lemma_hints_after_bitmap<V>(
    was: usize,
    now: usize,
    start: usize,
    shard_count: usize,
)
    requires
        start < usize::BITS,
        hints_at(was, now, PopStep::<V>::LoadBitmap { start, shard_count }, start as int),
    ensures
        hints_at(was, now, PopStep::<V>::after_bitmap(start, shard_count, now), start as int),
{
    let candidates = bits::without_bit(now, start as int);
    bits::lemma_without_bit(now, start as int);
    bits::lemma_distance_zero(start as int, start as int);
    assert forall|i: int| #[trigger]
        bits::has_bit(candidates, i) <==> bits::has_bit(was, i) && bits::distance(
            start as int,
            start as int,
        ) < bits::distance(start as int, i) by {
        if 0 <= i < usize::BITS {
            bits::lemma_distance_zero(start as int, i);
        }
        assert(bits::has_bit(now, i) <==> bits::has_bit(was, i) && i != start);
    }
    lemma_hints_after_steal::<V>(was, now, start, shard_count, candidates, start as int);
}

/// Where a pop takes a value off `victim`, the hints at nearer shards are gone, and that at the
/// victim if nothing is left there.
pub proof fn lemma_hints_after_take<T>(
    shards: Seq<ShardView<T>>,
    start: int,
    victim: int,
    before: Set<int>,
    after: Set<int>,
    value: T,
)
    requires
        0 <= start < shards.len() <= usize::BITS,
        is_victim(shards, start, victim),
        forall|i: int| #[trigger] before.contains(i) ==> 0 <= i < shards.len(),
        forall|i: int| #[trigger]
            after.contains(i) <==> before.contains(i) && bits::distance(start, victim)
                <= bits::distance(start, i) && !(i == victim && shards.update(
                victim,
                shards[victim].pop(),
            )[i].items.len() == 0),
    ensures
        hints_kept(
            before,
            after,
            start,
            Ok(value),
            shards,
            shards.update(victim, shards[victim].pop()),
        ),
{
    let left = shards.update(victim, shards[victim].pop());
    assert forall|other: int, i: int|
        #![trigger is_victim(shards, start, other), after.contains(i)]
        is_victim(shards, start, other) implies (after.contains(i) <==> before.contains(i) && !(
    bits::distance(start, i) <= bits::distance(start, other) && left[i].items.len() == 0)) by {
        bits::lemma_distance_zero(start, victim);
        bits::lemma_distance_zero(start, other);
        if other != victim {
            bits::lemma_distance_tells_apart(start, other, victim);
            assert(shards[other].items.len() > 0);
            assert(shards[victim].items.len() > 0);
        }
        if before.contains(i) && i != victim {
            bits::lemma_distance_tells_apart(start, i, victim);
            bits::lemma_distance_zero(start, i);
            assert(left[i] == shards[i]);
        }
    }
}

/// The values of the first `n` shards, shard by shard, each from the top down.
pub open spec fn remaining<T>(shards: Seq<ShardView<T>>, n: nat) -> Seq<T>
    decreases n,
{
    if n == 0 {
        Seq::empty()
    } else {
        remaining(shards, (n - 1) as nat) + shards[n - 1].items.reverse()
    }
}

/// What a pop knows about the shards when it reaches a step without having found a value.
pub open spec fn searching<T>(
    step: PopStep<T>,
    shards: Seq<ShardView<T>>,
    start: usize,
    shard_count: usize,
) -> bool {
    match step {
        PopStep::PopOne { visit } => {
            &&& visit.start == start
            &&& visit.shard_count == shard_count
            &&& match visit.stage {
                Stage::Local { .. } => true,
                Stage::Steal { rest, .. } => {
                    &&& shards[start as int].items.len() == 0
                    &&& forall|i: int|
                        0 <= i < shards.len() && (#[trigger] shards[i]).items.len() > 0 ==> i
                            == visit.shard || bits::has_bit(rest, i)
                    &&& forall|i: int| #[trigger]
                        bits::has_bit(rest, i) ==> bits::distance(
                            start as int,
                            visit.shard as int,
                        ) < bits::distance(start as int, i)
                },
                Stage::Drain { .. } => all_empty(shards) && all_closed(shards),
            }
        },
        PopStep::LoadBitmap { start: s, shard_count: c } => {
            &&& s == start
            &&& c == shard_count
            &&& shards[start as int].items.len() == 0
        },
        PopStep::AllShardsClosed { start: s, shard_count: c } => {
            &&& s == start
            &&& c == shard_count
            &&& all_empty(shards)
        },
        PopStep::Return { result: Err(error) } => {
            &&& all_empty(shards)
            &&& error == (if all_closed(shards) {
                PopError::Closed
            } else {
                PopError::Empty
            })
        },
        PopStep::Return { result: Ok(_) } => false,
    }
}

/// As long as every shard that holds a value is a candidate, going to the nearest candidate
/// passes over none.
pub proof fn lemma_steal<T>(
    shards: Seq<ShardView<T>>,
    start: usize,
    shard_count: usize,
    candidates: usize,
)
    requires
        start < shards.len(),
        shards[start as int].items.len() == 0,
        forall|i: int|
            0 <= i < shards.len() && (#[trigger] shards[i]).items.len() > 0 ==> bits::has_bit(
                candidates,
                i,
            ),
    ensures
        searching(PopStep::<T>::steal(start, shard_count, candidates), shards, start, shard_count),
{
    if candidates == 0 {
        bits::lemma_zero_has_no_bit();
    } else {
        let shard = bits::nearest(candidates, start as int);
        bits::lemma_nearest(candidates, start as int);
        bits::lemma_without_bit(candidates, shard);
        assert forall|i: int| #[trigger]
            bits::has_bit(bits::without_bit(candidates, shard), i) implies bits::distance(
            start as int,
            shard,
        ) < bits::distance(start as int, i) by {
            assert(bits::has_bit(candidates, i));
            bits::lemma_distance_tells_apart(start as int, shard, i);
        }
    }
}

/// The shards after a close.
pub open spec fn closed<T>(shards: Seq<ShardView<T>>) -> Seq<ShardView<T>> {
    shards.map_values(|shard: ShardView<T>| shard.close())
}

/// What a close makes of the shards `before`, when it has them to itself, and what it says.
pub open spec fn is_close<T>(
    before: Seq<ShardView<T>>,
    changed: bool,
    after: Seq<ShardView<T>>,
) -> bool {
    &&& changed == !all_closed(before)
    &&& after == closed(before)
}

/// The answer to the question whether the stack is closed.
pub open spec fn is_answer<T>(shards: Seq<ShardView<T>>, answer: bool) -> bool {
    answer == all_closed(shards)
}

/// The shards of a stack that was just made.
pub open spec fn is_new<T>(shards: Seq<ShardView<T>>, shard_count: nat) -> bool {
    shards == Seq::new(shard_count, |i: int| ShardView::<T>::empty())
}

/// The values that the first `n` shards hold, each as often as it is there.
pub open spec fn values<T>(shards: Seq<ShardView<T>>, n: nat) -> Multiset<T>
    decreases n,
{
    if n == 0 {
        Multiset::empty()
    } else {
        values(shards, (n - 1) as nat).add(shards[n - 1].items.to_multiset())
    }
}

/// A pop gives back the value that was pushed last onto the same shard, and leaves the stack as
/// it was before the push.
pub proof fn law_pop_undoes_push<T>(
    shards: Seq<ShardView<T>>,
    start: int,
    value: T,
    result: Result<T, PopError>,
    after: Seq<ShardView<T>>,
)
    requires
        0 <= start < shards.len(),
        is_pop(shards.update(start, shards[start].push(value)), start, result, after),
    ensures
        result == Ok::<T, PopError>(value),
        after == shards,
{
    let before = shards.update(start, shards[start].push(value));
    assert(before[start].items.len() > 0);
    if let Ok(v) = result {
        let victim = choose|victim: int|
            {
                &&& #[trigger] is_victim(before, start, victim)
                &&& v == before[victim].items.last()
                &&& after == before.update(victim, before[victim].pop())
            };
        assert(victim == start);
        assert(before[start].pop().items =~= shards[start].items);
        assert(after =~= shards);
    }
}

/// Shards are independent: two pushes on different open shards both succeed, and leave the same
/// behind whichever comes first.
pub proof fn law_pushes_commute<T>(
    before: Seq<ShardView<T>>,
    i: int,
    a: T,
    j: int,
    b: T,
    results: Seq<Result<(), PushError<T>>>,
    a_first: Seq<ShardView<T>>,
    b_second: Seq<ShardView<T>>,
    b_first: Seq<ShardView<T>>,
    a_second: Seq<ShardView<T>>,
)
    requires
        0 <= i < before.len(),
        0 <= j < before.len(),
        i != j,
        !before[i].closed,
        !before[j].closed,
        results.len() == 4,
        is_push(before, i, a, results[0], a_first),
        is_push(a_first, j, b, results[1], b_second),
        is_push(before, j, b, results[2], b_first),
        is_push(b_first, i, a, results[3], a_second),
    ensures
        forall|k: int|
            0 <= k < 4 ==> #[trigger] results[k] == Ok::<_, PushError<T>>(()),
        b_second == a_second,
{
    assert(b_second =~= a_second);
}

/// Every value can be popped: a pop fails only on an empty stack, and otherwise takes exactly
/// the value that it returns out, once.
pub proof fn law_pop_takes_one<T>(
    before: Seq<ShardView<T>>,
    start: int,
    result: Result<T, PopError>,
    after: Seq<ShardView<T>>,
)
    requires
        0 <= start < before.len(),
        is_pop(before, start, result, after),
    ensures
        result is Err <==> values(before, before.len()) == Multiset::<T>::empty(),
        result matches Ok(value) ==> values(before, before.len()) == values(
            after,
            after.len(),
        ).insert(value),
        result is Err ==> after == before,
        after.len() == before.len(),
{
    match result {
        Ok(value) => {
            let victim = choose|victim: int|
                {
                    &&& #[trigger] is_victim(before, start, victim)
                    &&& value == before[victim].items.last()
                    &&& after == before.update(victim, before[victim].pop())
                };
            lemma_values_after_pop(before, victim, before.len());
            assert(values(before, before.len()).count(value) > 0);
        },
        Err(_) => {
            lemma_values_empty(before, before.len());
        },
    }
}

proof fn lemma_values_after_pop<T>(shards: Seq<ShardView<T>>, victim: int, n: nat)
    requires
        0 <= victim < shards.len(),
        n <= shards.len(),
        shards[victim].items.len() > 0,
    ensures
        values(shards, n) == (if victim < n {
            values(shards.update(victim, shards[victim].pop()), n).insert(
                shards[victim].items.last(),
            )
        } else {
            values(shards.update(victim, shards[victim].pop()), n)
        }),
    decreases n,
{
    if n > 0 {
        lemma_values_after_pop(shards, victim, (n - 1) as nat);
        let items = shards[victim].items;
        assert(items.drop_last().push(items.last()) =~= items);
        vstd::seq_lib::to_multiset_build(items.drop_last(), items.last());
    }
}

proof fn lemma_values_empty<T>(shards: Seq<ShardView<T>>, n: nat)
    requires
        all_empty(shards),
        n <= shards.len(),
    ensures
        values(shards, n) == Multiset::<T>::empty(),
    decreases n,
{
    if n > 0 {
        lemma_values_empty(shards, (n - 1) as nat);
        let items = shards[n - 1].items;
        assert(items.len() == 0);
        vstd::seq_lib::to_multiset_len(items);
        assert(items.to_multiset() =~= Multiset::empty());
    }
}

/// Values are drained: of any pops in a row, by whichever threads, the first ones return a value
/// each, as many as there are values, and all that follow fail. The values that they return are
/// those that have left the stack.
pub proof fn law_pops_drain<T>(
    stages: Seq<Seq<ShardView<T>>>,
    starts: Seq<int>,
    results: Seq<Result<T, PopError>>,
    n: nat,
)
    requires
        stages.len() == n + 1,
        starts.len() == n,
        results.len() == n,
        forall|x: int|
            0 <= x < n ==> {
                &&& 0 <= #[trigger] starts[x] < stages[x].len()
                &&& is_pop(stages[x], starts[x], results[x], stages[x + 1])
            },
    ensures
        ({
            let held = values(stages[0], stages[0].len());
            &&& forall|x: int| 0 <= x < n ==> (#[trigger] results[x] is Ok <==> x < held.len())
            &&& held == returned(results).add(values(stages[n as int], stages[n as int].len()))
            &&& n >= held.len() ==> values(stages[n as int], stages[n as int].len()).len() == 0
        }),
    decreases n,
{
    let held = values(stages[0], stages[0].len());
    if n == 0 {
        assert(held =~= returned(results).add(held));
    } else {
        let m = (n - 1) as nat;
        let last = results[m as int];
        assert forall|x: int| 0 <= x < m implies {
            &&& 0 <= #[trigger] starts.drop_last()[x] < stages.drop_last()[x].len()
            &&& is_pop(
                stages.drop_last()[x],
                starts.drop_last()[x],
                results.drop_last()[x],
                stages.drop_last()[x + 1],
            )
        } by {
            assert(0 <= starts[x] < stages[x].len());
        }
        law_pops_drain(stages.drop_last(), starts.drop_last(), results.drop_last(), m);
        assert(0 <= starts[m as int] < stages[m as int].len());
        law_pop_takes_one(stages[m as int], starts[m as int], last, stages[n as int]);
        let before = values(stages[m as int], stages[m as int].len());
        let after = values(stages[n as int], stages[n as int].len());
        lemma_returned_count(results.drop_last(), held.len());
        assert forall|x: int| 0 <= x < m implies (#[trigger] results[x] is Ok <==> x
            < held.len()) by {
            assert(results.drop_last()[x] == results[x]);
        }
        assert(before.len() == 0 ==> before =~= Multiset::empty());
        assert(held =~= returned(results).add(after));
    }
}

/// The values that were returned.
pub open spec fn returned<T>(results: Seq<Result<T, PopError>>) -> Multiset<T>
    decreases results.len(),
{
    if results.len() == 0 {
        Multiset::empty()
    } else {
        match results.last() {
            Ok(value) => returned(results.drop_last()).insert(value),
            Err(_) => returned(results.drop_last()),
        }
    }
}

/// Where the first `held` results and no others are values, that many values were returned.
proof fn lemma_returned_count<T>(results: Seq<Result<T, PopError>>, held: nat)
    requires
        forall|x: int| 0 <= x < results.len() ==> (#[trigger] results[x] is Ok <==> x < held),
    ensures
        returned(results).len() == (if results.len() < held {
            results.len()
        } else {
            held
        }),
    decreases results.len(),
{
    if results.len() > 0 {
        assert forall|x: int| 0 <= x < results.len() - 1 implies (
        #[trigger] results.drop_last()[x] is Ok <==> x < held) by {
            assert(results.drop_last()[x] == results[x]);
        }
        lemma_returned_count(results.drop_last(), held);
        assert(results[results.len() - 1] is Ok <==> results.len() - 1 < held);
    }
}

/// Taking a stack apart hands out every value that it holds, each as often as it is there.
pub proof fn law_teardown_hands_out_everything<T>(shards: Seq<ShardView<T>>, n: nat)
    requires
        n <= shards.len(),
    ensures
        remaining(shards, n).to_multiset() == values(shards, n),
    decreases n,
{
    if n > 0 {
        law_teardown_hands_out_everything(shards, (n - 1) as nat);
        let items = shards[n - 1].items;
        vstd::seq_lib::lemma_multiset_commutative(
            remaining(shards, (n - 1) as nat),
            items.reverse(),
        );
        items.lemma_reverse_to_multiset();
    } else {
        vstd::seq_lib::to_multiset_len(remaining(shards, n));
        assert(remaining(shards, n).to_multiset() =~= Multiset::empty());
    }
}

/// Closing keeps every value, leaves every shard closed, and changes nothing the second time.
pub proof fn law_close_is_final<T>(shards: Seq<ShardView<T>>)
    ensures
        all_closed(closed(shards)),
        closed(closed(shards)) == closed(shards),
        closed(shards).len() == shards.len(),
        forall|i: int|
            0 <= i < shards.len() ==> (#[trigger] closed(shards)[i]).items == shards[i].items,
        all_closed(shards) ==> closed(shards) == shards,
{
    assert(closed(closed(shards)) =~= closed(shards));
    if all_closed(shards) {
        assert(closed(shards) =~= shards);
    }
}

} // verus!
