//! How calls that come one after the other relate.
//!
//! [`crate::ConcurrentShardedStack`] promises of each call what it makes of the shards. Here stands
//! what follows for several calls, in terms of their arguments and results.

use crate::bits;
use crate::error::{PopError, PushError};
use crate::shards;
use crate::shards::ShardView;
use vstd::multiset::*;
use vstd::prelude::*;

verus! {

/// A pop by the owner of the shard gives back the value that was pushed last onto it, and leaves
/// the shards as they were before the push.
pub proof fn law_pop_returns_last_push<T>(
    before: Seq<ShardView<T>>,
    start: int,
    value: T,
    pushed: Result<(), PushError<T>>,
    middle: Seq<ShardView<T>>,
    popped: Result<T, PopError>,
    after: Seq<ShardView<T>>,
)
    requires
        0 <= start < before.len(),
        shards::is_push(before, start, value, pushed, middle),
        pushed is Ok,
        shards::is_pop(middle, start, popped, after),
    ensures
        popped == Ok::<T, PopError>(value),
        after == before,
{
    shards::law_pop_undoes_push(before, start, value, popped, after);
}

/// A push succeeds exactly if its shard is open. It then adds its value, once, and on top of its
/// shard; nothing else changes.
pub proof fn law_push_adds_its_value<T>(
    before: Seq<ShardView<T>>,
    start: int,
    value: T,
    result: Result<(), PushError<T>>,
    after: Seq<ShardView<T>>,
)
    requires
        0 <= start < before.len(),
        shards::is_push(before, start, value, result, after),
    ensures
        result is Ok <==> !before[start].closed,
        after.len() == before.len(),
        forall|i: int| 0 <= i < before.len() && i != start ==> #[trigger] after[i] == before[i],
        after[start].closed == before[start].closed,
        result is Ok ==> {
            &&& after[start].items.len() == before[start].items.len() + 1
            &&& after[start].items.last() == value
            &&& after[start].items.drop_last() == before[start].items
            &&& shards::values(after, after.len()) == shards::values(before, before.len()).insert(
                value,
            )
        },
{
    if result is Ok {
        assert(after[start].items.drop_last() =~= before[start].items);
        lemma_values_after_push(before, start, value, before.len());
    }
}

/// A push that is refused hands back the value that it was called with, and leaves everything as
/// it was.
pub proof fn law_refused_push_changes_nothing<T>(
    before: Seq<ShardView<T>>,
    start: int,
    value: T,
    result: Result<(), PushError<T>>,
    after: Seq<ShardView<T>>,
)
    requires
        0 <= start < before.len(),
        shards::is_push(before, start, value, result, after),
        result is Err,
    ensures
        result->Err_0 == PushError::Closed(value),
        after == before,
{
}

proof fn lemma_values_after_push<T>(
    before: Seq<ShardView<T>>,
    start: int,
    value: T,
    n: nat,
)
    requires
        0 <= start < before.len(),
        n <= before.len(),
    ensures
        shards::values(before.update(start, before[start].push(value)), n) == (if start < n {
            shards::values(before, n).insert(value)
        } else {
            shards::values(before, n)
        }),
    decreases n,
{
    if n > 0 {
        lemma_values_after_push(before, start, value, (n - 1) as nat);
        vstd::seq_lib::to_multiset_build(before[start].items, value);
        assert(shards::values(before.update(start, before[start].push(value)), n) =~= (if start
            < n {
            shards::values(before, n).insert(value)
        } else {
            shards::values(before, n)
        }));
    }
}

/// A pop that succeeds takes the top value off one shard and changes nothing else. That is the
/// caller's own shard if it holds a value; otherwise no shard that holds a value lies nearer to it.
/// A pop fails exactly if no shard holds a value, says that the stack is closed exactly if every
/// shard is, and changes nothing.
pub proof fn law_pop_takes_a_top<T>(
    before: Seq<ShardView<T>>,
    start: int,
    result: Result<T, PopError>,
    after: Seq<ShardView<T>>,
)
    requires
        0 <= start < before.len() <= usize::MAX,
        shards::is_pop(before, start, result, after),
    ensures
        after.len() == before.len(),
        forall|i: int|
            0 <= i < before.len() ==> (#[trigger] after[i]).closed == before[i].closed,
        result is Err <==> forall|i: int|
            0 <= i < before.len() ==> (#[trigger] before[i]).items == Seq::<T>::empty(),
        result is Err ==> after == before,
        result == Err::<T, _>(PopError::Closed) ==> forall|i: int|
            0 <= i < before.len() ==> (#[trigger] before[i]).closed,
        result == Err::<T, _>(PopError::Empty) ==> exists|i: int|
            0 <= i < before.len() && !(#[trigger] before[i]).closed,
        result matches Ok(value) ==> exists|i: int|
            {
                &&& 0 <= i < before.len()
                &&& (#[trigger] before[i]).items == after[i].items.push(value)
                &&& forall|j: int|
                    0 <= j < before.len() && j != i ==> #[trigger] after[j] == before[j]
                &&& forall|j: int|
                    0 <= j < before.len() && (#[trigger] before[j]).items.len() > 0 ==> {
                        ((i as usize) ^ (start as usize)) <= ((j as usize) ^ (start as usize))
                    }
            },
        before[start].items.len() > 0 ==> result == Ok::<T, PopError>(before[start].items.last()),
{
    match result {
        Ok(value) => {
            let i = choose|i: int|
                {
                    &&& #[trigger] shards::is_victim(before, start, i)
                    &&& value == before[i].items.last()
                    &&& after == before.update(i, before[i].pop())
                };
            assert(before[i].items =~= after[i].items.push(value));
            assert forall|j: int|
                0 <= j < before.len() && (#[trigger] before[j]).items.len() > 0 implies ((
            i as usize) ^ (start as usize)) <= ((j as usize) ^ (start as usize)) by {
                if i == start {
                    let s = start as usize;
                    assert(s ^ s == 0) by (bit_vector);
                }
            }
        },
        Err(_) => {
            assert forall|i: int| 0 <= i < before.len() implies (#[trigger] before[i]).items
                == Seq::<T>::empty() by {
                assert(before[i].items =~= Seq::<T>::empty());
            }
        },
    }
}

/// What a pop returns and leaves behind is settled by what the shards hold and whose pop it is.
pub proof fn law_pop_is_settled<T>(
    before: Seq<ShardView<T>>,
    start: int,
    one: Result<T, PopError>,
    after_one: Seq<ShardView<T>>,
    other: Result<T, PopError>,
    after_other: Seq<ShardView<T>>,
)
    requires
        0 <= start < before.len() <= usize::BITS,
        shards::is_pop(before, start, one, after_one),
        shards::is_pop(before, start, other, after_other),
    ensures
        one == other,
        after_one == after_other,
{
    if let Ok(a) = one {
        let i = choose|i: int|
            {
                &&& #[trigger] shards::is_victim(before, start, i)
                &&& a == before[i].items.last()
                &&& after_one == before.update(i, before[i].pop())
            };
        if let Ok(b) = other {
            let j = choose|j: int|
                {
                    &&& #[trigger] shards::is_victim(before, start, j)
                    &&& b == before[j].items.last()
                    &&& after_other == before.update(j, before[j].pop())
                };
            if i != j {
                bits::lemma_distance_tells_apart(start, i, j);
            }
        } else {
            assert(before[i].items.len() > 0);
        }
    } else if let Ok(b) = other {
        let j = choose|j: int|
            {
                &&& #[trigger] shards::is_victim(before, start, j)
                &&& b == before[j].items.last()
                &&& after_other == before.update(j, before[j].pop())
            };
        assert(before[j].items.len() > 0);
    }
}

/// Values that are pushed onto a shard one after the other come back in the reverse order.
pub proof fn law_pushes_come_back_in_reverse<T>(
    start: int,
    values: Seq<T>,
    pushed: Seq<Result<(), PushError<T>>>,
    up: Seq<Seq<ShardView<T>>>,
    popped: Seq<Result<T, PopError>>,
    down: Seq<Seq<ShardView<T>>>,
    n: nat,
)
    requires
        values.len() == n,
        pushed.len() == n,
        popped.len() == n,
        up.len() == n + 1,
        down.len() == n + 1,
        0 <= start < up[0].len(),
        !up[0][start].closed,
        forall|x: int|
            0 <= x < n ==> shards::is_push(
                up[x],
                start,
                #[trigger] values[x],
                pushed[x],
                up[x + 1],
            ),
        down[0] == up[n as int],
        forall|y: int|
            0 <= y < n ==> shards::is_pop(down[y], start, #[trigger] popped[y], down[y + 1]),
    ensures
        forall|x: int| 0 <= x < n ==> (#[trigger] pushed[x]) is Ok,
        forall|y: int|
            0 <= y < n ==> #[trigger] popped[y] == Ok::<T, PopError>(values[n - 1 - y]),
        down[n as int] == up[0],
{
    lemma_open_all_along(start, values, pushed, up, n);
    assert forall|y: int| 0 <= y <= n implies #[trigger] down[y] == up[n - y] by {
        lemma_back_at(start, values, pushed, up, popped, down, n, y);
    }
    assert forall|y: int| 0 <= y < n implies #[trigger] popped[y] == Ok::<T, PopError>(
        values[n - 1 - y],
    ) by {
        lemma_back_at(start, values, pushed, up, popped, down, n, y);
        let x = n - 1 - y;
        assert(values[x] == values[x]);
        assert(pushed[x] is Ok);
        law_pop_returns_last_push(
            up[x],
            start,
            values[x],
            pushed[x],
            up[x + 1],
            popped[y],
            down[y + 1],
        );
    }
    assert(down[n as int] == up[n - n]);
}

proof fn lemma_open_all_along<T>(
    start: int,
    values: Seq<T>,
    pushed: Seq<Result<(), PushError<T>>>,
    up: Seq<Seq<ShardView<T>>>,
    n: nat,
)
    requires
        values.len() >= n,
        0 <= start < up[0].len(),
        !up[0][start].closed,
        forall|x: int|
            0 <= x < n ==> shards::is_push(
                up[x],
                start,
                #[trigger] values[x],
                pushed[x],
                up[x + 1],
            ),
    ensures
        start < up[n as int].len(),
        !up[n as int][start].closed,
        forall|x: int| 0 <= x < n ==> (#[trigger] pushed[x]) is Ok,
        forall|x: int| 0 <= x <= n ==> start < (#[trigger] up[x]).len(),
    decreases n,
{
    if n > 0 {
        let m = (n - 1) as nat;
        lemma_open_all_along(start, values, pushed, up, m);
        assert(values[m as int] == values[m as int]);
        law_push_adds_its_value(
            up[m as int],
            start,
            values[m as int],
            pushed[m as int],
            up[n as int],
        );
    }
}

proof fn lemma_back_at<T>(
    start: int,
    values: Seq<T>,
    pushed: Seq<Result<(), PushError<T>>>,
    up: Seq<Seq<ShardView<T>>>,
    popped: Seq<Result<T, PopError>>,
    down: Seq<Seq<ShardView<T>>>,
    n: nat,
    y: int,
)
    requires
        0 <= y <= n,
        values.len() == n,
        forall|x: int| 0 <= x < n ==> (#[trigger] pushed[x]) is Ok,
        forall|x: int| 0 <= x <= n ==> start < (#[trigger] up[x]).len(),
        0 <= start,
        forall|x: int|
            0 <= x < n ==> shards::is_push(
                up[x],
                start,
                #[trigger] values[x],
                pushed[x],
                up[x + 1],
            ),
        down[0] == up[n as int],
        forall|z: int|
            0 <= z < n ==> shards::is_pop(down[z], start, #[trigger] popped[z], down[z + 1]),
    ensures
        down[y] == up[n - y],
    decreases y,
{
    if y > 0 {
        lemma_back_at(start, values, pushed, up, popped, down, n, y - 1);
        let x = n - y;
        assert(values[x] == values[x]);
        assert(popped[y - 1] == popped[y - 1]);
        assert(pushed[x] is Ok);
        assert(start < up[x].len());
        law_pop_returns_last_push(
            up[x],
            start,
            values[x],
            pushed[x],
            up[x + 1],
            popped[y - 1],
            down[y],
        );
    }
}

/// After a close every push is refused, whoever makes it, with its value, and changes nothing.
pub proof fn law_push_after_close<T>(
    before: Seq<ShardView<T>>,
    start: int,
    value: T,
    result: Result<(), PushError<T>>,
    after: Seq<ShardView<T>>,
)
    requires
        0 <= start < before.len(),
        shards::is_push(shards::closed(before), start, value, result, after),
    ensures
        result == Err::<(), _>(PushError::Closed(value)),
        after == shards::closed(before),
{
}

/// A close changes nothing for pops, but that they say `Closed` where they would have said
/// `Empty`.
pub proof fn law_pop_after_close<T>(
    before: Seq<ShardView<T>>,
    start: int,
    open: Result<T, PopError>,
    after_open: Seq<ShardView<T>>,
    closed: Result<T, PopError>,
    after_closed: Seq<ShardView<T>>,
)
    requires
        0 <= start < before.len() <= usize::BITS,
        shards::is_pop(before, start, open, after_open),
        shards::is_pop(shards::closed(before), start, closed, after_closed),
    ensures
        open is Ok ==> closed == open,
        open is Err ==> closed == Err::<T, _>(PopError::Closed),
        after_closed == shards::closed(after_open),
{
    let all = shards::closed(before);
    match open {
        Ok(value) => {
            let i = choose|i: int|
                {
                    &&& #[trigger] shards::is_victim(before, start, i)
                    &&& value == before[i].items.last()
                    &&& after_open == before.update(i, before[i].pop())
                };
            assert forall|j: int| 0 <= j < all.len() implies (#[trigger] all[j]).items
                == before[j].items by {}
            assert(shards::is_victim(all, start, i)) by {
                assert(all[i].items == before[i].items);
                assert(all[start].items == before[start].items);
                assert forall|j: int|
                    0 <= j < all.len() && bits::distance(start, j) < bits::distance(
                        start,
                        i,
                    ) && i != start implies (#[trigger] all[j]).items.len() == 0 by {
                    assert(before[j].items.len() == 0);
                }
            }
            let expected = all.update(i, all[i].pop());
            assert(shards::is_pop(all, start, Ok(value), expected));
            law_pop_is_settled(all, start, Ok(value), expected, closed, after_closed);
            assert(expected =~= shards::closed(after_open));
        },
        Err(_) => {
            assert(shards::all_empty(all)) by {
                assert forall|j: int| 0 <= j < all.len() implies (#[trigger] all[j]).items.len()
                    == 0 by {
                    assert(before[j].items.len() == 0);
                }
            }
            if let Ok(v) = closed {
                let i = choose|i: int|
                    {
                        &&& #[trigger] shards::is_victim(all, start, i)
                        &&& v == all[i].items.last()
                        &&& after_closed == all.update(i, all[i].pop())
                    };
                assert(all[i].items.len() == 0);
            }
        },
    }
}

/// Asking whether the stack is closed tells whether no shard is open; after a close the answer is
/// yes, and every shard holds what it held before.
pub proof fn law_closed_means_no_shard_open<T>(shards: Seq<ShardView<T>>)
    ensures
        shards::all_closed(shards) <==> !exists|i: int|
            0 <= i < shards.len() && !(#[trigger] shards[i]).closed,
        shards::all_closed(shards::closed(shards)),
        shards::closed(shards).len() == shards.len(),
        forall|i: int|
            0 <= i < shards.len() ==> {
                &&& (#[trigger] shards::closed(shards)[i]).closed
                &&& shards::closed(shards)[i].items == shards[i].items
            },
{
}

/// Taking a stack apart hands values out in the order in which the owners would pop them: first
/// what the owner of the lowest shard with a value would pop next, and then the rest. Where no
/// shard holds a value, nothing is handed out.
pub proof fn law_teardown_in_pop_order<T>(
    before: Seq<ShardView<T>>,
    i: int,
    result: Result<T, PopError>,
    after: Seq<ShardView<T>>,
)
    requires
        0 <= i < before.len(),
        forall|j: int| 0 <= j < i ==> (#[trigger] before[j]).items.len() == 0,
        before[i].items.len() == 0 ==> i == before.len() - 1,
        shards::is_pop(before, i, result, after),
    ensures
        match result {
            Ok(value) => shards::remaining(before, before.len()) == seq![value]
                + shards::remaining(after, after.len()),
            Err(_) => shards::remaining(before, before.len()) == Seq::<T>::empty(),
        },
{
    match result {
        Ok(value) => {
            let victim = choose|victim: int|
                {
                    &&& #[trigger] shards::is_victim(before, i, victim)
                    &&& value == before[victim].items.last()
                    &&& after == before.update(victim, before[victim].pop())
                };
            assert(before[victim].items.len() > 0);
            assert(victim == i);
            lemma_remaining_after_pop(before, i, before.len());
        },
        Err(_) => {
            lemma_remaining_empty(before, before.len());
        },
    }
}

proof fn lemma_remaining_empty<T>(shards: Seq<ShardView<T>>, n: nat)
    requires
        n <= shards.len(),
        forall|j: int| 0 <= j < n ==> (#[trigger] shards[j]).items.len() == 0,
    ensures
        shards::remaining(shards, n) == Seq::<T>::empty(),
    decreases n,
{
    if n > 0 {
        lemma_remaining_empty(shards, (n - 1) as nat);
        assert(shards[n - 1].items.len() == 0);
        assert(shards::remaining(shards, n) =~= Seq::<T>::empty());
    }
}

proof fn lemma_remaining_after_pop<T>(shards: Seq<ShardView<T>>, i: int, n: nat)
    requires
        0 <= i < n <= shards.len(),
        forall|j: int| 0 <= j < i ==> (#[trigger] shards[j]).items.len() == 0,
        shards[i].items.len() > 0,
    ensures
        shards::remaining(shards, n) == seq![shards[i].items.last()] + shards::remaining(
            shards.update(i, shards[i].pop()),
            n,
        ),
    decreases n,
{
    let after = shards.update(i, shards[i].pop());
    if n == i + 1 {
        lemma_remaining_empty(shards, i as nat);
        lemma_remaining_empty(after, i as nat);
        let items = shards[i].items;
        assert(items.reverse() =~= seq![items.last()] + items.drop_last().reverse());
        assert(shards::remaining(shards, n) =~= seq![items.last()] + shards::remaining(after, n));
    } else {
        lemma_remaining_after_pop(shards, i, (n - 1) as nat);
        assert(shards::remaining(shards, n) =~= seq![shards[i].items.last()] + shards::remaining(
            after,
            n,
        ));
    }
}

/// A call on a stack, with its arguments and its result.
#[allow(inconsistent_fields)]
#[verifier::reject_recursive_types(T)]
pub enum Call<T> {
    Push { start: int, value: T, result: Result<(), PushError<T>> },
    Pop { start: int, result: Result<T, PopError> },
    Close { changed: bool },
    IsClosed { closed: bool },
}

impl<T> Call<T> {
    /// Whether the call can have this result, and make `after` of `before`.
    pub open spec fn happens(self, before: Seq<ShardView<T>>, after: Seq<ShardView<T>>) -> bool {
        match self {
            Call::Push { start, value, result } => {
                &&& 0 <= start < before.len()
                &&& shards::is_push(before, start, value, result, after)
            },
            Call::Pop { start, result } => {
                &&& 0 <= start < before.len()
                &&& shards::is_pop(before, start, result, after)
            },
            Call::Close { changed } => shards::is_close(before, changed, after),
            Call::IsClosed { closed } => {
                &&& shards::is_answer(before, closed)
                &&& after == before
            },
        }
    }
}

/// The values of the pushes among `calls` that succeeded.
pub open spec fn accepted<T>(calls: Seq<Call<T>>) -> Multiset<T>
    decreases calls.len(),
{
    if calls.len() == 0 {
        Multiset::empty()
    } else {
        match calls.last() {
            Call::Push { value, result: Ok(()), .. } => accepted(calls.drop_last()).insert(value),
            _ => accepted(calls.drop_last()),
        }
    }
}

/// The values that the pops among `calls` returned.
pub open spec fn returned<T>(calls: Seq<Call<T>>) -> Multiset<T>
    decreases calls.len(),
{
    if calls.len() == 0 {
        Multiset::empty()
    } else {
        match calls.last() {
            Call::Pop { result: Ok(value), .. } => returned(calls.drop_last()).insert(value),
            _ => returned(calls.drop_last()),
        }
    }
}

/// Whether `stages` can follow upon one another by `calls`.
pub open spec fn is_course<T>(stages: Seq<Seq<ShardView<T>>>, calls: Seq<Call<T>>) -> bool {
    &&& stages.len() == calls.len() + 1
    &&& forall|x: int|
        0 <= x < calls.len() ==> (#[trigger] calls[x]).happens(stages[x], stages[x + 1])
}

/// Nothing is lost and nothing is doubled: after any calls, the values that were there and those
/// of the pushes that succeeded are those that pops returned and those that are left.
pub proof fn law_calls_balance<T>(stages: Seq<Seq<ShardView<T>>>, calls: Seq<Call<T>>)
    requires
        is_course(stages, calls),
    ensures
        shards::values(stages.first(), stages.first().len()).add(accepted(calls)) == returned(
            calls,
        ).add(shards::values(stages.last(), stages.last().len())),
        stages.last().len() == stages.first().len(),
    decreases calls.len(),
{
    let first = shards::values(stages.first(), stages.first().len());
    if calls.len() == 0 {
        assert(first.add(accepted(calls)) =~= returned(calls).add(first));
    } else {
        let n = calls.len() - 1;
        let call = calls[n];
        assert forall|x: int| 0 <= x < n implies (#[trigger] calls.drop_last()[x]).happens(
            stages.drop_last()[x],
            stages.drop_last()[x + 1],
        ) by {
            assert(calls[x].happens(stages[x], stages[x + 1]));
        }
        law_calls_balance(stages.drop_last(), calls.drop_last());
        assert(calls[n].happens(stages[n], stages[n + 1]));
        let before = stages[n];
        let after = stages[n + 1];
        let held = shards::values(before, before.len());
        assert(stages.drop_last().first() == stages.first());
        assert(stages.drop_last().last() == before);
        assert(calls.last() == call);
        assert(first.add(accepted(calls.drop_last())) == returned(calls.drop_last()).add(held));
        match call {
            Call::Push { start, value, result } => {
                law_push_adds_its_value(before, start, value, result, after);
                if result is Err {
                    law_refused_push_changes_nothing(before, start, value, result, after);
                }
            },
            Call::Pop { start, result } => {
                shards::law_pop_takes_one(before, start, result, after);
            },
            Call::Close { .. } => {
                lemma_values_closed(before, before.len());
            },
            Call::IsClosed { .. } => {},
        }
        let left = shards::values(after, after.len());
        let a = accepted(calls.drop_last());
        let r = returned(calls.drop_last());
        match call {
            Call::Push { value, result: Ok(()), .. } => {
                assert(first.add(a.insert(value)) =~= first.add(a).insert(value));
                assert(r.add(held.insert(value)) =~= r.add(held).insert(value));
            },
            Call::Pop { result: Ok(value), .. } => {
                assert(r.insert(value).add(left) =~= r.add(left.insert(value)));
            },
            _ => {
                assert(left == held);
            },
        }
    }
}

proof fn lemma_values_closed<T>(shards: Seq<ShardView<T>>, n: nat)
    requires
        n <= shards.len(),
    ensures
        shards::values(shards::closed(shards), n) == shards::values(shards, n),
    decreases n,
{
    if n > 0 {
        lemma_values_closed(shards, (n - 1) as nat);
    }
}

/// Once a close has returned, every later push is refused with its value, every later close says
/// that it changed nothing, the stack says that it is closed, and a pop that fails says so too.
pub proof fn law_closed_for_good<T>(
    stages: Seq<Seq<ShardView<T>>>,
    calls: Seq<Call<T>>,
    c: int,
    x: int,
)
    requires
        is_course(stages, calls),
        0 <= c < x < calls.len(),
        calls[c] is Close,
    ensures
        match calls[x] {
            Call::Push { value, result, .. } => {
                &&& result == Err::<(), _>(PushError::Closed(value))
                &&& stages[x + 1] == stages[x]
            },
            Call::Pop { result, .. } => result is Err ==> result == Err::<T, _>(PopError::Closed),
            Call::Close { changed } => !changed && stages[x + 1] == stages[x],
            Call::IsClosed { closed } => closed,
        },
{
    lemma_all_closed_after(stages, calls, c, x);
    assert(calls[x].happens(stages[x], stages[x + 1]));
    if let Call::Push { start, .. } = calls[x] {
        assert(stages[x][start].closed);
    }
    if let Call::Close { .. } = calls[x] {
        assert(shards::closed(stages[x]) =~= stages[x]);
    }
}

proof fn lemma_all_closed_after<T>(
    stages: Seq<Seq<ShardView<T>>>,
    calls: Seq<Call<T>>,
    c: int,
    x: int,
)
    requires
        is_course(stages, calls),
        0 <= c < x <= calls.len(),
        calls[c] is Close,
    ensures
        shards::all_closed(stages[x]),
    decreases x - c,
{
    assert(calls[x - 1].happens(stages[x - 1], stages[x]));
    if x > c + 1 {
        lemma_all_closed_after(stages, calls, c, x - 1);
        let before = stages[x - 1];
        let after = stages[x];
        match calls[x - 1] {
            Call::Push { start, .. } => {
                assert(before[start].closed);
            },
            Call::Pop { start, result } => {
                if let Ok(value) = result {
                    let i = choose|i: int|
                        {
                            &&& #[trigger] shards::is_victim(before, start, i)
                            &&& value == before[i].items.last()
                            &&& after == before.update(i, before[i].pop())
                        };
                    assert forall|k: int| 0 <= k < after.len() implies (
                    #[trigger] after[k]).closed by {
                        assert(before[k].closed);
                    }
                }
            },
            _ => {},
        }
    }
}

/// Hints heal. A pop never adds a hint, and keeps the hint at every shard that still holds a value;
/// one that fails leaves no hint, and one that succeeds leaves none at its own shard, nor at the
/// shard that its value is from, if nothing is left there.
pub proof fn law_hints_heal<T>(
    before: Seq<ShardView<T>>,
    hints: Set<int>,
    start: int,
    result: Result<T, PopError>,
    after: Seq<ShardView<T>>,
    left: Set<int>,
)
    requires
        0 <= start < before.len() <= usize::BITS,
        shards::is_pop(before, start, result, after),
        shards::hints_kept(hints, left, start, result, before, after),
        forall|i: int|
            0 <= i < before.len() && (#[trigger] before[i]).items.len() > 0 ==> hints.contains(i),
    ensures
        left.subset_of(hints),
        forall|i: int|
            0 <= i < after.len() && (#[trigger] after[i]).items.len() > 0 ==> left.contains(i),
        result is Err ==> left == Set::<int>::empty(),
        after[start].items.len() == 0 ==> !left.contains(start),
        forall|i: int|
            0 <= i < before.len() && (#[trigger] before[i]).items.len() > 0 && after[i].items.len()
                == 0 ==> !left.contains(i),
{
    if let Ok(value) = result {
        let victim = choose|victim: int|
            {
                &&& #[trigger] shards::is_victim(before, start, victim)
                &&& value == before[victim].items.last()
                &&& after == before.update(victim, before[victim].pop())
            };
        assert forall|i: int| #[trigger] left.contains(i) implies hints.contains(i) by {
            assert(shards::is_victim(before, start, victim));
        }
        assert forall|i: int|
            0 <= i < after.len() && (#[trigger] after[i]).items.len() > 0 implies left.contains(
            i,
        ) by {
            assert(shards::is_victim(before, start, victim));
            assert(before[i].items.len() > 0);
            assert(left.contains(i) == left.contains(i));
        }
        bits::lemma_distance_zero(start, start);
        assert(left.contains(start) == left.contains(start));
        assert(left.contains(victim) == left.contains(victim));
    } else {
        assert forall|i: int|
            0 <= i < after.len() && (#[trigger] after[i]).items.len() > 0 implies left.contains(
            i,
        ) by {
            assert(before[i].items.len() == 0);
        }
    }
}

/// A stack that was just made has the shards it was asked for, all open and empty: a pop by
/// anybody finds nothing, and the stack takes values.
pub proof fn law_new_stack_is_empty<T>(
    shards: Seq<ShardView<T>>,
    shard_count: nat,
    start: int,
    popped: Result<T, PopError>,
    after: Seq<ShardView<T>>,
    answer: bool,
)
    requires
        0 <= start < shard_count,
        shards::is_new(shards, shard_count),
        shards::is_pop(shards, start, popped, after),
        shards::is_answer(shards, answer),
    ensures
        shards.len() == shard_count,
        forall|i: int|
            0 <= i < shard_count ==> {
                &&& (#[trigger] shards[i]).items == Seq::<T>::empty()
                &&& !shards[i].closed
            },
        popped == Err::<T, _>(PopError::Empty),
        !answer,
{
    assert(!shards[start].closed);
    if let Ok(value) = popped {
        let i = choose|i: int|
            {
                &&& #[trigger] shards::is_victim(shards, start, i)
                &&& value == shards[i].items.last()
                &&& after == shards.update(i, shards[i].pop())
            };
        assert(shards[i].items.len() == 0);
    }
}

/// A close says whether some shard was open. It leaves every shard closed, and with what it held.
pub proof fn law_close_closes<T>(
    before: Seq<ShardView<T>>,
    changed: bool,
    after: Seq<ShardView<T>>,
    answer: bool,
)
    requires
        shards::is_close(before, changed, after),
        shards::is_answer(after, answer),
    ensures
        changed <==> exists|i: int| 0 <= i < before.len() && !(#[trigger] before[i]).closed,
        after.len() == before.len(),
        forall|i: int|
            0 <= i < after.len() ==> {
                &&& (#[trigger] after[i]).closed
                &&& after[i].items == before[i].items
            },
        answer,
{
}

} // verus!
