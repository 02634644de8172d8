//! What has gone into a stack, and what has come out.

use crate::interleaving::consistency;
use crate::interleaving::laws;
use crate::interleaving::system;
use crate::interleaving::system::{Event, Outcome, System};
use crate::interleaving::undisturbed;
use crate::lists;
use crate::shards;
use vstd::multiset::*;
use vstd::prelude::*;

verus! {

/// The values of the pushes that have returned with success by the first `k` events.
pub open spec fn accepted<T>(
    states: Seq<System<T>>,
    events: Seq<Event<T>>,
    k: nat,
) -> Multiset<T>
    decreases k,
{
    if k == 0 {
        Multiset::empty()
    } else {
        let before = accepted(states, events, (k - 1) as nat);
        let s = states[k - 1];
        match (events[k - 1], s.outcome(events[k - 1])) {
            (Event::Access { operation, .. }, Some(Outcome::Push { result: Ok(()) })) =>
                before.insert(s.history.offered[operation]),
            _ => before,
        }
    }
}

/// The values that pops have returned by the first `k` events.
pub open spec fn returned<T>(
    states: Seq<System<T>>,
    events: Seq<Event<T>>,
    k: nat,
) -> Multiset<T>
    decreases k,
{
    if k == 0 {
        Multiset::empty()
    } else {
        let before = returned(states, events, (k - 1) as nat);
        match states[k - 1].outcome(events[k - 1]) {
            Some(Outcome::Pop { result: Ok(value) }) => before.insert(value),
            _ => before,
        }
    }
}

/// The values of those among the first `n` operations that are in `chosen`.
spec fn sum<T>(offered: Map<nat, T>, chosen: Set<nat>, n: nat) -> Multiset<T>
    decreases n,
{
    if n == 0 {
        Multiset::empty()
    } else {
        let before = sum(offered, chosen, (n - 1) as nat);
        if chosen.contains((n - 1) as nat) {
            before.insert(offered[(n - 1) as nat])
        } else {
            before
        }
    }
}

/// Only the values and the choice matter.
proof fn lemma_sum_same<T>(a: Map<nat, T>, b: Map<nat, T>, x: Set<nat>, y: Set<nat>, n: nat)
    requires
        forall|o: nat| o < n ==> (#[trigger] x.contains(o) <==> y.contains(o)),
        forall|o: nat| o < n && #[trigger] x.contains(o) ==> a[o] == b[o],
    ensures
        sum(a, x, n) == sum(b, y, n),
    decreases n,
{
    if n > 0 {
        lemma_sum_same(a, b, x, y, (n - 1) as nat);
        assert(x.contains((n - 1) as nat) <==> y.contains((n - 1) as nat));
    }
}

/// One more operation adds its value.
proof fn lemma_sum_insert<T>(a: Map<nat, T>, x: Set<nat>, o: nat, n: nat)
    requires
        !x.contains(o),
    ensures
        sum(a, x.insert(o), n) == (if o < n {
            sum(a, x, n).insert(a[o])
        } else {
            sum(a, x, n)
        }),
    decreases n,
{
    if n > 0 {
        lemma_sum_insert(a, x, o, (n - 1) as nat);
        assert(sum(a, x.insert(o), n) =~= (if o < n {
            sum(a, x, n).insert(a[o])
        } else {
            sum(a, x, n)
        }));
    }
}

/// Separate choices add up.
proof fn lemma_sum_union<T>(a: Map<nat, T>, x: Set<nat>, y: Set<nat>, n: nat)
    requires
        forall|o: nat| !(#[trigger] x.contains(o) && y.contains(o)),
    ensures
        sum(a, x.union(y), n) == sum(a, x, n).add(sum(a, y, n)),
    decreases n,
{
    if n > 0 {
        lemma_sum_union(a, x, y, (n - 1) as nat);
        assert(!(x.contains((n - 1) as nat) && y.contains((n - 1) as nat)));
        assert(sum(a, x.union(y), n) =~= sum(a, x, n).add(sum(a, y, n)));
    } else {
        assert(sum(a, x.union(y), n) =~= sum(a, x, n).add(sum(a, y, n)));
    }
}

/// The pushes that are over and were not refused.
spec fn done<T>(s: System<T>) -> Set<nat> {
    Set::new(
        |o: nat|
            s.history.offered.contains_key(o) && !s.history.refused.contains(o)
                && !s.running.contains_key(o),
    )
}

/// The pushes over which a turn does not decide stay as they are.
proof fn lemma_turn<T>(s: System<T>, o: nat, spurious: bool)
    requires
        s.consistent(),
        s.running.contains_key(o),
        s.history.offered.contains_key(o) ==> s.running[o] is Push,
    ensures
        ({
            let t = s.after_access(o, spurious);
            let event = Event::<T>::Access { operation: o, spurious };
            &&& t.begun == s.begun
            &&& t.history.offered == s.history.offered
            &&& o < s.begun
            &&& match s.outcome(event) {
                Some(Outcome::Push { result: Ok(()) }) => {
                    &&& done(t) =~= done(s).insert(o)
                    &&& !done(s).contains(o)
                    &&& t.history.popped == s.history.popped
                },
                Some(Outcome::Pop { result: Ok(value) }) => {
                    &&& done(t) =~= done(s)
                    &&& exists|push: nat|
                        {
                            &&& !s.history.popped.contains_key(push)
                            &&& #[trigger] s.history.offered[push] == value
                            &&& push < s.begun
                            &&& t.history.popped == s.history.popped.insert(push, o)
                        }
                },
                _ => {
                    &&& done(t) =~= done(s)
                    &&& t.history.popped == s.history.popped
                },
            }
        }),
{
    let t = s.after_access(o, spurious);
    consistency::lemma_access(s, o, spurious);
    consistency::lemma_access_consistent(s, o, spurious);
    if let Some(node) = s.running[o].owned() {
        consistency::lemma_stored(s, node);
        consistency::lemma_accounted(s, s.history.origin[node]);
        assert(s.history.offered[s.history.origin[node]] == s.memory.nodes[node].value->0);
    }
}

/// Only pushes have something to offer.
proof fn lemma_offers_are_pushes<T>(
    shard_count: nat,
    states: Seq<System<T>>,
    events: Seq<Event<T>>,
    k: int,
    o: nat,
)
    requires
        system::is_execution(shard_count, states, events),
        0 <= k < states.len(),
        states[k].running.contains_key(o),
        states[k].history.offered.contains_key(o),
    ensures
        states[k].running[o] is Push,
    decreases k,
{
    if k > 0 {
        let s = states[k - 1];
        assert(s.enabled(events[k - 1]));
        assert(states[k] == s.after(events[k - 1]));
        consistency::lemma_execution_consistent(shard_count, states, events, k - 1);
        consistency::lemma_shaped(s);
        if s.history.offered.contains_key(o) {
            consistency::lemma_accounted(s, o);
            lemma_offers_are_pushes(shard_count, states, events, k - 1, o);
        }
        if let Event::Access { operation, spurious } = events[k - 1] {
            consistency::lemma_in_order(s, operation);
        }
    }
}

/// What operations have returned agrees with what is recorded.
proof fn lemma_recorded<T>(
    shard_count: nat,
    states: Seq<System<T>>,
    events: Seq<Event<T>>,
    k: nat,
)
    requires
        system::is_execution(shard_count, states, events),
        k < states.len(),
    ensures
        ({
            let s = states[k as int];
            let h = s.history;
            &&& accepted(states, events, k) == sum(h.offered, done(s), s.begun)
            &&& returned(states, events, k) == sum(h.offered, h.popped.dom(), s.begun)
        }),
    decreases k,
{
    let t = states[k as int];
    if k > 0 {
        let l = (k - 1) as nat;
        let s = states[l as int];
        let event = events[l as int];
        lemma_recorded(shard_count, states, events, l);
        assert(s.enabled(event));
        assert(t == s.after(event));
        consistency::lemma_execution_consistent(shard_count, states, events, l as int);
        consistency::lemma_shaped(s);
        match event {
            Event::Access { operation, spurious } => {
                if s.history.offered.contains_key(operation) {
                    lemma_offers_are_pushes(shard_count, states, events, l as int, operation);
                }
                lemma_turn(s, operation, spurious);
                match s.outcome(event) {
                    Some(Outcome::Push { result: Ok(()) }) => {
                        lemma_sum_insert(s.history.offered, done(s), operation, s.begun);
                    },
                    Some(Outcome::Pop { result: Ok(value) }) => {
                        let push = choose|push: nat|
                            {
                                &&& !s.history.popped.contains_key(push)
                                &&& #[trigger] s.history.offered[push] == value
                                &&& push < s.begun
                                &&& t.history.popped == s.history.popped.insert(push, operation)
                            };
                        assert(t.history.popped.dom() =~= s.history.popped.dom().insert(push));
                        lemma_sum_insert(
                            s.history.offered,
                            s.history.popped.dom(),
                            push,
                            s.begun,
                        );
                    },
                    _ => {},
                }
            },
            Event::Collect { .. } => {
                assert(done(t) =~= done(s));
            },
            _ => {
                lemma_begin(s, event);
            },
        }
    }
}

/// The beginning of an operation does not change what has been returned.
proof fn lemma_begin<T>(s: System<T>, event: Event<T>)
    requires
        s.consistent(),
        s.enabled(event),
        !(event is Access),
        !(event is Collect),
    ensures
        ({
            let t = s.after(event);
            &&& sum(t.history.offered, done(t), t.begun) == sum(
                s.history.offered,
                done(s),
                s.begun,
            )
            &&& sum(t.history.offered, t.history.popped.dom(), t.begun) == sum(
                s.history.offered,
                s.history.popped.dom(),
                s.begun,
            )
        }),
{
    let t = s.after(event);
    let last = s.begun;
    if s.history.offered.contains_key(last) {
        consistency::lemma_accounted(s, last);
    }
    consistency::lemma_records(s);
    assert(t.begun == last + 1);
    assert forall|o: nat| o < last implies (#[trigger] done(s).contains(o) <==> done(t).contains(
        o,
    )) by {}
    assert(!done(t).contains(last));
    assert(!t.history.popped.dom().contains(last));
    lemma_sum_same(s.history.offered, t.history.offered, done(s), done(t), last);
    lemma_sum_same(
        s.history.offered,
        t.history.offered,
        s.history.popped.dom(),
        t.history.popped.dom(),
        last,
    );
}

/// The pushes whose values are in the first `c` places of a shard.
spec fn origins<T>(s: System<T>, i: int, c: int) -> Set<nat> {
    Set::new(
        |push: nat| exists|x: int| 0 <= x < c && #[trigger] s.history.origin[s.lists[i][x]] == push,
    )
}

/// The pushes whose values are in the first `n` shards.
spec fn all_origins<T>(s: System<T>, n: int) -> Set<nat> {
    Set::new(
        |push: nat|
            exists|i: int| 0 <= i < n && #[trigger] origins(s, i, s.lists[i].len() as int).contains(
                push,
            ),
    )
}

/// What is known of a node that hangs off a head.
proof fn lemma_place<T>(s: System<T>, i: int, x: int)
    requires
        s.consistent(),
        0 <= i < s.lists.len(),
        0 <= x < s.lists[i].len(),
    ensures
        s.stored(s.lists[i][x]),
        s.history.origin[s.lists[i][x]] < s.begun,
        laws::contents(s, i)[x] == s.history.offered[s.history.origin[s.lists[i][x]]],
{
    let node = s.lists[i][x];
    consistency::lemma_shaped(s);
    assert(lists::listed(s.lists, node));
    lists::lemma_listed_has_value(s.memory, s.lists, node);
    consistency::lemma_stored(s, node);
    consistency::lemma_accounted(s, s.history.origin[node]);
}

/// Two places hold the values of two pushes.
proof fn lemma_places_differ<T>(s: System<T>, i: int, x: int, j: int, y: int)
    requires
        s.consistent(),
        0 <= i < s.lists.len(),
        0 <= x < s.lists[i].len(),
        0 <= j < s.lists.len(),
        0 <= y < s.lists[j].len(),
        s.history.origin[s.lists[i][x]] == s.history.origin[s.lists[j][y]],
    ensures
        i == j,
        x == y,
{
    lemma_place(s, i, x);
    lemma_place(s, j, y);
    consistency::lemma_origin_unique(s, s.lists[i][x], s.lists[j][y]);
    consistency::lemma_shaped(s);
    reveal(lists::separate);
}

/// A shard holds the values of the pushes that its nodes were made for.
proof fn lemma_shard_sum<T>(s: System<T>, i: int, c: int)
    requires
        s.consistent(),
        0 <= i < s.lists.len(),
        0 <= c <= s.lists[i].len(),
    ensures
        laws::contents(s, i).take(c).to_multiset() == sum(
            s.history.offered,
            origins(s, i, c),
            s.begun,
        ),
    decreases c,
{
    let items = laws::contents(s, i);
    if c == 0 {
        assert(items.take(0) =~= Seq::empty());
        vstd::seq_lib::to_multiset_len(items.take(0));
        assert(items.take(0).to_multiset() =~= Multiset::empty());
        assert(origins(s, i, 0) =~= Set::empty());
        lemma_sum_nothing(s.history.offered, s.begun);
    } else {
        lemma_shard_sum(s, i, c - 1);
        lemma_place(s, i, c - 1);
        let push = s.history.origin[s.lists[i][c - 1]];
        assert forall|x: int| 0 <= x < c - 1 implies #[trigger] s.history.origin[s.lists[i][x]]
            != push by {
            if s.history.origin[s.lists[i][x]] == push {
                lemma_places_differ(s, i, x, i, c - 1);
            }
        }
        assert(!origins(s, i, c - 1).contains(push));
        assert(origins(s, i, c) =~= origins(s, i, c - 1).insert(push));
        lemma_sum_insert(s.history.offered, origins(s, i, c - 1), push, s.begun);
        assert(items.take(c) =~= items.take(c - 1).push(items[c - 1]));
        vstd::seq_lib::to_multiset_build(items.take(c - 1), items[c - 1]);
    }
}

proof fn lemma_sum_nothing<T>(a: Map<nat, T>, n: nat)
    ensures
        sum(a, Set::empty(), n) == Multiset::<T>::empty(),
    decreases n,
{
    if n > 0 {
        lemma_sum_nothing(a, (n - 1) as nat);
    }
}

/// The shards together hold the values of the pushes that their nodes were made for.
proof fn lemma_shards_sum<T>(s: System<T>, n: nat)
    requires
        s.consistent(),
        n <= s.lists.len(),
        s.lists.len() == s.shard_count(),
    ensures
        shards::values(undisturbed::shards_of(s), n) == sum(
            s.history.offered,
            all_origins(s, n as int),
            s.begun,
        ),
    decreases n,
{
    if n == 0 {
        assert(all_origins(s, 0) =~= Set::empty());
        lemma_sum_nothing(s.history.offered, s.begun);
    } else {
        let i = n - 1;
        let c = s.lists[i].len() as int;
        lemma_shards_sum(s, (n - 1) as nat);
        lemma_shard_sum(s, i, c);
        assert(laws::contents(s, i).take(c) =~= laws::contents(s, i));
        let x = all_origins(s, i);
        let y = origins(s, i, c);
        assert(all_origins(s, n as int) =~= x.union(y));
        assert forall|push: nat| !(#[trigger] x.contains(push) && y.contains(push)) by {
            if x.contains(push) && y.contains(push) {
                let j = choose|j: int|
                    0 <= j < i && #[trigger] origins(s, j, s.lists[j].len() as int).contains(push);
                let a = choose|a: int|
                    0 <= a < s.lists[j].len() && #[trigger] s.history.origin[s.lists[j][a]] == push;
                let b = choose|b: int|
                    0 <= b < c && #[trigger] s.history.origin[s.lists[i][b]] == push;
                lemma_places_differ(s, j, a, i, b);
            }
        }
        lemma_sum_union(s.history.offered, x, y, s.begun);
        assert(undisturbed::shards_of(s)[i].items == laws::contents(s, i));
    }
}

/// Nothing is lost and nothing is doubled: at rest, the values that pops have returned and those
/// that taking the stack apart hands out together are the values of the pushes that succeeded,
/// each once.
pub proof fn law_values_balance<T>(
    shard_count: nat,
    states: Seq<System<T>>,
    events: Seq<Event<T>>,
    k: nat,
)
    requires
        system::is_execution(shard_count, states, events),
        k < states.len(),
        forall|o: nat| !#[trigger] states[k as int].running.contains_key(o),
    ensures
        accepted(states, events, k) == returned(states, events, k).add(
            shards::remaining(
                undisturbed::shards_of(states[k as int]),
                shard_count,
            ).to_multiset(),
        ),
{
    let s = states[k as int];
    let h = s.history;
    consistency::lemma_execution_consistent(shard_count, states, events, k as int);
    laws::lemma_shard_count(shard_count, states, events, k as int);
    lemma_recorded(shard_count, states, events, k);
    lemma_shards_sum(s, shard_count);
    shards::law_teardown_hands_out_everything(undisturbed::shards_of(s), shard_count);
    consistency::lemma_records(s);
    let x = h.popped.dom();
    let y = all_origins(s, shard_count as int);
    assert forall|push: nat| #[trigger] y.contains(push) implies h.offered.contains_key(push)
        && !h.popped.contains_key(push) && !h.refused.contains(push) by {
        let i = choose|i: int|
            0 <= i < shard_count && #[trigger] origins(s, i, s.lists[i].len() as int).contains(
                push,
            );
        let c = choose|c: int|
            0 <= c < s.lists[i].len() && #[trigger] s.history.origin[s.lists[i][c]] == push;
        lemma_place(s, i, c);
        consistency::lemma_stored(s, s.lists[i][c]);
    }
    assert forall|push: nat| #[trigger] done(s).contains(push) implies x.contains(push)
        || y.contains(push) by {
        consistency::lemma_accounted(s, push);
        if s.stored_somewhere(push) {
            let node = choose|node: usize| s.stored(node) && #[trigger] h.origin[node] == push;
            consistency::lemma_stored(s, node);
            let (i, c) = choose|i: int, c: int|
                0 <= i < s.lists.len() && 0 <= c < s.lists[i].len() && #[trigger] s.lists[i][c]
                    == node;
            assert(h.origin[s.lists[i][c]] == push);
            assert(origins(s, i, s.lists[i].len() as int).contains(push));
        }
    }
    assert(done(s) =~= x.union(y));
    lemma_sum_union(h.offered, x, y, s.begun);
}

} // verus!
