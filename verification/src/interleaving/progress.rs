//! What becomes of the values in an open stack when pops keep coming.
//!
//! A run goes on for ever. It is fair if every operation in flight gets its next turn some time.

use crate::bits;
use crate::interleaving::consistency;
use crate::interleaving::drain;
use crate::interleaving::laws;
use crate::interleaving::system;
use crate::interleaving::system::{Effect, Event, Inner, Operation, Progress, System};
use crate::layout;
use crate::lists;
use crate::steps::pop::CURRENT_SHARD_CAS_RETRIES;
use crate::steps::{ClearBitStep, ClosedScanStep, PopOneStep, PopStep, Stage};
use vstd::prelude::*;

verus! {

/// An execution without an end: the state before each event, and the event.
#[verifier::reject_recursive_types(T)]
pub struct Run<T> {
    pub shard_count: nat,
    pub states: spec_fn(nat) -> System<T>,
    pub events: spec_fn(nat) -> Event<T>,
}

impl<T> Run<T> {
    pub open spec fn state(self, n: nat) -> System<T> {
        (self.states)(n)
    }

    pub open spec fn event(self, n: nat) -> Event<T> {
        (self.events)(n)
    }

    /// The states follow upon one another from the making of a stack, by the events.
    pub open spec fn valid(self) -> bool {
        &&& layout::valid_shard_count(self.shard_count as int)
        &&& self.state(0) == System::<T>::initial(self.shard_count)
        &&& forall|n: nat|
            {
                &&& self.state(n).enabled(#[trigger] self.event(n))
                &&& self.state(n + 1) == self.state(n).after(self.event(n))
            }
    }

    /// Operation `o` has a turn in state `n` or later.
    pub open spec fn turn_comes_after(self, n: nat, o: nat) -> bool {
        exists|m: nat| n <= m && drain::is_turn(#[trigger] self.event(m), o)
    }

    /// Every operation in flight has another turn.
    pub open spec fn fair(self) -> bool {
        forall|n: nat, o: nat|
            self.state(n).running.contains_key(o) ==> #[trigger] self.turn_comes_after(n, o)
    }

    /// From state `k` on the stack is open, all pushes are over, and there is no close.
    pub open spec fn pushed_by(self, k: nat) -> bool {
        &&& forall|i: int|
            0 <= i < self.shard_count ==> !#[trigger] laws::shard_closed(self.state(k), i)
        &&& forall|o: nat| #[trigger]
            self.state(k).running.contains_key(o) ==> drain::looks(self.state(k).running[o])
        &&& forall|n: nat|
            k <= n ==> !(#[trigger] self.event(n) is BeginPush) && !(self.event(n) is BeginClose)
    }

    /// A pop is begun in state `n` or later.
    pub open spec fn pop_comes_after(self, n: nat) -> bool {
        exists|m: nat| n <= m && #[trigger] self.event(m) is BeginPop
    }

    /// Pops are begun again and again.
    pub open spec fn pops_keep_coming(self) -> bool {
        forall|n: nat| #[trigger] self.pop_comes_after(n)
    }

    /// What the event does to the shared memory.
    spec fn effect(self, n: nat) -> Effect {
        laws::effect_of(self.state(n), self.event(n))
    }

    /// No value is taken off a shard from state `n` on.
    spec fn stuck_from(self, n: nat) -> bool {
        forall|m: nat| n <= m ==> !(#[trigger] self.effect(m) is Unlink)
    }
}

/// Whether the stack is open, and all operations in flight are pops and questions.
spec fn calm<T>(s: System<T>) -> bool {
    &&& s.consistent()
    &&& forall|i: int| 0 <= i < s.shard_count() ==> !#[trigger] laws::shard_closed(s, i)
    &&& forall|o: nat| #[trigger] s.running.contains_key(o) ==> drain::looks(s.running[o])
}

/// Every state of a run is in order.
proof fn lemma_run_consistent<T>(run: Run<T>, n: nat)
    requires
        run.valid(),
    ensures
        run.state(n).consistent(),
        run.state(n).shard_count() == run.shard_count,
    decreases n,
{
    if n == 0 {
        consistency::lemma_initial_consistent::<T>(run.shard_count);
    } else {
        let m = (n - 1) as nat;
        lemma_run_consistent(run, m);
        let s = run.state(m);
        assert(s.enabled(run.event(m)));
        consistency::lemma_event_consistent(s, run.event(m));
        if let Event::Access { operation, spurious } = run.event(m) {
            consistency::lemma_access(s, operation, spurious);
        }
    }
}

/// How many turns an attempt can still take, at most.
spec fn attempt_rank<T>(one: PopOneStep<usize, T>, clearing: ClearBitStep) -> nat {
    match one {
        PopOneStep::LoadHead { .. } => 9,
        PopOneStep::LoadNext { .. } => 8,
        PopOneStep::Exchange { .. } => 7,
        PopOneStep::ClearBit { .. } => match clearing {
            ClearBitStep::LoadBitmap { .. } => 6,
            ClearBitStep::ClearBit { .. } => 5,
            ClearBitStep::LoadHead { .. } => 4,
            ClearBitStep::SetBit { .. } => 3,
            ClearBitStep::Return => 3,
        },
        PopOneStep::Take { .. } => 2,
        PopOneStep::Return { .. } => 1,
    }
}

/// A bound on the turns that a scan can still take.
spec fn scan_rank(scan: ClosedScanStep) -> nat {
    match scan {
        ClosedScanStep::LoadHead { shard_count, shard } => if shard < shard_count {
            (shard_count - shard) as nat
        } else {
            0
        },
        ClosedScanStep::Return { .. } => 0,
    }
}

/// A bound on the turns that a pop on an open stack can still take.
spec fn pop_rank<T>(step: PopStep<T>, inner: Inner<T>) -> nat {
    let inside = match inner {
        Inner::Attempt { one, clearing } => attempt_rank(one, clearing),
        Inner::Scan { scan } => scan_rank(scan),
        Inner::Own => 0,
    };
    match step {
        PopStep::PopOne { visit } => match visit.stage {
            Stage::Local { losses } => (100 + 40 * (usize::MAX as nat + 2) + inside + 10 * (
            CURRENT_SHARD_CAS_RETRIES - losses)) as nat,
            Stage::Steal { rest, losses } => (100 + 40 * rest + inside + 10 * (
            CURRENT_SHARD_CAS_RETRIES - losses)) as nat,
            Stage::Drain { .. } => 0,
        },
        PopStep::LoadBitmap { .. } => 100 + 40 * (usize::MAX as nat + 1),
        PopStep::AllShardsClosed { .. } => inside,
        PopStep::Return { .. } => 0,
    }
}

/// A bound on the turns that an operation can still take.
spec fn rank<T>(operation: Operation<T>) -> nat {
    match operation {
        Operation::Pop { step, inner } => pop_rank(step, inner),
        Operation::IsClosed { step } => scan_rank(step),
        _ => 0,
    }
}

/// Going to the next candidate takes fewer turns than were left.
proof fn lemma_steal_rank<T>(start: usize, shard_count: usize, candidates: usize)
    requires
        layout::valid_shard_count(shard_count as int),
        start < shard_count,
        bits::bits_below(candidates, shard_count as int),
    ensures
        ({
            let step = PopStep::<T>::steal(start, shard_count, candidates);
            &&& system::pop_at(step) matches Progress::Running { operation }
            &&& drain::looks(operation)
            &&& rank(operation) < 101 + 40 * candidates
        }),
{
    layout::lemma_valid_shard_counts(shard_count as int);
    if candidates != 0 {
        let shard = bits::nearest(candidates, start as int);
        bits::lemma_nearest(candidates, start as int);
        bits::lemma_without_bit_is_less(candidates, shard);
    }
}

/// A turn of a pop or a question on an open stack leaves it fewer turns.
proof fn lemma_rank_drops<T>(s: System<T>, o: nat, spurious: bool)
    requires
        calm(s),
        s.running.contains_key(o),
    ensures
        s.progress(o, spurious) matches Progress::Running { operation } ==> {
            &&& drain::looks(operation)
            &&& rank(operation) < rank(s.running[o])
        },
{
    consistency::lemma_in_order(s, o);
    layout::lemma_valid_shard_counts(s.shard_count());
    assert(!laws::shard_closed(s, 0));
    match s.running[o] {
        Operation::Pop { step, inner } => match inner {
            Inner::Attempt { one, clearing } => {
                if let PopStep::PopOne { visit } = step {
                    if let Stage::Steal { rest, .. } = visit.stage {
                        lemma_steal_rank::<T>(visit.start, visit.shard_count, rest);
                    }
                    if let Stage::Drain { .. } = visit.stage {
                        assert(s.memory.heads[0].closed());
                    }
                }
            },
            Inner::Scan { scan } => {
                if let ClosedScanStep::LoadHead { shard, .. } = scan {
                    assert(!laws::shard_closed(s, shard as int));
                }
            },
            Inner::Own => {
                if let PopStep::LoadBitmap { start, shard_count } = step {
                    bits::lemma_without_bit(s.memory.bitmap, start as int);
                    lemma_steal_rank::<T>(
                        start,
                        shard_count,
                        bits::without_bit(s.memory.bitmap, start as int),
                    );
                }
            },
        },
        Operation::IsClosed { step } => {
            if let ClosedScanStep::LoadHead { shard, .. } = step {
                assert(!laws::shard_closed(s, shard as int));
            }
        },
        _ => {},
    }
}

/// The stack stays open, and only pops and questions are in flight.
proof fn lemma_calm<T>(run: Run<T>, k: nat, n: nat)
    requires
        run.valid(),
        run.pushed_by(k),
        k <= n,
    ensures
        calm(run.state(n)),
        run.state(n).shard_count() == run.shard_count,
    decreases n,
{
    lemma_run_consistent(run, n);
    if n > k {
        let m = (n - 1) as nat;
        lemma_calm(run, k, m);
        let s = run.state(m);
        let event = run.event(m);
        assert(s.enabled(event));
        if let Event::Access { operation, spurious } = event {
            consistency::lemma_access(s, operation, spurious);
            lemma_rank_drops(s, operation, spurious);
            assert forall|i: int| 0 <= i < run.shard_count implies !#[trigger] laws::shard_closed(
                run.state(n),
                i,
            ) by {
                assert(!laws::shard_closed(s, i));
            }
        } else {
            assert forall|i: int| 0 <= i < run.shard_count implies !#[trigger] laws::shard_closed(
                run.state(n),
                i,
            ) by {
                assert(!laws::shard_closed(s, i));
            }
        }
    }
}

/// Numbers are given out in order, and an operation that is over stays over.
proof fn lemma_over_for_good<T>(run: Run<T>, n: nat, m: nat, o: nat)
    requires
        run.valid(),
        n <= m,
    ensures
        run.state(n).begun <= run.state(m).begun,
        o < run.state(n).begun && !run.state(n).running.contains_key(o) ==> !run.state(
            m,
        ).running.contains_key(o),
    decreases m,
{
    if n < m {
        let l = (m - 1) as nat;
        lemma_over_for_good(run, n, l, o);
        assert(run.state(l).enabled(run.event(l)));
    }
}

/// An operation has no more turns left than before.
proof fn lemma_rank_kept<T>(run: Run<T>, k: nat, n: nat, m: nat, o: nat)
    requires
        run.valid(),
        run.pushed_by(k),
        k <= n <= m,
        run.state(n).running.contains_key(o),
        run.state(m).running.contains_key(o),
    ensures
        rank(run.state(m).running[o]) <= rank(run.state(n).running[o]),
    decreases m,
{
    if n < m {
        let l = (m - 1) as nat;
        lemma_run_consistent(run, n);
        consistency::lemma_shaped(run.state(n));
        lemma_over_for_good(run, n, l, o);
        let s = run.state(l);
        assert(s.enabled(run.event(l)));
        lemma_calm(run, k, l);
        if !s.running.contains_key(o) {
            lemma_over_for_good(run, l, m, o);
        }
        lemma_rank_kept(run, k, n, l, o);
        if let Event::Access { operation, spurious } = run.event(l) {
            lemma_rank_drops(s, operation, spurious);
        }
    }
}

/// Every operation in flight comes to an end.
proof fn lemma_ends<T>(run: Run<T>, k: nat, n: nat, o: nat) -> (end: nat)
    requires
        run.valid(),
        run.fair(),
        run.pushed_by(k),
        k <= n,
        run.state(n).running.contains_key(o),
    ensures
        n <= end,
        !run.state(end).running.contains_key(o),
    decreases rank(run.state(n).running[o]),
{
    assert(run.turn_comes_after(n, o));
    let m = choose|m: nat| n <= m && drain::is_turn(#[trigger] run.event(m), o);
    assert(run.state(m).enabled(run.event(m)));
    lemma_rank_kept(run, k, n, m, o);
    lemma_calm(run, k, m);
    if let Event::Access { spurious, .. } = run.event(m) {
        lemma_rank_drops(run.state(m), o, spurious);
    }
    if run.state(m + 1).running.contains_key(o) {
        lemma_ends(run, k, m + 1, o)
    } else {
        m + 1
    }
}

/// All operations in flight come to an end.
proof fn lemma_all_end<T>(run: Run<T>, k: nat, n: nat, limit: nat) -> (end: nat)
    requires
        run.valid(),
        run.fair(),
        run.pushed_by(k),
        k <= n,
        limit <= run.state(n).begun,
    ensures
        n <= end,
        forall|o: nat| o < limit ==> !#[trigger] run.state(end).running.contains_key(o),
    decreases limit,
{
    if limit == 0 {
        n
    } else {
        let last = (limit - 1) as nat;
        let m = lemma_all_end(run, k, n, last);
        let end = if run.state(m).running.contains_key(last) {
            lemma_ends(run, k, m, last)
        } else {
            m
        };
        lemma_over_for_good(run, n, m, last);
        assert forall|o: nat| o < limit implies !#[trigger] run.state(end).running.contains_key(
            o,
        ) by {
            if o < last {
                lemma_over_for_good(run, m, end, o);
            }
        }
        end
    }
}

/// While no value is taken off, the heads and lists stay as they are.
proof fn lemma_still<T>(run: Run<T>, k: nat, n: nat, m: nat)
    requires
        run.valid(),
        run.pushed_by(k),
        k <= n <= m,
        run.stuck_from(n),
    ensures
        run.state(m).memory.heads == run.state(n).memory.heads,
        run.state(m).lists == run.state(n).lists,
    decreases m,
{
    if n < m {
        let l = (m - 1) as nat;
        lemma_still(run, k, n, l);
        lemma_calm(run, k, l);
        let s = run.state(l);
        assert(s.enabled(run.event(l)));
        assert(!(run.effect(l) is Unlink));
        if let Event::Access { operation, spurious } = run.event(l) {
            assert(drain::looks(s.running[operation]));
        }
    }
}

/// Operations that were begun since then rely on the heads and lists as they are.
proof fn lemma_new_finds<T>(run: Run<T>, k: nat, n: nat, m: nat, o: nat)
    requires
        run.valid(),
        run.pushed_by(k),
        k <= n <= m,
        run.stuck_from(n),
        run.state(n).begun <= o,
        run.state(m).running.contains_key(o),
    ensures
        drain::finds(run.state(m), run.state(m).running[o]),
    decreases m,
{
    lemma_calm(run, k, n);
    consistency::lemma_shaped(run.state(n));
    if n < m {
        let l = (m - 1) as nat;
        let s = run.state(l);
        assert(s.enabled(run.event(l)));
        assert(!(run.effect(l) is Unlink));
        lemma_calm(run, k, l);
        lemma_still(run, k, n, l);
        lemma_still(run, k, n, m);
        if s.running.contains_key(o) {
            lemma_new_finds(run, k, n, l, o);
            if let Event::Access { operation, spurious } = run.event(l) {
                if operation == o {
                    drain::lemma_finds(s, o, spurious);
                }
            }
        }
    }
}

/// Once the operations are over that were in flight when the last value was taken off, the bit of
/// a shard with a value is set.
proof fn lemma_bit_set<T>(run: Run<T>, k: nat, n: nat, m: nat, i: int)
    requires
        run.valid(),
        run.pushed_by(k),
        k <= n <= m,
        run.stuck_from(n),
        forall|o: nat|
            o < run.state(n).begun ==> !#[trigger] run.state(m).running.contains_key(o),
        0 <= i < run.shard_count,
        run.state(m).lists[i].len() > 0,
    ensures
        bits::has_bit(run.state(m).memory.bitmap, i),
{
    lemma_calm(run, k, m);
    let s = run.state(m);
    consistency::lemma_bit(s, i);
    if s.bit_minded(i) {
        let o = choose|o: nat| #[trigger] s.running.contains_key(o) && s.running[o].minds_bit(i);
        lemma_new_finds(run, k, n, m, o);
        consistency::lemma_in_order(s, o);
    }
}

/// A pop that was begun after that never ends, as long as no value is taken off.
proof fn lemma_never_ends<T>(run: Run<T>, k: nat, n: nat, e: nat, p: nat, m: nat, i: int)
    requires
        run.valid(),
        run.pushed_by(k),
        k <= n <= e <= p < m,
        run.stuck_from(n),
        forall|o: nat|
            o < run.state(n).begun ==> !#[trigger] run.state(e).running.contains_key(o),
        run.event(p) is BeginPop,
        0 <= i < run.shard_count,
        run.state(n).lists[i].len() > 0,
    ensures
        ({
            let o = run.state(p).begun;
            &&& run.state(m).running.contains_key(o)
            &&& drain::bound_for(run.state(m).running[o], i)
        }),
    decreases m,
{
    let o = run.state(p).begun;
    let l = (m - 1) as nat;
    let s = run.state(l);
    assert(s.enabled(run.event(l)));
    assert(!(run.effect(l) is Unlink));
    lemma_calm(run, k, l);
    lemma_still(run, k, n, l);
    lemma_over_for_good(run, n, p, o);
    if p < l {
        lemma_never_ends(run, k, n, e, p, l, i);
        lemma_new_finds(run, k, n, l, o);
        assert forall|x: nat| x < run.state(n).begun implies !#[trigger] s.running.contains_key(
            x,
        ) by {
            lemma_over_for_good(run, n, e, x);
            lemma_over_for_good(run, e, l, x);
        }
        lemma_bit_set(run, k, n, l, i);
        if let Event::Access { operation, spurious } = run.event(l) {
            if operation == o {
                drain::lemma_stays_bound(s, o, spurious, i);
            }
        }
        consistency::lemma_shaped(s);
    }
}

/// As long as a shard holds a value, some pop takes a value off some shard.
proof fn lemma_some_value_is_taken<T>(run: Run<T>, k: nat, n: nat, i: int) -> (at: nat)
    requires
        run.valid(),
        run.fair(),
        run.pushed_by(k),
        run.pops_keep_coming(),
        k <= n,
        0 <= i < run.shard_count,
        run.state(n).lists[i].len() > 0,
    ensures
        n <= at,
        run.effect(at) is Unlink,
{
    if run.stuck_from(n) {
        let e = lemma_all_end(run, k, n, run.state(n).begun);
        assert(run.pop_comes_after(e));
        let p = choose|p: nat| e <= p && #[trigger] run.event(p) is BeginPop;
        let o = run.state(p).begun;
        lemma_never_ends(run, k, n, e, p, p + 1, i);
        let end = lemma_ends(run, k, p + 1, o);
        if end > p + 1 {
            lemma_never_ends(run, k, n, e, p, end, i);
        }
        assert(false);
    }
    choose|at: nat| n <= at && #[trigger] run.effect(at) is Unlink
}

/// How many values the first `n` shards hold.
spec fn held(lists: Seq<Seq<usize>>, n: nat) -> nat
    decreases n,
{
    if n == 0 {
        0
    } else {
        held(lists, (n - 1) as nat) + lists[n - 1].len()
    }
}

proof fn lemma_held_after_pop(lists: Seq<Seq<usize>>, shard: int, n: nat)
    requires
        0 <= shard < lists.len(),
        n <= lists.len(),
        lists[shard].len() > 0,
    ensures
        held(lists.update(shard, lists[shard].drop_last()), n) == held(lists, n) - (if shard < n {
            1int
        } else {
            0int
        }),
    decreases n,
{
    if n > 0 {
        lemma_held_after_pop(lists, shard, (n - 1) as nat);
    }
}

/// No event adds a value, and one that takes a value off leaves one fewer.
proof fn lemma_held_step<T>(run: Run<T>, k: nat, n: nat)
    requires
        run.valid(),
        run.pushed_by(k),
        k <= n,
    ensures
        held(run.state(n + 1).lists, run.shard_count) <= held(run.state(n).lists, run.shard_count),
        run.effect(n) is Unlink ==> held(run.state(n + 1).lists, run.shard_count) < held(
            run.state(n).lists,
            run.shard_count,
        ),
        forall|i: int|
            0 <= i < run.shard_count && run.state(n).lists[i].len() == 0 ==> (
            #[trigger] run.state(n + 1).lists[i]).len() == 0,
{
    lemma_calm(run, k, n);
    let s = run.state(n);
    assert(s.enabled(run.event(n)));
    consistency::lemma_shaped(s);
    laws::lemma_contents_step(s, run.event(n));
    if let Event::Access { operation, spurious } = run.event(n) {
        assert(drain::looks(s.running[operation]));
        consistency::lemma_access(s, operation, spurious);
        if let Effect::Unlink { shard, .. } = s.effect(operation, spurious) {
            assert(laws::contents(s, shard as int).len() == s.lists[shard as int].len());
            lemma_held_after_pop(s.lists, shard as int, run.shard_count);
        }
    }
}

proof fn lemma_held_kept<T>(run: Run<T>, k: nat, n: nat, m: nat)
    requires
        run.valid(),
        run.pushed_by(k),
        k <= n <= m,
    ensures
        held(run.state(m).lists, run.shard_count) <= held(run.state(n).lists, run.shard_count),
        forall|i: int|
            0 <= i < run.shard_count && run.state(n).lists[i].len() == 0 ==> (
            #[trigger] run.state(m).lists[i]).len() == 0,
    decreases m,
{
    if n < m {
        let l = (m - 1) as nat;
        lemma_held_kept(run, k, n, l);
        lemma_held_step(run, k, l);
        assert forall|i: int|
            0 <= i < run.shard_count && run.state(n).lists[i].len() == 0 implies (
        #[trigger] run.state(m).lists[i]).len() == 0 by {
            assert(run.state(l).lists[i].len() == 0);
        }
    }
}

/// The stack is empty some time.
proof fn lemma_gets_empty<T>(run: Run<T>, k: nat, n: nat) -> (at: nat)
    requires
        run.valid(),
        run.fair(),
        run.pushed_by(k),
        run.pops_keep_coming(),
        k <= n,
    ensures
        n <= at,
        forall|i: int| 0 <= i < run.shard_count ==> (#[trigger] run.state(at).lists[i]).len() == 0,
    decreases held(run.state(n).lists, run.shard_count),
{
    if exists|i: int| 0 <= i < run.shard_count && (#[trigger] run.state(n).lists[i]).len() > 0 {
        let i = choose|i: int|
            0 <= i < run.shard_count && (#[trigger] run.state(n).lists[i]).len() > 0;
        let m = lemma_some_value_is_taken(run, k, n, i);
        lemma_held_kept(run, k, n, m);
        lemma_held_step(run, k, m);
        lemma_gets_empty(run, k, m + 1)
    } else {
        n
    }
}

/// No value stays hidden for good: once all pushes are over, an open stack from which pops keep
/// being made, by any threads, is empty some time, and some time every value that was accepted has
/// been returned by a pop.
pub proof fn law_every_value_is_popped<T>(run: Run<T>, k: nat) -> (at: nat)
    requires
        run.valid(),
        run.fair(),
        run.pushed_by(k),
        run.pops_keep_coming(),
    ensures
        k <= at,
        laws::all_empty(run.state(at)),
        forall|push: nat| #[trigger]
            run.state(at).history.offered.contains_key(push) && !run.state(
                at,
            ).history.refused.contains(push) ==> run.state(at).history.popped.contains_key(push),
{
    let n = lemma_gets_empty(run, k, k);
    let at = lemma_all_end(run, k, n, run.state(n).begun);
    let s = run.state(at);
    lemma_calm(run, k, at);
    lemma_held_kept(run, k, n, at);
    assert forall|m: nat| n <= m implies !(#[trigger] run.effect(m) is Unlink) by {
        lemma_calm(run, k, m);
        lemma_held_kept(run, k, n, m);
        let u = run.state(m);
        assert(u.enabled(run.event(m)));
        laws::lemma_contents_step(u, run.event(m));
        if let Event::Access { operation, spurious } = run.event(m) {
            consistency::lemma_access(u, operation, spurious);
            if let Effect::Unlink { shard, .. } = u.effect(operation, spurious) {
                assert(u.lists[shard as int].len() == 0);
                assert(laws::contents(u, shard as int).len() == 0);
            }
        }
    }
    assert forall|push: nat| #[trigger]
        s.history.offered.contains_key(push) && !s.history.refused.contains(
            push,
        ) implies s.history.popped.contains_key(push) by {
        consistency::lemma_accounted(s, push);
        if s.stored_somewhere(push) {
            let node = choose|node: usize|
                s.stored(node) && #[trigger] s.history.origin[node] == push;
            consistency::lemma_stored(s, node);
            consistency::lemma_shaped(s);
            if s.owned_by_some(node) {
                let o = choose|o: nat| #[trigger]
                    s.running.contains_key(o) && s.running[o].owned() == Some(node);
                lemma_new_finds(run, k, n, at, o);
                assert(drain::looks(s.running[o]));
            }
        }
    }
    at
}

} // verus!
