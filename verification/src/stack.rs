//! The sharded stack, with one operation at a time.

use crate::bits;
use crate::error::{PopError, PushError};
use crate::head::{Head, CLOSED_TAG};
use crate::layout;
use crate::layout::ShardLayout;
use crate::lists;
use crate::memory::{MemoryView, SharedMemory};
use crate::shards;
use crate::shards::ShardView;
use crate::steps::{
    ClearBitStep, CloseStep, ClosedScanStep, PopOneStep, PopStep, PushStep, Stage, TeardownStep,
    Visit,
};
use vstd::prelude::*;

verus! {

/// Publishing a node adds its value to the shard.
proof fn lemma_published<T>(
    before: ConcurrentShardedStack<T>,
    after: ConcurrentShardedStack<T>,
    shard: int,
    node: usize,
    head: Head<usize>,
)
    requires
        before.linked(),
        0 <= shard < before.lists@.len(),
        before.memory@.heads[shard] == head,
        !head.closed(),
        before.memory@.nodes.contains_key(node),
        before.memory@.nodes[node].value is Some,
        !lists::listed(before.lists@, node),
        after.memory.wf(),
        after.memory@ == before.memory@.published(shard, node, head),
        after.layout == before.layout,
        after.lists@ == before.lists@.update(shard, before.lists@[shard].push(node)),
    ensures
        after.published(before, shard, node),
{
    lists::lemma_publish(before.memory@, before.lists@, shard, node, head);
    let value = before.memory@.nodes[node].value->0;
    assert(after.memory@.nodes.dom() =~= before.memory@.nodes.dom());
    assert(after@ =~= before@.update(shard, before@[shard].push(value))) by {
        assert forall|i: int| 0 <= i < after@.len() implies #[trigger] after@[i] == before@.update(
            shard,
            before@[shard].push(value),
        )[i] by {
            assert(before.lists@[i] == before.lists@[i]);
        }
    }
}

/// Once the shard's bit is set, the push is complete.
proof fn lemma_published_with_bit<T>(
    before: ConcurrentShardedStack<T>,
    after: ConcurrentShardedStack<T>,
    shard: int,
    node: usize,
)
    requires
        before.linked(),
        0 <= shard < before.lists@.len(),
        after.published(before, shard, node),
        bits::has_bit(after.memory@.bitmap, shard),
    ensures
        after.linked(),
{
    assert forall|i: int|
        0 <= i < after.lists@.len() && (#[trigger] after.lists@[i]).len() > 0 implies bits::has_bit(
        after.memory@.bitmap,
        i,
    ) by {
        if i != shard {
            assert(after.lists@[i] == before.lists@[i]);
        }
    }
}

/// Unlinking the top node takes its value off the shard.
proof fn lemma_unlinked<T>(
    before: ConcurrentShardedStack<T>,
    after: ConcurrentShardedStack<T>,
    shard: int,
    node: usize,
    tag: usize,
)
    requires
        before.linked(),
        0 <= shard < before.lists@.len(),
        before.memory@.heads[shard] == (Head { ptr: Some(node), tag }),
        after.memory.wf(),
        after.memory@ == before.memory@.exchanged(
            shard,
            Head { ptr: Some(node), tag },
            Head { ptr: before.memory@.nodes[node].next, tag },
        ),
        after.layout == before.layout,
        after.lists@ == before.lists@.update(shard, before.lists@[shard].drop_last()),
    ensures
        after.unlinked(before, shard, node),
{
    lists::lemma_unlink(before.memory@, before.lists@, shard, node, tag);
    assert(after@ =~= before@.update(shard, before@[shard].pop())) by {
        assert forall|i: int| 0 <= i < after@.len() implies #[trigger] after@[i] == before@.update(
            shard,
            before@[shard].pop(),
        )[i] by {
            if i != shard {
                assert(after.lists@[i] == before.lists@[i]);
            }
        }
    }
    assert forall|i: int|
        0 <= i < after.lists@.len() && (#[trigger] after.lists@[i]).len() > 0 implies bits::has_bit(
        after.memory@.bitmap,
        i,
    ) by {
        assert(before.lists@[i].len() > 0);
    }
}

/// Taking the value of an unlinked node and collecting it leaves only listed nodes.
proof fn lemma_collected<T>(
    origin: ConcurrentShardedStack<T>,
    before: ConcurrentShardedStack<T>,
    after: ConcurrentShardedStack<T>,
    shard: int,
    node: usize,
)
    requires
        origin.tidy(),
        0 <= shard < origin.lists@.len(),
        before.unlinked(origin, shard, node),
        after.memory.wf(),
        after.memory@ == before.memory@.taken(node).collected(),
        after.layout == before.layout,
        after.lists == before.lists,
    ensures
        after.tidy(),
        after@ == before@,
{
    lists::lemma_take_and_collect(before.memory@, before.lists@, node);
    assert(after@ =~= before@);
    assert forall|id: usize| #[trigger] after.memory@.nodes.contains_key(id) implies lists::listed(
        after.lists@,
        id,
    ) by {
        assert(origin.memory@.nodes.contains_key(id));
        lists::lemma_listed_after_pop(origin.lists@, shard, id);
    }
}

/// An attempt on an empty shard keeps track of the hints.
proof fn lemma_hints_after_empty<T>(
    before: ConcurrentShardedStack<T>,
    reached: ConcurrentShardedStack<T>,
    now: ConcurrentShardedStack<T>,
    visit: Visit,
    start: usize,
)
    requires
        visit.wf(),
        visit.start == start,
        visit.shard_count == before@.len(),
        reached.hints_so_far(before, PopStep::PopOne { visit }, start as int),
        shards::searching(PopStep::<T>::PopOne { visit }, before@, start, visit.shard_count),
        now.hinted(reached, visit.shard as int),
        now@ == before@,
        before@[visit.shard as int].items.len() == 0,
    ensures
        now.hints_so_far(before, PopStep::<T>::after_empty(visit), start as int),
{
    shards::lemma_hints_after_empty::<T>(
        before.memory@.bitmap,
        reached.memory@.bitmap,
        now.memory@.bitmap,
        visit,
    );
    if visit.stage is Drain {
        bits::lemma_zero_has_no_bit();
        assert(now.hints() =~= Set::<int>::empty());
    }
}

/// Taking a value keeps track of the hints.
proof fn lemma_hints_after_take<T>(
    before: ConcurrentShardedStack<T>,
    reached: ConcurrentShardedStack<T>,
    now: ConcurrentShardedStack<T>,
    visit: Visit,
    value: T,
    start: usize,
)
    requires
        before.wf(),
        visit.wf(),
        visit.start == start,
        start < before@.len(),
        visit.shard_count == before@.len(),
        reached.hints_so_far(before, PopStep::PopOne { visit }, start as int),
        shards::searching(PopStep::<T>::PopOne { visit }, before@, start, visit.shard_count),
        now.hinted(reached, visit.shard as int),
        now@ == before@.update(visit.shard as int, before@[visit.shard as int].pop()),
        before@[visit.shard as int].items.len() > 0,
    ensures
        now.hints_so_far(before, PopStep::Return { result: Ok(value) }, start as int),
{
    layout::lemma_valid_shard_counts(before.layout.count());
    let v = visit.shard as int;
    let here = bits::distance(start as int, v);
    bits::lemma_distance_zero(start as int, v);
    assert(!(visit.stage is Drain)) by {
        assert(before@[v].items.len() > 0);
    }
    assert forall|i: int| #[trigger]
        now.hints().contains(i) <==> before.hints().contains(i) && here <= bits::distance(
            start as int,
            i,
        ) && !(i == v && now@[i].items.len() == 0) by {
        assert(bits::has_bit(now.memory@.bitmap, i) <==> bits::has_bit(reached.memory@.bitmap, i)
            && !(i == v && now@[i].items.len() == 0));
    }
    assert(shards::is_victim(before@, start as int, v));
    shards::lemma_hints_after_take(before@, start as int, v, before.hints(), now.hints(), value);
}

/// How far a teardown has come: `values` holds the values of all shards below `shard`, and
/// those of `shard` but for the lowest `left`. The nodes of the others are as they were.
#[verifier::opaque]
spec fn emptied<T>(
    start: MemoryView<T>,
    memory: MemoryView<T>,
    lists: Seq<Seq<usize>>,
    shards: Seq<ShardView<T>>,
    shard: int,
    left: int,
    values: Seq<T>,
) -> bool {
    &&& 0 <= left <= lists[shard].len()
    &&& values == shards::remaining(shards, shard as nat) + shards[shard].items.reverse().take(
        lists[shard].len() - left,
    )
    &&& forall|i: int, k: int|
        shard <= i < lists.len() && 0 <= k < lists[i].len() && (i == shard ==> k < left) ==> {
            &&& memory.nodes.contains_key(#[trigger] lists[i][k])
            &&& memory.nodes[lists[i][k]] == start.nodes[lists[i][k]]
        }
}

/// The next node of a shard that is being emptied is still as it was.
proof fn lemma_next_node<T>(
    start: MemoryView<T>,
    memory: MemoryView<T>,
    lists: Seq<Seq<usize>>,
    shards: Seq<ShardView<T>>,
    shard: int,
    left: int,
    values: Seq<T>,
)
    requires
        lists::well_linked(start, lists),
        0 <= shard < lists.len(),
        0 < left <= lists[shard].len(),
        emptied(start, memory, lists, shards, shard, left, values),
    ensures
        ({
            let node = lists[shard][left - 1];
            &&& memory.nodes.contains_key(node)
            &&& memory.nodes[node].value is Some
            &&& memory.nodes[node].next == lists::under(lists[shard], left - 1)
        }),
{
    reveal(emptied);
    assert(lists::chained(start, shard, lists[shard]));
    assert(lists[shard][left - 1] == lists[shard][left - 1]);
}

/// Releasing the next node of a shard hands out the next value.
proof fn lemma_node_released<T>(
    start: MemoryView<T>,
    memory: MemoryView<T>,
    lists: Seq<Seq<usize>>,
    shards: Seq<ShardView<T>>,
    shard: int,
    left: int,
    values: Seq<T>,
    value: T,
)
    requires
        lists::well_linked(start, lists),
        0 <= shard < lists.len(),
        0 < left <= lists[shard].len(),
        shards[shard].items == lists::items(start, lists[shard]),
        emptied(start, memory, lists, shards, shard, left, values),
        memory.nodes[lists[shard][left - 1]].value == Some(value),
    ensures
        emptied(
            start,
            memory.released(lists[shard][left - 1]),
            lists,
            shards,
            shard,
            left - 1,
            values.push(value),
        ),
{
    reveal(emptied);
    reveal(lists::separate);
    let node = lists[shard][left - 1];
    let items = shards[shard].items;
    let done = lists[shard].len() - left;
    assert(items.reverse()[done] == items[left - 1]);
    assert(items.reverse().take(done + 1) =~= items.reverse().take(done).push(value));
    assert(values.push(value) =~= shards::remaining(shards, shard as nat) + items.reverse().take(
        done + 1,
    ));
    let after = memory.released(node);
    assert forall|i: int, k: int|
        shard <= i < lists.len() && 0 <= k < lists[i].len() && (i == shard ==> k < left
            - 1) implies {
        &&& after.nodes.contains_key(#[trigger] lists[i][k])
        &&& after.nodes[lists[i][k]] == start.nodes[lists[i][k]]
    } by {
        assert(lists[i][k] != lists[shard][left - 1]);
    }
}

/// A shard without a node left is done with, and the next one begins.
proof fn lemma_shard_emptied<T>(
    start: MemoryView<T>,
    memory: MemoryView<T>,
    lists: Seq<Seq<usize>>,
    shards: Seq<ShardView<T>>,
    shard: int,
    values: Seq<T>,
)
    requires
        0 <= shard < lists.len(),
        lists.len() == shards.len(),
        shards[shard].items.len() == lists[shard].len(),
        emptied(start, memory, lists, shards, shard, 0, values),
    ensures
        values == shards::remaining(shards, (shard + 1) as nat),
        shard + 1 < lists.len() ==> emptied(
            start,
            memory,
            lists,
            shards,
            shard + 1,
            lists[shard + 1].len() as int,
            values,
        ),
{
    reveal(emptied);
    let items = shards[shard].items;
    assert(items.reverse().take(items.len() as int) =~= items.reverse());
    if shard + 1 < lists.len() {
        assert(values =~= shards::remaining(shards, (shard + 1) as nat) + shards[shard
            + 1].items.reverse().take(0));
    }
}

/// A stack that spreads its values over several shards. Values come back in the reverse order
/// of their pushes within a shard; there is no order across shards.
pub struct ConcurrentShardedStack<T> {
    memory: SharedMemory<T>,
    layout: ShardLayout,
    lists: Ghost<Seq<Seq<usize>>>,
}

impl<T> View for ConcurrentShardedStack<T> {
    type V = Seq<ShardView<T>>;

    closed spec fn view(&self) -> Seq<ShardView<T>> {
        Seq::new(
            self.lists@.len(),
            |i: int|
                ShardView {
                    items: lists::items(self.memory@, self.lists@[i]),
                    closed: self.memory@.heads[i].closed(),
                },
        )
    }
}

impl<T> ConcurrentShardedStack<T> {
    /// The heads lead to well-formed lists, no bit is set beyond the last shard, and the bit of
    /// every shard that holds a value is set.
    closed spec fn linked(&self) -> bool {
        &&& self.memory.wf()
        &&& self.layout.wf()
        &&& self.layout.count() == self.memory@.heads.len()
        &&& lists::well_linked(self.memory@, self.lists@)
        &&& bits::bits_below(self.memory@.bitmap, self.layout.count())
        &&& forall|i: int|
            0 <= i < self.lists@.len() && (#[trigger] self.lists@[i]).len() > 0 ==> bits::has_bit(
                self.memory@.bitmap,
                i,
            )
    }

    /// In addition, no node is left that no head leads to.
    closed spec fn tidy(&self) -> bool {
        &&& self.linked()
        &&& forall|id: usize| #[trigger]
            self.memory@.nodes.contains_key(id) ==> lists::listed(self.lists@, id)
    }

    /// In addition, no close is halfway through.
    pub closed spec fn wf(&self) -> bool {
        &&& self.tidy()
        &&& shards::closed_together(self@)
    }

    /// The shards of which the bitmap hints that they hold a value.
    pub closed spec fn hints(&self) -> Set<int> {
        Set::new(|i: int| bits::has_bit(self.memory@.bitmap, i))
    }

    /// What a pop that was begun on the stack `before` has made of the bitmap when it reaches a
    /// step.
    closed spec fn hints_so_far(&self, before: Self, step: PopStep<T>, start: int) -> bool {
        match step {
            PopStep::Return { result } => shards::hints_kept(
                before.hints(),
                self.hints(),
                start,
                result,
                before@,
                self@,
            ),
            _ => shards::hints_at(before.memory@.bitmap, self.memory@.bitmap, step, start),
        }
    }

    /// The bits are those of `before`, but for that of `shard` if it holds nothing.
    closed spec fn hinted(&self, before: Self, shard: int) -> bool {
        forall|i: int| #[trigger]
            bits::has_bit(self.memory@.bitmap, i) <==> {
                &&& bits::has_bit(before.memory@.bitmap, i)
                &&& !(i == shard && self@[i].items.len() == 0)
            }
    }

    /// `node` was put on top of `shard` of the stack `before`; the shard's bit may be missing if
    /// the shard was empty.
    closed spec fn published(&self, before: Self, shard: int, node: usize) -> bool {
        &&& self.memory.wf()
        &&& self.layout == before.layout
        &&& self.lists@ == before.lists@.update(shard, before.lists@[shard].push(node))
        &&& lists::well_linked(self.memory@, self.lists@)
        &&& self.memory@.nodes.dom() == before.memory@.nodes.dom()
        &&& bits::bits_below(self.memory@.bitmap, self.layout.count())
        &&& forall|i: int|
            0 <= i < before.lists@.len() && (#[trigger] before.lists@[i]).len() > 0
                ==> bits::has_bit(self.memory@.bitmap, i)
        &&& !before@[shard].closed
        &&& self@ == before@.update(
            shard,
            before@[shard].push(before.memory@.nodes[node].value->0),
        )
    }

    /// Makes a stack with `shard_count` shards.
    pub fn with_concurrency(shard_count: usize) -> (stack: Self)
        requires
            layout::valid_shard_count(shard_count as int),
        ensures
            stack.wf(),
            shards::is_new(stack@, shard_count as nat),
            stack@ == Seq::new(shard_count as nat, |i: int| ShardView::<T>::empty()),
            stack.hints() == Set::<int>::empty(),
    {
        let stack = ConcurrentShardedStack {
            memory: SharedMemory::new(shard_count),
            layout: ShardLayout::new(shard_count),
            lists: Ghost(Seq::new(shard_count as nat, |i: int| Seq::empty())),
        };
        proof {
            bits::lemma_zero_has_no_bit();
            reveal(lists::separate);
            assert(stack@ =~= Seq::new(shard_count as nat, |i: int| ShardView::<T>::empty())) by {
                assert forall|i: int| 0 <= i < shard_count implies #[trigger] stack@[i]
                    == ShardView::<T>::empty() by {
                    assert(stack@[i].items =~= Seq::empty());
                }
            }
        }
        stack
    }

    /// Makes a stack with as many shards as suit a machine that runs `parallelism` threads at a
    /// time.
    pub fn new(parallelism: Option<usize>) -> (stack: Self)
        requires
            parallelism matches Some(n) ==> 0 < n <= usize::MAX / 2 + 1,
        ensures
            stack.wf(),
            layout::is_default(parallelism, stack@.len() as int),
            shards::is_new(stack@, stack@.len()),
            match parallelism {
                Some(n) => layout::is_next_power_of_two(
                    if n <= usize::BITS {
                        n as int
                    } else {
                        usize::BITS as int
                    },
                    stack@.len() as int,
                ),
                None => stack@.len() == 4,
            },
            forall|i: int|
                0 <= i < stack@.len() ==> #[trigger] stack@[i] == ShardView::<T>::empty(),
            stack.hints() == Set::<int>::empty(),
    {
        Self::with_concurrency(layout::default_concurrency(parallelism))
    }

    /// The number of shards.
    pub fn shard_count(&self) -> (count: usize)
        requires
            self.wf(),
        ensures
            count == self@.len(),
            layout::valid_shard_count(count as int),
    {
        self.layout.shard_count()
    }

    /// The shard of the thread numbered `thread_id`.
    fn current_shard_index(&self, thread_id: usize) -> (index: usize)
        requires
            self.linked(),
        ensures
            index == layout::shard_of(thread_id as int, self@.len() as int),
            index < self@.len(),
    {
        self.layout.shard_index(thread_id)
    }

    /// Pushes a value onto the shard of the thread numbered `thread_id`. A closed stack refuses
    /// it and hands it back.
    #[verifier::rlimit(40)]
    pub fn push(&mut self, thread_id: usize, value: T) -> (result: Result<(), PushError<T>>)
        requires
            old(self).wf(),
        ensures
            final(self).wf(),
            shards::is_push(
                old(self)@,
                layout::shard_of(thread_id as int, old(self)@.len() as int),
                value,
                result,
                final(self)@,
            ),
            result is Err <==> shards::all_closed(old(self)@),
            result matches Err(refused) ==> {
                &&& refused == PushError::Closed(value)
                &&& final(self)@ == old(self)@
            },
            result is Ok ==> {
                let shard = layout::shard_of(thread_id as int, old(self)@.len() as int);
                &&& final(self)@[shard].items == old(self)@[shard].items.push(value)
                &&& forall|i: int|
                    0 <= i < old(self)@.len() && i != shard ==> #[trigger] final(self)@[i] == old(
                        self,
                    )@[i]
            },
            final(self).hints() == if result is Ok {
                old(self).hints().insert(
                    layout::shard_of(thread_id as int, old(self)@.len() as int),
                )
            } else {
                old(self).hints()
            },
    {
        let index: usize = self.current_shard_index(thread_id);
        let id: usize = self.memory.allocate(value);
        let ghost fresh = *self;
        proof {
            lists::lemma_frame(old(self).memory@, self.memory@, self.lists@);
            assert(!lists::listed(self.lists@, id));
            assert(self@ =~= old(self)@);
        }
        let mut step: PushStep<usize, usize> = PushStep::start(index, id);
        loop
            invariant
                old(self).wf(),
                index == layout::shard_of(thread_id as int, old(self)@.len() as int),
                index < old(self)@.len(),
                fresh.linked(),
                fresh@ == old(self)@,
                fresh.lists == old(self).lists,
                fresh.memory@ == old(self).memory@.allocated(id, value),
                !old(self).memory@.nodes.contains_key(id),
                !lists::listed(fresh.lists@, id),
                match step {
                    PushStep::LoadHead { shard, node } => {
                        &&& shard == index && node == id
                        &&& *self == fresh
                    },
                    PushStep::Publish { shard, node, head } => {
                        &&& shard == index && node == id
                        &&& *self == fresh
                        &&& head == fresh.memory@.heads[index as int]
                        &&& !head.closed()
                    },
                    PushStep::LoadBitmap { shard } => {
                        &&& shard == index
                        &&& self.published(fresh, index as int, id)
                        &&& self.memory@.bitmap == fresh.memory@.bitmap
                    },
                    PushStep::SetBit { shard } => {
                        &&& shard == index
                        &&& self.published(fresh, index as int, id)
                        &&& self.memory@.bitmap == fresh.memory@.bitmap
                    },
                    PushStep::Return { result } => match result {
                        Ok(()) => {
                            &&& self.published(fresh, index as int, id)
                            &&& self.linked()
                            &&& forall|i: int| #[trigger]
                                bits::has_bit(self.memory@.bitmap, i) <==> bits::has_bit(
                                    fresh.memory@.bitmap,
                                    i,
                                ) || i == index
                        },
                        Err(PushError::Closed(node)) => {
                            &&& node == id
                            &&& *self == fresh
                            &&& fresh.memory@.heads[index as int].closed()
                        },
                    },
                },
            decreases
                    (match step {
                        PushStep::LoadHead { .. } => 4int,
                        PushStep::Publish { .. } => 3int,
                        PushStep::LoadBitmap { .. } => 2int,
                        PushStep::SetBit { .. } => 1int,
                        PushStep::Return { .. } => 0int,
                    }),
        {
            proof {
                layout::lemma_valid_shard_counts(self.layout.count());
            }
            step = match step {
                PushStep::LoadHead { shard, node } => PushStep::on_head(
                    shard,
                    node,
                    self.memory.load_head(shard),
                ),
                PushStep::Publish { shard, node, head } => {
                    if self.memory.publish(shard, node, head) {
                        self.lists = Ghost(
                            self.lists@.update(shard as int, self.lists@[shard as int].push(node)),
                        );
                        proof {
                            lemma_published(fresh, *self, shard as int, node, head);
                            if head.ptr is Some {
                                assert(fresh.lists@[shard as int].len() > 0);
                                lemma_published_with_bit(fresh, *self, shard as int, node);
                            }
                        }
                        PushStep::on_published(shard, head)
                    } else {
                        PushStep::on_refused(shard, node)
                    }
                },
                PushStep::LoadBitmap { shard } => {
                    proof {
                        if bits::has_bit(self.memory@.bitmap, shard as int) {
                            lemma_published_with_bit(fresh, *self, shard as int, id);
                        }
                    }
                    PushStep::on_bitmap(shard, self.memory.load_bitmap())
                },
                PushStep::SetBit { shard } => {
                    let ghost before = *self;
                    self.memory.set_bit(shard);
                    proof {
                        bits::lemma_with_bit(before.memory@.bitmap, shard as int);
                        lists::lemma_frame(before.memory@, self.memory@, self.lists@);
                        assert(self@ =~= before@);
                        lemma_published_with_bit(fresh, *self, shard as int, id);
                    }
                    PushStep::on_bit_set()
                },
                PushStep::Return { result: Ok(()) } => {
                    proof {
                        assert forall|x: usize| #[trigger]
                            self.memory@.nodes.contains_key(x) implies lists::listed(
                            self.lists@,
                            x,
                        ) by {
                            lists::lemma_listed_after_push(fresh.lists@, index as int, id, x);
                            assert(fresh.memory@.nodes.dom().contains(x));
                        }
                    }
                    return Ok(());
                },
                PushStep::Return { result: Err(PushError::Closed(node)) } => {
                    let value: T = self.memory.release(node);
                    proof {
                        lists::lemma_frame(fresh.memory@, self.memory@, self.lists@);
                        assert(self@ =~= fresh@);
                    }
                    return Err(PushError::Closed(value));
                },
            };
        }
    }

    /// Clears the bit of a shard that holds nothing. A shard that does hold something keeps its
    /// bit.
    fn maybe_clear_bit(&mut self, index: usize)
        requires
            old(self).linked(),
            index < old(self)@.len(),
        ensures
            final(self).linked(),
            final(self)@ == old(self)@,
            final(self).lists == old(self).lists,
            final(self).memory@.nodes == old(self).memory@.nodes,
            final(self).memory@.heads == old(self).memory@.heads,
            forall|i: int| #[trigger]
                bits::has_bit(final(self).memory@.bitmap, i) <==> bits::has_bit(
                    old(self).memory@.bitmap,
                    i,
                ) && !(i == index && old(self)@[i].items.len() == 0),
    {
        let mut step: ClearBitStep = ClearBitStep::start(index);
        proof {
            layout::lemma_valid_shard_counts(self.layout.count());
            bits::lemma_without_bit(self.memory@.bitmap, index as int);
            bits::lemma_with_bit(
                bits::without_bit(self.memory@.bitmap, index as int),
                index as int,
            );
        }
        loop
            invariant
                old(self).linked(),
                index < old(self)@.len(),
                index < usize::BITS,
                self.memory.wf(),
                self.layout == old(self).layout,
                self.lists == old(self).lists,
                self.memory@.nodes == old(self).memory@.nodes,
                self.memory@.heads == old(self).memory@.heads,
                ({
                    let whole = old(self).memory@.bitmap;
                    let cleared = bits::without_bit(whole, index as int);
                    &&& forall|i: int| #[trigger]
                        bits::has_bit(cleared, i) <==> bits::has_bit(whole, i) && i != index
                    &&& forall|i: int| #[trigger]
                        bits::has_bit(bits::with_bit(cleared, index as int), i) <==> bits::has_bit(
                            cleared,
                            i,
                        ) || i == index
                    &&& match step {
                        ClearBitStep::LoadBitmap { shard } => shard == index && self.memory@.bitmap
                            == whole,
                        ClearBitStep::ClearBit { shard } => shard == index && self.memory@.bitmap
                            == whole && bits::has_bit(whole, index as int),
                        ClearBitStep::LoadHead { shard } => shard == index && self.memory@.bitmap
                            == cleared && bits::has_bit(whole, index as int),
                        ClearBitStep::SetBit { shard } => shard == index && self.memory@.bitmap
                            == cleared && bits::has_bit(whole, index as int)
                            && self.memory@.heads[index as int].ptr is Some,
                        ClearBitStep::Return => forall|i: int| #[trigger]
                            bits::has_bit(self.memory@.bitmap, i) <==> bits::has_bit(whole, i)
                                && !(i == index && self.memory@.heads[index as int].ptr is None),
                    }
                }),
            decreases
                    (match step {
                        ClearBitStep::LoadBitmap { .. } => 4int,
                        ClearBitStep::ClearBit { .. } => 3int,
                        ClearBitStep::LoadHead { .. } => 2int,
                        ClearBitStep::SetBit { .. } => 1int,
                        ClearBitStep::Return => 0int,
                    }),
        {
            step = match step {
                ClearBitStep::LoadBitmap { shard } => {
                    let bitmap: usize = self.memory.load_bitmap();
                    proof {
                        if !bits::has_bit(bitmap, index as int) {
                            assert(self.lists@[index as int].len() == 0);
                        }
                    }
                    ClearBitStep::on_bitmap(shard, bitmap)
                },
                ClearBitStep::ClearBit { shard } => {
                    self.memory.clear_bit(shard);
                    ClearBitStep::on_cleared(shard)
                },
                ClearBitStep::LoadHead { shard } => ClearBitStep::on_head(
                    shard,
                    self.memory.load_head(shard),
                ),
                ClearBitStep::SetBit { shard } => {
                    self.memory.set_bit(shard);
                    ClearBitStep::on_bit_set()
                },
                ClearBitStep::Return => {
                    proof {
                        lists::lemma_frame(old(self).memory@, self.memory@, self.lists@);
                        assert(self@ =~= old(self)@);
                    }
                    return ;
                },
            };
        }
    }

    /// `node` was unlinked from the top of `shard` of the stack `before`, and its value is still
    /// in it.
    closed spec fn unlinked(&self, before: Self, shard: int, node: usize) -> bool {
        &&& self.linked()
        &&& self.lists@ == before.lists@.update(shard, before.lists@[shard].drop_last())
        &&& self.memory@.nodes == before.memory@.nodes
        &&& before@[shard].items.len() > 0
        &&& before.memory@.nodes.contains_key(node)
        &&& before.memory@.nodes[node].value == Some(before@[shard].items.last())
        &&& !lists::listed(self.lists@, node)
        &&& before.lists@[shard].last() == node
        &&& self@ == before@.update(shard, before@[shard].pop())
    }

    /// One attempt on the shard numbered `index`: its top value, or nothing. No attempt is lost
    /// while there is one operation at a time.
    fn pop_one(&mut self, index: usize) -> (result: Result<Option<T>, ()>)
        requires
            old(self).wf(),
            index < old(self)@.len(),
        ensures
            final(self).wf(),
            ({
                let shard = old(self)@[index as int];
                if shard.items.len() == 0 {
                    &&& result == Ok::<Option<T>, ()>(None)
                    &&& final(self)@ == old(self)@
                } else {
                    &&& result == Ok::<Option<T>, ()>(Some(shard.items.last()))
                    &&& final(self)@ == old(self)@.update(index as int, shard.pop())
                }
            }),
            final(self).hinted(*old(self), index as int),
    {
        let mut step: PopOneStep<usize, T> = PopOneStep::start(index);
        loop
            invariant
                old(self).wf(),
                index < old(self)@.len(),
                match step {
                    PopOneStep::LoadHead { shard } => shard == index && *self == *old(self),
                    PopOneStep::LoadNext { shard, node, tag } => {
                        &&& shard == index && *self == *old(self)
                        &&& self.memory@.heads[index as int] == (Head { ptr: Some(node), tag })
                    },
                    PopOneStep::Exchange { shard, node, tag, next } => {
                        &&& shard == index && *self == *old(self)
                        &&& self.memory@.heads[index as int] == (Head { ptr: Some(node), tag })
                        &&& next == self.memory@.nodes[node].next
                    },
                    PopOneStep::ClearBit { shard, popped: None } => {
                        &&& shard == index && *self == *old(self)
                        &&& old(self)@[index as int].items.len() == 0
                    },
                    PopOneStep::ClearBit { shard, popped: Some(node) } => {
                        &&& shard == index
                        &&& self.unlinked(*old(self), index as int, node)
                        &&& self.memory@.bitmap == old(self).memory@.bitmap
                    },
                    PopOneStep::Take { node } => {
                        &&& self.unlinked(*old(self), index as int, node)
                        &&& self.hinted(*old(self), index as int)
                    },
                    PopOneStep::Return { result: Ok(None) } => {
                        &&& old(self)@[index as int].items.len() == 0
                        &&& self.wf()
                        &&& self.hinted(*old(self), index as int)
                        &&& self@ == old(self)@
                    },
                    PopOneStep::Return { result: Ok(Some(value)) } => {
                        &&& old(self)@[index as int].items.len() > 0
                        &&& value == old(self)@[index as int].items.last()
                        &&& self.wf()
                        &&& self.hinted(*old(self), index as int)
                        &&& self@ == old(self)@.update(index as int, old(self)@[index as int].pop())
                    },
                    PopOneStep::Return { result: Err(()) } => false,
                },
            decreases
                    (match step {
                        PopOneStep::LoadHead { .. } => 5int,
                        PopOneStep::LoadNext { .. } => 4int,
                        PopOneStep::Exchange { .. } => 3int,
                        PopOneStep::ClearBit { .. } => 2int,
                        PopOneStep::Take { .. } => 1int,
                        PopOneStep::Return { .. } => 0int,
                    }),
        {
            let ghost before = *self;
            step = match step {
                PopOneStep::LoadHead { shard } => PopOneStep::on_head(
                    shard,
                    self.memory.load_head(shard),
                ),
                PopOneStep::LoadNext { shard, node, tag } => {
                    proof {
                        lists::lemma_unlink(self.memory@, self.lists@, shard as int, node, tag);
                    }
                    PopOneStep::on_next(shard, node, tag, self.memory.load_next(node))
                },
                PopOneStep::Exchange { shard, node, tag, next } => {
                    let from: Head<usize> = Head { ptr: Some(node), tag };
                    let to: Head<usize> = Head { ptr: next, tag };
                    if self.memory.exchange(shard, from, to) {
                        self.lists = Ghost(
                            self.lists@.update(
                                shard as int,
                                self.lists@[shard as int].drop_last(),
                            ),
                        );
                        proof {
                            lemma_unlinked(before, *self, shard as int, node, tag);
                        }
                        PopOneStep::on_exchanged(shard, node, next)
                    } else {
                        PopOneStep::on_lost()
                    }
                },
                PopOneStep::ClearBit { shard, popped } => {
                    self.maybe_clear_bit(shard);
                    PopOneStep::on_bit_cleared(popped)
                },
                PopOneStep::Take { node } => {
                    let value: T = self.memory.take(node);
                    self.memory.collect();
                    proof {
                        lemma_collected(*old(self), before, *self, index as int, node);
                    }
                    PopOneStep::on_taken(value)
                },
                PopOneStep::Return { result } => {
                    return result;
                },
            };
        }
    }

    /// Pops a value: the top value of the shard of the thread numbered `thread_id`, and if that
    /// shard holds nothing, the top value of the nearest shard that does. Where no shard holds a
    /// value, the error tells whether one may still arrive.
    #[verifier::rlimit(40)]
    pub fn pop(&mut self, thread_id: usize) -> (result: Result<T, PopError>)
        requires
            old(self).wf(),
        ensures
            final(self).wf(),
            shards::is_pop(
                old(self)@,
                layout::shard_of(thread_id as int, old(self)@.len() as int),
                result,
                final(self)@,
            ),
            shards::hints_kept(
                old(self).hints(),
                final(self).hints(),
                layout::shard_of(thread_id as int, old(self)@.len() as int),
                result,
                old(self)@,
                final(self)@,
            ),
    {
        let start: usize = self.current_shard_index(thread_id);
        let shard_count: usize = self.layout.shard_count();
        let mut step: PopStep<T> = PopStep::start(start, shard_count);
        loop
            invariant
                old(self).wf(),
                self.wf(),
                start == layout::shard_of(thread_id as int, old(self)@.len() as int),
                start < shard_count,
                shard_count == old(self)@.len(),
                step.wf(),
                match step {
                    PopStep::Return { result: Ok(value) } => exists|victim: int|
                        {
                            &&& #[trigger] shards::is_victim(old(self)@, start as int, victim)
                            &&& value == old(self)@[victim].items.last()
                            &&& self@ == old(self)@.update(victim, old(self)@[victim].pop())
                        },
                    _ => {
                        &&& self@ == old(self)@
                        &&& shards::searching(step, old(self)@, start, shard_count)
                    },
                },
                self.hints_so_far(*old(self), step, start as int),
            decreases
                    (match step {
                        PopStep::PopOne { visit } => match visit.stage {
                            Stage::Local { .. } => 5int,
                            Stage::Steal { .. } => 3int,
                            Stage::Drain { .. } => 1int,
                        },
                        PopStep::LoadBitmap { .. } => 4int,
                        PopStep::AllShardsClosed { .. } => 2int,
                        PopStep::Return { .. } => 0int,
                    }),
                    (match step {
                        PopStep::PopOne { visit } => match visit.stage {
                            Stage::Local { .. } => 0int,
                            Stage::Steal { rest, .. } => rest as int,
                            Stage::Drain { offset } => shard_count - offset,
                        },
                        _ => 0int,
                    }),
        {
            let ghost reached = *self;
            step = match step {
                PopStep::PopOne { visit } => {
                    let outcome: Result<Option<T>, ()> = self.pop_one(visit.shard);
                    proof {
                        if old(self)@[visit.shard as int].items.len() > 0 {
                            assert(shards::is_victim(old(self)@, start as int, visit.shard as int));
                        } else if let Stage::Steal { rest, .. } = visit.stage {
                            shards::lemma_steal(old(self)@, start, shard_count, rest);
                            if rest != 0 {
                                bits::lemma_nearest(rest, start as int);
                                bits::lemma_without_bit_is_less(
                                    rest,
                                    bits::nearest(rest, start as int),
                                );
                            }
                        }
                        if old(self)@[visit.shard as int].items.len() > 0 {
                            lemma_hints_after_take(
                                *old(self),
                                reached,
                                *self,
                                visit,
                                old(self)@[visit.shard as int].items.last(),
                                start,
                            );
                        } else {
                            lemma_hints_after_empty(*old(self), reached, *self, visit, start);
                        }
                    }
                    PopStep::on_attempt(visit, outcome)
                },
                PopStep::LoadBitmap { start, shard_count } => {
                    let bitmap: usize = self.memory.load_bitmap();
                    proof {
                        bits::lemma_without_bit(bitmap, start as int);
                        shards::lemma_steal(
                            old(self)@,
                            start,
                            shard_count,
                            bits::without_bit(bitmap, start as int),
                        );
                        shards::lemma_hints_after_bitmap::<T>(
                            old(self).memory@.bitmap,
                            bitmap,
                            start,
                            shard_count,
                        );
                    }
                    PopStep::on_bitmap(start, shard_count, bitmap)
                },
                PopStep::AllShardsClosed { start, shard_count } => {
                    let closed: bool = self.all_shards_closed();
                    proof {
                        bits::lemma_zero_has_no_bit();
                        assert(self.hints() =~= Set::<int>::empty());
                    }
                    PopStep::on_scan(start, shard_count, closed)
                },
                PopStep::Return { result } => {
                    return result;
                },
            };
        }
    }

    /// Closes the stack. Values that are in it can still be popped. Tells whether this call
    /// closed anything.
    pub fn close(&mut self) -> (changed: bool)
        requires
            old(self).wf(),
        ensures
            final(self).wf(),
            shards::is_close(old(self)@, changed, final(self)@),
            changed == !shards::all_closed(old(self)@),
            final(self)@ == shards::closed(old(self)@),
            final(self).hints() == old(self).hints(),
    {
        let count: usize = self.layout.shard_count();
        let mut step: CloseStep<usize> = CloseStep::start(count);
        loop
            invariant
                old(self).wf(),
                self.tidy(),
                self.memory@.bitmap == old(self).memory@.bitmap,
                count == old(self)@.len(),
                self@.len() == count,
                step.wf(),
                forall|i: int|
                    0 <= i < count ==> (#[trigger] self@[i]).items == old(self)@[i].items,
                match step {
                    CloseStep::LoadHead { shard_count, shard, changed } => {
                        &&& shard_count == count
                        &&& self.closed_up_to(*old(self), shard as int, changed)
                    },
                    CloseStep::Seal { shard_count, shard, changed, head } => {
                        &&& shard_count == count
                        &&& self.closed_up_to(*old(self), shard as int, changed)
                        &&& head == self.memory@.heads[shard as int]
                        &&& !head.closed()
                    },
                    CloseStep::Return { changed } => self.closed_up_to(
                        *old(self),
                        count as int,
                        changed,
                    ),
                },
            decreases
                    (match step {
                        CloseStep::LoadHead { shard, .. } => 2 * (count - shard),
                        CloseStep::Seal { shard, .. } => 2 * (count - shard) - 1,
                        CloseStep::Return { .. } => 0int,
                    }),
        {
            let ghost before = *self;
            step = match step {
                CloseStep::LoadHead { shard_count, shard, changed } => {
                    let head: Head<usize> = self.memory.load_head(shard);
                    proof {
                        assert(self@[shard as int].closed == head.closed());
                        assert(old(self)@[shard as int].closed == head.closed());
                    }
                    CloseStep::on_head(shard_count, shard, changed, head)
                },
                CloseStep::Seal { shard_count, shard, changed, head } => {
                    let sealed: Head<usize> = head.with_tag(CLOSED_TAG);
                    if self.memory.exchange(shard, head, sealed) {
                        proof {
                            lists::lemma_frame(before.memory@, self.memory@, self.lists@);
                            assert(self@ =~= before@.update(
                                shard as int,
                                before@[shard as int].close(),
                            ));
                            assert(!old(self)@[shard as int].closed);
                        }
                        CloseStep::on_sealed(shard_count, shard)
                    } else {
                        CloseStep::on_refused(shard_count, shard, changed)
                    }
                },
                CloseStep::Return { changed } => {
                    proof {
                        assert(self@ =~= shards::closed(old(self)@));
                    }
                    return changed;
                },
            };
        }
    }

    /// All shards below `shard` are closed, the others are as they were in `before`, and
    /// `changed` tells whether that took a change.
    closed spec fn closed_up_to(&self, before: Self, shard: int, changed: bool) -> bool {
        &&& forall|i: int|
            0 <= i < self@.len() ==> (#[trigger] self@[i]).closed == (i < shard
                || before@[i].closed)
        &&& changed == exists|i: int| 0 <= i < shard && !(#[trigger] before@[i]).closed
    }

    /// Whether the stack is closed.
    pub fn is_closed(&self) -> (closed: bool)
        requires
            self.wf(),
        ensures
            shards::is_answer(self@, closed),
            closed == shards::all_closed(self@),
    {
        self.all_shards_closed()
    }

    fn all_shards_closed(&self) -> (closed: bool)
        requires
            self.linked(),
        ensures
            closed == shards::all_closed(self@),
    {
        let count: usize = self.layout.shard_count();
        let mut step: ClosedScanStep = ClosedScanStep::start(count);
        loop
            invariant
                self.linked(),
                count == self@.len(),
                step.wf(),
                match step {
                    ClosedScanStep::LoadHead { shard_count, shard } => {
                        &&& shard_count == count
                        &&& forall|i: int| 0 <= i < shard ==> (#[trigger] self@[i]).closed
                    },
                    ClosedScanStep::Return { closed } => closed == shards::all_closed(self@),
                },
            decreases
                    (match step {
                        ClosedScanStep::LoadHead { shard, .. } => count - shard,
                        ClosedScanStep::Return { .. } => 0int,
                    }),
        {
            step = match step {
                ClosedScanStep::LoadHead { shard_count, shard } => {
                    let head: Head<usize> = self.memory.load_head(shard);
                    assert(self@[shard as int].closed == head.closed());
                    ClosedScanStep::on_head(shard_count, shard, head)
                },
                ClosedScanStep::Return { closed } => {
                    return closed;
                },
            };
        }
    }

    /// Takes the stack apart and hands out every value that was never popped: shard by shard,
    /// each from the top down.
    pub fn teardown(self) -> (values: Vec<T>)
        requires
            self.wf(),
        ensures
            values@ == shards::remaining(self@, self@.len()),
    {
        let count: usize = self.layout.shard_count();
        let ghost lists = self.lists@;
        let ghost shards = self@;
        let ghost start = self.memory@;
        let mut memory: SharedMemory<T> = self.memory;
        let mut values: Vec<T> = Vec::new();
        let mut step: TeardownStep<usize> = TeardownStep::start(count);
        let ghost mut left: int = lists[0].len() as int;
        proof {
            reveal(emptied);
            assert(values@ =~= shards::remaining(shards, 0) + shards[0].items.reverse().take(0));
            assert forall|i: int, k: int|
                0 <= i < lists.len() && 0 <= k < lists[i].len() implies memory@.nodes.contains_key(
                #[trigger] lists[i][k],
            ) by {
                assert(lists::chained(start, i, lists[i]));
            }
            assert(emptied(start, memory@, lists, shards, 0, left, values@));
        }
        loop
            invariant
                shards == self@,
                count == lists.len(),
                count == shards.len(),
                lists::well_linked(start, lists),
                forall|i: int|
                    0 <= i < count ==> (#[trigger] shards[i]).items == lists::items(
                        start,
                        lists[i],
                    ),
                memory.wf(),
                memory@.heads == start.heads,
                match step {
                    TeardownStep::LoadHead { shard_count, shard } => {
                        &&& shard_count == count
                        &&& shard < count
                        &&& left == lists[shard as int].len()
                        &&& emptied(start, memory@, lists, shards, shard as int, left, values@)
                    },
                    TeardownStep::LoadNext { shard_count, shard, node } => {
                        &&& shard_count == count
                        &&& shard < count
                        &&& 0 < left <= lists[shard as int].len()
                        &&& node == lists[shard as int][left - 1]
                        &&& emptied(start, memory@, lists, shards, shard as int, left, values@)
                    },
                    TeardownStep::Free { shard_count, shard, node, next } => {
                        &&& shard_count == count
                        &&& shard < count
                        &&& 0 < left <= lists[shard as int].len()
                        &&& node == lists[shard as int][left - 1]
                        &&& next == lists::under(lists[shard as int], left - 1)
                        &&& emptied(start, memory@, lists, shards, shard as int, left, values@)
                    },
                    TeardownStep::Return => values@ == shards::remaining(shards, count as nat),
                },
            decreases
                    (match step {
                        TeardownStep::LoadHead { shard, .. } => count - shard,
                        TeardownStep::LoadNext { shard, .. } => count - shard,
                        TeardownStep::Free { shard, .. } => count - shard,
                        TeardownStep::Return => 0int,
                    }),
                    (match step {
                        TeardownStep::LoadHead { .. } => 2 * left + 2,
                        TeardownStep::LoadNext { .. } => 2 * left + 1,
                        TeardownStep::Free { .. } => 2 * left,
                        TeardownStep::Return => 0int,
                    }),
        {
            step = match step {
                TeardownStep::LoadHead { shard_count, shard } => {
                    let head: Head<usize> = memory.load_head(shard);
                    proof {
                        assert(lists::chained(start, shard as int, lists[shard as int]));
                        if left == 0 {
                            lemma_shard_emptied(
                                start,
                                memory@,
                                lists,
                                shards,
                                shard as int,
                                values@,
                            );
                            if shard + 1 < count {
                                left = lists[shard + 1].len() as int;
                            }
                        }
                    }
                    TeardownStep::on_node(shard_count, shard, head.ptr)
                },
                TeardownStep::LoadNext { shard_count, shard, node } => {
                    proof {
                        lemma_next_node(
                            start,
                            memory@,
                            lists,
                            shards,
                            shard as int,
                            left,
                            values@,
                        );
                    }
                    TeardownStep::on_next(shard_count, shard, node, memory.load_next(node))
                },
                TeardownStep::Free { shard_count, shard, node, next } => {
                    let ghost before = memory@;
                    let ghost out = values@;
                    proof {
                        lemma_next_node(
                            start,
                            memory@,
                            lists,
                            shards,
                            shard as int,
                            left,
                            values@,
                        );
                    }
                    let value: T = memory.release(node);
                    values.push(value);
                    proof {
                        lemma_node_released(
                            start,
                            before,
                            lists,
                            shards,
                            shard as int,
                            left,
                            out,
                            value,
                        );
                        left = left - 1;
                        if left == 0 {
                            lemma_shard_emptied(
                                start,
                                memory@,
                                lists,
                                shards,
                                shard as int,
                                values@,
                            );
                            if shard + 1 < count {
                                left = lists[shard + 1].len() as int;
                            }
                        }
                    }
                    TeardownStep::on_node(shard_count, shard, next)
                },
                TeardownStep::Return => {
                    return values;
                },
            };
        }
    }
}

/// A stack between two calls is open in all shards or closed in all shards, so that a push is
/// refused by any thread's shard exactly if the stack is closed; and its shard count is a power
/// of two, of no more than the bits of a word.
pub proof fn law_closed_in_all_shards<T>(stack: ConcurrentShardedStack<T>)
    requires
        stack.wf(),
    ensures
        shards::closed_together(stack@),
        layout::valid_shard_count(stack@.len() as int),
        forall|i: int|
            0 <= i < stack@.len() ==> (#[trigger] stack@[i]).closed == shards::all_closed(stack@),
{
    assert forall|i: int| 0 <= i < stack@.len() implies (#[trigger] stack@[i]).closed
        == shards::all_closed(stack@) by {
        if stack@[i].closed {
            assert forall|j: int| 0 <= j < stack@.len() implies (#[trigger] stack@[j]).closed by {
                assert(stack@[i].closed == stack@[j].closed);
            }
        }
    }
}

/// Every shard that holds a value is hinted at, and no shard that does not exist.
pub proof fn law_values_are_hinted_at<T>(stack: ConcurrentShardedStack<T>)
    requires
        stack.wf(),
    ensures
        forall|i: int| #[trigger] stack.hints().contains(i) ==> 0 <= i < stack@.len(),
        forall|i: int|
            0 <= i < stack@.len() && (#[trigger] stack@[i]).items.len() > 0
                ==> stack.hints().contains(i),
{
    let hints = stack.hints();
    assert forall|i: int|
        0 <= i < stack@.len() && (#[trigger] stack@[i]).items.len() > 0 implies hints.contains(
        i,
    ) by {
        assert(stack.lists@[i].len() > 0);
    }
}

} // verus!
