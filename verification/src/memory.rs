//! The memory that the operations of a stack share: nodes, heads and the bitmap.
//!
//! [`SharedMemory`] performs each access that the steps ask for, one at a time. A node that was
//! taken stays readable until [`SharedMemory::collect`] is called, because an operation that saw
//! it earlier may still read which node lies under it.

use crate::bits;
use crate::head::Head;
use crossbeam_utils::CachePadded;
use vstd::prelude::*;

verus! {

/// A padded value, as `crossbeam_utils` has it.
#[verifier::external_type_specification]
#[verifier::external_body]
#[verifier::reject_recursive_types(T)]
pub struct ExCachePadded<T>(CachePadded<T>);

/// The head inside a padded head.
pub uninterp spec fn padded_head(padded: CachePadded<Head<usize>>) -> Head<usize>;

/// Calls `CachePadded::new`: what is put in is inside.
#[verifier::external_body]
fn pad_head(head: Head<usize>) -> (padded: CachePadded<Head<usize>>)
    ensures
        padded_head(padded) == head,
{
    CachePadded::new(head)
}

/// Reads through `CachePadded::deref`, which hands out the value inside.
#[verifier::external_body]
fn read_head(padded: &CachePadded<Head<usize>>) -> (head: Head<usize>)
    ensures
        head == padded_head(*padded),
{
    **padded
}

/// A node. The value is gone once the node was taken; the link stays.
#[derive(Debug)]
pub struct Node<T> {
    pub value: Option<T>,
    pub next: Option<usize>,
}

/// What the memory holds. Nodes are known by number.
#[verifier::ext_equal]
#[verifier::reject_recursive_types(T)]
pub struct MemoryView<T> {
    pub nodes: Map<usize, Node<T>>,
    pub heads: Seq<Head<usize>>,
    pub bitmap: usize,
}

impl<T> MemoryView<T> {
    /// `shard_count` open shards without a node.
    pub open spec fn empty(shard_count: nat) -> Self {
        MemoryView {
            nodes: Map::empty(),
            heads: Seq::new(shard_count, |i: int| Head { ptr: None, tag: 0 }),
            bitmap: 0,
        }
    }

    /// A node numbered `node` was made for `value`.
    pub open spec fn allocated(self, node: usize, value: T) -> Self {
        MemoryView {
            nodes: self.nodes.insert(node, Node { value: Some(value), next: None }),
            ..self
        }
    }

    /// The shard's head was swung from `from` to `to`, provided it was `from`.
    pub open spec fn exchanged(self, shard: int, from: Head<usize>, to: Head<usize>) -> Self {
        MemoryView {
            heads: if self.heads[shard] == from {
                self.heads.update(shard, to)
            } else {
                self.heads
            },
            ..self
        }
    }

    /// `node` was pointed at `next`.
    pub open spec fn linked(self, node: usize, next: Option<usize>) -> Self {
        MemoryView {
            nodes: self.nodes.insert(node, Node { value: self.nodes[node].value, next }),
            ..self
        }
    }

    /// `node` was pointed at `head`, and put on top of it if it still was the shard's head.
    pub open spec fn published(self, shard: int, node: usize, head: Head<usize>) -> Self {
        self.linked(node, head.ptr).exchanged(shard, head, Head { ptr: Some(node), tag: 0 })
    }

    /// The value of `node` was moved out.
    pub open spec fn taken(self, node: usize) -> Self {
        MemoryView {
            nodes: self.nodes.insert(node, Node { value: None, next: self.nodes[node].next }),
            ..self
        }
    }

    /// `node` was released.
    pub open spec fn released(self, node: usize) -> Self {
        MemoryView { nodes: self.nodes.remove(node), ..self }
    }

    /// Every node whose value is gone was released.
    pub open spec fn collected(self) -> Self {
        MemoryView {
            nodes: self.nodes.restrict(
                Set::new(|id: usize| self.nodes.contains_key(id) && self.nodes[id].value is Some),
            ),
            ..self
        }
    }

    pub open spec fn bit_set(self, shard: int) -> Self {
        MemoryView { bitmap: bits::with_bit(self.bitmap, shard), ..self }
    }

    pub open spec fn bit_cleared(self, shard: int) -> Self {
        MemoryView { bitmap: bits::without_bit(self.bitmap, shard), ..self }
    }
}

/// The memory itself.
pub struct SharedMemory<T> {
    slots: Vec<Option<Node<T>>>,
    free: Vec<usize>,
    retired: Vec<usize>,
    heads: Vec<CachePadded<Head<usize>>>,
    bitmap: usize,
}

impl<T> View for SharedMemory<T> {
    type V = MemoryView<T>;

    closed spec fn view(&self) -> MemoryView<T> {
        MemoryView {
            nodes: Map::new(
                |id: usize| id < self.slots@.len() && self.slots@[id as int] is Some,
                |id: usize| self.slots@[id as int]->0,
            ),
            heads: Seq::new(self.heads@.len(), |i: int| padded_head(self.heads@[i])),
            bitmap: self.bitmap,
        }
    }
}

impl<T> SharedMemory<T> {
    /// The slots without a node that are listed as free have none and are listed once; the
    /// nodes listed as retired are those whose value is gone, each listed once.
    pub closed spec fn wf(&self) -> bool {
        &&& self.free@.no_duplicates()
        &&& forall|k: int|
            0 <= k < self.free@.len() ==> {
                &&& (#[trigger] self.free@[k]) < self.slots@.len()
                &&& self.slots@[self.free@[k] as int] is None
            }
        &&& self.retired@.no_duplicates()
        &&& forall|k: int|
            0 <= k < self.retired@.len() ==> {
                &&& (#[trigger] self.retired@[k]) < self.slots@.len()
                &&& self.slots@[self.retired@[k] as int] matches Some(n) && n.value is None
            }
        &&& forall|id: usize|
            id < self.slots@.len() && (#[trigger] self.slots@[id as int] matches Some(n)
                && n.value is None) ==> self.retired@.contains(id)
    }

    pub fn new(shard_count: usize) -> (memory: Self)
        ensures
            memory.wf(),
            memory@ == MemoryView::<T>::empty(shard_count as nat),
    {
        let mut heads: Vec<CachePadded<Head<usize>>> = Vec::with_capacity(shard_count);
        let mut i: usize = 0;
        while i < shard_count
            invariant
                i <= shard_count,
                heads@.len() == i,
                forall|j: int|
                    0 <= j < i ==> padded_head(#[trigger] heads@[j]) == (Head::<usize> {
                        ptr: None,
                        tag: 0,
                    }),
            decreases shard_count - i,
        {
            heads.push(pad_head(Head::null()));
            i = i + 1;
        }
        let memory = SharedMemory {
            slots: Vec::new(),
            free: Vec::new(),
            retired: Vec::new(),
            heads,
            bitmap: 0,
        };
        proof {
            assert(memory@.nodes =~= Map::empty());
            assert(memory@ =~= MemoryView::<T>::empty(shard_count as nat));
        }
        memory
    }

    /// Makes a node that no head leads to.
    pub fn allocate(&mut self, value: T) -> (node: usize)
        requires
            old(self).wf(),
        ensures
            final(self).wf(),
            !old(self)@.nodes.contains_key(node),
            final(self)@ == old(self)@.allocated(node, value),
    {
        let fresh: Option<Node<T>> = Some(Node { value: Some(value), next: None });
        let node: usize;
        if self.free.len() > 0 {
            node = self.free.pop().unwrap();
            self.slots.set(node, fresh);
        } else {
            node = self.slots.len();
            self.slots.push(fresh);
        }
        proof {
            assert(self@.nodes =~= old(self)@.allocated(node, value).nodes);
            assert(self@ =~= old(self)@.allocated(node, value));
        }
        node
    }

    pub fn load_head(&self, shard: usize) -> (head: Head<usize>)
        requires
            shard < self@.heads.len(),
        ensures
            head == self@.heads[shard as int],
    {
        read_head(&self.heads[shard])
    }

    /// Swings the shard's head from `from` to `to`, provided it is `from`.
    pub fn exchange(&mut self, shard: usize, from: Head<usize>, to: Head<usize>) -> (done: bool)
        requires
            old(self).wf(),
            shard < old(self)@.heads.len(),
        ensures
            final(self).wf(),
            final(self)@ == old(self)@.exchanged(shard as int, from, to),
            done == (old(self)@.heads[shard as int] == from),
    {
        let head = read_head(&self.heads[shard]);
        let done: bool = head.tag == from.tag && head.ptr == from.ptr;
        if done {
            self.heads.set(shard, pad_head(to));
        }
        proof {
            assert(self@.nodes =~= old(self)@.nodes);
            assert(self@ =~= old(self)@.exchanged(shard as int, from, to));
        }
        done
    }

    /// Points `node` at `head` and puts it on top, provided `head` is the shard's head.
    pub fn publish(&mut self, shard: usize, node: usize, head: Head<usize>) -> (done: bool)
        requires
            old(self).wf(),
            shard < old(self)@.heads.len(),
            old(self)@.nodes.contains_key(node),
        ensures
            final(self).wf(),
            final(self)@ == old(self)@.published(shard as int, node, head),
            done == (old(self)@.heads[shard as int] == head),
    {
        match &mut self.slots[node] {
            Some(n) => {
                n.next = head.ptr;
            },
            None => {},
        }
        proof {
            assert(self@.nodes =~= old(self)@.linked(node, head.ptr).nodes);
            assert(self@ =~= old(self)@.linked(node, head.ptr));
        }
        self.exchange(shard, head, Head { ptr: Some(node), tag: 0 })
    }

    /// Which node lies under `node`.
    pub fn load_next(&self, node: usize) -> (next: Option<usize>)
        requires
            self@.nodes.contains_key(node),
        ensures
            next == self@.nodes[node].next,
    {
        match &self.slots[node] {
            Some(n) => n.next,
            None => None,
        }
    }

    /// Moves the value out of `node`, which stays readable until the next collection.
    pub fn take(&mut self, node: usize) -> (value: T)
        requires
            old(self).wf(),
            old(self)@.nodes.contains_key(node),
            old(self)@.nodes[node].value is Some,
        ensures
            final(self).wf(),
            final(self)@ == old(self)@.taken(node),
            old(self)@.nodes[node].value == Some(value),
    {
        let n: Node<T> = self.slots[node].take().unwrap();
        let value: T = n.value.unwrap();
        self.slots.set(node, Some(Node { value: None, next: n.next }));
        self.retired.push(node);
        proof {
            assert forall|id: usize|
                id < self.slots@.len() && (#[trigger] self.slots@[id as int] matches Some(n)
                    && n.value is None) implies self.retired@.contains(id) by {
                let was = old(self).retired@;
                if id == node {
                    assert(self.retired@[was.len() as int] == node);
                } else {
                    assert(old(self).slots@[id as int] == self.slots@[id as int]);
                    let k = choose|k: int| 0 <= k < was.len() && was[k] == id;
                    assert(self.retired@[k] == id);
                }
            }
            assert(self@.nodes =~= old(self)@.taken(node).nodes);
            assert(self@ =~= old(self)@.taken(node));
        }
        value
    }

    /// Releases `node` at once and hands its value out. No operation may still be reading it.
    pub fn release(&mut self, node: usize) -> (value: T)
        requires
            old(self).wf(),
            old(self)@.nodes.contains_key(node),
            old(self)@.nodes[node].value is Some,
        ensures
            final(self).wf(),
            final(self)@ == old(self)@.released(node),
            old(self)@.nodes[node].value == Some(value),
    {
        let n: Node<T> = self.slots[node].take().unwrap();
        self.free.push(node);
        proof {
            assert(self@.nodes =~= old(self)@.released(node).nodes);
            assert(self@ =~= old(self)@.released(node));
        }
        n.value.unwrap()
    }

    /// Releases every node whose value was taken. No operation may still be reading one.
    pub fn collect(&mut self)
        requires
            old(self).wf(),
        ensures
            final(self).wf(),
            final(self)@ == old(self)@.collected(),
    {
        while self.retired.len() > 0
            invariant
                self.wf(),
                self@.heads == old(self)@.heads,
                self@.bitmap == old(self)@.bitmap,
                forall|id: usize| #[trigger]
                    self@.nodes.contains_key(id) ==> old(self)@.nodes.contains_key(id)
                        && self@.nodes[id] == old(self)@.nodes[id],
                forall|id: usize| #[trigger]
                    old(self)@.nodes.contains_key(id) && old(self)@.nodes[id].value is Some
                        ==> self@.nodes.contains_key(id),
            decreases self.retired@.len(),
        {
            let ghost before = *self;
            let node: usize = self.retired.pop().unwrap();
            self.slots.set(node, None);
            self.free.push(node);
            proof {
                let last = before.retired@.len() - 1;
                assert(before.retired@[last] == node);
                assert forall|k: int| 0 <= k < self.retired@.len() implies {
                    &&& (#[trigger] self.retired@[k]) < self.slots@.len()
                    &&& self.slots@[self.retired@[k] as int] matches Some(n) && n.value is None
                } by {
                    assert(before.retired@[k] == self.retired@[k]);
                }
                assert forall|id: usize|
                    id < self.slots@.len() && (#[trigger] self.slots@[id as int] matches Some(n)
                        && n.value is None) implies self.retired@.contains(id) by {
                    assert(before.slots@[id as int] == self.slots@[id as int]);
                    let k = choose|k: int|
                        0 <= k < before.retired@.len() && before.retired@[k] == id;
                    assert(self.retired@[k] == id);
                }
                assert forall|id: usize| #[trigger] self@.nodes.contains_key(id) implies {
                    &&& before@.nodes.contains_key(id)
                    &&& self@.nodes[id] == before@.nodes[id]
                } by {}
                assert forall|id: usize| #[trigger]
                    before@.nodes.contains_key(id) && before@.nodes[id].value is Some implies
                    self@.nodes.contains_key(id) by {}
            }
        }
        proof {
            assert(self@ =~= old(self)@.collected());
        }
    }

    pub fn load_bitmap(&self) -> (bitmap: usize)
        ensures
            bitmap == self@.bitmap,
    {
        self.bitmap
    }

    pub fn set_bit(&mut self, shard: usize)
        requires
            old(self).wf(),
            shard < usize::BITS,
        ensures
            final(self).wf(),
            final(self)@ == old(self)@.bit_set(shard as int),
    {
        self.bitmap = self.bitmap | bits::shard_bit(shard);
        proof {
            assert(self@.nodes =~= old(self)@.nodes);
            assert(self@ =~= old(self)@.bit_set(shard as int));
        }
    }

    pub fn clear_bit(&mut self, shard: usize)
        requires
            old(self).wf(),
            shard < usize::BITS,
        ensures
            final(self).wf(),
            final(self)@ == old(self)@.bit_cleared(shard as int),
    {
        self.bitmap = self.bitmap & !bits::shard_bit(shard);
        proof {
            assert(self@.nodes =~= old(self)@.nodes);
            assert(self@ =~= old(self)@.bit_cleared(shard as int));
        }
    }
}

/// An exchange goes through exactly if the head is what was expected. It then changes that head and
/// nothing else, and otherwise nothing.
pub proof fn law_exchange<T>(memory: MemoryView<T>, shard: int, from: Head<usize>, to: Head<usize>)
    requires
        0 <= shard < memory.heads.len(),
    ensures
        ({
            let after = memory.exchanged(shard, from, to);
            &&& memory.heads[shard] == from ==> after.heads[shard] == to
            &&& memory.heads[shard] != from ==> after == memory
            &&& after.heads.len() == memory.heads.len()
            &&& forall|i: int|
                0 <= i < memory.heads.len() && i != shard ==> #[trigger] after.heads[i]
                    == memory.heads[i]
            &&& after.nodes == memory.nodes
            &&& after.bitmap == memory.bitmap
        }),
{
    assert(memory.heads[shard] != from ==> memory.exchanged(shard, from, to) =~= memory);
}

/// Putting a node in place makes it the top node, under an open head, over what was on top; a node
/// that could not be put in place is on top of nothing. No value is touched.
pub proof fn law_publish<T>(memory: MemoryView<T>, shard: int, node: usize, head: Head<usize>)
    requires
        0 <= shard < memory.heads.len(),
        memory.nodes.contains_key(node),
    ensures
        ({
            let after = memory.published(shard, node, head);
            &&& memory.heads[shard] == head ==> after.heads == memory.heads.update(
                shard,
                Head { ptr: Some(node), tag: 0 },
            )
            &&& memory.heads[shard] != head ==> after.heads == memory.heads
            &&& after.nodes[node].next == head.ptr
            &&& after.nodes.dom() == memory.nodes.dom()
            &&& forall|id: usize|
                memory.nodes.contains_key(id) ==> (#[trigger] after.nodes[id]).value
                    == memory.nodes[id].value && (id != node ==> after.nodes[id]
                    == memory.nodes[id])
            &&& after.bitmap == memory.bitmap
        }),
{
    assert(memory.published(shard, node, head).nodes.dom() =~= memory.nodes.dom());
}

/// A value can be taken out of a node once; the node under it can still be found, until a
/// collection, which releases the nodes without a value and leaves all others as they are.
pub proof fn law_take_and_collect<T>(memory: MemoryView<T>, node: usize)
    requires
        memory.nodes.contains_key(node),
    ensures
        ({
            let after = memory.taken(node);
            &&& after.nodes[node].value is None
            &&& after.nodes[node].next == memory.nodes[node].next
            &&& after.nodes.dom() == memory.nodes.dom()
            &&& forall|id: usize|
                memory.nodes.contains_key(id) && id != node ==> #[trigger] after.nodes[id]
                    == memory.nodes[id]
            &&& after.heads == memory.heads
            &&& after.bitmap == memory.bitmap
            &&& !after.collected().nodes.contains_key(node)
        }),
        ({
            let after = memory.collected();
            &&& forall|id: usize| #[trigger]
                after.nodes.contains_key(id) <==> memory.nodes.contains_key(id)
                    && memory.nodes[id].value is Some
            &&& forall|id: usize|
                after.nodes.contains_key(id) ==> #[trigger] after.nodes[id] == memory.nodes[id]
            &&& after.heads == memory.heads
            &&& after.bitmap == memory.bitmap
        }),
{
    assert(memory.taken(node).nodes.dom() =~= memory.nodes.dom());
}

/// A node that is made holds its value and lies over nothing; one that is released is gone. Neither
/// touches anything else, and one undoes the other.
pub proof fn law_allocate_and_release<T>(memory: MemoryView<T>, node: usize, value: T)
    requires
        !memory.nodes.contains_key(node),
    ensures
        ({
            let after = memory.allocated(node, value);
            &&& after.nodes[node] == (Node { value: Some(value), next: None })
            &&& forall|id: usize| #[trigger]
                after.nodes.contains_key(id) <==> memory.nodes.contains_key(id) || id == node
            &&& forall|id: usize|
                memory.nodes.contains_key(id) ==> #[trigger] after.nodes[id] == memory.nodes[id]
            &&& after.heads == memory.heads
            &&& after.bitmap == memory.bitmap
            &&& after.released(node) == memory
        }),
{
    assert(memory.allocated(node, value).released(node).nodes =~= memory.nodes);
    assert(memory.allocated(node, value).released(node) =~= memory);
}

/// Setting or clearing the bit of a shard changes that bit alone.
pub proof fn law_bits<T>(memory: MemoryView<T>, shard: int, i: int)
    requires
        0 <= shard < usize::BITS,
    ensures
        bits::has_bit(memory.bit_set(shard).bitmap, i) <==> i == shard || bits::has_bit(
            memory.bitmap,
            i,
        ),
        bits::has_bit(memory.bit_cleared(shard).bitmap, i) <==> i != shard && bits::has_bit(
            memory.bitmap,
            i,
        ),
        memory.bit_set(shard).nodes == memory.nodes,
        memory.bit_set(shard).heads == memory.heads,
        memory.bit_cleared(shard).nodes == memory.nodes,
        memory.bit_cleared(shard).heads == memory.heads,
{
    bits::lemma_with_bit(memory.bitmap, shard);
    bits::lemma_without_bit(memory.bitmap, shard);
}

} // verus!
