//! What holds of a stack whatever turns its operations took.

use crate::bits;
use crate::head::Head;
use crate::interleaving::system;
use crate::interleaving::system::{Effect, Event, Inner, Operation, Progress, System};
use crate::layout;
use crate::lists;
use crate::memory::MemoryView;
use crate::steps::pop;
use crate::steps::{
    ClearBitStep, CloseStep, ClosedScanStep, PopOneStep, PopStep, PushStep, Stage, Visit,
};
use vstd::prelude::*;

verus! {

impl<T> Operation<T> {
    /// The node that only this push knows.
    pub open spec fn private(self) -> Option<usize> {
        match self {
            Operation::Push { step: PushStep::LoadHead { node, .. } } => Some(node),
            Operation::Push { step: PushStep::Publish { node, .. } } => Some(node),
            _ => None,
        }
    }

    /// The node that this pop has unlinked and not yet taken.
    pub open spec fn unlinked(self) -> Option<usize> {
        match self {
            Operation::Pop { inner: Inner::Attempt { one, .. }, .. } => match one {
                PopOneStep::ClearBit { popped, .. } => popped,
                PopOneStep::Take { node } => Some(node),
                _ => None,
            },
            _ => None,
        }
    }

    /// The node whose value this operation alone disposes of.
    pub open spec fn owned(self) -> Option<usize> {
        if self.private() is Some {
            self.private()
        } else {
            self.unlinked()
        }
    }

    /// The node that this pop has seen on top of a shard.
    pub open spec fn seen(self) -> Option<usize> {
        match self {
            Operation::Pop { inner: Inner::Attempt { one, .. }, .. } => match one {
                PopOneStep::LoadNext { node, .. } => Some(node),
                PopOneStep::Exchange { node, .. } => Some(node),
                _ => None,
            },
            _ => None,
        }
    }

    /// Whether this close has closed a shard, as far as it tells.
    pub open spec fn changed(self) -> Option<bool> {
        match self {
            Operation::Close { step: CloseStep::LoadHead { changed, .. } } => Some(changed),
            Operation::Close { step: CloseStep::Seal { changed, .. } } => Some(changed),
            _ => None,
        }
    }

    /// Whether this operation still has to look after the bit of `shard`.
    pub open spec fn minds_bit(self, shard: int) -> bool {
        match self {
            Operation::Push { step: PushStep::LoadBitmap { shard: s } } => s == shard,
            Operation::Push { step: PushStep::SetBit { shard: s } } => s == shard,
            Operation::Pop {
                inner: Inner::Attempt { one: PopOneStep::ClearBit { .. }, clearing },
                ..
            } => match clearing {
                ClearBitStep::LoadHead { shard: s } => s == shard,
                ClearBitStep::SetBit { shard: s } => s == shard,
                _ => false,
            },
            _ => false,
        }
    }

    /// The operation is one over `shard_count` shards, stands before an access, and its parts go
    /// together.
    pub open spec fn fits(self, shard_count: int) -> bool {
        match self {
            Operation::Push { step } => match step {
                PushStep::LoadHead { shard, .. } => shard < shard_count,
                PushStep::Publish { shard, head, .. } => shard < shard_count && !head.closed(),
                PushStep::LoadBitmap { shard } => shard < shard_count,
                PushStep::SetBit { shard } => shard < shard_count,
                PushStep::Return { .. } => false,
            },
            Operation::Pop { step, inner } => {
                &&& step.wf()
                &&& step.spans(shard_count)
                &&& match step {
                    PopStep::PopOne { visit } => inner matches Inner::Attempt { one, clearing }
                        && attempt_fits(visit, one, clearing),
                    PopStep::LoadBitmap { .. } => inner is Own,
                    PopStep::AllShardsClosed { .. } => inner matches Inner::Scan { scan }
                        && scan_fits(scan, shard_count),
                    PopStep::Return { .. } => false,
                }
            },
            Operation::Close { step } => match step {
                CloseStep::LoadHead { shard_count: c, shard, .. } => c == shard_count && shard < c,
                CloseStep::Seal { shard_count: c, shard, head, .. } => c == shard_count && shard < c
                    && !head.closed(),
                CloseStep::Return { .. } => false,
            },
            Operation::IsClosed { step } => scan_fits(step, shard_count),
        }
    }

    /// What the operation has found out and relies on.
    pub open spec fn knows(self, memory: MemoryView<T>, lists: Seq<Seq<usize>>) -> bool {
        match self {
            Operation::Push { .. } => true,
            Operation::Pop { step, inner } => {
                &&& drain_known(step, memory, lists)
                &&& match inner {
                    Inner::Attempt { one, .. } => match one {
                        PopOneStep::Exchange { node, next, .. } => memory.nodes[node].next == next,
                        PopOneStep::ClearBit { shard, popped: None } => step.drains()
                            ==> lists[shard as int].len() == 0,
                        _ => true,
                    },
                    Inner::Scan { scan } => scan_known(scan, memory),
                    Inner::Own => true,
                }
            },
            Operation::Close { step } => match step {
                CloseStep::LoadHead { shard, .. } => closed_below(memory, shard as int),
                CloseStep::Seal { shard, .. } => closed_below(memory, shard as int),
                CloseStep::Return { .. } => true,
            },
            Operation::IsClosed { step } => scan_known(step, memory),
        }
    }
}

/// An attempt on the shard of `visit` stands before an access.
pub open spec fn attempt_fits<T>(
    visit: Visit,
    one: PopOneStep<usize, T>,
    clearing: ClearBitStep,
) -> bool {
    match one {
        PopOneStep::LoadHead { shard } => shard == visit.shard,
        PopOneStep::LoadNext { shard, .. } => shard == visit.shard,
        PopOneStep::Exchange { shard, .. } => shard == visit.shard,
        PopOneStep::ClearBit { shard, .. } => {
            &&& shard == visit.shard
            &&& match clearing {
                ClearBitStep::LoadBitmap { shard: s } => s == shard,
                ClearBitStep::ClearBit { shard: s } => s == shard,
                ClearBitStep::LoadHead { shard: s } => s == shard,
                ClearBitStep::SetBit { shard: s } => s == shard,
                ClearBitStep::Return => false,
            }
        },
        PopOneStep::Take { .. } => true,
        PopOneStep::Return { .. } => false,
    }
}

/// A scan over `shard_count` shards stands before an access.
pub open spec fn scan_fits(scan: ClosedScanStep, shard_count: int) -> bool {
    scan matches ClosedScanStep::LoadHead { shard_count: c, shard } && c == shard_count && shard < c
}

/// Every shard below `shard` is closed.
pub open spec fn closed_below<T>(memory: MemoryView<T>, shard: int) -> bool {
    forall|i: int| 0 <= i < shard ==> (#[trigger] memory.heads[i]).closed()
}

/// A scan has seen every shard below the current one closed.
pub open spec fn scan_known<T>(scan: ClosedScanStep, memory: MemoryView<T>) -> bool {
    scan matches ClosedScanStep::LoadHead { shard, .. } ==> closed_below(memory, shard as int)
}

/// A pop that drains a closed stack has left only empty shards behind.
pub open spec fn drain_known<T>(
    step: PopStep<T>,
    memory: MemoryView<T>,
    lists: Seq<Seq<usize>>,
) -> bool {
    match step {
        PopStep::PopOne { visit } => match visit.stage {
            Stage::Drain { offset } => {
                &&& closed_below(memory, memory.heads.len() as int)
                &&& drained_below(visit.start, offset, lists)
            },
            _ => true,
        },
        _ => true,
    }
}

/// The shards whose distance from `start` is less than `offset` are empty.
pub open spec fn drained_below(start: usize, offset: usize, lists: Seq<Seq<usize>>) -> bool {
    forall|k: usize| k < offset ==> lists[#[trigger] pop::at_distance(start, k)].len() == 0
}

impl<T> System<T> {
    /// The heads, lists and bits go together.
    pub open spec fn shaped(self) -> bool {
        &&& layout::valid_shard_count(self.shard_count())
        &&& lists::well_linked(self.memory, self.lists)
        &&& bits::bits_below(self.memory.bitmap, self.shard_count())
        &&& forall|o: nat| #[trigger] self.running.contains_key(o) ==> o < self.begun
    }

    /// The node is there, and if it was given up, it cannot be released before operation `o` is
    /// over.
    pub open spec fn readable(self, o: nat, node: usize) -> bool {
        &&& self.memory.nodes.contains_key(node)
        &&& self.memory.nodes[node].value is None ==> {
            &&& self.guards.contains_key(node)
            &&& self.guards[node].contains(o)
        }
    }

    /// The node holds a value and hangs off no head.
    pub open spec fn detached(self, node: usize) -> bool {
        &&& self.memory.nodes.contains_key(node)
        &&& self.memory.nodes[node].value is Some
        &&& !lists::listed(self.lists, node)
    }

    /// Every operation in flight is in order, and what it relies on is so.
    pub open spec fn operations_in_order(self) -> bool {
        forall|o: nat| #[trigger] self.running.contains_key(o) ==> self.in_order(o, self.running[o])
    }

    pub open spec fn in_order(self, o: nat, operation: Operation<T>) -> bool {
        &&& operation.fits(self.shard_count())
        &&& operation.knows(self.memory, self.lists)
        &&& operation.seen() matches Some(node) ==> self.readable(o, node)
        &&& operation.owned() matches Some(node) ==> self.detached(node)
        &&& operation.watched() matches Some(w) ==> self.overtaken.contains(o)
            || self.memory.heads[w.0 as int] == w.1
        &&& operation.private() matches Some(node) ==> self.history.origin.contains_key(node)
            && self.history.origin[node] == o
        &&& operation is Push ==> self.history.offered.contains_key(o)
            && !self.history.refused.contains(o)
        &&& operation.changed() matches Some(changed) ==> changed == self.has_sealed(o)
    }

    /// No two operations own one node, and no pop has seen a node that only a push knows.
    pub open spec fn nodes_unshared(self) -> bool {
        forall|o: nat, p: nat|
            #![trigger self.running[o], self.running[p]]
            self.running.contains_key(o) && self.running.contains_key(p) ==> unshared(
                o,
                self.running[o],
                p,
                self.running[p],
            )
    }

    /// Every value is in a node that hangs off a head or that an operation owns.
    pub open spec fn nothing_lost(self) -> bool {
        forall|node: usize|
            #![trigger self.memory.nodes[node]]
            self.memory.nodes.contains_key(node) && self.memory.nodes[node].value is Some
                ==> lists::listed(self.lists, node) || self.owned_by_some(node)
    }

    pub open spec fn owned_by_some(self, node: usize) -> bool {
        exists|o: nat| #[trigger]
            self.running.contains_key(o) && self.running[o].owned() == Some(node)
    }

    /// The bit of a shard that holds a node is set, or an operation is about to see to it.
    pub open spec fn bits_minded(self) -> bool {
        forall|shard: int|
            0 <= shard < self.shard_count() && (#[trigger] self.lists[shard]).len() > 0
                && !bits::has_bit(self.memory.bitmap, shard) ==> self.bit_minded(shard)
    }

    pub open spec fn bit_minded(self, shard: int) -> bool {
        exists|o: nat| #[trigger]
            self.running.contains_key(o) && self.running[o].minds_bit(shard)
    }

    /// The value of every push that was begun is in exactly one place: in a node, with a pop, or
    /// handed back.
    pub open spec fn values_accounted(self) -> bool {
        let h = self.history;
        &&& forall|p: nat| #[trigger] h.offered.contains_key(p) ==> p < self.begun
        &&& forall|node: usize|
            #![trigger self.memory.nodes[node]]
            self.stored(node) ==> {
                &&& h.origin.contains_key(node)
                &&& h.offered.contains_key(h.origin[node])
                &&& self.memory.nodes[node].value == Some(h.offered[h.origin[node]])
                &&& !h.popped.contains_key(h.origin[node])
                &&& !h.refused.contains(h.origin[node])
            }
        &&& forall|m: usize, n: usize|
            #![trigger h.origin[m], h.origin[n]]
            self.stored(m) && self.stored(n) && h.origin[m] == h.origin[n] ==> m == n
        &&& forall|p: nat| #[trigger]
            h.offered.contains_key(p) ==> h.popped.contains_key(p) || h.refused.contains(p)
                || self.stored_somewhere(p)
        &&& forall|p: nat| #[trigger] h.popped.contains_key(p) ==> h.offered.contains_key(p)
            && !h.refused.contains(p)
        &&& forall|p: nat| #[trigger] h.refused.contains(p) ==> h.offered.contains_key(p)
    }

    /// The closed shards are those that some close closed.
    pub open spec fn closings_recorded(self) -> bool {
        &&& forall|i: usize|
            i < self.shard_count() ==> (#[trigger] self.history.sealed.contains_key(i)
                <==> self.memory.heads[i as int].closed())
        &&& forall|i: usize| #[trigger]
            self.history.sealed.contains_key(i) ==> i < self.shard_count()
                && self.history.sealed[i] < self.begun
    }

    /// Whether operation `o` has closed a shard.
    pub open spec fn has_sealed(self, o: nat) -> bool {
        sealed_by(self.history.sealed, o)
    }

    /// Whether the node holds a value.
    pub open spec fn stored(self, node: usize) -> bool {
        self.memory.nodes.contains_key(node) && self.memory.nodes[node].value is Some
    }

    /// Whether some node holds the value of push `p`.
    pub open spec fn stored_somewhere(self, p: nat) -> bool {
        exists|node: usize| self.stored(node) && #[trigger] self.history.origin[node] == p
    }

    /// All of it.
    #[verifier::opaque]
    pub open spec fn consistent(self) -> bool {
        &&& self.shaped()
        &&& self.operations_in_order()
        &&& self.nodes_unshared()
        &&& self.nothing_lost()
        &&& self.bits_minded()
        &&& self.values_accounted()
        &&& self.closings_recorded()
    }
}

/// Whether operation `o` is among those that closed a shard.
pub open spec fn sealed_by(sealed: Map<usize, nat>, o: nat) -> bool {
    exists|i: usize| #[trigger] sealed.contains_key(i) && sealed[i] == o
}

/// Two operations keep out of each other's nodes.
pub open spec fn unshared<T>(o: nat, a: Operation<T>, p: nat, b: Operation<T>) -> bool {
    &&& o != p && a.owned() is Some ==> a.owned() != b.owned()
    &&& a.seen() is Some ==> a.seen() != b.private()
}

/// What an access needs so as not to do any damage.
pub open spec fn harmless<T>(s: System<T>, operation: Operation<T>, effect: Effect) -> bool {
    match effect {
        Effect::Nothing => true,
        Effect::Link { node, .. } => operation.private() == Some(node),
        Effect::Publish { shard, node, head } => {
            &&& operation.private() == Some(node)
            &&& shard < s.shard_count()
            &&& s.memory.heads[shard as int] == head
            &&& !head.closed()
        },
        Effect::Unlink { shard, node, tag, next } => {
            &&& shard < s.shard_count()
            &&& s.memory.heads[shard as int] == (Head { ptr: Some(node), tag })
            &&& s.memory.nodes[node].next == next
        },
        Effect::Seal { shard, head } => {
            &&& shard < s.shard_count()
            &&& s.memory.heads[shard as int] == head
            &&& !head.closed()
        },
        Effect::SetBit { shard } => shard < s.shard_count(),
        Effect::ClearBit { shard } => shard < s.shard_count(),
        Effect::Take { node } => operation.unlinked() == Some(node),
        Effect::Release { node } => operation.private() == Some(node),
    }
}

/// An operation that is in order does no damage.
pub proof fn lemma_harmless<T>(s: System<T>, o: nat, spurious: bool)
    requires
        s.running.contains_key(o),
        s.in_order(o, s.running[o]),
    ensures
        harmless(s, s.running[o], s.effect(o, spurious)),
{
    assert(s.in_order(o, s.running[o]));
}

/// The lists and bits stay in shape.
proof fn lemma_shape_kept<T>(s: System<T>, o: nat, spurious: bool)
    requires
        s.shaped(),
        s.running.contains_key(o),
        s.in_order(o, s.running[o]),
        harmless(s, s.running[o], s.effect(o, spurious)),
    ensures
        s.after_access(o, spurious).shaped(),
        s.after_access(o, spurious).shard_count() == s.shard_count(),
{
    let effect = s.effect(o, spurious);
    let t = s.after_access(o, spurious);
    assert(s.in_order(o, s.running[o]));
    layout::lemma_valid_shard_counts(s.shard_count());
    match effect {
        Effect::Publish { shard, node, head } => {
            lists::lemma_publish(s.memory, s.lists, shard as int, node, head);
        },
        Effect::Unlink { shard, node, tag, .. } => {
            lists::lemma_unlink(s.memory, s.lists, shard as int, node, tag);
        },
        Effect::SetBit { shard } => {
            bits::lemma_with_bit(s.memory.bitmap, shard as int);
            lists::lemma_frame(s.memory, t.memory, s.lists);
        },
        Effect::ClearBit { shard } => {
            bits::lemma_without_bit(s.memory.bitmap, shard as int);
            lists::lemma_frame(s.memory, t.memory, s.lists);
        },
        Effect::Nothing => {},
        Effect::Seal { .. } => {
            lists::lemma_frame(s.memory, t.memory, s.lists);
        },
        Effect::Link { .. } => {
            lists::lemma_frame(s.memory, t.memory, s.lists);
        },
        Effect::Take { .. } => {
            lists::lemma_frame(s.memory, t.memory, s.lists);
        },
        Effect::Release { .. } => {
            lists::lemma_frame(s.memory, t.memory, s.lists);
        },
    }
}

/// A closed shard stays closed, and nothing is added to it.
pub open spec fn closed_kept<T>(s: System<T>, t: System<T>) -> bool {
    &&& t.memory.heads.len() == s.memory.heads.len()
    &&& t.lists.len() == s.lists.len()
    &&& forall|i: int|
        0 <= i < s.shard_count() && (#[trigger] s.memory.heads[i]).closed() ==> {
            &&& t.memory.heads[i].closed()
            &&& t.lists[i].is_prefix_of(s.lists[i])
        }
}

pub proof fn lemma_closed_kept<T>(s: System<T>, o: nat, spurious: bool)
    requires
        s.shaped(),
        s.running.contains_key(o),
        harmless(s, s.running[o], s.effect(o, spurious)),
    ensures
        closed_kept(s, s.after_access(o, spurious)),
{
}

/// What an operation has found out stays so.
proof fn lemma_knowledge_kept<T>(
    s: System<T>,
    t: System<T>,
    operation: Operation<T>,
)
    requires
        s.shaped(),
        closed_kept(s, t),
        operation.fits(s.shard_count()),
        operation.knows(s.memory, s.lists),
        operation.seen() matches Some(node) ==> t.memory.nodes[node].next
            == s.memory.nodes[node].next,
    ensures
        operation.knows(t.memory, t.lists),
{
    match operation {
        Operation::Pop { step, inner } => {
            if let PopStep::PopOne { visit } = step {
                if let Stage::Drain { offset } = visit.stage {
                    lemma_drained_kept(s, t, visit.start, visit.shard_count, offset);
                    assert(s.memory.heads[visit.shard as int].closed());
                }
            }
            if let Inner::Scan { scan: ClosedScanStep::LoadHead { shard, .. } } = inner {
                lemma_closed_below_kept(s, t, shard as int);
            }
        },
        Operation::Close { step: CloseStep::LoadHead { shard, .. } } => {
            lemma_closed_below_kept(s, t, shard as int);
        },
        Operation::Close { step: CloseStep::Seal { shard, .. } } => {
            lemma_closed_below_kept(s, t, shard as int);
        },
        Operation::IsClosed { step: ClosedScanStep::LoadHead { shard, .. } } => {
            lemma_closed_below_kept(s, t, shard as int);
        },
        _ => {},
    }
}

proof fn lemma_closed_below_kept<T>(s: System<T>, t: System<T>, shard: int)
    requires
        closed_kept(s, t),
        shard <= s.shard_count(),
        closed_below(s.memory, shard),
    ensures
        closed_below(t.memory, shard),
{
    assert forall|i: int| 0 <= i < shard implies (#[trigger] t.memory.heads[i]).closed() by {
        assert(s.memory.heads[i].closed());
    }
}

/// Shards of a closed stack that were empty stay empty.
proof fn lemma_drained_kept<T>(
    s: System<T>,
    t: System<T>,
    start: usize,
    shard_count: usize,
    offset: usize,
)
    requires
        closed_kept(s, t),
        s.lists.len() == s.shard_count(),
        shard_count == s.shard_count(),
        layout::valid_shard_count(shard_count as int),
        start < shard_count,
        offset <= shard_count,
        closed_below(s.memory, s.shard_count()),
        drained_below(start, offset, s.lists),
    ensures
        closed_below(t.memory, t.shard_count()),
        drained_below(start, offset, t.lists),
{
    assert forall|k: usize| k < offset implies t.lists[#[trigger] pop::at_distance(
        start,
        k,
    )].len() == 0 by {
        layout::lemma_distance_below(start, k, shard_count);
        let i = pop::at_distance(start, k);
        assert(s.memory.heads[i].closed());
    }
    lemma_closed_below_kept(s, t, s.shard_count());
}

/// Which operations have closed a shard changes only for the one that does.
pub proof fn lemma_sealed_kept<T>(s: System<T>, o: nat, spurious: bool, x: nat)
    requires
        s.closings_recorded(),
        s.running.contains_key(o),
        harmless(s, s.running[o], s.effect(o, spurious)),
    ensures
        s.after_access(o, spurious).has_sealed(x) == (s.has_sealed(x) || (x == o && s.effect(
            o,
            spurious,
        ) is Seal)),
{
    let t = s.after_access(o, spurious);
    if s.has_sealed(x) {
        let i = choose|i: usize| #[trigger]
            s.history.sealed.contains_key(i) && s.history.sealed[i] == x;
        assert(t.history.sealed.contains_key(i) && t.history.sealed[i] == x);
    }
    if let Effect::Seal { shard, .. } = s.effect(o, spurious) {
        assert(t.history.sealed.contains_key(shard) && t.history.sealed[shard] == o);
    }
    if t.has_sealed(x) {
        let i = choose|i: usize| #[trigger]
            t.history.sealed.contains_key(i) && t.history.sealed[i] == x;
        assert(s.history.sealed.contains_key(i) || s.effect(o, spurious) is Seal);
    }
}

/// The other operations stay in order.
proof fn lemma_others_in_order<T>(s: System<T>, o: nat, spurious: bool, x: nat)
    requires
        s.shaped(),
        s.closings_recorded(),
        s.running.contains_key(o),
        s.in_order(o, s.running[o]),
        harmless(s, s.running[o], s.effect(o, spurious)),
        s.running.contains_key(x),
        s.in_order(x, s.running[x]),
        unshared(o, s.running[o], x, s.running[x]),
        unshared(x, s.running[x], o, s.running[o]),
        x != o,
    ensures
        s.after_access(o, spurious).in_order(x, s.running[x]),
{
    let t = s.after_access(o, spurious);
    let effect = s.effect(o, spurious);
    let other = s.running[x];
    lemma_closed_kept(s, o, spurious);
    lemma_sealed_kept(s, o, spurious, x);
    if let Some(node) = other.seen() {
        assert(t.memory.nodes[node].next == s.memory.nodes[node].next);
        assert(t.readable(x, node));
    }
    lemma_knowledge_kept(s, t, other);
    if let Some(node) = other.owned() {
        match effect {
            Effect::Publish { shard, node: added, .. } => {
                lists::lemma_listed_after_push(s.lists, shard as int, added, node);
            },
            Effect::Unlink { shard, node: top, tag, .. } => {
                lists::lemma_unlink(s.memory, s.lists, shard as int, top, tag);
                lists::lemma_listed_after_pop(s.lists, shard as int, node);
            },
            _ => {},
        }
        assert(t.detached(node));
    }
}

/// The node that the operation owns after an access, given what it owned before.
pub open spec fn owned_after(owned: Option<usize>, effect: Effect) -> Option<usize> {
    match effect {
        Effect::Unlink { node, .. } => Some(node),
        Effect::Publish { .. } => None,
        Effect::Take { .. } => None,
        Effect::Release { .. } => None,
        _ => owned,
    }
}

/// Where operation `o` of state `s` stands after an access is in order in state `t`. It owns
/// `owned`, and a node it has seen was seen before or hung off a head.
pub open spec fn settled<T>(
    s: System<T>,
    t: System<T>,
    o: nat,
    progress: Progress<T>,
    owned: Option<usize>,
) -> bool {
    match progress {
        Progress::Running { operation } => {
            &&& t.in_order(o, operation)
            &&& operation.owned() == owned
            &&& operation.seen() matches Some(node) ==> s.running[o].seen() == Some(node)
                || lists::listed(s.lists, node)
        },
        Progress::Finished { .. } => owned is None,
    }
}

/// A pop that begins its next part is in order.
proof fn lemma_pop_at<T>(s: System<T>, t: System<T>, o: nat, step: PopStep<T>)
    requires
        t.shaped(),
        step.wf(),
        step.spans(t.shard_count()),
        drain_known(step, t.memory, t.lists),
    ensures
        settled(s, t, o, system::pop_at(step), None),
{
}

/// A pop goes on after an attempt, with one more empty shard behind it if the attempt found
/// nothing.
proof fn lemma_attempt_over<T>(
    s: System<T>,
    t: System<T>,
    o: nat,
    visit: Visit,
    outcome: Result<Option<T>, ()>,
)
    requires
        t.shaped(),
        visit.wf(),
        visit.shard_count == t.shard_count(),
        drain_known(PopStep::<T>::PopOne { visit }, t.memory, t.lists),
        outcome == Ok::<Option<T>, ()>(None) && visit.stage is Drain
            ==> t.lists[visit.shard as int].len() == 0,
    ensures
        settled(s, t, o, system::pop_at(PopStep::<T>::after_attempt(visit, outcome)), None),
{
    let next = PopStep::<T>::after_attempt(visit, outcome);
    PopStep::<T>::lemma_after_attempt(visit, outcome);
    if let Stage::Drain { offset } = visit.stage {
        if outcome is Ok && offset + 1 < visit.shard_count {
            assert(outcome->Ok_0 is None ==> drained_below(
                visit.start,
                (offset + 1) as usize,
                t.lists,
            ));
        }
    }
    lemma_pop_at(s, t, o, next);
}

/// What holds after an access of operation `o`, seen from the operation itself.
pub open spec fn settles<T>(s: System<T>, o: nat, spurious: bool) -> bool {
    settled(
        s,
        s.after_access(o, spurious),
        o,
        s.progress(o, spurious),
        owned_after(s.running[o].owned(), s.effect(o, spurious)),
    )
}

/// A push goes on in order.
proof fn lemma_push_settles<T>(s: System<T>, o: nat, spurious: bool)
    requires
        s.shaped(),
        s.closings_recorded(),
        s.running.contains_key(o),
        s.in_order(o, s.running[o]),
        s.running[o] is Push,
        harmless(s, s.running[o], s.effect(o, spurious)),
    ensures
        settles(s, o, spurious),
{
    assert(s.in_order(o, s.running[o]));
    lemma_shape_kept(s, o, spurious);
}

/// A close, or the question whether the stack is closed, goes on in order.
proof fn lemma_close_settles<T>(s: System<T>, o: nat, spurious: bool)
    requires
        s.shaped(),
        s.closings_recorded(),
        s.running.contains_key(o),
        s.in_order(o, s.running[o]),
        s.running[o] is Close || s.running[o] is IsClosed,
        harmless(s, s.running[o], s.effect(o, spurious)),
    ensures
        settles(s, o, spurious),
{
    let t = s.after_access(o, spurious);
    assert(s.in_order(o, s.running[o]));
    lemma_shape_kept(s, o, spurious);
    lemma_closed_kept(s, o, spurious);
    lemma_sealed_kept(s, o, spurious, o);
    lemma_knowledge_kept(s, t, s.running[o]);
}

/// An attempt goes on in order.
proof fn lemma_attempt_settles<T>(
    s: System<T>,
    o: nat,
    spurious: bool,
    visit: Visit,
    one: PopOneStep<usize, T>,
    clearing: ClearBitStep,
)
    requires
        s.shaped(),
        s.closings_recorded(),
        s.running.contains_key(o),
        s.in_order(o, s.running[o]),
        s.running[o] == (Operation::Pop {
            step: PopStep::PopOne { visit },
            inner: Inner::Attempt { one, clearing },
        }),
        harmless(s, s.running[o], s.effect(o, spurious)),
    ensures
        settles(s, o, spurious),
{
    let t = s.after_access(o, spurious);
    let step = PopStep::<T>::PopOne { visit };
    assert(s.in_order(o, s.running[o]));
    lemma_shape_kept(s, o, spurious);
    lemma_closed_kept(s, o, spurious);
    if let Some(node) = s.running[o].seen() {
        assert(t.memory.nodes[node].next == s.memory.nodes[node].next);
    }
    lemma_knowledge_kept(s, t, s.running[o]);
    match one {
        PopOneStep::LoadHead { shard } => {
            let list = s.lists[shard as int];
            assert(lists::chained(s.memory, shard as int, list));
            if list.len() > 0 {
                assert(s.lists[shard as int][list.len() - 1] == list.last());
                assert(lists::listed(s.lists, list.last()));
            }
        },
        PopOneStep::LoadNext { .. } => {},
        PopOneStep::Exchange { shard, node, tag, next } => {
            if s.memory.heads[shard as int] == (Head { ptr: Some(node), tag }) {
                lists::lemma_unlink(s.memory, s.lists, shard as int, node, tag);
            } else {
                lemma_attempt_over(s, t, o, visit, Err(()));
            }
        },
        PopOneStep::ClearBit { shard, popped } => {
            if popped is None {
                lemma_attempt_over(s, t, o, visit, Ok(None));
            }
        },
        PopOneStep::Take { node } => {
            lemma_attempt_over(s, t, o, visit, Ok(Some(s.memory.nodes[node].value->0)));
        },
        PopOneStep::Return { .. } => {},
    }
}

/// A scan within a pop goes on in order.
proof fn lemma_scan_settles<T>(
    s: System<T>,
    o: nat,
    spurious: bool,
    step: PopStep<T>,
    scan: ClosedScanStep,
)
    requires
        s.shaped(),
        s.closings_recorded(),
        s.running.contains_key(o),
        s.in_order(o, s.running[o]),
        s.running[o] == (Operation::Pop { step, inner: Inner::Scan { scan } }),
    ensures
        settles(s, o, spurious),
{
    let t = s.after_access(o, spurious);
    assert(s.in_order(o, s.running[o]));
    lemma_shape_kept(s, o, spurious);
    if let PopStep::AllShardsClosed { start, shard_count } = step {
        if let ClosedScanStep::LoadHead { shard, .. } = scan {
            let closed = s.memory.heads[shard as int].closed();
            PopStep::<T>::lemma_drain(start, shard_count, 0);
            if !closed || shard + 1 == shard_count {
                lemma_pop_at(s, t, o, PopStep::<T>::after_scan(start, shard_count, closed));
            }
        }
    }
}

/// A pop goes on in order.
proof fn lemma_pop_settles<T>(s: System<T>, o: nat, spurious: bool)
    requires
        s.shaped(),
        s.closings_recorded(),
        s.running.contains_key(o),
        s.in_order(o, s.running[o]),
        s.running[o] is Pop,
        harmless(s, s.running[o], s.effect(o, spurious)),
    ensures
        settles(s, o, spurious),
{
    let t = s.after_access(o, spurious);
    assert(s.in_order(o, s.running[o]));
    if let Operation::Pop { step, inner } = s.running[o] {
        match inner {
            Inner::Attempt { one, clearing } => {
                if let PopStep::PopOne { visit } = step {
                    lemma_attempt_settles(s, o, spurious, visit, one, clearing);
                }
            },
            Inner::Scan { scan } => {
                lemma_scan_settles(s, o, spurious, step, scan);
            },
            Inner::Own => {
                if let PopStep::LoadBitmap { start, shard_count } = step {
                    let candidates = bits::without_bit(s.memory.bitmap, start as int);
                    lemma_shape_kept(s, o, spurious);
                    layout::lemma_valid_shard_counts(s.shard_count());
                    bits::lemma_without_bit(s.memory.bitmap, start as int);
                    PopStep::<T>::lemma_steal(start, shard_count, candidates);
                    lemma_pop_at(s, t, o, PopStep::steal(start, shard_count, candidates));
                }
            },
        }
    }
}

/// Whatever the operation, it goes on in order.
pub proof fn lemma_settles<T>(s: System<T>, o: nat, spurious: bool)
    requires
        s.shaped(),
        s.closings_recorded(),
        s.running.contains_key(o),
        s.in_order(o, s.running[o]),
        harmless(s, s.running[o], s.effect(o, spurious)),
    ensures
        settles(s, o, spurious),
{
    match s.running[o] {
        Operation::Push { .. } => lemma_push_settles(s, o, spurious),
        Operation::Pop { .. } => lemma_pop_settles(s, o, spurious),
        _ => lemma_close_settles(s, o, spurious),
    }
}

/// After an access every operation in flight is in order.
proof fn lemma_operations_kept<T>(s: System<T>, o: nat, spurious: bool)
    requires
        s.shaped(),
        s.closings_recorded(),
        s.operations_in_order(),
        s.nodes_unshared(),
        s.running.contains_key(o),
        harmless(s, s.running[o], s.effect(o, spurious)),
        settles(s, o, spurious),
    ensures
        s.after_access(o, spurious).operations_in_order(),
{
    let t = s.after_access(o, spurious);
    assert forall|x: nat| #[trigger] t.running.contains_key(x) implies t.in_order(
        x,
        t.running[x],
    ) by {
        if x != o {
            assert(s.in_order(o, s.running[o]));
            assert(s.in_order(x, s.running[x]));
            assert(unshared(o, s.running[o], x, s.running[x]));
            assert(unshared(x, s.running[x], o, s.running[o]));
            lemma_others_in_order(s, o, spurious, x);
        }
    }
}

/// After an access no node is shared.
proof fn lemma_unshared_kept<T>(s: System<T>, o: nat, spurious: bool)
    requires
        s.shaped(),
        s.operations_in_order(),
        s.nodes_unshared(),
        s.running.contains_key(o),
        harmless(s, s.running[o], s.effect(o, spurious)),
        settles(s, o, spurious),
    ensures
        s.after_access(o, spurious).nodes_unshared(),
{
    let t = s.after_access(o, spurious);
    let effect = s.effect(o, spurious);
    assert(s.in_order(o, s.running[o]));
    if let Effect::Unlink { shard, node, tag, .. } = effect {
        lists::lemma_unlink(s.memory, s.lists, shard as int, node, tag);
        assert(s.lists[shard as int][s.lists[shard as int].len() - 1] == node);
        assert(lists::listed(s.lists, node));
    }
    assert forall|x: nat, y: nat|
        #![trigger t.running[x], t.running[y]]
        t.running.contains_key(x) && t.running.contains_key(y) implies unshared(
        x,
        t.running[x],
        y,
        t.running[y],
    ) by {
        assert(s.running.contains_key(x) && s.running.contains_key(y));
        assert(unshared(x, s.running[x], y, s.running[y]));
        assert(s.in_order(x, s.running[x]));
        assert(s.in_order(y, s.running[y]));
        assert(s.in_order(o, s.running[o]));
        if x == o && y == o {
        } else if x == o {
            assert(t.running[y] == s.running[y]);
        } else if y == o {
            assert(t.running[x] == s.running[x]);
        } else {
            assert(t.running[y] == s.running[y]);
            assert(t.running[x] == s.running[x]);
        }
    }
}

/// After an access no value is lost.
proof fn lemma_nothing_lost<T>(s: System<T>, o: nat, spurious: bool)
    requires
        s.shaped(),
        s.nothing_lost(),
        s.running.contains_key(o),
        s.in_order(o, s.running[o]),
        harmless(s, s.running[o], s.effect(o, spurious)),
        settles(s, o, spurious),
    ensures
        s.after_access(o, spurious).nothing_lost(),
{
    let t = s.after_access(o, spurious);
    let effect = s.effect(o, spurious);
    assert(s.in_order(o, s.running[o]));
    assert forall|node: usize|
        #![trigger t.memory.nodes[node]]
        t.memory.nodes.contains_key(node) && t.memory.nodes[node].value is Some implies
        lists::listed(t.lists, node) || t.owned_by_some(node) by {
        assert(s.memory.nodes.contains_key(node) && s.memory.nodes[node].value is Some);
        if lists::listed(s.lists, node) {
            match effect {
                Effect::Publish { shard, node: added, .. } => {
                    lists::lemma_listed_after_push(s.lists, shard as int, added, node);
                },
                Effect::Unlink { shard, node: top, tag, .. } => {
                    lists::lemma_unlink(s.memory, s.lists, shard as int, top, tag);
                    lists::lemma_listed_after_pop(s.lists, shard as int, node);
                    if node == top {
                        assert(t.running.contains_key(o) && t.running[o].owned() == Some(node));
                    }
                },
                _ => {},
            }
        } else {
            let x = choose|x: nat| #[trigger]
                s.running.contains_key(x) && s.running[x].owned() == Some(node);
            if x != o {
                assert(t.running.contains_key(x) && t.running[x].owned() == Some(node));
            } else if let Effect::Publish { shard, node: added, .. } = effect {
                lists::lemma_listed_after_push(s.lists, shard as int, added, node);
            } else {
                assert(t.running.contains_key(o) && t.running[o].owned() == Some(node));
            }
        }
    }
}

/// After an access every missing bit is minded.
proof fn lemma_bits_minded<T>(s: System<T>, o: nat, spurious: bool)
    requires
        s.shaped(),
        s.bits_minded(),
        s.running.contains_key(o),
        s.in_order(o, s.running[o]),
        harmless(s, s.running[o], s.effect(o, spurious)),
    ensures
        s.after_access(o, spurious).bits_minded(),
{
    let t = s.after_access(o, spurious);
    let effect = s.effect(o, spurious);
    assert(s.in_order(o, s.running[o]));
    layout::lemma_valid_shard_counts(s.shard_count());
    match effect {
        Effect::SetBit { shard } => {
            bits::lemma_with_bit(s.memory.bitmap, shard as int);
        },
        Effect::ClearBit { shard } => {
            bits::lemma_without_bit(s.memory.bitmap, shard as int);
        },
        _ => {},
    }
    assert forall|i: int|
        0 <= i < t.shard_count() && (#[trigger] t.lists[i]).len() > 0 && !bits::has_bit(
            t.memory.bitmap,
            i,
        ) implies t.bit_minded(i) by {
        assert(lists::chained(s.memory, i, s.lists[i]));
        if s.lists[i].len() == 0 || bits::has_bit(s.memory.bitmap, i) {
            assert(t.running.contains_key(o) && t.running[o].minds_bit(i));
        } else {
            let x = choose|x: nat| #[trigger]
                s.running.contains_key(x) && s.running[x].minds_bit(i);
            assert(t.running.contains_key(x) && t.running[x].minds_bit(i));
        }
    }
}

/// After an access every value is accounted for.
proof fn lemma_values_accounted<T>(s: System<T>, o: nat, spurious: bool)
    requires
        s.shaped(),
        s.values_accounted(),
        s.running.contains_key(o),
        s.in_order(o, s.running[o]),
        harmless(s, s.running[o], s.effect(o, spurious)),
    ensures
        s.after_access(o, spurious).values_accounted(),
{
    let t = s.after_access(o, spurious);
    let effect = s.effect(o, spurious);
    assert(s.in_order(o, s.running[o]));
    assert forall|node: usize| #[trigger] t.stored(node) implies s.stored(node)
        && t.memory.nodes[node].value == s.memory.nodes[node].value by {}
    assert forall|p: nat| #[trigger] t.history.offered.contains_key(p) implies {
        ||| t.history.popped.contains_key(p)
        ||| t.history.refused.contains(p)
        ||| t.stored_somewhere(p)
    } by {
        if s.stored_somewhere(p) {
            let node = choose|node: usize|
                s.stored(node) && #[trigger] s.history.origin[node] == p;
            if t.stored(node) {
                assert(t.history.origin[node] == p);
            }
        }
    }
}

/// An access keeps everything in order.
pub proof fn lemma_access_consistent<T>(s: System<T>, o: nat, spurious: bool)
    requires
        s.consistent(),
        s.running.contains_key(o),
    ensures
        s.after_access(o, spurious).consistent(),
{
    reveal(System::consistent);
    assert(s.in_order(o, s.running[o]));
    lemma_harmless(s, o, spurious);
    lemma_shape_kept(s, o, spurious);
    lemma_settles(s, o, spurious);
    lemma_operations_kept(s, o, spurious);
    lemma_unshared_kept(s, o, spurious);
    lemma_nothing_lost(s, o, spurious);
    lemma_bits_minded(s, o, spurious);
    lemma_values_accounted(s, o, spurious);
    lemma_closings_recorded(s, o, spurious);
}

/// A new stack is in order.
pub proof fn lemma_initial_consistent<T>(shard_count: nat)
    requires
        layout::valid_shard_count(shard_count as int),
    ensures
        System::<T>::initial(shard_count).consistent(),
{
    reveal(System::consistent);
    bits::lemma_zero_has_no_bit();
    reveal(lists::separate);
}

/// An operation that was not begun has closed nothing.
proof fn lemma_new_has_not_sealed<T>(s: System<T>)
    requires
        s.consistent(),
    ensures
        !s.has_sealed(s.begun),
{
    reveal(System::consistent);
    assert forall|i: usize| #[trigger] s.history.sealed.contains_key(i) implies s.history.sealed[i]
        != s.begun by {}
}

/// After an access the closings are recorded.
proof fn lemma_closings_recorded<T>(s: System<T>, o: nat, spurious: bool)
    requires
        s.shaped(),
        s.closings_recorded(),
        s.running.contains_key(o),
        harmless(s, s.running[o], s.effect(o, spurious)),
    ensures
        s.after_access(o, spurious).closings_recorded(),
{
    assert(o < s.begun);
}

/// Beginning an operation that owns nothing and has seen nothing keeps everything in order.
proof fn lemma_begin_consistent<T>(s: System<T>, operation: Operation<T>)
    requires
        s.consistent(),
        s.with_operation(operation).in_order(s.begun, operation),
        operation.owned() is None,
        operation.seen() is None,
    ensures
        s.with_operation(operation).consistent(),
{
    reveal(System::consistent);
    let t = s.with_operation(operation);
    assert forall|x: nat| #[trigger] t.running.contains_key(x) implies t.in_order(
        x,
        t.running[x],
    ) by {
        if x != s.begun {
            assert(s.in_order(x, s.running[x]));
        }
    }
    assert forall|x: nat, y: nat|
        #![trigger t.running[x], t.running[y]]
        t.running.contains_key(x) && t.running.contains_key(y) implies unshared(
        x,
        t.running[x],
        y,
        t.running[y],
    ) by {
        if x != s.begun && y != s.begun {
            assert(unshared(x, s.running[x], y, s.running[y]));
        }
    }
    lemma_running_kept(s, t);
    assert forall|p: nat| #[trigger] t.history.offered.contains_key(p) implies {
        ||| t.history.popped.contains_key(p)
        ||| t.history.refused.contains(p)
        ||| t.stored_somewhere(p)
    } by {
        if s.stored_somewhere(p) {
            let node = choose|node: usize|
                s.stored(node) && #[trigger] s.history.origin[node] == p;
            assert(t.stored(node) && t.history.origin[node] == p);
        }
    }
}

/// As long as the operations in flight go on, what they look after is looked after.
proof fn lemma_running_kept<T>(s: System<T>, t: System<T>)
    requires
        forall|x: nat| #[trigger]
            s.running.contains_key(x) ==> t.running.contains_key(x) && t.running[x]
                == s.running[x],
    ensures
        forall|node: usize| #[trigger] s.owned_by_some(node) ==> t.owned_by_some(node),
        forall|i: int| #[trigger] s.bit_minded(i) ==> t.bit_minded(i),
{
    assert forall|node: usize| #[trigger] s.owned_by_some(node) implies t.owned_by_some(node) by {
        let x = choose|x: nat| #[trigger]
            s.running.contains_key(x) && s.running[x].owned() == Some(node);
        assert(t.running.contains_key(x) && t.running[x].owned() == Some(node));
    }
    assert forall|i: int| #[trigger] s.bit_minded(i) implies t.bit_minded(i) by {
        let x = choose|x: nat| #[trigger]
            s.running.contains_key(x) && s.running[x].minds_bit(i);
        assert(t.running.contains_key(x) && t.running[x].minds_bit(i));
    }
}

/// Beginning a push keeps everything in order.
proof fn lemma_begin_push_consistent<T>(s: System<T>, start: usize, node: usize, value: T)
    requires
        s.consistent(),
        s.enabled(Event::BeginPush { start, node, value }),
    ensures
        s.after(Event::BeginPush { start, node, value }).consistent(),
{
    reveal(System::consistent);
    let t = s.after(Event::BeginPush { start, node, value });
    assert forall|id: usize| #[trigger] lists::listed(s.lists, id) implies s.stored(id) by {
        lists::lemma_listed_has_value(s.memory, s.lists, id);
    }
    lists::lemma_frame(s.memory, t.memory, s.lists);
    assert forall|x: nat| #[trigger] t.running.contains_key(x) implies t.in_order(
        x,
        t.running[x],
    ) by {
        if x != s.begun {
            assert(s.in_order(x, s.running[x]));
        }
    }
    assert forall|x: nat, y: nat|
        #![trigger t.running[x], t.running[y]]
        t.running.contains_key(x) && t.running.contains_key(y) implies unshared(
        x,
        t.running[x],
        y,
        t.running[y],
    ) by {
        if x != s.begun {
            assert(s.in_order(x, s.running[x]));
        }
        if y != s.begun {
            assert(s.in_order(y, s.running[y]));
        }
        if x != s.begun && y != s.begun {
            assert(unshared(x, s.running[x], y, s.running[y]));
        }
    }
    lemma_running_kept(s, t);
    assert(t.running.contains_key(s.begun) && t.running[s.begun].owned() == Some(node));
    assert forall|n: usize|
        #![trigger t.memory.nodes[n]]
        t.memory.nodes.contains_key(n) && t.memory.nodes[n].value is Some implies lists::listed(
        t.lists,
        n,
    ) || t.owned_by_some(n) by {
        if n != node {
            assert(t.memory.nodes[n] == s.memory.nodes[n]);
        }
    }
    assert forall|p: nat| #[trigger] t.history.offered.contains_key(p) implies {
        ||| t.history.popped.contains_key(p)
        ||| t.history.refused.contains(p)
        ||| t.stored_somewhere(p)
    } by {
        if p == s.begun {
            assert(t.stored(node) && t.history.origin[node] == p);
        } else if s.stored_somewhere(p) {
            let n = choose|n: usize| s.stored(n) && #[trigger] s.history.origin[n] == p;
            assert(t.stored(n) && t.history.origin[n] == p);
        }
    }
    assert forall|n: usize|
        #![trigger t.memory.nodes[n]]
        t.stored(n) implies {
        &&& t.history.origin.contains_key(n)
        &&& t.history.offered.contains_key(t.history.origin[n])
        &&& t.memory.nodes[n].value == Some(t.history.offered[t.history.origin[n]])
        &&& !t.history.popped.contains_key(t.history.origin[n])
        &&& !t.history.refused.contains(t.history.origin[n])
    } by {
        if n != node {
            assert(t.memory.nodes[n] == s.memory.nodes[n]);
            assert(s.history.offered.contains_key(s.history.origin[n]));
        } else {
            assert(!s.history.offered.contains_key(s.begun));
        }
    }
    assert forall|m: usize, n: usize|
        #![trigger t.history.origin[m], t.history.origin[n]]
        t.stored(m) && t.stored(n) && t.history.origin[m] == t.history.origin[n] implies m == n by {
        if m != node {
            assert(t.memory.nodes[m] == s.memory.nodes[m]);
            assert(s.history.offered.contains_key(s.history.origin[m]));
        }
        if n != node {
            assert(t.memory.nodes[n] == s.memory.nodes[n]);
            assert(s.history.offered.contains_key(s.history.origin[n]));
        }
    }
}

/// Releasing a node that was given up keeps everything in order.
proof fn lemma_collect_consistent<T>(s: System<T>, node: usize)
    requires
        s.consistent(),
        s.enabled(Event::Collect { node }),
    ensures
        s.after(Event::Collect { node }).consistent(),
{
    reveal(System::consistent);
    let t = s.after(Event::Collect { node });
    assert forall|id: usize| #[trigger] lists::listed(s.lists, id) implies s.stored(id) by {
        lists::lemma_listed_has_value(s.memory, s.lists, id);
    }
    lists::lemma_frame(s.memory, t.memory, s.lists);
    assert forall|x: nat| #[trigger] t.running.contains_key(x) implies t.in_order(
        x,
        t.running[x],
    ) by {
        assert(s.in_order(x, s.running[x]));
        assert(s.guards[node].contains(x) ==> !s.running.contains_key(x));
    }
    lemma_running_kept(s, t);
    assert forall|x: nat, y: nat|
        #![trigger t.running[x], t.running[y]]
        t.running.contains_key(x) && t.running.contains_key(y) implies unshared(
        x,
        t.running[x],
        y,
        t.running[y],
    ) by {
        assert(unshared(x, s.running[x], y, s.running[y]));
    }
    assert forall|n: usize|
        #![trigger t.memory.nodes[n]]
        t.stored(n) implies s.stored(n) && t.memory.nodes[n] == s.memory.nodes[n] by {}
    assert forall|p: nat| #[trigger] t.history.offered.contains_key(p) implies {
        ||| t.history.popped.contains_key(p)
        ||| t.history.refused.contains(p)
        ||| t.stored_somewhere(p)
    } by {
        if s.stored_somewhere(p) {
            let n = choose|n: usize| s.stored(n) && #[trigger] s.history.origin[n] == p;
            assert(t.stored(n) && t.history.origin[n] == p);
        }
    }
}

/// Whatever happens, everything stays in order.
pub proof fn lemma_event_consistent<T>(s: System<T>, event: Event<T>)
    requires
        s.consistent(),
        s.enabled(event),
    ensures
        s.after(event).consistent(),
{
    reveal(System::consistent);
    layout::lemma_valid_shard_counts(s.shard_count());
    lemma_new_has_not_sealed(s);
    match event {
        Event::BeginPush { start, node, value } => {
            lemma_begin_push_consistent(s, start, node, value);
        },
        Event::BeginPop { start } => {
            let step = PopStep::<T>::first(start, s.shard_count() as usize);
            lemma_begin_consistent(s, system::pop_at(step)->operation);
        },
        Event::BeginClose => {
            lemma_begin_consistent(
                s,
                Operation::Close {
                    step: CloseStep::LoadHead {
                        shard_count: s.shard_count() as usize,
                        shard: 0,
                        changed: false,
                    },
                },
            );
        },
        Event::BeginIsClosed => {
            lemma_begin_consistent(
                s,
                Operation::IsClosed {
                    step: ClosedScanStep::LoadHead {
                        shard_count: s.shard_count() as usize,
                        shard: 0,
                    },
                },
            );
        },
        Event::Access { operation, spurious } => {
            lemma_access_consistent(s, operation, spurious);
        },
        Event::Collect { node } => {
            lemma_collect_consistent(s, node);
        },
    }
}

/// The lists and bits of a consistent stack are in shape.
pub proof fn lemma_shaped<T>(s: System<T>)
    requires
        s.consistent(),
    ensures
        s.shaped(),
{
    reveal(System::consistent);
}

/// The operations in flight on a consistent stack are in order.
pub proof fn lemma_in_order<T>(s: System<T>, o: nat)
    requires
        s.consistent(),
        s.running.contains_key(o),
    ensures
        s.shaped(),
        s.closings_recorded(),
        s.in_order(o, s.running[o]),
{
    reveal(System::consistent);
}

/// What an access of an operation in flight on a consistent stack does.
pub proof fn lemma_access<T>(s: System<T>, o: nat, spurious: bool)
    requires
        s.consistent(),
        s.running.contains_key(o),
    ensures
        s.shaped(),
        s.in_order(o, s.running[o]),
        harmless(s, s.running[o], s.effect(o, spurious)),
        settles(s, o, spurious),
        closed_kept(s, s.after_access(o, spurious)),
{
    lemma_in_order(s, o);
    lemma_harmless(s, o, spurious);
    lemma_settles(s, o, spurious);
    lemma_closed_kept(s, o, spurious);
}

/// A node that holds a value holds what some push offered, and that push is not done with.
pub proof fn lemma_stored<T>(s: System<T>, node: usize)
    requires
        s.consistent(),
        s.stored(node),
    ensures
        ({
            let h = s.history;
            let push = h.origin[node];
            &&& h.origin.contains_key(node)
            &&& h.offered.contains_key(push)
            &&& s.memory.nodes[node].value == Some(h.offered[push])
            &&& !h.popped.contains_key(push)
            &&& !h.refused.contains(push)
            &&& lists::listed(s.lists, node) || s.owned_by_some(node)
        }),
{
    reveal(System::consistent);
}

/// Two operations in flight on a consistent stack keep out of each other's nodes.
pub proof fn lemma_unshared<T>(s: System<T>, o: nat, p: nat)
    requires
        s.consistent(),
        s.running.contains_key(o),
        s.running.contains_key(p),
    ensures
        unshared(o, s.running[o], p, s.running[p]),
{
    reveal(System::consistent);
}

/// The closings of a consistent stack are recorded.
pub proof fn lemma_closings<T>(s: System<T>)
    requires
        s.consistent(),
    ensures
        s.closings_recorded(),
{
    reveal(System::consistent);
}

/// The value of a push is accounted for.
pub proof fn lemma_accounted<T>(s: System<T>, push: nat)
    requires
        s.consistent(),
        s.history.offered.contains_key(push),
    ensures
        push < s.begun,
        s.history.popped.contains_key(push) || s.history.refused.contains(push)
            || s.stored_somewhere(push),
        !(s.history.popped.contains_key(push) && s.history.refused.contains(push)),
{
    reveal(System::consistent);
}

/// What is recorded as popped or refused was offered, and not both.
pub proof fn lemma_records<T>(s: System<T>)
    requires
        s.consistent(),
    ensures
        forall|p: nat| #[trigger]
            s.history.popped.contains_key(p) ==> s.history.offered.contains_key(p)
                && !s.history.refused.contains(p) && p < s.begun,
        forall|p: nat| #[trigger]
            s.history.refused.contains(p) ==> s.history.offered.contains_key(p),
{
    reveal(System::consistent);
}

/// No two nodes hold the value of one push.
pub proof fn lemma_origin_unique<T>(s: System<T>, m: usize, n: usize)
    requires
        s.consistent(),
        s.stored(m),
        s.stored(n),
        s.history.origin[m] == s.history.origin[n],
    ensures
        m == n,
{
    reveal(System::consistent);
}

/// The bit of a shard that holds a node is set, or some operation minds it.
pub proof fn lemma_bit<T>(s: System<T>, shard: int)
    requires
        s.consistent(),
        0 <= shard < s.shard_count(),
        s.lists[shard].len() > 0,
    ensures
        bits::has_bit(s.memory.bitmap, shard) || s.bit_minded(shard),
{
    reveal(System::consistent);
}

/// Every state of every execution is in order.
pub proof fn lemma_execution_consistent<T>(
    shard_count: nat,
    states: Seq<System<T>>,
    events: Seq<Event<T>>,
    k: int,
)
    requires
        system::is_execution(shard_count, states, events),
        0 <= k < states.len(),
    ensures
        states[k].consistent(),
    decreases k,
{
    if k == 0 {
        lemma_initial_consistent::<T>(shard_count);
    } else {
        lemma_execution_consistent(shard_count, states, events, k - 1);
        let event = events[k - 1];
        lemma_event_consistent(states[k - 1], event);
    }
}

} // verus!
