//! Which nodes hang off which head.

use crate::head::Head;
use crate::memory::MemoryView;
use vstd::prelude::*;

verus! {

/// The top node of a list that is written from the bottom up.
pub open spec fn top(list: Seq<usize>) -> Option<usize> {
    if list.len() == 0 {
        None
    } else {
        Some(list.last())
    }
}

/// The node under place `k` of a list.
pub open spec fn under(list: Seq<usize>, k: int) -> Option<usize> {
    if k == 0 {
        None
    } else {
        Some(list[k - 1])
    }
}

/// Following the links from the shard's head gives `list`, top node last, and every node on the
/// way holds its value.
pub open spec fn chained<T>(memory: MemoryView<T>, shard: int, list: Seq<usize>) -> bool {
    &&& memory.heads[shard].ptr == top(list)
    &&& forall|k: int|
        0 <= k < list.len() ==> {
            &&& memory.nodes.contains_key(#[trigger] list[k])
            &&& memory.nodes[list[k]].value is Some
            &&& memory.nodes[list[k]].next == under(list, k)
        }
}

/// No node hangs off two heads, nor twice off one.
#[verifier::opaque]
pub open spec fn separate(lists: Seq<Seq<usize>>) -> bool {
    forall|i: int, k: int, j: int, l: int|
        #![trigger lists[i][k], lists[j][l]]
        0 <= i < lists.len() && 0 <= k < lists[i].len() && 0 <= j < lists.len() && 0 <= l
            < lists[j].len() && lists[i][k] == lists[j][l] ==> i == j && k == l
}

/// `lists` are the lists of nodes that hang off the heads.
pub open spec fn well_linked<T>(memory: MemoryView<T>, lists: Seq<Seq<usize>>) -> bool {
    &&& lists.len() == memory.heads.len()
    &&& forall|i: int| 0 <= i < lists.len() ==> chained(memory, i, #[trigger] lists[i])
    &&& separate(lists)
}

/// Whether `node` hangs off some head.
pub open spec fn listed(lists: Seq<Seq<usize>>, node: usize) -> bool {
    exists|i: int, k: int|
        0 <= i < lists.len() && 0 <= k < lists[i].len() && #[trigger] lists[i][k] == node
}

/// The values along a list.
pub open spec fn items<T>(memory: MemoryView<T>, list: Seq<usize>) -> Seq<T> {
    Seq::new(list.len(), |k: int| memory.nodes[list[k]].value->0)
}

/// Lists stay as they are while no head moves and no listed node changes.
pub proof fn lemma_frame<T>(before: MemoryView<T>, after: MemoryView<T>, lists: Seq<Seq<usize>>)
    requires
        well_linked(before, lists),
        after.heads.len() == before.heads.len(),
        forall|i: int|
            0 <= i < lists.len() ==> (#[trigger] after.heads[i]).ptr == before.heads[i].ptr,
        forall|id: usize| #[trigger]
            listed(lists, id) ==> after.nodes.contains_key(id) && after.nodes[id]
                == before.nodes[id],
    ensures
        well_linked(after, lists),
        forall|i: int|
            0 <= i < lists.len() ==> items(after, #[trigger] lists[i]) == items(before, lists[i]),
{
    assert forall|i: int| 0 <= i < lists.len() implies chained(after, i, #[trigger] lists[i]) by {
        let list = lists[i];
        assert(after.heads[i].ptr == before.heads[i].ptr);
        assert forall|k: int| 0 <= k < list.len() implies {
            &&& after.nodes.contains_key(#[trigger] list[k])
            &&& after.nodes[list[k]].value is Some
            &&& after.nodes[list[k]].next == under(list, k)
        } by {
            assert(lists[i][k] == list[k]);
            assert(listed(lists, list[k]));
        }
    }
    assert forall|i: int| 0 <= i < lists.len() implies items(after, #[trigger] lists[i]) == items(
        before,
        lists[i],
    ) by {
        let list = lists[i];
        assert forall|k: int| 0 <= k < list.len() implies after.nodes[#[trigger] list[k]]
            == before.nodes[list[k]] by {
            assert(lists[i][k] == list[k]);
            assert(listed(lists, list[k]));
        }
        assert(items(after, list) =~= items(before, list));
    }
}

/// Pushing onto a list adds one node to those that hang off a head.
pub proof fn lemma_listed_after_push(lists: Seq<Seq<usize>>, shard: int, node: usize, id: usize)
    requires
        0 <= shard < lists.len(),
    ensures
        listed(lists.update(shard, lists[shard].push(node)), id) <==> listed(lists, id) || id
            == node,
{
    let grown = lists.update(shard, lists[shard].push(node));
    if listed(lists, id) {
        let (i, k) = choose|i: int, k: int|
            0 <= i < lists.len() && 0 <= k < lists[i].len() && #[trigger] lists[i][k] == id;
        assert(grown[i][k] == id);
    }
    if id == node {
        assert(grown[shard][lists[shard].len() as int] == id);
    }
    if listed(grown, id) {
        let (i, k) = choose|i: int, k: int|
            0 <= i < grown.len() && 0 <= k < grown[i].len() && #[trigger] grown[i][k] == id;
        if i == shard && k == lists[shard].len() {
        } else {
            assert(lists[i][k] == id);
        }
    }
}

/// Dropping the top of a list takes at most one node off those that hang off a head.
pub proof fn lemma_listed_after_pop(lists: Seq<Seq<usize>>, shard: int, id: usize)
    requires
        0 <= shard < lists.len(),
        lists[shard].len() > 0,
    ensures
        listed(lists.update(shard, lists[shard].drop_last()), id) ==> listed(lists, id),
        listed(lists, id) && id != lists[shard].last() ==> listed(
            lists.update(shard, lists[shard].drop_last()),
            id,
        ),
{
    let shrunk = lists.update(shard, lists[shard].drop_last());
    if listed(shrunk, id) {
        let (i, k) = choose|i: int, k: int|
            0 <= i < shrunk.len() && 0 <= k < shrunk[i].len() && #[trigger] shrunk[i][k] == id;
        assert(lists[i][k] == id);
    }
    if listed(lists, id) && id != lists[shard].last() {
        let (i, k) = choose|i: int, k: int|
            0 <= i < lists.len() && 0 <= k < lists[i].len() && #[trigger] lists[i][k] == id;
        assert(shrunk[i][k] == id);
    }
}

/// A node that hangs off a head holds a value.
pub proof fn lemma_listed_has_value<T>(
    memory: MemoryView<T>,
    lists: Seq<Seq<usize>>,
    node: usize,
)
    requires
        well_linked(memory, lists),
        listed(lists, node),
    ensures
        memory.nodes.contains_key(node),
        memory.nodes[node].value is Some,
{
    let (i, k) = choose|i: int, k: int|
        0 <= i < lists.len() && 0 <= k < lists[i].len() && #[trigger] lists[i][k] == node;
    assert(chained(memory, i, lists[i]));
}

/// Taking a node that hangs off no head, and releasing all taken nodes, touches no list.
pub proof fn lemma_take_and_collect<T>(
    memory: MemoryView<T>,
    lists: Seq<Seq<usize>>,
    node: usize,
)
    requires
        well_linked(memory, lists),
        !listed(lists, node),
    ensures
        well_linked(memory.taken(node).collected(), lists),
        forall|i: int|
            0 <= i < lists.len() ==> items(memory.taken(node).collected(), #[trigger] lists[i])
                == items(memory, lists[i]),
        forall|id: usize| #[trigger]
            memory.taken(node).collected().nodes.contains_key(id) ==> id != node
                && memory.nodes.contains_key(id),
{
    let after = memory.taken(node).collected();
    assert forall|id: usize| #[trigger] listed(lists, id) implies after.nodes.contains_key(id)
        && after.nodes[id] == memory.nodes[id] by {
        lemma_listed_has_value(memory, lists, id);
    }
    lemma_frame(memory, after, lists);
}

/// A node that hangs off no head goes on top of a shard.
pub proof fn lemma_publish<T>(
    memory: MemoryView<T>,
    lists: Seq<Seq<usize>>,
    shard: int,
    node: usize,
    head: Head<usize>,
)
    requires
        well_linked(memory, lists),
        0 <= shard < lists.len(),
        memory.heads[shard] == head,
        memory.nodes.contains_key(node),
        memory.nodes[node].value is Some,
        !listed(lists, node),
    ensures
        well_linked(
            memory.published(shard, node, head),
            lists.update(shard, lists[shard].push(node)),
        ),
        items(memory.published(shard, node, head), lists[shard].push(node)) == items(
            memory,
            lists[shard],
        ).push(memory.nodes[node].value->0),
        forall|i: int|
            0 <= i < lists.len() ==> items(
                memory.published(shard, node, head),
                #[trigger] lists[i],
            ) == items(memory, lists[i]),
{
    reveal(separate);
    let after = memory.published(shard, node, head);
    let grown = lists.update(shard, lists[shard].push(node));
    let kept = memory.linked(node, head.ptr);
    lemma_frame(memory, kept, lists);
    assert forall|i: int| 0 <= i < grown.len() implies chained(after, i, #[trigger] grown[i]) by {
        assert(chained(kept, i, lists[i]));
        let list = grown[i];
        assert forall|k: int| 0 <= k < list.len() implies {
            &&& after.nodes.contains_key(#[trigger] list[k])
            &&& after.nodes[list[k]].value is Some
            &&& after.nodes[list[k]].next == under(list, k)
        } by {
            if i == shard && k == lists[i].len() {
                assert(memory.heads[shard].ptr == top(lists[shard]));
            } else {
                assert(list[k] == lists[i][k]);
            }
        }
    }
    assert forall|i: int, k: int, j: int, l: int|
        #![trigger grown[i][k], grown[j][l]]
        0 <= i < grown.len() && 0 <= k < grown[i].len() && 0 <= j < grown.len() && 0 <= l
            < grown[j].len() && grown[i][k] == grown[j][l] implies i == j && k == l by {
        let ki = i == shard && k == lists[i].len();
        let lj = j == shard && l == lists[j].len();
        if !ki {
            assert(grown[i][k] == lists[i][k]);
        }
        if !lj {
            assert(grown[j][l] == lists[j][l]);
        }
    }
    assert forall|i: int| 0 <= i < lists.len() implies items(after, #[trigger] lists[i]) == items(
        memory,
        lists[i],
    ) by {
        assert(items(after, lists[i]) =~= items(kept, lists[i]));
    }
    assert(items(after, lists[shard].push(node)) =~= items(memory, lists[shard]).push(
        memory.nodes[node].value->0,
    )) by {
        assert(items(after, lists[shard]) == items(memory, lists[shard]));
        assert forall|k: int| 0 <= k < lists[shard].len() implies items(
            after,
            lists[shard].push(node),
        )[k] == items(memory, lists[shard])[k] by {
            assert(items(after, lists[shard])[k] == items(memory, lists[shard])[k]);
        }
    }
}

/// The top node of a shard is unlinked.
pub proof fn lemma_unlink<T>(
    memory: MemoryView<T>,
    lists: Seq<Seq<usize>>,
    shard: int,
    node: usize,
    tag: usize,
)
    requires
        well_linked(memory, lists),
        0 <= shard < lists.len(),
        memory.heads[shard] == (Head { ptr: Some(node), tag }),
    ensures
        lists[shard].len() > 0,
        lists[shard].last() == node,
        memory.nodes.contains_key(node),
        memory.nodes[node].value is Some,
        ({
            let after = memory.exchanged(
                shard,
                Head { ptr: Some(node), tag },
                Head { ptr: memory.nodes[node].next, tag },
            );
            let shrunk = lists.update(shard, lists[shard].drop_last());
            &&& well_linked(after, shrunk)
            &&& !listed(shrunk, node)
            &&& items(memory, lists[shard]).last() == memory.nodes[node].value->0
            &&& items(after, shrunk[shard]) == items(memory, lists[shard]).drop_last()
            &&& forall|i: int|
                0 <= i < lists.len() ==> items(after, #[trigger] lists[i]) == items(
                    memory,
                    lists[i],
                )
        }),
        memory.nodes[node].next is None <==> lists[shard].len() == 1,
{
    reveal(separate);
    let list = lists[shard];
    assert(chained(memory, shard, list));
    let last = list.len() - 1;
    assert(list[last] == node);
    let after = memory.exchanged(
        shard,
        Head { ptr: Some(node), tag },
        Head { ptr: memory.nodes[node].next, tag },
    );
    let shrunk = lists.update(shard, list.drop_last());
    assert forall|i: int| 0 <= i < shrunk.len() implies chained(after, i, #[trigger] shrunk[i]) by {
        assert(chained(memory, i, lists[i]));
        assert forall|k: int| 0 <= k < shrunk[i].len() implies {
            &&& after.nodes.contains_key(#[trigger] shrunk[i][k])
            &&& after.nodes[shrunk[i][k]].value is Some
            &&& after.nodes[shrunk[i][k]].next == under(shrunk[i], k)
        } by {
            assert(shrunk[i][k] == lists[i][k]);
        }
    }
    assert forall|i: int, k: int, j: int, l: int|
        #![trigger shrunk[i][k], shrunk[j][l]]
        0 <= i < shrunk.len() && 0 <= k < shrunk[i].len() && 0 <= j < shrunk.len() && 0 <= l
            < shrunk[j].len() && shrunk[i][k] == shrunk[j][l] implies i == j && k == l by {
        assert(shrunk[i][k] == lists[i][k]);
        assert(shrunk[j][l] == lists[j][l]);
    }
    if listed(shrunk, node) {
        let (i, k) = choose|i: int, k: int|
            0 <= i < shrunk.len() && 0 <= k < shrunk[i].len() && #[trigger] shrunk[i][k] == node;
        assert(shrunk[i][k] == lists[i][k]);
        assert(lists[shard][last] == node);
    }
    assert(items(after, shrunk[shard]) =~= items(memory, list).drop_last());
    assert forall|i: int| 0 <= i < lists.len() implies items(after, #[trigger] lists[i]) == items(
        memory,
        lists[i],
    ) by {
        assert(items(after, lists[i]) =~= items(memory, lists[i]));
    }
}

} // verus!
