//! Chains: the order in which linked nodes follow one another, the walks
//! that recover that order from the links alone, and what linking a node in
//! or out at either end does to it.

use crate::model::popped_back;
use crate::model::popped_front;
use crate::model::pushed_back;
use crate::model::pushed_front;
use crate::node::Link;
use crate::node::Node;
use vstd::prelude::*;

verus! {

/// The link to position `k` of `chain`, or none where `k` lies outside it.
pub open spec fn link_at(chain: Seq<usize>, k: int) -> Link {
    if 0 <= k < chain.len() {
        Some(chain[k])
    } else {
        None
    }
}

/// The node at position `k` of `chain` exists, its `prev` leads to the node
/// one position before it and its `next` to the node one position after it.
pub open spec fn linked_at<T>(nodes: Map<usize, Node<T>>, chain: Seq<usize>, k: int) -> bool {
    &&& nodes.dom().contains(chain[k])
    &&& nodes[chain[k]].prev == link_at(chain, k - 1)
    &&& nodes[chain[k]].next == link_at(chain, k + 1)
}

/// `chain` names every node once, front to back, and each node is linked to
/// its two neighbours; the first has no `prev` and the last no `next`.
pub open spec fn is_chain<T>(nodes: Map<usize, Node<T>>, chain: Seq<usize>) -> bool {
    &&& chain.no_duplicates()
    &&& forall|k: int| 0 <= k < chain.len() ==> #[trigger] linked_at(nodes, chain, k)
    &&& forall|at: usize| #[trigger] nodes.dom().contains(at) ==> chain.contains(at)
}

/// The nodes met by starting at `from` and following `next` links until a
/// link leads nowhere, or until `fuel` nodes have been met.
pub open spec fn walk_next<T>(nodes: Map<usize, Node<T>>, from: Link, fuel: nat) -> Seq<usize>
    decreases fuel,
{
    if fuel > 0 && from is Some && nodes.dom().contains(from->0) {
        seq![from->0] + walk_next(nodes, nodes[from->0].next, (fuel - 1) as nat)
    } else {
        Seq::empty()
    }
}

/// The nodes met by starting at `from` and following `prev` links until a
/// link leads nowhere, or until `fuel` nodes have been met.
pub open spec fn walk_prev<T>(nodes: Map<usize, Node<T>>, from: Link, fuel: nat) -> Seq<usize>
    decreases fuel,
{
    if fuel > 0 && from is Some && nodes.dom().contains(from->0) {
        seq![from->0] + walk_prev(nodes, nodes[from->0].prev, (fuel - 1) as nat)
    } else {
        Seq::empty()
    }
}

/// The payloads of the nodes that `path` names, in the order of `path`.
pub open spec fn elems_along<T>(nodes: Map<usize, Node<T>>, path: Seq<usize>) -> Seq<T> {
    Seq::new(path.len(), |k: int| nodes[path[k]].elem)
}

/// The nodes after a node that holds `elem` was made in slot `at` and linked
/// in before the node that `first` leads to: that node's `prev` now leads to
/// the new one, and no other node has changed.
pub open spec fn linked_front<T>(
    nodes: Map<usize, Node<T>>,
    first: Link,
    at: usize,
    elem: T,
) -> Map<usize, Node<T>> {
    let added = nodes.insert(at, Node { elem, next: first, prev: None });
    match first {
        Some(after) => added.insert(after, Node { prev: Some(at), ..nodes[after] }),
        None => added,
    }
}

/// The nodes after a node that holds `elem` was made in slot `at` and linked
/// in behind the node that `last` leads to: that node's `next` now leads to
/// the new one, and no other node has changed.
pub open spec fn linked_back<T>(
    nodes: Map<usize, Node<T>>,
    last: Link,
    at: usize,
    elem: T,
) -> Map<usize, Node<T>> {
    let added = nodes.insert(at, Node { elem, next: None, prev: last });
    match last {
        Some(before) => added.insert(before, Node { next: Some(at), ..nodes[before] }),
        None => added,
    }
}

/// The nodes after the node in slot `at` was taken away from the front: the
/// node that its `next` led to has no `prev` any more, and no other node has
/// changed.
pub open spec fn unlinked_front<T>(nodes: Map<usize, Node<T>>, at: usize) -> Map<usize, Node<T>> {
    let kept = nodes.remove(at);
    match nodes[at].next {
        Some(after) => kept.insert(after, Node { prev: None, ..nodes[after] }),
        None => kept,
    }
}

/// The nodes after the node in slot `at` was taken away from the back: the
/// node that its `prev` led to has no `next` any more, and no other node has
/// changed.
pub open spec fn unlinked_back<T>(nodes: Map<usize, Node<T>>, at: usize) -> Map<usize, Node<T>> {
    let kept = nodes.remove(at);
    match nodes[at].prev {
        Some(before) => kept.insert(before, Node { next: None, ..nodes[before] }),
        None => kept,
    }
}

/// A chain has exactly as many positions as there are nodes.
pub proof fn lemma_chain_len<T>(nodes: Map<usize, Node<T>>, chain: Seq<usize>)
    requires
        is_chain(nodes, chain),
    ensures
        nodes.dom().finite(),
        nodes.dom().len() == chain.len(),
{
    assert forall|at: usize| chain.to_set().contains(at) implies nodes.dom().contains(at) by {
        let k = choose|k: int| 0 <= k < chain.len() && chain[k] == at;
        assert(linked_at(nodes, chain, k));
    }
    assert(nodes.dom() =~= chain.to_set());
    vstd::seq_lib::seq_to_set_is_finite(chain);
    chain.unique_seq_to_set();
}

/// Following `next` links from position `k` of a chain meets the rest of the
/// chain in order, given fuel for each node of that rest.
pub proof fn lemma_walk_next<T>(nodes: Map<usize, Node<T>>, chain: Seq<usize>, k: int, fuel: nat)
    requires
        is_chain(nodes, chain),
        0 <= k <= chain.len(),
        fuel >= chain.len() - k,
    ensures
        walk_next(nodes, link_at(chain, k), fuel) == chain.skip(k),
    decreases chain.len() - k,
{
    if k < chain.len() {
        assert(linked_at(nodes, chain, k));
        lemma_walk_next(nodes, chain, k + 1, (fuel - 1) as nat);
        assert(chain.skip(k) =~= seq![chain[k]] + chain.skip(k + 1));
    }
}

/// Following `prev` links from position `k` of a chain meets the chain up to
/// that position in reverse order, given fuel for each node of that part.
pub proof fn lemma_walk_prev<T>(nodes: Map<usize, Node<T>>, chain: Seq<usize>, k: int, fuel: nat)
    requires
        is_chain(nodes, chain),
        -1 <= k < chain.len(),
        fuel >= k + 1,
    ensures
        walk_prev(nodes, link_at(chain, k), fuel) == chain.take(k + 1).reverse(),
    decreases k + 1,
{
    if k >= 0 {
        assert(linked_at(nodes, chain, k));
        lemma_walk_prev(nodes, chain, k - 1, (fuel - 1) as nat);
        assert(chain.take(k + 1).reverse() =~= seq![chain[k]] + chain.take(k).reverse());
    }
}

/// The walk along `next` from the first node of a chain, with fuel for every
/// node, is the chain; the walk along `prev` from its last node is the chain
/// reversed.
pub proof fn lemma_walks<T>(nodes: Map<usize, Node<T>>, chain: Seq<usize>)
    requires
        is_chain(nodes, chain),
    ensures
        walk_next(nodes, link_at(chain, 0), nodes.dom().len()) == chain,
        walk_prev(nodes, link_at(chain, chain.len() - 1), nodes.dom().len()) == chain.reverse(),
{
    lemma_chain_len(nodes, chain);
    lemma_walk_next(nodes, chain, 0, nodes.dom().len());
    lemma_walk_prev(nodes, chain, chain.len() - 1, nodes.dom().len());
    assert(chain.skip(0) =~= chain);
    assert(chain.take(chain.len() as int) =~= chain);
}

/// The payloads along a reversed path are the payloads along the path,
/// reversed.
pub proof fn lemma_elems_along_reverse<T>(nodes: Map<usize, Node<T>>, path: Seq<usize>)
    ensures
        elems_along(nodes, path.reverse()) == elems_along(nodes, path).reverse(),
{
}

/// Linking a new node in at the front of a chain gives the chain that
/// starts with the new node and goes on as before.
pub proof fn lemma_linked_front<T>(
    nodes: Map<usize, Node<T>>,
    chain: Seq<usize>,
    at: usize,
    elem: T,
)
    requires
        is_chain(nodes, chain),
        !nodes.dom().contains(at),
    ensures
        is_chain(linked_front(nodes, link_at(chain, 0), at, elem), seq![at] + chain),
        elems_along(linked_front(nodes, link_at(chain, 0), at, elem), seq![at] + chain)
            == pushed_front(elems_along(nodes, chain), elem),
{
    let linked = linked_front(nodes, link_at(chain, 0), at, elem);
    let longer = seq![at] + chain;
    if chain.len() > 0 {
        assert(linked_at(nodes, chain, 0));
    }
    assert forall|k: int| 0 <= k < chain.len() implies chain[k] != at by {
        assert(linked_at(nodes, chain, k));
    }
    assert forall|k: int| 0 <= k < longer.len() implies #[trigger] linked_at(linked, longer, k) by {
        if k > 0 {
            assert(linked_at(nodes, chain, k - 1));
        }
    }
    assert forall|x: usize| #[trigger] linked.dom().contains(x) implies longer.contains(x) by {
        if x == at {
            assert(longer[0] == x);
        } else {
            let j = choose|j: int| 0 <= j < chain.len() && chain[j] == x;
            assert(longer[j + 1] == x);
        }
    }
}

/// Linking a new node in at the back of a chain gives the chain that goes
/// as before and ends with the new node.
pub proof fn lemma_linked_back<T>(
    nodes: Map<usize, Node<T>>,
    chain: Seq<usize>,
    at: usize,
    elem: T,
)
    requires
        is_chain(nodes, chain),
        !nodes.dom().contains(at),
    ensures
        is_chain(linked_back(nodes, link_at(chain, chain.len() - 1), at, elem), chain.push(at)),
        elems_along(linked_back(nodes, link_at(chain, chain.len() - 1), at, elem), chain.push(at))
            == pushed_back(elems_along(nodes, chain), elem),
{
    let linked = linked_back(nodes, link_at(chain, chain.len() - 1), at, elem);
    let longer = chain.push(at);
    if chain.len() > 0 {
        assert(linked_at(nodes, chain, chain.len() - 1));
    }
    assert forall|k: int| 0 <= k < chain.len() implies chain[k] != at by {
        assert(linked_at(nodes, chain, k));
    }
    assert forall|k: int| 0 <= k < longer.len() implies #[trigger] linked_at(linked, longer, k) by {
        if k < chain.len() {
            assert(linked_at(nodes, chain, k));
        }
    }
    assert forall|x: usize| #[trigger] linked.dom().contains(x) implies longer.contains(x) by {
        if x == at {
            assert(longer[chain.len() as int] == x);
        } else {
            let j = choose|j: int| 0 <= j < chain.len() && chain[j] == x;
            assert(longer[j] == x);
        }
    }
}

/// Taking the first node of a chain away gives the chain without its first
/// position.
pub proof fn lemma_unlinked_front<T>(nodes: Map<usize, Node<T>>, chain: Seq<usize>)
    requires
        is_chain(nodes, chain),
        chain.len() > 0,
    ensures
        is_chain(unlinked_front(nodes, chain.first()), chain.drop_first()),
        elems_along(unlinked_front(nodes, chain.first()), chain.drop_first()) == popped_front(
            elems_along(nodes, chain),
        ),
{
    let unlinked = unlinked_front(nodes, chain.first());
    let shorter = chain.drop_first();
    assert(linked_at(nodes, chain, 0));
    if chain.len() > 1 {
        assert(linked_at(nodes, chain, 1));
    }
    assert forall|k: int| 0 <= k < shorter.len() implies #[trigger] linked_at(
        unlinked,
        shorter,
        k,
    ) by {
        assert(linked_at(nodes, chain, k + 1));
    }
    assert forall|x: usize| #[trigger] unlinked.dom().contains(x) implies shorter.contains(x) by {
        let j = choose|j: int| 0 <= j < chain.len() && chain[j] == x;
        assert(shorter[j - 1] == x);
    }
}

/// Taking the last node of a chain away gives the chain without its last
/// position.
pub proof fn lemma_unlinked_back<T>(nodes: Map<usize, Node<T>>, chain: Seq<usize>)
    requires
        is_chain(nodes, chain),
        chain.len() > 0,
    ensures
        is_chain(unlinked_back(nodes, chain.last()), chain.drop_last()),
        elems_along(unlinked_back(nodes, chain.last()), chain.drop_last()) == popped_back(
            elems_along(nodes, chain),
        ),
{
    let unlinked = unlinked_back(nodes, chain.last());
    let shorter = chain.drop_last();
    assert(linked_at(nodes, chain, chain.len() - 1));
    if chain.len() > 1 {
        assert(linked_at(nodes, chain, chain.len() - 2));
    }
    assert forall|k: int| 0 <= k < shorter.len() implies #[trigger] linked_at(
        unlinked,
        shorter,
        k,
    ) by {
        assert(linked_at(nodes, chain, k));
    }
    assert forall|x: usize| #[trigger] unlinked.dom().contains(x) implies shorter.contains(x) by {
        let j = choose|j: int| 0 <= j < chain.len() && chain[j] == x;
        assert(shorter[j] == x);
    }
}

} // verus!
