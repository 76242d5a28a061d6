//! The list: two ends and the nodes between them.

use crate::arena::Arena;
use crate::chain::elems_along;
use crate::chain::is_chain;
use crate::chain::lemma_elems_along_reverse;
use crate::chain::lemma_linked_back;
use crate::chain::lemma_linked_front;
use crate::chain::lemma_unlinked_back;
use crate::chain::lemma_unlinked_front;
use crate::chain::lemma_walks;
use crate::chain::link_at;
use crate::chain::linked_at;
use crate::chain::linked_back;
use crate::chain::linked_front;
use crate::chain::unlinked_back;
use crate::chain::unlinked_front;
use crate::chain::walk_next;
use crate::chain::walk_prev;
use crate::model::back;
use crate::model::front;
use crate::model::popped_back;
use crate::model::popped_front;
use crate::model::pushed_back;
use crate::model::pushed_front;
use crate::node::Link;
use crate::node::Node;
use vstd::prelude::*;

verus! {

/// A doubly-linked list. Its nodes sit in an arena and name their
/// neighbours by slot number.
pub struct List<T> {
    /// The first node, if there is one.
    head: Link,
    /// The last node, if there is one.
    tail: Link,
    /// The nodes.
    arena: Arena<Node<T>>,
    /// The slot numbers of the nodes, front to back.
    chain: Ghost<Seq<usize>>,
}

impl<T> View for List<T> {
    type V = Seq<T>;

    /// The payloads met on the walk from the head along `next` links.
    open spec fn view(&self) -> Seq<T> {
        elems_along(self.nodes(), self.forward())
    }
}

impl<T> List<T> {
    /// The link to the first node.
    pub closed spec fn head(&self) -> Link {
        self.head
    }

    /// The link to the last node.
    pub closed spec fn tail(&self) -> Link {
        self.tail
    }

    /// The nodes of the list, each under the slot number by which links name it.
    pub closed spec fn nodes(&self) -> Map<usize, Node<T>> {
        self.arena@
    }

    /// The nodes met on the walk from the head along `next` links.
    pub open spec fn forward(&self) -> Seq<usize> {
        walk_next(self.nodes(), self.head(), self.nodes().dom().len())
    }

    /// The nodes met on the walk from the tail along `prev` links.
    pub open spec fn backward(&self) -> Seq<usize> {
        walk_prev(self.nodes(), self.tail(), self.nodes().dom().len())
    }

    /// The payloads met on the walk from the tail along `prev` links.
    pub open spec fn elems_backward(&self) -> Seq<T> {
        elems_along(self.nodes(), self.backward())
    }

    /// The list has a first node exactly if it has a last node.
    pub open spec fn ends_agree(&self) -> bool {
        self.head() is None <==> self.tail() is None
    }

    /// The first node has no `prev` and the last node has no `next`.
    pub open spec fn ends_unlinked(&self) -> bool {
        &&& self.head() matches Some(first) ==> {
            &&& self.nodes().dom().contains(first)
            &&& self.nodes()[first].prev is None
        }
        &&& self.tail() matches Some(last) ==> {
            &&& self.nodes().dom().contains(last)
            &&& self.nodes()[last].next is None
        }
    }

    /// Where a node's `next` leads to a node, that node's `prev` leads back,
    /// and the same with `next` and `prev` exchanged.
    pub open spec fn links_mirror(&self) -> bool {
        forall|a: usize, b: usize|
            #![trigger self.nodes()[a], self.nodes()[b]]
            self.nodes().dom().contains(a) ==> {
                &&& self.nodes()[a].next == Some(b) ==> {
                    &&& self.nodes().dom().contains(b)
                    &&& self.nodes()[b].prev == Some(a)
                }
                &&& self.nodes()[a].prev == Some(b) ==> {
                    &&& self.nodes().dom().contains(b)
                    &&& self.nodes()[b].next == Some(a)
                }
            }
    }

    /// The walk from the tail meets the nodes of the walk from the head, in
    /// reverse order.
    pub open spec fn walks_mirror(&self) -> bool {
        self.forward() == self.backward().reverse()
    }

    /// The walk from the head meets every node: none is kept that the list
    /// no longer holds.
    pub open spec fn walk_meets_all(&self) -> bool {
        forall|at: usize| #[trigger] self.nodes().dom().contains(at) ==> self.forward().contains(at)
    }

    /// The structural invariants of the list together.
    pub open spec fn consistent(&self) -> bool {
        &&& self.ends_agree()
        &&& self.ends_unlinked()
        &&& self.links_mirror()
        &&& self.walks_mirror()
        &&& self.walk_meets_all()
    }

    /// The representation invariant: the nodes form one chain from head to tail.
    pub closed spec fn well_formed(&self) -> bool {
        &&& self.arena.well_formed()
        &&& is_chain(self.arena@, self.chain@)
        &&& self.head == link_at(self.chain@, 0)
        &&& self.tail == link_at(self.chain@, self.chain@.len() - 1)
    }

    /// A well-formed list is consistent.
    pub proof fn lemma_consistent(&self)
        requires
            self.well_formed(),
        ensures
            self.consistent(),
    {
        let nodes = self.arena@;
        let chain = self.chain@;
        lemma_walks(nodes, chain);
        assert(chain.reverse().reverse() =~= chain);
        if chain.len() > 0 {
            assert(linked_at(nodes, chain, 0));
            assert(linked_at(nodes, chain, chain.len() - 1));
        }
        assert forall|a: usize, b: usize|
            #![trigger self.nodes()[a], self.nodes()[b]]
            self.nodes().dom().contains(a) implies {
            &&& self.nodes()[a].next == Some(b) ==> {
                &&& self.nodes().dom().contains(b)
                &&& self.nodes()[b].prev == Some(a)
            }
            &&& self.nodes()[a].prev == Some(b) ==> {
                &&& self.nodes().dom().contains(b)
                &&& self.nodes()[b].next == Some(a)
            }
        } by {
            assert(chain.contains(a));
            let k = choose|k: int| 0 <= k < chain.len() && chain[k] == a;
            assert(linked_at(nodes, chain, k));
            if k + 1 < chain.len() {
                assert(linked_at(nodes, chain, k + 1));
            }
            if k > 0 {
                assert(linked_at(nodes, chain, k - 1));
            }
        }
    }

    /// Symmetry: the elements read from the head along `next` links are the
    /// elements read from the tail along `prev` links, reversed.
    pub proof fn lemma_symmetry(&self)
        requires
            self.well_formed(),
        ensures
            self.forward() == self.backward().reverse(),
            self@ == self.elems_backward().reverse(),
    {
        self.lemma_consistent();
        lemma_elems_along_reverse(self.nodes(), self.backward());
    }

    /// An empty list.
    pub fn new() -> (list: Self)
        ensures
            list.well_formed(),
            list.consistent(),
            list@ == Seq::<T>::empty(),
            list.head() is None,
            list.tail() is None,
            list.nodes() == Map::<usize, Node<T>>::empty(),
    {
        let list = List { head: None, tail: None, arena: Arena::new(), chain: Ghost(Seq::empty()) };
        proof {
            list.lemma_consistent();
            lemma_walks(list.arena@, list.chain@);
        }
        list
    }

    /// Puts `elem` in front of the first element.
    pub fn push_front(&mut self, elem: T)
        requires
            old(self).well_formed(),
        ensures
            final(self).well_formed(),
            final(self).consistent(),
            final(self)@ == pushed_front(old(self)@, elem),
            final(self).head() matches Some(at) && {
                &&& !old(self).nodes().dom().contains(at)
                &&& final(self).nodes() == linked_front(
                    old(self).nodes(),
                    old(self).head(),
                    at,
                    elem,
                )
            },
            final(self).tail() == if old(self).tail() is Some {
                old(self).tail()
            } else {
                final(self).head()
            },
    {
        let mut node = Node::new(elem);
        node.next = self.head;
        let at = self.arena.insert(node);
        match self.head {
            Some(first) => {
                proof {
                    assert(linked_at(old(self).arena@, old(self).chain@, 0));
                }
                self.arena.get_mut(first).prev = Some(at);
            },
            None => {
                self.tail = Some(at);
            },
        }
        self.head = Some(at);
        self.chain = Ghost(seq![at] + self.chain@);
        proof {
            lemma_linked_front(old(self).arena@, old(self).chain@, at, elem);
            lemma_walks(old(self).arena@, old(self).chain@);
            lemma_walks(self.arena@, self.chain@);
            self.lemma_consistent();
        }
    }

    /// Puts `elem` behind the last element.
    pub fn push_back(&mut self, elem: T)
        requires
            old(self).well_formed(),
        ensures
            final(self).well_formed(),
            final(self).consistent(),
            final(self)@ == pushed_back(old(self)@, elem),
            final(self).tail() matches Some(at) && {
                &&& !old(self).nodes().dom().contains(at)
                &&& final(self).nodes() == linked_back(
                    old(self).nodes(),
                    old(self).tail(),
                    at,
                    elem,
                )
            },
            final(self).head() == if old(self).head() is Some {
                old(self).head()
            } else {
                final(self).tail()
            },
    {
        let mut node = Node::new(elem);
        node.prev = self.tail;
        let at = self.arena.insert(node);
        match self.tail {
            Some(last) => {
                proof {
                    let n = self.chain@.len();
                    assert(linked_at(old(self).arena@, old(self).chain@, n - 1));
                }
                self.arena.get_mut(last).next = Some(at);
            },
            None => {
                self.head = Some(at);
            },
        }
        self.tail = Some(at);
        self.chain = Ghost(self.chain@.push(at));
        proof {
            lemma_linked_back(old(self).arena@, old(self).chain@, at, elem);
            lemma_walks(old(self).arena@, old(self).chain@);
            lemma_walks(self.arena@, self.chain@);
            self.lemma_consistent();
        }
    }

    /// Takes the first element off the list and returns it; returns nothing,
    /// and changes nothing, where the list is empty.
    pub fn pop_front(&mut self) -> (value: Option<T>)
        requires
            old(self).well_formed(),
        ensures
            final(self).well_formed(),
            final(self).consistent(),
            value == front(old(self)@),
            final(self)@ == popped_front(old(self)@),
            match old(self).head() {
                Some(at) => {
                    &&& final(self).nodes() == unlinked_front(old(self).nodes(), at)
                    &&& final(self).head() == old(self).nodes()[at].next
                    &&& final(self).tail() == if final(self).head() is Some {
                        old(self).tail()
                    } else {
                        None
                    }
                },
                None => {
                    &&& final(self).nodes() == old(self).nodes()
                    &&& final(self).head() is None
                    &&& final(self).tail() is None
                },
            },
    {
        proof {
            lemma_walks(self.arena@, self.chain@);
            self.lemma_consistent();
        }
        match self.head {
            None => None,
            Some(at) => {
                proof {
                    assert(linked_at(self.arena@, self.chain@, 0));
                    if self.chain@.len() > 1 {
                        assert(linked_at(self.arena@, self.chain@, 1));
                    }
                }
                let node = self.arena.remove(at);
                match node.next {
                    Some(second) => {
                        self.arena.get_mut(second).prev = None;
                    },
                    None => {
                        self.tail = None;
                    },
                }
                self.head = node.next;
                self.chain = Ghost(self.chain@.drop_first());
                proof {
                    lemma_unlinked_front(old(self).arena@, old(self).chain@);
                    lemma_walks(self.arena@, self.chain@);
                    self.lemma_consistent();
                }
                Some(node.elem)
            },
        }
    }

    /// Takes the last element off the list and returns it; returns nothing,
    /// and changes nothing, where the list is empty.
    pub fn pop_back(&mut self) -> (value: Option<T>)
        requires
            old(self).well_formed(),
        ensures
            final(self).well_formed(),
            final(self).consistent(),
            value == back(old(self)@),
            final(self)@ == popped_back(old(self)@),
            match old(self).tail() {
                Some(at) => {
                    &&& final(self).nodes() == unlinked_back(old(self).nodes(), at)
                    &&& final(self).tail() == old(self).nodes()[at].prev
                    &&& final(self).head() == if final(self).tail() is Some {
                        old(self).head()
                    } else {
                        None
                    }
                },
                None => {
                    &&& final(self).nodes() == old(self).nodes()
                    &&& final(self).head() is None
                    &&& final(self).tail() is None
                },
            },
    {
        proof {
            lemma_walks(self.arena@, self.chain@);
            self.lemma_consistent();
        }
        match self.tail {
            None => None,
            Some(at) => {
                proof {
                    let n = self.chain@.len();
                    assert(linked_at(self.arena@, self.chain@, n - 1));
                    if n > 1 {
                        assert(linked_at(self.arena@, self.chain@, n - 2));
                    }
                }
                let node = self.arena.remove(at);
                match node.prev {
                    Some(before) => {
                        self.arena.get_mut(before).next = None;
                    },
                    None => {
                        self.head = None;
                    },
                }
                self.tail = node.prev;
                self.chain = Ghost(self.chain@.drop_last());
                proof {
                    lemma_unlinked_back(old(self).arena@, old(self).chain@);
                    lemma_walks(self.arena@, self.chain@);
                    self.lemma_consistent();
                }
                Some(node.elem)
            },
        }
    }

    /// Whether the list holds no element.
    pub fn is_empty(&self) -> (empty: bool)
        requires
            self.well_formed(),
        ensures
            empty == (self@.len() == 0),
            empty == (self.head() is None),
    {
        proof {
            lemma_walks(self.arena@, self.chain@);
        }
        self.head.is_none()
    }

    /// The elements in order, read from the head along `next` links.
    pub fn front_to_back(&self) -> (elems: Vec<&T>)
        requires
            self.well_formed(),
        ensures
            elems@.len() == self@.len(),
            forall|k: int| 0 <= k < elems@.len() ==> *elems@[k] == self@[k],
    {
        let mut elems: Vec<&T> = Vec::new();
        let mut cursor = self.head;
        while cursor.is_some()
            invariant
                self.well_formed(),
                elems@.len() <= self.chain@.len(),
                cursor == link_at(self.chain@, elems@.len() as int),
                forall|k: int|
                    0 <= k < elems@.len() ==> *elems@[k] == self.arena@[self.chain@[k]].elem,
            decreases self.chain@.len() - elems@.len(),
        {
            proof {
                assert(linked_at(self.arena@, self.chain@, elems@.len() as int));
            }
            let node = self.arena.get(cursor.unwrap());
            elems.push(&node.elem);
            cursor = node.next;
        }
        proof {
            lemma_walks(self.arena@, self.chain@);
        }
        elems
    }

    /// The elements in reverse order, read from the tail along `prev` links.
    pub fn back_to_front(&self) -> (elems: Vec<&T>)
        requires
            self.well_formed(),
        ensures
            elems@.len() == self@.len(),
            forall|k: int| 0 <= k < elems@.len() ==> *elems@[k] == self@.reverse()[k],
    {
        let mut elems: Vec<&T> = Vec::new();
        let mut cursor = self.tail;
        let ghost order = self.chain@.reverse();
        while cursor.is_some()
            invariant
                self.well_formed(),
                order == self.chain@.reverse(),
                elems@.len() <= order.len(),
                cursor == link_at(self.chain@, order.len() - 1 - elems@.len()),
                forall|k: int| 0 <= k < elems@.len() ==> *elems@[k] == self.arena@[order[k]].elem,
            decreases order.len() - elems@.len(),
        {
            proof {
                assert(linked_at(self.arena@, self.chain@, order.len() - 1 - elems@.len()));
            }
            let node = self.arena.get(cursor.unwrap());
            elems.push(&node.elem);
            cursor = node.prev;
        }
        proof {
            lemma_walks(self.arena@, self.chain@);
        }
        elems
    }
}

impl<T> Default for List<T> {
    /// An empty list.
    fn default() -> (list: Self)
        ensures
            list.well_formed(),
            list.consistent(),
            list@ == Seq::<T>::empty(),
            list.head() is None,
            list.tail() is None,
            list.nodes() == Map::<usize, Node<T>>::empty(),
    {
        List::new()
    }
}

} // verus!
