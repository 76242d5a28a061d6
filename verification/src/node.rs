//! Nodes and the links between them.

use vstd::prelude::*;

verus! {

/// A link to a node: the index of the arena slot that holds it, or nothing.
pub type Link = Option<usize>;

/// One element of a list, with links to both of its neighbours.
pub struct Node<T> {
    /// The payload.
    pub elem: T,
    /// The neighbour toward the back of the list.
    pub next: Link,
    /// The neighbour toward the front of the list.
    pub prev: Link,
}

impl<T> Node<T> {
    /// A node that holds `elem` and is linked to nothing.
    pub fn new(elem: T) -> (node: Self)
        ensures
            node.elem == elem,
            node.next is None,
            node.prev is None,
    {
        Node { elem, next: None, prev: None }
    }
}

} // verus!
