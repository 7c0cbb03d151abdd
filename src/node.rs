use vstd::prelude::*;

verus! {

/// One cell of the chain: an optional payload, the index of the cell that was
/// the tail when this one was linked in, and the index of its successor.
pub struct Node<T> {
    pub item: Option<T>,
    pub prev: usize,
    pub next: Option<usize>,
}

impl<T> Node<T> {
    /// A payload-free cell whose backward link is `prev`.
    pub fn sentinel(prev: usize) -> (r: Self)
        ensures
            r.item is None,
            r.prev == prev,
            r.next is None,
    {
        Node { item: None, prev, next: None }
    }

    /// A cell carrying `item`, linked back to `prev` and not yet forward.
    pub fn new(item: T, prev: usize) -> (r: Self)
        ensures
            r.item == Some(item),
            r.prev == prev,
            r.next is None,
    {
        Node { item: Some(item), prev, next: None }
    }
}

} // verus!
