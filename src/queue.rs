use vstd::prelude::*;

use crate::node::Node;

verus! {

/// A FIFO queue kept as a doubly linked chain of cells in an arena.
///
/// `head` is the sentinel: the cell just before the first queued item. Every
/// other cell on the chain from `head` to `tail` holds one queued item, in the
/// order of enqueueing. Cells that left the chain are retired and reused by
/// later enqueues, so each cell of the arena is either linked or retired.
pub struct DoubleLink<T> {
    nodes: Vec<Node<T>>,
    head: usize,
    tail: usize,
    retired: Vec<usize>,
    chain: Ghost<Seq<usize>>,
}

impl<T> View for DoubleLink<T> {
    type V = Seq<T>;

    /// The queued items, front first: the payloads of the linked cells after
    /// the sentinel.
    closed spec fn view(&self) -> Seq<T> {
        Seq::new(
            (self.chain@.len() - 1) as nat,
            |i: int| self.nodes@[self.chain@[i + 1] as int].item->Some_0,
        )
    }
}

impl<T> DoubleLink<T> {
    /// The chain runs from `head` to `tail` through distinct cells, each
    /// cell's forward link names its successor and its backward link its
    /// predecessor, the sentinel holds no payload and every other linked cell
    /// holds one; the retired cells are distinct and off the chain, and
    /// together with the linked cells they make up the whole arena.
    pub closed spec fn wf(&self) -> bool {
        let c = self.chain@;
        let n = self.nodes@;
        let r = self.retired@;
        &&& c.len() >= 1
        &&& c[0] == self.head
        &&& c.last() == self.tail
        &&& forall|i: int| 0 <= i < c.len() ==> #[trigger] c[i] < n.len()
        &&& forall|i: int, j: int| 0 <= i < j < c.len() ==> c[i] != c[j]
        &&& forall|i: int|
            0 <= i < c.len() - 1 ==> #[trigger] n[c[i] as int].next == Some(c[i + 1])
        &&& n[self.tail as int].next is None
        &&& forall|i: int| 1 <= i < c.len() ==> #[trigger] n[c[i] as int].prev == c[i - 1]
        &&& n[self.head as int].item is None
        &&& forall|i: int| 1 <= i < c.len() ==> (#[trigger] n[c[i] as int]).item is Some
        &&& forall|k: int| 0 <= k < n.len() ==> #[trigger] n[k].prev < n.len()
        &&& forall|i: int| 0 <= i < r.len() ==> #[trigger] r[i] < n.len()
        &&& forall|i: int, j: int| 0 <= i < j < r.len() ==> r[i] != r[j]
        &&& forall|i: int, j: int| 0 <= i < r.len() && 0 <= j < c.len() ==> r[i] != c[j]
        &&& r.len() + c.len() == n.len()
    }

    /// An empty queue: a single sentinel whose backward link names itself.
    pub fn new() -> (r: Self)
        ensures
            r.wf(),
            r@ == Seq::<T>::empty(),
    {
        let mut nodes: Vec<Node<T>> = Vec::new();
        nodes.push(Node::sentinel(0));
        let r = DoubleLink {
            nodes,
            head: 0,
            tail: 0,
            retired: Vec::new(),
            chain: Ghost(Seq::empty().push(0usize)),
        };
        assert(r@ =~= Seq::<T>::empty());
        r
    }

    /// Appends `item` at the back.
    ///
    /// The tail's backward link is read first; if that predecessor still has
    /// no forward link, it is linked to the tail (a repair that stores the
    /// same value any other writer would); a sentinel that links back to
    /// itself has no predecessor. The new cell, taken from the
    /// retired cells when there is one, is linked back to the tail, becomes
    /// the tail, and the old tail is linked forward to it.
    pub fn enqueue(&mut self, item: T)
        requires
            old(self).wf(),
            old(self)@.len() + 2 < usize::MAX,
        ensures
            final(self).wf(),
            final(self)@ == old(self)@.push(item),
    {
        let ghost c = self.chain@;
        let ghost old_view = self@;
        let ghost old_nodes = self.nodes@;
        let ltail = self.tail;
        let lprev = self.nodes[ltail].prev;
        if lprev != ltail && self.nodes[lprev].next.is_none() {
            self.nodes[lprev].next = Some(ltail);
        }
        proof {
            assert forall|i: int| 0 <= i < c.len() - 1 implies #[trigger] self.nodes@[c[i] as int]
                == old_nodes[c[i] as int] by {
                assert(old_nodes[c[i] as int].next == Some(c[i + 1]));
            }
            assert forall|i: int| 0 <= i < c.len() implies (#[trigger] self.nodes@[c[i] as int]).item
                == old_nodes[c[i] as int].item && self.nodes@[c[i] as int].prev == old_nodes[c[i] as int].prev by {
                assert(c[i] < old_nodes.len());
            }
        }
        let ghost mid_nodes = self.nodes@;
        let node = Node::new(item, ltail);
        let idx: usize;
        match self.retired.pop() {
            Some(r) => {
                idx = r;
                self.nodes[idx] = node;
            },
            None => {
                idx = self.nodes.len();
                self.nodes.push(node);
            },
        }
        proof {
            assert forall|j: int| 0 <= j < c.len() implies c[j] != idx by {
                if idx < old_nodes.len() {
                    let last = old(self).retired@.len() - 1;
                    assert(old(self).retired@[last] == idx);
                }
            }
        }
        self.tail = idx;
        self.nodes[ltail].next = Some(idx);
        self.chain = Ghost(c.push(idx));
        proof {
            let nc = self.chain@;
            let nn = self.nodes@;
            assert forall|i: int| 0 <= i < c.len() - 1 implies #[trigger] nn[c[i] as int]
                == old_nodes[c[i] as int] by {
                assert(c[i] != c.last());
                assert(c[i] != idx);
            }
            assert(nn[ltail as int].item == old_nodes[ltail as int].item);
            assert(nn[ltail as int].prev == old_nodes[ltail as int].prev);
            assert forall|i: int| 0 <= i < nc.len() - 1 implies #[trigger] nn[nc[i] as int].next
                == Some(nc[i + 1]) by {
                assert(nc[i] == c[i]);
                if i < c.len() - 1 {
                    assert(old_nodes[c[i] as int].next == Some(c[i + 1]));
                }
            }
            assert forall|i: int| 1 <= i < nc.len() implies #[trigger] nn[nc[i] as int].prev
                == nc[i - 1] by {
                if i < c.len() {
                    assert(nc[i] == c[i]);
                    assert(old_nodes[c[i] as int].prev == c[i - 1]);
                    if i == c.len() - 1 {
                        assert(nn[ltail as int].prev == old_nodes[ltail as int].prev);
                    }
                }
            }
            assert forall|i: int| 1 <= i < nc.len() implies (#[trigger] nn[nc[i] as int]).item is Some by {
                if i < c.len() {
                    assert(nc[i] == c[i]);
                    assert(old_nodes[c[i] as int].item is Some);
                }
            }
            assert forall|k: int| 0 <= k < nn.len() implies #[trigger] nn[k].prev < nn.len() by {
                if k != idx && k != ltail && k < old_nodes.len() {
                    assert(nn[k].prev == mid_nodes[k].prev);
                    assert(mid_nodes[k].prev == old_nodes[k].prev);
                }
                if k == ltail {
                    assert(nn[k].prev == old_nodes[k].prev);
                }
            }
            assert forall|i: int, j: int| 0 <= i < j < nc.len() implies nc[i] != nc[j] by {
                if j == nc.len() - 1 {
                    assert(nc[i] == c[i]);
                }
            }
            assert forall|i: int, j: int|
                0 <= i < self.retired@.len() && 0 <= j < nc.len() implies self.retired@[i] != nc[j] by {
                assert(self.retired@[i] == old(self).retired@[i]);
                if j == nc.len() - 1 {
                    if idx < old_nodes.len() {
                        let last = old(self).retired@.len() - 1;
                        assert(old(self).retired@[last] == idx);
                    }
                }
            }
            assert(nn[self.head as int].item is None) by {
                if c.len() > 1 {
                    assert(c[0] != c.last());
                }
            }
            assert(self@ =~= old_view.push(item)) by {
                assert forall|i: int| 0 <= i < old_view.len() implies self@[i] == old_view[i] by {
                    assert(nc[i + 1] == c[i + 1]);
                    if i + 1 < c.len() - 1 {
                        assert(nn[c[i + 1] as int] == old_nodes[c[i + 1] as int]);
                    }
                }
            }
        }
    }

    /// Removes and returns the front item, or `None` when the queue is empty.
    ///
    /// The sentinel's successor becomes the new sentinel: its payload is
    /// handed out and the old sentinel is retired.
    pub fn dequeue(&mut self) -> (r: Option<T>)
        requires
            old(self).wf(),
        ensures
            final(self).wf(),
            old(self)@.len() == 0 ==> r is None && final(self)@ == old(self)@,
            old(self)@.len() > 0 ==> r == Some(old(self)@[0]) && final(self)@
                == old(self)@.drop_first(),
    {
        let ghost c = self.chain@;
        let lhead = self.head;
        let lnext = self.nodes[lhead].next;
        match lnext {
            None => {
                assert(c.len() == 1) by {
                    if c.len() > 1 {
                        assert(self.nodes@[c[0] as int].next == Some(c[1]));
                    }
                }
                None
            },
            Some(n) => {
                assert(c.len() > 1 && n == c[1]) by {
                    if c.len() == 1 {
                        assert(self.nodes@[c[0] as int].next is None);
                    }
                    assert(self.nodes@[c[0] as int].next == Some(c[1]));
                }
                let ghost old_view = self@;
                let ghost old_nodes = self.nodes@;
                self.head = n;
                let item = self.nodes[n].item.take();
                self.retired.push(lhead);
                self.chain = Ghost(c.drop_first());
                proof {
                    let nc = self.chain@;
                    let nn = self.nodes@;
                    assert forall|i: int| 0 <= i < nc.len() implies #[trigger] nn[nc[i] as int]
                        == (if i == 0 {
                        Node { item: None, ..old_nodes[nc[i] as int] }
                    } else {
                        old_nodes[nc[i] as int]
                    }) by {
                        assert(nc[i] == c[i + 1]);
                        if i > 0 {
                            assert(c[i + 1] != c[1]);
                        }
                    }
                    assert(nn[self.tail as int].next is None) by {
                        assert(nc.last() == c.last());
                    }
                    assert forall|i: int, j: int|
                        0 <= i < self.retired@.len() && 0 <= j < nc.len() implies self.retired@[i]
                        != nc[j] by {
                        assert(nc[j] == c[j + 1]);
                        if i == self.retired@.len() - 1 {
                            assert(c[0] != c[j + 1]);
                        }
                    }
                    assert forall|i: int| 1 <= i < nc.len() implies #[trigger] nn[nc[i] as int].prev
                        == nc[i - 1] by {
                        assert(nc[i] == c[i + 1]);
                        assert(nc[i - 1] == c[i]);
                    }
                    assert forall|i: int, j: int| 0 <= i < j < nc.len() implies nc[i] != nc[j] by {
                        assert(nc[i] == c[i + 1]);
                        assert(nc[j] == c[j + 1]);
                    }
                    assert(self@ =~= old_view.drop_first());
                }
                item
            },
        }
    }

    /// Tears the queue down: dequeues until it is empty, then releases the
    /// arena, sentinel included. Returns the items that were still queued,
    /// front first.
    pub fn destroy(self) -> (r: Vec<T>)
        requires
            self.wf(),
        ensures
            r@ == self@,
    {
        let ghost all = self@;
        let mut q = self;
        let mut out: Vec<T> = Vec::new();
        loop
            invariant
                q.wf(),
                all == self@,
                all == out@ + q@,
            decreases q@.len(),
        {
            let ghost before = q@;
            match q.dequeue() {
                Some(x) => {
                    out.push(x);
                    assert(all =~= out@ + q@) by {
                        assert(before =~= seq![x] + q@);
                    }
                },
                None => {
                    assert(q@ =~= Seq::<T>::empty());
                    assert(out@ =~= all);
                    return out;
                },
            }
        }
    }
}

} // verus!
