use vstd::prelude::*;

use crate::node::Node;

verus! {

/// How far an enqueue in progress has come.
pub enum Stage {
    /// The new cell exists but the tail has not been read yet.
    Fresh,
    /// The tail and its backward link have been read.
    Read,
    /// The tail's predecessor is known to be linked forward.
    Helped,
    /// The tail was swung to the new cell; the old tail is not yet linked to it.
    Swung,
    /// The old tail is linked forward to the new cell.
    Done,
}

/// An enqueue in progress: the cell it publishes and what it last read.
pub struct PendingEnqueue<T> {
    node: usize,
    ltail: usize,
    lprev: usize,
    stage: Stage,
    at: Ghost<int>,
    item: Ghost<T>,
}

impl<T> PendingEnqueue<T> {
    /// The cell that this enqueue publishes.
    pub closed spec fn cell(&self) -> usize {
        self.node
    }

    /// The value that this enqueue appends.
    pub closed spec fn value(&self) -> T {
        self.item@
    }

    /// The tail that this enqueue last read.
    pub closed spec fn seen_tail(&self) -> usize {
        self.ltail
    }

    /// How far this enqueue has come.
    pub closed spec fn stage_of(&self) -> Stage {
        self.stage
    }

    /// True once the enqueue has linked the old tail forward.
    pub fn is_done(&self) -> (r: bool)
        ensures
            r == (self.stage_of() is Done),
    {
        match self.stage {
            Stage::Done => true,
            _ => false,
        }
    }
}

/// The doubly linked queue as enqueues see it when their steps interleave.
///
/// An enqueue is split into the steps that touch shared cells, each of them
/// atomic here: reading the tail, helping the predecessor, swinging the tail,
/// and linking the old tail forward. Any number of enqueues may be in progress
/// at once and their steps may come in any order, with dequeues in between.
/// Cells that are published are never reused, so a stale read can never see a
/// recycled cell.
pub struct SharedQueue<T> {
    nodes: Vec<Node<T>>,
    head: usize,
    tail: usize,
    all: Ghost<Seq<usize>>,
    first: Ghost<int>,
}

impl<T> View for SharedQueue<T> {
    type V = Seq<T>;

    /// The queued items in the order in which their tail swings succeeded.
    closed spec fn view(&self) -> Seq<T> {
        Seq::new(
            (self.all@.len() - 1 - self.first@) as nat,
            |i: int| self.nodes@[self.all@[self.first@ + 1 + i] as int].item->Some_0,
        )
    }
}

impl<T> SharedQueue<T> {
    /// Every cell ever published, in the order the tail reached them.
    pub closed spec fn published(&self) -> Seq<usize> {
        self.all@
    }

    /// The last swing of the tail has not been followed by its forward link.
    pub closed spec fn pending(&self) -> bool {
        let a = self.all@;
        a.len() >= 2 && self.nodes@[a[a.len() - 2] as int].next is None
    }

    /// The published cells are distinct and form one chain by backward links
    /// from the tail to the first sentinel, which links back to itself. Every
    /// forward link along it is set but possibly the last, which when set names
    /// the tail. The head is a published cell; the ones after it hold items.
    pub closed spec fn wf(&self) -> bool {
        let a = self.all@;
        let n = self.nodes@;
        let h = self.first@;
        &&& a.len() >= 1
        &&& 0 <= h < a.len()
        &&& a[h] == self.head
        &&& a.last() == self.tail
        &&& forall|i: int| 0 <= i < a.len() ==> #[trigger] a[i] < n.len()
        &&& forall|i: int, j: int| 0 <= i < j < a.len() ==> a[i] != a[j]
        &&& n[a[0] as int].prev == a[0]
        &&& forall|i: int| 1 <= i < a.len() ==> #[trigger] n[a[i] as int].prev == a[i - 1]
        &&& forall|i: int|
            0 <= i < a.len() - 2 ==> #[trigger] n[a[i] as int].next == Some(a[i + 1])
        &&& a.len() >= 2 ==> (n[a[a.len() - 2] as int].next is None || n[a[a.len()
            - 2] as int].next == Some(a.last()))
        &&& n[self.tail as int].next is None
        &&& forall|i: int| h < i < a.len() ==> (#[trigger] n[a[i] as int]).item is Some
    }

    /// What `op` has read or done still holds of this queue.
    pub closed spec fn op_ok(&self, op: PendingEnqueue<T>) -> bool {
        let a = self.all@;
        let n = self.nodes@;
        let unpublished = {
            &&& op.node < n.len()
            &&& !a.contains(op.node)
            &&& n[op.node as int].item == Some(op.item@)
            &&& n[op.node as int].next is None
        };
        let read = {
            &&& 0 <= op.at@ < a.len()
            &&& a[op.at@] == op.ltail
            &&& n[op.ltail as int].prev == op.lprev
            &&& n[op.node as int].prev == op.ltail
        };
        match op.stage {
            Stage::Fresh => unpublished,
            Stage::Read => unpublished && read,
            Stage::Helped => unpublished && read && (op.lprev == op.ltail
                || n[op.lprev as int].next is Some),
            Stage::Swung => {
                &&& 0 <= op.at@
                &&& op.at@ + 1 < a.len()
                &&& a[op.at@] == op.ltail
                &&& a[op.at@ + 1] == op.node
            },
            Stage::Done => op.node < n.len(),
        }
    }

    /// An empty queue: one sentinel whose backward link names itself.
    pub fn new() -> (r: Self)
        ensures
            r.wf(),
            r@ == Seq::<T>::empty(),
            !r.pending(),
            r.cells() == 1,
            r.tail_cell() == 0,
    {
        let mut nodes: Vec<Node<T>> = Vec::new();
        nodes.push(Node::sentinel(0));
        let r = SharedQueue {
            nodes,
            head: 0,
            tail: 0,
            all: Ghost(Seq::empty().push(0usize)),
            first: Ghost(0),
        };
        assert(r@ =~= Seq::<T>::empty());
        r
    }

    /// The number of cells in the arena.
    pub closed spec fn cells(&self) -> nat {
        self.nodes@.len()
    }

    /// The number of cells in the arena; cells are never given back.
    pub fn cells_used(&self) -> (r: usize)
        ensures
            r == self.cells(),
    {
        self.nodes.len()
    }

    /// Starts an enqueue of `item`: makes its cell, not yet published.
    pub fn begin_enqueue(&mut self, item: T) -> (op: PendingEnqueue<T>)
        requires
            old(self).wf(),
            old(self).cells() < usize::MAX,
        ensures
            final(self).wf(),
            final(self)@ == old(self)@,
            final(self).published() == old(self).published(),
            final(self).pending() == old(self).pending(),
            final(self).cells() == old(self).cells() + 1,
            final(self).tail_cell() == old(self).tail_cell(),
            final(self).op_ok(op),
            op.cell() == old(self).cells(),
            op.stage_of() is Fresh,
            op.value() == item,
            forall|o: PendingEnqueue<T>| #[trigger]
                old(self).op_ok(o) ==> final(self).op_ok(o) && o.cell() != op.cell(),
    {
        let ghost old_nodes = self.nodes@;
        let ghost a = self.all@;
        let idx = self.nodes.len();
        let ghost v = item;
        self.nodes.push(Node::new(item, 0));
        proof {
            assert forall|i: int| 0 <= i < a.len() implies #[trigger] self.nodes@[a[i] as int]
                == old_nodes[a[i] as int] by {
                assert(a[i] < old_nodes.len());
            }
            assert(!a.contains(idx)) by {
                if a.contains(idx) {
                    let i = choose|i: int| 0 <= i < a.len() && a[i] == idx;
                    assert(a[i] < old_nodes.len());
                }
            }
            assert(self@ =~= old(self)@);
            assert forall|o: PendingEnqueue<T>| #[trigger]
                old(self).op_ok(o) implies self.op_ok(o) && o.cell() != idx by {
                match o.stage {
                    Stage::Fresh | Stage::Read | Stage::Helped => {
                        assert(self.nodes@[o.node as int] == old_nodes[o.node as int]);
                    },
                    _ => {},
                }
                match o.stage {
                    Stage::Read | Stage::Helped => {
                        assert(self.nodes@[o.ltail as int] == old_nodes[o.ltail as int]);
                        assert(o.lprev < old_nodes.len()) by {
                            if o.at@ == 0 {
                            } else {
                                assert(old_nodes[a[o.at@] as int].prev == a[o.at@ - 1]);
                            }
                        }
                    },
                    _ => {},
                }
                match o.stage {
                    Stage::Swung => {
                        assert(a[o.at@ + 1] < old_nodes.len());
                    },
                    _ => {},
                }
            }
        }
        PendingEnqueue {
            node: idx,
            ltail: 0,
            lprev: 0,
            stage: Stage::Fresh,
            at: Ghost(0),
            item: Ghost(v),
        }
    }

    /// Reads the tail and its backward link, and links the new cell back to
    /// that tail.
    pub fn read_tail(&mut self, op: &mut PendingEnqueue<T>)
        requires
            old(self).wf(),
            old(self).op_ok(*old(op)),
            old(op).stage_of() is Fresh,
        ensures
            final(self).wf(),
            final(self)@ == old(self)@,
            final(self).published() == old(self).published(),
            final(self).pending() == old(self).pending(),
            final(self).op_ok(*final(op)),
            final(op).stage_of() is Read,
            final(op).seen_tail() == old(self).tail_cell(),
            final(self).tail_cell() == old(self).tail_cell(),
            final(op).cell() == old(op).cell(),
            final(op).value() == old(op).value(),
            forall|o: PendingEnqueue<T>| #[trigger]
                old(self).op_ok(o) && o.cell() != old(op).cell() ==> final(self).op_ok(o),
    {
        let ghost old_nodes = self.nodes@;
        let ghost a = self.all@;
        let ltail = self.tail;
        let lprev = self.nodes[ltail].prev;
        let node = op.node;
        self.nodes[node].prev = ltail;
        op.ltail = ltail;
        op.lprev = lprev;
        op.at = Ghost(a.len() - 1);
        op.stage = Stage::Read;
        proof {
            assert forall|k: int| 0 <= k < old_nodes.len() && k != node implies #[trigger]
                self.nodes@[k] == old_nodes[k] by {}
            assert forall|k: int| 0 <= k < old_nodes.len() implies (#[trigger] self.nodes@[k]).next
                == old_nodes[k].next && self.nodes@[k].item == old_nodes[k].item by {}
            assert forall|i: int| 0 <= i < a.len() implies #[trigger] self.nodes@[a[i] as int]
                == old_nodes[a[i] as int] by {
                assert(a[i] < old_nodes.len());
                assert(a[i] != node);
            }
            assert(self@ =~= old(self)@);
            assert forall|o: PendingEnqueue<T>| #[trigger]
                old(self).op_ok(o) && o.cell() != node implies self.op_ok(o) by {
                match o.stage {
                    Stage::Read | Stage::Helped => {
                        assert(self.nodes@[o.ltail as int] == old_nodes[o.ltail as int]);
                        assert(o.lprev < old_nodes.len()) by {
                            if o.at@ > 0 {
                                assert(old_nodes[a[o.at@] as int].prev == a[o.at@ - 1]);
                            }
                        }
                    },
                    _ => {},
                }
            }
        }
    }

    /// Helps the enqueue that made the tail: if the tail's predecessor is
    /// not yet linked forward, links it to the tail. Every writer of that
    /// link stores the same value. A sentinel that links back to itself has
    /// no predecessor, and is left alone.
    pub fn help(&mut self, op: &mut PendingEnqueue<T>)
        requires
            old(self).wf(),
            old(self).op_ok(*old(op)),
            old(op).stage_of() is Read,
        ensures
            final(self).wf(),
            final(self)@ == old(self)@,
            final(self).published() == old(self).published(),
            final(self).op_ok(*final(op)),
            final(op).stage_of() is Helped,
            final(op).seen_tail() == old(op).seen_tail(),
            final(self).tail_cell() == old(self).tail_cell(),
            final(self).pending() ==> old(self).pending(),
            final(op).cell() == old(op).cell(),
            final(op).value() == old(op).value(),
            forall|o: PendingEnqueue<T>| #[trigger]
                old(self).op_ok(o) && o.cell() != old(op).cell() ==> final(self).op_ok(o),
    {
        let ghost old_nodes = self.nodes@;
        let ghost a = self.all@;
        let ltail = op.ltail;
        let lprev = op.lprev;
        let ghost at = op.at@;
        proof {
            if at > 0 {
                assert(old_nodes[a[at] as int].prev == a[at - 1]);
                assert(a[at - 1] < old_nodes.len());
            }
        }
        if lprev != ltail && self.nodes[lprev].next.is_none() {
            proof {
                assert(at > 0);
                if at - 1 < a.len() - 2 {
                    assert(old_nodes[a[at - 1] as int].next == Some(a[at]));
                }
                assert(at == a.len() - 1);
            }
            self.nodes[lprev].next = Some(ltail);
        }
        op.stage = Stage::Helped;
        proof {
            let n = self.nodes@;
            assert forall|k: int| 0 <= k < old_nodes.len() && k != lprev implies #[trigger]
                n[k] == old_nodes[k] by {}
            assert forall|k: int| 0 <= k < old_nodes.len() implies (#[trigger] n[k]).prev
                == old_nodes[k].prev && n[k].item == old_nodes[k].item && (old_nodes[k].next is Some
                ==> n[k].next == old_nodes[k].next) by {}
            assert forall|i: int| 0 <= i < a.len() - 2 implies #[trigger] n[a[i] as int].next
                == Some(a[i + 1]) by {
                assert(a[i] < old_nodes.len());
                assert(old_nodes[a[i] as int].next == Some(a[i + 1]));
            }
            assert forall|i: int| 1 <= i < a.len() implies #[trigger] n[a[i] as int].prev
                == a[i - 1] by {
                assert(a[i] < old_nodes.len());
            }
            assert forall|i: int| self.first@ < i < a.len() implies (#[trigger] n[a[i] as int]).item is Some by {
                assert(a[i] < old_nodes.len());
            }
            assert(n[self.tail as int].next is None) by {
                assert(a.last() < old_nodes.len());
                if at > 0 {
                    assert(a[at - 1] != a.last());
                }
            }
            assert(!a.contains(op.node));
            assert(lprev != op.node) by {
                if at > 0 {
                    assert(a[at - 1] == lprev);
                }
            }
            assert(self@ =~= old(self)@) by {
                assert forall|i: int| 0 <= i < self@.len() implies self@[i] == old(self)@[i] by {
                    assert(a[self.first@ + 1 + i] < old_nodes.len());
                }
            }
            assert forall|o: PendingEnqueue<T>| #[trigger]
                old(self).op_ok(o) && o.cell() != op.node implies self.op_ok(o) by {
                match o.stage {
                    Stage::Fresh | Stage::Read | Stage::Helped => {
                        assert(o.node != lprev) by {
                            if at > 0 {
                                assert(a[at - 1] == lprev);
                            }
                        }
                        assert(n[o.node as int] == old_nodes[o.node as int]);
                    },
                    _ => {},
                }
                match o.stage {
                    Stage::Read | Stage::Helped => {
                        assert(o.lprev < old_nodes.len()) by {
                            if o.at@ > 0 {
                                assert(old_nodes[a[o.at@] as int].prev == a[o.at@ - 1]);
                            }
                        }
                        assert(a[o.at@] < old_nodes.len());
                    },
                    _ => {},
                }
            }
        }
    }

    /// The tail cell.
    pub closed spec fn tail_cell(&self) -> usize {
        self.tail
    }

    /// Swings the tail from the tail that was read to the new cell, if the
    /// tail is still that cell (a compare-and-swap). On success the new cell
    /// is published, linked back to the old tail; otherwise some other enqueue
    /// swung the tail in between, and this one starts over.
    pub fn swing_tail(&mut self, op: &mut PendingEnqueue<T>) -> (swung: bool)
        requires
            old(self).wf(),
            old(self).op_ok(*old(op)),
            old(op).stage_of() is Helped,
        ensures
            final(self).wf(),
            final(self).op_ok(*final(op)),
            final(op).cell() == old(op).cell(),
            final(op).value() == old(op).value(),
            swung == (old(self).tail_cell() == old(op).seen_tail()),
            swung ==> {
                &&& final(op).stage_of() is Swung
                &&& final(self)@ == old(self)@.push(old(op).value())
                &&& final(self).published() == old(self).published().push(old(op).cell())
                &&& final(self).tail_cell() == old(op).cell()
                &&& final(self).pending()
            },
            !swung ==> {
                &&& final(op).stage_of() is Fresh
                &&& final(self)@ == old(self)@
                &&& final(self).published() == old(self).published()
                &&& final(self).tail_cell() == old(self).tail_cell()
                &&& final(self).pending() == old(self).pending()
            },
            forall|o: PendingEnqueue<T>| #[trigger]
                old(self).op_ok(o) && o.cell() != old(op).cell() ==> final(self).op_ok(o),
    {
        let ghost n = self.nodes@;
        let ghost a = self.all@;
        let ghost at = op.at@;
        let node = op.node;
        if self.tail == op.ltail {
            proof {
                assert(at == a.len() - 1) by {
                    if at != a.len() - 1 {
                        assert(a[at] != a[a.len() - 1]);
                    }
                }
                if at > 0 {
                    assert(n[a[at] as int].prev == a[at - 1]);
                    assert(a[at - 1] != a[at]);
                    assert(n[a[a.len() - 2] as int].next == Some(a.last()));
                }
            }
            self.tail = node;
            self.all = Ghost(a.push(node));
            op.stage = Stage::Swung;
            proof {
                let na = self.all@;
                assert forall|i: int| 0 <= i < na.len() - 2 implies #[trigger] n[na[i] as int].next
                    == Some(na[i + 1]) by {
                    if i < a.len() - 2 {
                        assert(n[a[i] as int].next == Some(a[i + 1]));
                    }
                }
                assert forall|i: int| 1 <= i < na.len() implies #[trigger] n[na[i] as int].prev
                    == na[i - 1] by {
                    if i < a.len() {
                        assert(n[a[i] as int].prev == a[i - 1]);
                    }
                }
                assert forall|i: int| self.first@ < i < na.len() implies (#[trigger] n[na[i] as int]).item is Some by {
                    if i < a.len() {
                        assert(n[a[i] as int].item is Some);
                    }
                }
                assert forall|i: int| 0 <= i < na.len() implies #[trigger] na[i] < n.len() by {
                    if i < a.len() {
                        assert(a[i] < n.len());
                    }
                }
                assert forall|i: int, j: int| 0 <= i < j < na.len() implies na[i] != na[j] by {
                    if j == a.len() {
                        assert(a.contains(a[i]));
                    }
                }
                assert(self@ =~= old(self)@.push(op.item@)) by {
                    assert forall|i: int| 0 <= i < old(self)@.len() implies self@[i] == old(self)@[i] by {
                        assert(na[self.first@ + 1 + i] == a[self.first@ + 1 + i]);
                    }
                }
                assert forall|o: PendingEnqueue<T>| #[trigger]
                    old(self).op_ok(o) && o.cell() != node implies self.op_ok(o) by {
                    match o.stage {
                        Stage::Fresh | Stage::Read | Stage::Helped => {
                            assert(!na.contains(o.node)) by {
                                if na.contains(o.node) {
                                    let k = choose|k: int| 0 <= k < na.len() && na[k] == o.node;
                                    if k < a.len() {
                                        assert(a.contains(o.node));
                                    }
                                }
                            }
                        },
                        _ => {},
                    }
                    match o.stage {
                        Stage::Read | Stage::Helped => {
                            assert(na[o.at@] == a[o.at@]);
                        },
                        Stage::Swung => {
                            assert(na[o.at@] == a[o.at@]);
                            assert(na[o.at@ + 1] == a[o.at@ + 1]);
                        },
                        _ => {},
                    }
                }
            }
            true
        } else {
            op.stage = Stage::Fresh;
            false
        }
    }

    /// Links the old tail forward to the cell that replaced it. A helper
    /// may have stored the same link already.
    pub fn link(&mut self, op: &mut PendingEnqueue<T>)
        requires
            old(self).wf(),
            old(self).op_ok(*old(op)),
            old(op).stage_of() is Swung,
        ensures
            final(self).wf(),
            final(self)@ == old(self)@,
            final(self).published() == old(self).published(),
            final(self).tail_cell() == old(self).tail_cell(),
            final(self).pending() ==> old(self).pending(),
            old(self).tail_cell() == old(op).cell() ==> !final(self).pending(),
            final(self).op_ok(*final(op)),
            final(op).stage_of() is Done,
            final(op).cell() == old(op).cell(),
            final(op).value() == old(op).value(),
            forall|o: PendingEnqueue<T>| #[trigger]
                old(self).op_ok(o) && o.cell() != old(op).cell() ==> final(self).op_ok(o),
    {
        let ghost n = self.nodes@;
        let ghost a = self.all@;
        let ghost at = op.at@;
        let ltail = op.ltail;
        let node = op.node;
        proof {
            assert(a[at] < n.len());
            assert(a[at + 1] < n.len());
            if at < a.len() - 2 {
                assert(n[a[at] as int].next == Some(a[at + 1]));
            }
        }
        self.nodes[ltail].next = Some(node);
        op.stage = Stage::Done;
        proof {
            let nn = self.nodes@;
            assert forall|k: int| 0 <= k < n.len() implies (#[trigger] nn[k]).prev == n[k].prev
                && nn[k].item == n[k].item && (n[k].next is Some ==> nn[k].next is Some) && (k
                != ltail ==> nn[k] == n[k]) by {}
            assert(ltail != self.tail) by {
                assert(a[at] != a[a.len() - 1]);
            }
            assert forall|i: int| 0 <= i < a.len() - 2 implies #[trigger] nn[a[i] as int].next
                == Some(a[i + 1]) by {
                assert(a[i] < n.len());
                assert(n[a[i] as int].next == Some(a[i + 1]));
                if a[i] == ltail {
                    assert(i == at);
                }
            }
            assert(a.len() >= 2 ==> (nn[a[a.len() - 2] as int].next is None || nn[a[a.len()
                - 2] as int].next == Some(a.last()))) by {
                if a.len() >= 2 && a[a.len() - 2] == ltail {
                    assert(at == a.len() - 2);
                }
            }
            assert forall|i: int| 1 <= i < a.len() implies #[trigger] nn[a[i] as int].prev
                == a[i - 1] by {
                assert(a[i] < n.len());
            }
            assert forall|i: int| self.first@ < i < a.len() implies (#[trigger] nn[a[i] as int]).item is Some by {
                assert(a[i] < n.len());
            }
            assert(self@ =~= old(self)@) by {
                assert forall|i: int| 0 <= i < self@.len() implies self@[i] == old(self)@[i] by {
                    assert(a[self.first@ + 1 + i] < n.len());
                }
            }
            if old(self).tail_cell() == node {
                assert(at + 1 == a.len() - 1) by {
                    if at + 1 != a.len() - 1 {
                        assert(a[at + 1] != a[a.len() - 1]);
                    }
                }
            }
            assert forall|o: PendingEnqueue<T>| #[trigger]
                old(self).op_ok(o) && o.cell() != node implies self.op_ok(o) by {
                match o.stage {
                    Stage::Fresh | Stage::Read | Stage::Helped => {
                        assert(o.node != ltail) by {
                            assert(a.contains(a[at]));
                        }
                        assert(nn[o.node as int] == n[o.node as int]);
                    },
                    _ => {},
                }
                match o.stage {
                    Stage::Read | Stage::Helped => {
                        assert(o.lprev < n.len()) by {
                            if o.at@ > 0 {
                                assert(n[a[o.at@] as int].prev == a[o.at@ - 1]);
                            }
                        }
                        assert(a[o.at@] < n.len());
                    },
                    _ => {},
                }
            }
        }
    }

    /// The forward link of cell `c`.
    pub closed spec fn next_of(&self, c: usize) -> Option<usize> {
        self.nodes@[c as int].next
    }

    /// Removes and returns the front item, if the head's forward link is
    /// set: the head moves to its successor, whose payload is handed out.
    /// It returns `None` when the queue is empty, and also when its one item
    /// was published by a tail swing whose forward link is still to come.
    pub fn dequeue(&mut self) -> (r: Option<T>)
        requires
            old(self).wf(),
        ensures
            final(self).wf(),
            final(self).published() == old(self).published(),
            final(self).tail_cell() == old(self).tail_cell(),
            final(self).pending() == old(self).pending(),
            r is None <==> (old(self)@.len() == 0 || (old(self)@.len() == 1 && old(self).pending())),
            r is None ==> final(self)@ == old(self)@,
            r is Some ==> r == Some(old(self)@[0]) && final(self)@ == old(self)@.drop_first(),
            forall|o: PendingEnqueue<T>| #[trigger] old(self).op_ok(o) ==> final(self).op_ok(o),
    {
        let ghost n = self.nodes@;
        let ghost a = self.all@;
        let ghost h = self.first@;
        let lhead = self.head;
        proof {
            assert(a[h] < n.len());
            if h < a.len() - 2 {
                assert(n[a[h] as int].next == Some(a[h + 1]));
            }
        }
        match self.nodes[lhead].next {
            None => None,
            Some(lnext) => {
                proof {
                    assert(h + 1 < a.len());
                    assert(lnext == a[h + 1]);
                    assert(a[h + 1] < n.len());
                }
                self.head = lnext;
                self.first = Ghost(h + 1);
                let item = self.nodes[lnext].item.take();
                proof {
                    let nn = self.nodes@;
                    assert forall|k: int| 0 <= k < n.len() implies (#[trigger] nn[k]).prev == n[k].prev
                        && nn[k].next == n[k].next && (k != lnext ==> nn[k] == n[k]) by {}
                    assert forall|i: int| 0 <= i < a.len() - 2 implies #[trigger] nn[a[i] as int].next
                        == Some(a[i + 1]) by {
                        assert(a[i] < n.len());
                        assert(n[a[i] as int].next == Some(a[i + 1]));
                    }
                    assert forall|i: int| 1 <= i < a.len() implies #[trigger] nn[a[i] as int].prev
                        == a[i - 1] by {
                        assert(a[i] < n.len());
                    }
                    assert forall|i: int| h + 1 < i < a.len() implies (#[trigger] nn[a[i] as int]).item is Some by {
                        assert(a[i] < n.len());
                        assert(a[i] != a[h + 1]);
                        assert(n[a[i] as int].item is Some);
                    }
                    assert(a.len() >= 2 ==> (nn[a[a.len() - 2] as int].next is None || nn[a[a.len()
                        - 2] as int].next == Some(a.last()))) by {
                        if a.len() >= 2 {
                            assert(a[a.len() - 2] < n.len());
                        }
                    }
                    assert(nn[self.tail as int].next is None) by {
                        assert(a[a.len() - 1] < n.len());
                    }
                    assert(item == Some(old(self)@[0]));
                    assert(self@ =~= old(self)@.drop_first()) by {
                        assert forall|i: int| 0 <= i < self@.len() implies self@[i] == old(self)@[i + 1] by {
                            assert(a[h + 2 + i] < n.len());
                            assert(a[h + 2 + i] != a[h + 1]);
                        }
                    }
                    assert forall|o: PendingEnqueue<T>| #[trigger] old(self).op_ok(o) implies self.op_ok(o) by {
                        match o.stage {
                            Stage::Fresh | Stage::Read | Stage::Helped => {
                                assert(o.node != lnext) by {
                                    assert(a.contains(a[h + 1]));
                                }
                            },
                            _ => {},
                        }
                        match o.stage {
                            Stage::Read | Stage::Helped => {
                                assert(o.lprev < n.len()) by {
                                    if o.at@ > 0 {
                                        assert(n[a[o.at@] as int].prev == a[o.at@ - 1]);
                                    }
                                }
                                assert(a[o.at@] < n.len());
                            },
                            _ => {},
                        }
                    }
                }
                item
            },
        }
    }

    /// Runs the next step of `op`: reading the tail, helping, swinging the
    /// tail or linking, as its stage says. A failed swing sends it back to
    /// reading the tail. Returns whether this step published the new cell: a
    /// successful swing, the one step that changes the queued items.
    pub fn step(&mut self, op: &mut PendingEnqueue<T>) -> (published: bool)
        requires
            old(self).wf(),
            old(self).op_ok(*old(op)),
            !(old(op).stage_of() is Done),
        ensures
            final(self).wf(),
            final(self).op_ok(*final(op)),
            final(op).cell() == old(op).cell(),
            final(op).value() == old(op).value(),
            old(op).stage_of() is Fresh ==> final(op).stage_of() is Read,
            old(op).stage_of() is Read ==> final(op).stage_of() is Helped,
            old(op).stage_of() is Helped ==> (final(op).stage_of() is Swung || final(op).stage_of() is Fresh),
            old(op).stage_of() is Swung ==> final(op).stage_of() is Done,
            published == (old(op).stage_of() is Helped && final(op).stage_of() is Swung),
            old(op).stage_of() is Helped ==> (published <==> old(self).tail_cell()
                == old(op).seen_tail()),
            old(op).stage_of() is Fresh ==> final(op).seen_tail() == old(self).tail_cell(),
            old(op).stage_of() is Read ==> final(op).seen_tail() == old(op).seen_tail(),
            published ==> final(self).tail_cell() == old(op).cell(),
            !published ==> final(self).tail_cell() == old(self).tail_cell(),
            published ==> final(self).pending(),
            final(self).pending() ==> old(self).pending() || published,
            (old(op).stage_of() is Fresh || (old(op).stage_of() is Helped && !published))
                ==> final(self).pending() == old(self).pending(),
            old(op).stage_of() is Swung && old(self).tail_cell() == old(op).cell()
                ==> !final(self).pending(),
            published ==> final(self)@ == old(self)@.push(old(op).value()),
            !published ==> final(self)@ == old(self)@,
            forall|o: PendingEnqueue<T>| #[trigger]
                old(self).op_ok(o) && o.cell() != old(op).cell() ==> final(self).op_ok(o),
    {
        match op.stage {
            Stage::Fresh => {
                self.read_tail(op);
                false
            },
            Stage::Read => {
                self.help(op);
                false
            },
            Stage::Helped => self.swing_tail(op),
            Stage::Swung => {
                self.link(op);
                false
            },
            Stage::Done => false,
        }
    }
}

/// Only the last forward link can lag: in a well-formed queue every
/// published cell but the last two is linked forward to its successor, and
/// the last but one is linked to the tail or not yet linked at all.
pub proof fn lemma_only_last_link_lags<T>(q: &SharedQueue<T>)
    requires
        q.wf(),
    ensures
        ({
            let a = q.published();
            &&& a.len() >= 1
            &&& a.last() == q.tail_cell()
            &&& q.next_of(q.tail_cell()) is None
            &&& forall|i: int| 0 <= i < a.len() - 2 ==> #[trigger] q.next_of(a[i]) == Some(a[i + 1])
            &&& a.len() >= 2 ==> (q.next_of(a[a.len() - 2]) is None || q.next_of(a[a.len() - 2])
                == Some(a.last()))
            &&& q.pending() <==> (a.len() >= 2 && q.next_of(a[a.len() - 2]) is None)
        }),
{
    let a = q.published();
    assert forall|i: int| 0 <= i < a.len() - 2 implies #[trigger] q.next_of(a[i]) == Some(a[i + 1]) by {
        assert(q.nodes@[a[i] as int].next == Some(a[i + 1]));
    }
}

} // verus!
