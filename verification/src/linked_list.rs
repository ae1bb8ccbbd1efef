//! The recency list: a doubly-linked list of values held in a node arena.
//!
//! Nodes live in a growable arena and are addressed by stable integer
//! handles, so a handle stays valid across arbitrary `move_to_last` calls
//! and unrelated removals until its own node is removed. Links are arena
//! indices, which sidesteps shared ownership entirely.

use vstd::prelude::*;

verus! {

/// One node of the recency list: a value plus links to its neighbours.
pub struct LinkedListNode<T> {
    next: Option<usize>,
    prev: Option<usize>,
    pub value: T,
}

/// A doubly-linked list in an arena, with free-slot reuse.
///
/// The abstract value is `handles()`, the sequence of node handles from
/// front (least recently appended) to back, together with `spec_value(h)`
/// for the value each live handle holds.
pub struct LinkedList<T> {
    nodes: Vec<Option<LinkedListNode<T>>>,
    free: Vec<usize>,
    first: Option<usize>,
    last: Option<usize>,
    order: Ghost<Seq<usize>>,
}

impl<T> LinkedList<T> {
    /// The handles of the live nodes, front first.
    pub closed spec fn handles(&self) -> Seq<usize> {
        self.order@
    }

    /// The value stored in the node behind handle `h`.
    pub closed spec fn spec_value(&self, h: usize) -> T {
        self.nodes@[h as int].unwrap().value
    }

    /// Links and bookkeeping of the node at position `j` agree with the order.
    spec fn entry_ok(&self, j: int) -> bool {
        let ord = self.order@;
        let h = ord[j] as int;
        &&& ord[j] < self.nodes@.len()
        &&& self.nodes@[h].is_some()
        &&& self.nodes@[h].unwrap().prev == (if j == 0 {
            None::<usize>
        } else {
            Some(ord[j - 1])
        })
        &&& self.nodes@[h].unwrap().next == (if j == ord.len() - 1 {
            None::<usize>
        } else {
            Some(ord[j + 1])
        })
    }

    /// The whole structure is consistent.
    pub closed spec fn wf(&self) -> bool {
        &&& forall|j: int| 0 <= j < self.order@.len() ==> #[trigger] self.entry_ok(j)
        &&& self.order@.no_duplicates()
        &&& self.first == (if self.order@.len() == 0 {
            None::<usize>
        } else {
            Some(self.order@[0])
        })
        &&& self.last == (if self.order@.len() == 0 {
            None::<usize>
        } else {
            Some(self.order@.last())
        })
        &&& self.free@.no_duplicates()
        &&& forall|i: int| 0 <= i < self.free@.len() ==> #[trigger] self.free@[i] < self.nodes@.len()
        &&& forall|x: usize|
            x < self.nodes@.len() ==> (#[trigger] self.nodes@[x as int].is_none()
                <==> self.free@.contains(x))
    }

    /// Handle `h` holds a node that is allocated but not yet linked in.
    spec fn detached_ok(&self, h: usize) -> bool {
        &&& h < self.nodes@.len()
        &&& self.nodes@[h as int].is_some()
        &&& self.nodes@[h as int].unwrap().prev.is_none()
        &&& self.nodes@[h as int].unwrap().next.is_none()
        &&& !self.order@.contains(h)
    }

    /// No handle occurs twice among the live nodes.
    pub proof fn lemma_handles_distinct(&self)
        requires
            self.wf(),
        ensures
            self.handles().no_duplicates(),
    {
    }

    /// A live handle addresses an allocated node.
    proof fn lemma_handle_live(&self, h: usize)
        requires
            self.wf(),
            self.handles().contains(h),
        ensures
            h < self.nodes@.len(),
            self.nodes@[h as int].is_some(),
    {
        let j = self.order@.index_of(h);
        assert(self.entry_ok(j));
    }

    pub fn new() -> (r: Self)
        ensures
            r.wf(),
            r.handles() == Seq::<usize>::empty(),
    {
        Self {
            nodes: Vec::new(),
            free: Vec::new(),
            first: None,
            last: None,
            order: Ghost(Seq::empty()),
        }
    }

    /// Overwrite the `prev` link of the allocated node behind `h`.
    fn set_prev(&mut self, h: usize, p: Option<usize>)
        requires
            h < old(self).nodes@.len(),
            old(self).nodes@[h as int].is_some(),
        ensures
            ({
                let n0 = old(self).nodes@[h as int].unwrap();
                final(self).nodes@ == old(self).nodes@.update(
                    h as int,
                    Some(
                        (LinkedListNode { next: n0.next, prev: p, value: n0.value }),
                    ),
                )
            }),
            final(self).free == old(self).free,
            final(self).first == old(self).first,
            final(self).last == old(self).last,
            final(self).order == old(self).order,
    {
        match &mut self.nodes[h] {
            Some(n) => {
                n.prev = p;
            },
            None => {
                proof {
                    assert(false);
                }
            },
        }
    }

    /// Overwrite the `next` link of the allocated node behind `h`.
    fn set_next(&mut self, h: usize, nx: Option<usize>)
        requires
            h < old(self).nodes@.len(),
            old(self).nodes@[h as int].is_some(),
        ensures
            ({
                let n0 = old(self).nodes@[h as int].unwrap();
                final(self).nodes@ == old(self).nodes@.update(
                    h as int,
                    Some(
                        (LinkedListNode { next: nx, prev: n0.prev, value: n0.value }),
                    ),
                )
            }),
            final(self).free == old(self).free,
            final(self).first == old(self).first,
            final(self).last == old(self).last,
            final(self).order == old(self).order,
    {
        match &mut self.nodes[h] {
            Some(n) => {
                n.next = nx;
            },
            None => {
                proof {
                    assert(false);
                }
            },
        }
    }

    /// Link a detached node in as the new last element.
    fn set_node_last(&mut self, h: usize)
        requires
            old(self).wf(),
            old(self).detached_ok(h),
        ensures
            final(self).wf(),
            final(self).handles() == old(self).handles().push(h),
            final(self).spec_value(h) == old(self).spec_value(h),
            forall|g: usize|
                old(self).handles().contains(g) ==> #[trigger] final(self).spec_value(g) == old(
                    self,
                ).spec_value(g),
            final(self).free == old(self).free,
    {
        let ghost pre = *self;
        proof {
            if pre.order@.len() > 0 {
                assert(pre.entry_ok(pre.order@.len() - 1));
                assert(pre.order@.contains(pre.order@.last()));
            }
        }
        match self.last {
            Some(l) => {
                self.set_prev(h, Some(l));
                self.set_next(l, Some(h));
            },
            None => {
                self.first = Some(h);
            },
        }
        self.last = Some(h);
        self.order = Ghost(pre.order@.push(h));
        proof {
            let ord0 = pre.order@;
            let ord1 = self.order@;
            assert(ord1.no_duplicates()) by {
                assert(forall|i: int|
                    0 <= i < ord0.len() ==> ord1[i] == ord0[i] && ord0.contains(#[trigger] ord0[i]));
            }
            assert forall|j: int| 0 <= j < ord1.len() implies #[trigger] self.entry_ok(j) by {
                if j < ord0.len() {
                    assert(pre.entry_ok(j));
                    assert(ord0.contains(ord0[j]));
                    if 0 <= j - 1 {
                        assert(pre.entry_ok(j - 1));
                        assert(ord0.contains(ord0[j - 1]));
                    }
                    if j + 1 < ord0.len() {
                        assert(pre.entry_ok(j + 1));
                        assert(ord0.contains(ord0[j + 1]));
                    }
                    if j == ord0.len() - 1 {
                        assert(self.nodes@[ord1[j] as int].unwrap().next == Some(h));
                    }
                }
            }
            assert forall|g: usize| ord0.contains(g) implies #[trigger] self.spec_value(g) == pre.spec_value(
                g,
            ) by {
                pre.lemma_handle_live(g);
            }
            assert forall|x: usize|
                x < self.nodes@.len() implies (#[trigger] self.nodes@[x as int].is_none()
                <==> self.free@.contains(x)) by {
                assert(pre.nodes@[x as int].is_none() <==> pre.free@.contains(x));
            }
        }
    }

    /// Append a value; the returned handle stays valid until the node is removed.
    pub fn push(&mut self, value: T) -> (h: usize)
        requires
            old(self).wf(),
        ensures
            final(self).wf(),
            !old(self).handles().contains(h),
            final(self).handles() == old(self).handles().push(h),
            final(self).spec_value(h) == value,
            forall|g: usize|
                old(self).handles().contains(g) ==> #[trigger] final(self).spec_value(g) == old(
                    self,
                ).spec_value(g),
    {
        let ghost pre = *self;
        let node = LinkedListNode { next: None, prev: None, value };
        let h: usize;
        match self.free.pop() {
            Some(id) => {
                proof {
                    assert(pre.free@.contains(pre.free@.last()));
                    assert(pre.free@[pre.free@.len() - 1] < pre.nodes@.len());
                    assert(pre.nodes@[id as int].is_none());
                    if pre.order@.contains(id) {
                        pre.lemma_handle_live(id);
                    }
                }
                self.nodes[id] = Some(node);
                h = id;
                proof {
                    self.lemma_alloc_reuse_wf(pre, id);
                }
            },
            None => {
                h = self.nodes.len();
                proof {
                    if pre.order@.contains(h) {
                        pre.lemma_handle_live(h);
                    }
                }
                self.nodes.push(Some(node));
                proof {
                    self.lemma_alloc_fresh_wf(pre, h);
                }
            },
        }
        self.set_node_last(h);
        h
    }

    /// Whether the list currently holds no nodes.
    pub fn is_empty(&self) -> (r: bool)
        requires
            self.wf(),
        ensures
            r == (self.handles().len() == 0),
    {
        self.first.is_none()
    }

    /// Read the value behind a live handle.
    pub fn get_value(&self, h: usize) -> (v: &T)
        requires
            self.wf(),
            self.handles().contains(h),
        ensures
            *v == self.spec_value(h),
    {
        proof {
            self.lemma_handle_live(h);
        }
        let n = self.nodes[h].as_ref().unwrap();
        &n.value
    }

    /// Detach a live node from the chain without deallocating it.
    fn unlink(&mut self, h: usize)
        requires
            old(self).wf(),
            old(self).handles().contains(h),
        ensures
            final(self).wf(),
            final(self).detached_ok(h),
            final(self).nodes@.len() == old(self).nodes@.len(),
            final(self).handles() == old(self).handles().remove(old(self).handles().index_of(h)),
            final(self).spec_value(h) == old(self).spec_value(h),
            forall|g: usize|
                old(self).handles().contains(g) ==> #[trigger] final(self).spec_value(g) == old(
                    self,
                ).spec_value(g),
            final(self).free == old(self).free,
    {
        let ghost pre = *self;
        let ghost ord = pre.order@;
        let ghost j = ord.index_of(h);
        proof {
            assert(0 <= j < ord.len() && ord[j] == h);
            assert(pre.entry_ok(j));
            if j > 0 {
                assert(pre.entry_ok(j - 1));
                assert(ord.contains(ord[j - 1]));
                pre.lemma_handle_live(ord[j - 1]);
            }
            if j < ord.len() - 1 {
                assert(pre.entry_ok(j + 1));
                assert(ord.contains(ord[j + 1]));
                pre.lemma_handle_live(ord[j + 1]);
            }
        }
        let p: Option<usize>;
        let n: Option<usize>;
        match &self.nodes[h] {
            Some(nd) => {
                p = nd.prev;
                n = nd.next;
            },
            None => {
                proof {
                    assert(false);
                }
                p = None;
                n = None;
            },
        }
        match n {
            Some(nx) => {
                self.set_prev(nx, p);
            },
            None => {
                self.last = p;
            },
        }
        match p {
            Some(pv) => {
                self.set_next(pv, n);
            },
            None => {
                self.first = n;
            },
        }
        self.set_prev(h, None);
        self.set_next(h, None);
        self.order = Ghost(ord.remove(j));
        proof {
            let ord2 = self.order@;
            ord.remove_ensures(j);
            assert(ord2.no_duplicates()) by {
                assert forall|a: int, b: int| 0 <= a < b < ord2.len() implies ord2[a] != ord2[b] by {
                    let a0 = if a < j {
                        a
                    } else {
                        a + 1
                    };
                    let b0 = if b < j {
                        b
                    } else {
                        b + 1
                    };
                    assert(ord2[a] == ord[a0] && ord2[b] == ord[b0]);
                }
            }
            assert forall|i: int| 0 <= i < ord2.len() implies #[trigger] self.entry_ok(i) by {
                assert(pre.entry_ok(if i < j {
                    i
                } else {
                    i + 1
                }));
                if i > 0 {
                    assert(pre.entry_ok(if i - 1 < j {
                        i - 1
                    } else {
                        i
                    }));
                }
                if i < ord2.len() - 1 {
                    assert(pre.entry_ok(if i + 1 < j {
                        i + 1
                    } else {
                        i + 2
                    }));
                }
            }
            assert(!ord2.contains(h)) by {
                if ord2.contains(h) {
                    let i = choose|i: int| 0 <= i < ord2.len() && ord2[i] == h;
                    let i0 = if i < j {
                        i
                    } else {
                        i + 1
                    };
                    assert(ord[i0] == h && ord[j] == h && i0 != j);
                }
            }
            assert forall|g: usize| ord.contains(g) implies #[trigger] self.spec_value(g) == pre.spec_value(
                g,
            ) by {
                pre.lemma_handle_live(g);
            }
            assert forall|x: usize|
                x < self.nodes@.len() implies (#[trigger] self.nodes@[x as int].is_none()
                <==> self.free@.contains(x)) by {
                assert(pre.nodes@[x as int].is_none() <==> pre.free@.contains(x));
            }
        }
    }

    /// Detach a node and re-append it at the back.
    pub fn move_to_last(&mut self, h: usize)
        requires
            old(self).wf(),
            old(self).handles().contains(h),
        ensures
            final(self).wf(),
            final(self).handles() == old(self).handles().remove(
                old(self).handles().index_of(h),
            ).push(h),
            forall|g: usize|
                old(self).handles().contains(g) ==> #[trigger] final(self).spec_value(g) == old(
                    self,
                ).spec_value(g),
    {
        let ghost pre = *self;
        self.unlink(h);
        let ghost mid = *self;
        self.set_node_last(h);
        proof {
            let ord = pre.handles();
            let j = ord.index_of(h);
            ord.remove_ensures(j);
            assert forall|g: usize| ord.contains(g) implies #[trigger] self.spec_value(g)
                == pre.spec_value(g) by {
                if g != h {
                    let i = choose|i: int| 0 <= i < ord.len() && ord[i] == g;
                    let i2 = if i < j {
                        i
                    } else {
                        i - 1
                    };
                    assert(mid.handles()[i2] == g);
                    assert(mid.handles().contains(g));
                }
            }
        }
    }

    /// Remove a live node entirely, returning its value; the arena slot is recycled.
    pub(crate) fn remove_node(&mut self, h: usize) -> (v: T)
        requires
            old(self).wf(),
            old(self).handles().contains(h),
        ensures
            final(self).wf(),
            v == old(self).spec_value(h),
            final(self).handles() == old(self).handles().remove(old(self).handles().index_of(h)),
            forall|g: usize|
                old(self).handles().contains(g) && g != h ==> #[trigger] final(self).spec_value(g)
                    == old(self).spec_value(g),
    {
        let ghost pre = *self;
        self.unlink(h);
        let ghost mid = *self;
        let elem = &mut self.nodes[h];
        let taken = elem.take();
        proof {
            assert(taken.is_some());
            assert(self.nodes@ == mid.nodes@.update(h as int, None::<LinkedListNode<T>>));
        }
        let node = taken.unwrap();
        self.free.push(h);
        self.order = Ghost(mid.order@);
        proof {
            let ord2 = self.order@;
            assert forall|i: int| 0 <= i < ord2.len() implies #[trigger] self.entry_ok(i) by {
                assert(mid.entry_ok(i));
                assert(ord2.contains(ord2[i]));
            }
            assert(mid.detached_ok(h));
            assert(!mid.nodes@[h as int].is_none());
            assert(!mid.free@.contains(h));
            assert(self.free@.no_duplicates()) by {
                assert forall|a: int, b: int|
                    0 <= a < b < self.free@.len() implies self.free@[a] != self.free@[b] by {
                    if b < self.free@.len() - 1 {
                        assert(mid.free@[a] == self.free@[a] && mid.free@[b] == self.free@[b]);
                    } else {
                        assert(self.free@[b] == h && mid.free@.contains(mid.free@[a]));
                    }
                }
            }
            assert forall|x: usize|
                x < self.nodes@.len() implies (#[trigger] self.nodes@[x as int].is_none()
                <==> self.free@.contains(x)) by {
                assert(mid.nodes@[x as int].is_none() <==> mid.free@.contains(x));
                if x == h {
                    assert(self.free@[self.free@.len() - 1] == h);
                    assert(self.free@.contains(h));
                } else {
                    if mid.free@.contains(x) {
                        let i = choose|i: int| 0 <= i < mid.free@.len() && mid.free@[i] == x;
                        assert(self.free@[i] == x);
                        assert(self.free@.contains(x));
                    }
                    if self.free@.contains(x) {
                        let i = choose|i: int| 0 <= i < self.free@.len() && self.free@[i] == x;
                        assert(i < self.free@.len() - 1 || self.free@[i] == h);
                        assert(mid.free@[i] == x);
                        assert(mid.free@.contains(x));
                    }
                }
            }
            assert forall|g: usize| pre.handles().contains(g) && g != h implies #[trigger] self.spec_value(
                g,
            ) == pre.spec_value(g) by {
                pre.lemma_handle_live(g);
                assert(mid.spec_value(g) == pre.spec_value(g));
                assert(self.nodes@[g as int] == mid.nodes@[g as int]);
            }
        }
        node.value
    }

    /// Unlink and return the front node, or report the list empty.
    pub fn remove_first(&mut self) -> (r: Option<(usize, T)>)
        requires
            old(self).wf(),
        ensures
            old(self).handles().len() == 0 ==> r.is_none() && *final(self) == *old(self),
            old(self).handles().len() > 0 ==> {
                &&& r.is_some()
                &&& r.unwrap().0 == old(self).handles()[0]
                &&& r.unwrap().1 == old(self).spec_value(old(self).handles()[0])
                &&& final(self).wf()
                &&& final(self).handles() == old(self).handles().drop_first()
                &&& forall|g: usize|
                    old(self).handles().contains(g) && g != old(self).handles()[0]
                        ==> #[trigger] final(self).spec_value(g) == old(self).spec_value(g)
            },
    {
        let ghost pre = *self;
        match self.first {
            None => None,
            Some(h0) => {
                proof {
                    assert(pre.order@[0] == h0);
                    assert(pre.order@.contains(h0));
                    assert(pre.order@.index_of(h0) == 0) by {
                        let i = pre.order@.index_of(h0);
                        assert(0 <= i < pre.order@.len() && pre.order@[i] == h0);
                        if i != 0 {
                            assert(pre.order@[0] == h0);
                        }
                    }
                }
                let v = self.remove_node(h0);
                proof {
                    assert(pre.order@.remove(0) =~= pre.order@.drop_first());
                }
                Some((h0, v))
            },
        }
    }

    /// Reusing a free arena slot keeps the structure consistent.
    proof fn lemma_alloc_reuse_wf(&self, pre: Self, id: usize)
        requires
            pre.wf(),
            id < pre.nodes@.len(),
            pre.nodes@[id as int].is_none(),
            pre.free@.len() > 0,
            pre.free@.last() == id,
            self.nodes@ == pre.nodes@.update(
                id as int,
                Some((LinkedListNode { next: None::<usize>, prev: None::<usize>, value: self.spec_value(id) })),
            ),
            self.free@ == pre.free@.drop_last(),
            self.first == pre.first,
            self.last == pre.last,
            self.order == pre.order,
        ensures
            self.wf(),
            self.detached_ok(id),
            forall|g: usize|
                pre.handles().contains(g) ==> #[trigger] self.spec_value(g) == pre.spec_value(g),
    {
        let ord = pre.order@;
        if ord.contains(id) {
            pre.lemma_handle_live(id);
        }
        assert forall|g: usize| ord.contains(g) implies #[trigger] self.spec_value(g) == pre.spec_value(
            g,
        ) by {
            pre.lemma_handle_live(g);
        }
        assert forall|j: int| 0 <= j < ord.len() implies #[trigger] self.entry_ok(j) by {
            assert(pre.entry_ok(j));
            assert(ord.contains(ord[j]));
        }
        assert(self.free@.no_duplicates()) by {
            assert(forall|i: int|
                0 <= i < self.free@.len() ==> self.free@[i] == pre.free@[i]);
        }
        assert forall|x: usize|
            x < self.nodes@.len() implies (#[trigger] self.nodes@[x as int].is_none()
            <==> self.free@.contains(x)) by {
            assert(pre.nodes@[x as int].is_none() <==> pre.free@.contains(x));
            if x == id {
                if self.free@.contains(id) {
                    let i = choose|i: int| 0 <= i < self.free@.len() && self.free@[i] == id;
                    assert(pre.free@[i] == id);
                    assert(pre.free@[pre.free@.len() - 1] == id);
                }
            } else {
                if pre.free@.contains(x) {
                    let i = choose|i: int| 0 <= i < pre.free@.len() && pre.free@[i] == x;
                    assert(pre.free@[i] == x);
                    assert(pre.free@[pre.free@.len() - 1] == id);
                    assert(i != pre.free@.len() - 1);
                    assert(self.free@[i] == x);
                    assert(self.free@.contains(x));
                }
                if self.free@.contains(x) {
                    let i = choose|i: int| 0 <= i < self.free@.len() && self.free@[i] == x;
                    assert(pre.free@[i] == x);
                    assert(pre.free@.contains(x));
                }
            }
        }
    }

    /// Growing the arena by one slot keeps the structure consistent.
    proof fn lemma_alloc_fresh_wf(&self, pre: Self, h: usize)
        requires
            pre.wf(),
            h == pre.nodes@.len(),
            self.nodes@ == pre.nodes@.push(
                Some((LinkedListNode { next: None::<usize>, prev: None::<usize>, value: self.spec_value(h) })),
            ),
            self.free@ == pre.free@,
            self.first == pre.first,
            self.last == pre.last,
            self.order == pre.order,
        ensures
            self.wf(),
            self.detached_ok(h),
            forall|g: usize|
                pre.handles().contains(g) ==> #[trigger] self.spec_value(g) == pre.spec_value(g),
    {
        let ord = pre.order@;
        assert forall|j: int| 0 <= j < ord.len() implies #[trigger] self.entry_ok(j) by {
            assert(pre.entry_ok(j));
        }
        assert forall|g: usize| ord.contains(g) implies #[trigger] self.spec_value(g) == pre.spec_value(
            g,
        ) by {
            pre.lemma_handle_live(g);
        }
        if ord.contains(h) {
            pre.lemma_handle_live(h);
        }
        assert forall|x: usize|
            x < self.nodes@.len() implies (#[trigger] self.nodes@[x as int].is_none()
            <==> self.free@.contains(x)) by {
            if x < pre.nodes@.len() {
                assert(pre.nodes@[x as int].is_none() <==> pre.free@.contains(x));
            } else {
                if self.free@.contains(h) {
                    let i = choose|i: int| 0 <= i < self.free@.len() && self.free@[i] == h;
                    assert(pre.free@[i] < pre.nodes@.len());
                }
            }
        }
    }
}

} // verus!
