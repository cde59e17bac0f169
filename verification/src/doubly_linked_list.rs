//! A doubly linked list with stable node handles.
//!
//! Nodes live in a grow-only arena of slots; a handle is the slot index of a
//! node. `prev`/`next` are stored as handles, so there are no raw pointers,
//! and a handle stays valid until its own node is removed: surgery elsewhere
//! in the list never invalidates it. The list's view is the sequence of
//! elements in list order; `valid` and `pos` tie a handle to its position.

use vstd::prelude::*;

verus! {

/// One slot of the list's backing arena. `prev` and `next` hold the handles
/// of the neighbouring nodes, if any.
#[derive(Clone, Copy)]
pub struct Node<T> {
    pub elem: T,
    pub prev: Option<usize>,
    pub next: Option<usize>,
}

/// A doubly linked list of `T` values addressed by stable handles.
pub struct List<T> {
    nodes: Vec<Node<T>>,
    head: Option<usize>,
    tail: Option<usize>,
    ord: Ghost<Seq<usize>>,
}

impl<T> View for List<T> {
    type V = Seq<T>;

    closed spec fn view(&self) -> Seq<T> {
        Seq::new(self.ord@.len(), |k: int| self.nodes@[self.ord@[k] as int].elem)
    }
}

proof fn lemma_two_part_remove<T>(s0: Seq<T>, pos: int, i: int)
    requires
        0 <= pos,
        0 <= i,
        pos + i < s0.len(),
    ensures
        (s0.subrange(0, pos) + s0.subrange(pos + i, s0.len() as int)).remove(pos) == s0.subrange(
            0,
            pos,
        ) + s0.subrange(pos + i + 1, s0.len() as int),
{
    assert((s0.subrange(0, pos) + s0.subrange(pos + i, s0.len() as int)).remove(pos)
        =~= s0.subrange(0, pos) + s0.subrange(pos + i + 1, s0.len() as int));
}

proof fn lemma_three_part_insert<T>(s0: Seq<T>, r: Seq<T>, pos: int, n: int, j: int, x: T)
    requires
        0 <= pos,
        0 <= n,
        pos + n <= s0.len(),
        0 <= j < r.len(),
        x == r[j],
    ensures
        (s0.subrange(0, pos) + r.subrange(0, j) + s0.subrange(pos + n, s0.len() as int)).insert(
            pos + j,
            x,
        ) == s0.subrange(0, pos) + r.subrange(0, j + 1) + s0.subrange(pos + n, s0.len() as int),
{
    assert((s0.subrange(0, pos) + r.subrange(0, j) + s0.subrange(pos + n, s0.len() as int)).insert(
        pos + j,
        x,
    ) =~= s0.subrange(0, pos) + r.subrange(0, j + 1) + s0.subrange(pos + n, s0.len() as int));
}

impl<T: Copy> List<T> {
    /// Internal invariant: the ghost order lists distinct in-bounds slots,
    /// and head/tail/prev/next mirror adjacency in that order.
    pub closed spec fn wf(&self) -> bool {
        &&& self.ord@.len() <= self.nodes@.len()
        &&& forall|k: int|
            0 <= k < self.ord@.len() ==> (#[trigger] self.ord@[k]) < self.nodes@.len()
        &&& self.ord@.no_duplicates()
        &&& self.head == (if self.ord@.len() == 0 {
            None::<usize>
        } else {
            Some(self.ord@[0])
        })
        &&& self.tail == (if self.ord@.len() == 0 {
            None::<usize>
        } else {
            Some(self.ord@[self.ord@.len() - 1])
        })
        &&& forall|k: int|
            0 <= k < self.ord@.len() ==> self.nodes@[(#[trigger] self.ord@[k]) as int].prev == (
            if k == 0 {
                None::<usize>
            } else {
                Some(self.ord@[k - 1])
            })
        &&& forall|k: int|
            0 <= k < self.ord@.len() ==> self.nodes@[(#[trigger] self.ord@[k]) as int].next == (
            if k + 1 == self.ord@.len() {
                None::<usize>
            } else {
                Some(self.ord@[k + 1])
            })
    }

    /// Whether `h` is the handle of a node currently in the list.
    pub closed spec fn valid(&self, h: usize) -> bool {
        self.ord@.contains(h)
    }

    /// The list position of the node with handle `h`.
    pub closed spec fn pos(&self, h: usize) -> int {
        self.ord@.index_of(h)
    }

    proof fn lemma_pos(&self, h: usize)
        requires
            self.wf(),
            self.valid(h),
        ensures
            0 <= self.pos(h) < self@.len(),
            self.ord@[self.pos(h)] == h,
            self@.len() == self.ord@.len(),
    {
    }

    /// A valid handle's position lies inside the list.
    pub proof fn lemma_handle_pos(&self, h: usize)
        requires
            self.wf(),
            self.valid(h),
        ensures
            0 <= self.pos(h) < self@.len(),
    {
        self.lemma_pos(h);
    }

    /// The list is no longer than its backing arena, so its length fits in
    /// a `usize`.
    pub proof fn lemma_len_bound(&self)
        requires
            self.wf(),
        ensures
            self@.len() <= usize::MAX,
    {
        vstd::std_specs::vec::axiom_spec_len(&self.nodes);
    }

    proof fn lemma_pos_unique(&self, h: usize, k: int)
        requires
            self.wf(),
            0 <= k < self.ord@.len(),
            self.ord@[k] == h,
        ensures
            self.valid(h),
            self.pos(h) == k,
    {
        assert(self.ord@.contains(h));
        self.lemma_pos(h);
        if self.pos(h) != k {
            assert(self.ord@[self.pos(h)] == self.ord@[k]);
            assert(false);
        }
    }

    /// The handle of the first node, if any.
    pub closed spec fn head_handle(&self) -> Option<usize> {
        self.head
    }

    /// The handle of the last node, if any.
    pub closed spec fn tail_handle(&self) -> Option<usize> {
        self.tail
    }

    /// The elements collected by following `next` links from `oh`, reading
    /// at most `fuel` nodes.
    pub closed spec fn chain_forward(&self, oh: Option<usize>, fuel: nat) -> Seq<T>
        decreases fuel,
    {
        if fuel == 0 {
            Seq::empty()
        } else {
            match oh {
                None => Seq::empty(),
                Some(h) => if h < self.nodes@.len() {
                    seq![self.nodes@[h as int].elem] + self.chain_forward(
                        self.nodes@[h as int].next,
                        (fuel - 1) as nat,
                    )
                } else {
                    Seq::empty()
                },
            }
        }
    }

    /// The elements collected by following `prev` links from `oh`, reading
    /// at most `fuel` nodes; the result is in back-to-front order.
    pub closed spec fn chain_backward(&self, oh: Option<usize>, fuel: nat) -> Seq<T>
        decreases fuel,
    {
        if fuel == 0 {
            Seq::empty()
        } else {
            match oh {
                None => Seq::empty(),
                Some(h) => if h < self.nodes@.len() {
                    seq![self.nodes@[h as int].elem] + self.chain_backward(
                        self.nodes@[h as int].prev,
                        (fuel - 1) as nat,
                    )
                } else {
                    Seq::empty()
                },
            }
        }
    }

    proof fn lemma_chain_forward_from(&self, k: int)
        requires
            self.wf(),
            0 <= k <= self.ord@.len(),
        ensures
            self.chain_forward(
                if k == self.ord@.len() {
                    None
                } else {
                    Some(self.ord@[k])
                },
                (self.ord@.len() - k) as nat,
            ) == self@.subrange(k, self@.len() as int),
        decreases self.ord@.len() - k,
    {
        let n = self.ord@.len() as int;
        if k == n {
            assert(self@.subrange(n, n) =~= Seq::<T>::empty());
        } else {
            let h = self.ord@[k];
            assert(self.nodes@[h as int].next == (if k + 1 == n {
                None::<usize>
            } else {
                Some(self.ord@[k + 1])
            }));
            self.lemma_chain_forward_from(k + 1);
            assert(self.chain_forward(Some(h), (n - k) as nat) =~= self@.subrange(k, n));
        }
    }

    proof fn lemma_chain_backward_from(&self, k: int)
        requires
            self.wf(),
            -1 <= k < self.ord@.len(),
        ensures
            self.chain_backward(
                if k == -1 {
                    None
                } else {
                    Some(self.ord@[k])
                },
                (k + 1) as nat,
            ) == self@.subrange(0, k + 1).reverse(),
        decreases k + 1,
    {
        if k == -1 {
            assert(self@.subrange(0, 0).reverse() =~= Seq::<T>::empty());
        } else {
            let h = self.ord@[k];
            assert(self.nodes@[h as int].prev == (if k == 0 {
                None::<usize>
            } else {
                Some(self.ord@[k - 1])
            }));
            self.lemma_chain_backward_from(k - 1);
            assert(self.chain_backward(Some(h), (k + 1) as nat) =~= self@.subrange(
                0,
                k + 1,
            ).reverse());
        }
    }

    /// List integrity: the forward traversal along `next` links from the
    /// head yields the list's elements, and the backward traversal along
    /// `prev` links from the tail yields the same elements reversed.
    pub proof fn lemma_traversal_symmetry(&self)
        requires
            self.wf(),
        ensures
            self.chain_forward(self.head_handle(), self@.len() as nat) == self@,
            self.chain_backward(self.tail_handle(), self@.len() as nat) == self@.reverse(),
    {
        self.lemma_chain_forward_from(0);
        self.lemma_chain_backward_from(self.ord@.len() - 1);
        assert(self@.subrange(0, self@.len() as int) =~= self@);
        if self.ord@.len() == 0 {
            assert(self@.reverse() =~= Seq::<T>::empty());
        }
    }

    pub fn new() -> (l: List<T>)
        ensures
            l.wf(),
            l@ == Seq::<T>::empty(),
    {
        let l = List { nodes: Vec::new(), head: None, tail: None, ord: Ghost(Seq::empty()) };
        proof {
            assert(l@ =~= Seq::<T>::empty());
        }
        l
    }

    pub fn head(&self) -> (r: Option<usize>)
        requires
            self.wf(),
        ensures
            match r {
                Some(h) => self@.len() > 0 && self.valid(h) && self.pos(h) == 0,
                None => self@.len() == 0,
            },
    {
        proof {
            if self.ord@.len() > 0 {
                self.lemma_pos_unique(self.ord@[0], 0);
            }
        }
        self.head
    }

    pub fn tail(&self) -> (r: Option<usize>)
        requires
            self.wf(),
        ensures
            match r {
                Some(h) => self@.len() > 0 && self.valid(h) && self.pos(h) == self@.len() - 1,
                None => self@.len() == 0,
            },
    {
        proof {
            if self.ord@.len() > 0 {
                self.lemma_pos_unique(self.ord@[self.ord@.len() - 1], self.ord@.len() - 1);
            }
        }
        self.tail
    }

    pub fn next(&self, h: usize) -> (r: Option<usize>)
        requires
            self.wf(),
            self.valid(h),
        ensures
            match r {
                Some(h2) => self.pos(h) + 1 < self@.len() && self.valid(h2) && self.pos(h2)
                    == self.pos(h) + 1,
                None => self.pos(h) == self@.len() - 1,
            },
    {
        proof {
            self.lemma_pos(h);
            let k = self.pos(h);
            if k + 1 < self.ord@.len() {
                self.lemma_pos_unique(self.ord@[k + 1], k + 1);
            }
        }
        self.nodes[h].next
    }

    pub fn prev(&self, h: usize) -> (r: Option<usize>)
        requires
            self.wf(),
            self.valid(h),
        ensures
            match r {
                Some(h2) => self.pos(h) >= 1 && self.valid(h2) && self.pos(h2) == self.pos(h) - 1,
                None => self.pos(h) == 0,
            },
    {
        proof {
            self.lemma_pos(h);
            let k = self.pos(h);
            if k >= 1 {
                self.lemma_pos_unique(self.ord@[k - 1], k - 1);
            }
        }
        self.nodes[h].prev
    }

    /// Read the element of the node with handle `h`.
    pub fn get(&self, h: usize) -> (r: T)
        requires
            self.wf(),
            self.valid(h),
        ensures
            r == self@[self.pos(h)],
    {
        proof {
            self.lemma_pos(h);
        }
        self.nodes[h].elem
    }

    pub fn push_back(&mut self, elem: T)
        requires
            old(self).wf(),
        ensures
            final(self).wf(),
            final(self)@ == old(self)@.push(elem),
            forall|g: usize|
                old(self).valid(g) ==> final(self).valid(g) && final(self).pos(g) == old(
                    self,
                ).pos(g),
    {
        let idx = self.nodes.len();
        let node = Node { elem, prev: self.tail, next: None };
        self.nodes.push(node);
        match self.tail {
            Some(t) => {
                let mut tn = self.nodes[t];
                tn.next = Some(idx);
                self.nodes[t] = tn;
            },
            None => {
                self.head = Some(idx);
            },
        }
        self.tail = Some(idx);
        proof {
            let o0 = old(self).ord@;
            self.ord@ = o0.push(idx);
            assert forall|k: int| 0 <= k < o0.len() implies o0[k] != idx by {}
            assert(self.ord@.no_duplicates());
            assert forall|k: int|
                0 <= k < self.ord@.len() implies self.nodes@[(#[trigger] self.ord@[k]) as int].prev
                == (if k == 0 {
                None::<usize>
            } else {
                Some(self.ord@[k - 1])
            }) && self.nodes@[self.ord@[k] as int].next == (if k + 1 == self.ord@.len() {
                None::<usize>
            } else {
                Some(self.ord@[k + 1])
            }) by {
                if k < o0.len() {
                    assert(old(self).nodes@[o0[k] as int].prev == (if k == 0 {
                        None::<usize>
                    } else {
                        Some(o0[k - 1])
                    }));
                }
            }
            assert(self.wf());
            assert(self@ =~= old(self)@.push(elem));
            assert forall|g: usize| old(self).valid(g) implies self.valid(g) && self.pos(g) == old(
                self,
            ).pos(g) by {
                old(self).lemma_pos(g);
                let k = old(self).pos(g);
                self.lemma_pos_unique(g, k);
            }
        }
    }

    pub fn push_front(&mut self, elem: T)
        requires
            old(self).wf(),
        ensures
            final(self).wf(),
            final(self)@ == seq![elem] + old(self)@,
            forall|g: usize|
                old(self).valid(g) ==> final(self).valid(g) && final(self).pos(g) == old(
                    self,
                ).pos(g) + 1,
    {
        let idx = self.nodes.len();
        let node = Node { elem, prev: None, next: self.head };
        self.nodes.push(node);
        match self.head {
            Some(h) => {
                let mut hn = self.nodes[h];
                hn.prev = Some(idx);
                self.nodes[h] = hn;
            },
            None => {
                self.tail = Some(idx);
            },
        }
        self.head = Some(idx);
        proof {
            let o0 = old(self).ord@;
            self.ord@ = seq![idx].add(o0);
            assert forall|k: int| 0 <= k < o0.len() implies o0[k] != idx by {}
            assert(self.ord@.no_duplicates());
            assert forall|k: int|
                0 <= k < self.ord@.len() implies self.nodes@[(#[trigger] self.ord@[k]) as int].prev
                == (if k == 0 {
                None::<usize>
            } else {
                Some(self.ord@[k - 1])
            }) && self.nodes@[self.ord@[k] as int].next == (if k + 1 == self.ord@.len() {
                None::<usize>
            } else {
                Some(self.ord@[k + 1])
            }) by {
                if k >= 1 {
                    assert(self.ord@[k] == o0[k - 1]);
                    assert(old(self).nodes@[o0[k - 1] as int].prev == (if k - 1 == 0 {
                        None::<usize>
                    } else {
                        Some(o0[k - 2])
                    }));
                    assert(old(self).nodes@[o0[k - 1] as int].next == (if k == o0.len() {
                        None::<usize>
                    } else {
                        Some(o0[k])
                    }));
                }
            }
            assert(self.wf());
            assert(self@ =~= seq![elem] + old(self)@);
            assert forall|g: usize| old(self).valid(g) implies self.valid(g) && self.pos(g) == old(
                self,
            ).pos(g) + 1 by {
                old(self).lemma_pos(g);
                let k = old(self).pos(g);
                assert(self.ord@[k + 1] == g);
                self.lemma_pos_unique(g, k + 1);
            }
        }
    }
    /// Detach the node with handle `h` and return its element. Handles of
    /// all other nodes stay valid.
    #[verifier::rlimit(100)]
    #[verifier::spinoff_prover]
    pub fn remove(&mut self, h: usize) -> (r: T)
        requires
            old(self).wf(),
            old(self).valid(h),
        ensures
            final(self).wf(),
            r == old(self)@[old(self).pos(h)],
            final(self)@ == old(self)@.remove(old(self).pos(h)),
            !final(self).valid(h),
            forall|g: usize|
                old(self).valid(g) && g != h ==> final(self).valid(g) && final(self).pos(g) == (
                if old(self).pos(g) < old(self).pos(h) {
                    old(self).pos(g)
                } else {
                    old(self).pos(g) - 1
                }),
    {
        proof {
            self.lemma_pos(h);
        }
        let ghost k = self.pos(h);
        let node = self.nodes[h];
        match node.prev {
            Some(p) => {
                let mut pn = self.nodes[p];
                pn.next = node.next;
                self.nodes[p] = pn;
            },
            None => {
                self.head = node.next;
            },
        }
        match node.next {
            Some(nx) => {
                let mut nn = self.nodes[nx];
                nn.prev = node.prev;
                self.nodes[nx] = nn;
            },
            None => {
                self.tail = node.prev;
            },
        }
        proof {
            let o0 = old(self).ord@;
            self.ord@ = o0.remove(k);
            let o1 = self.ord@;
            assert forall|i: int, j: int|
                0 <= i < o1.len() && 0 <= j < o1.len() && i != j implies o1[i] != o1[j] by {
                let i0 = if i < k {
                    i
                } else {
                    i + 1
                };
                let j0 = if j < k {
                    j
                } else {
                    j + 1
                };
                assert(o1[i] == o0[i0] && o1[j] == o0[j0]);
            }
            assert forall|i: int|
                0 <= i < o1.len() implies self.nodes@[(#[trigger] o1[i]) as int].prev == (if i == 0 {
                None::<usize>
            } else {
                Some(o1[i - 1])
            }) && self.nodes@[o1[i] as int].next == (if i + 1 == o1.len() {
                None::<usize>
            } else {
                Some(o1[i + 1])
            }) by {
                let i0 = if i < k {
                    i
                } else {
                    i + 1
                };
                assert(o1[i] == o0[i0]);
                assert(old(self).nodes@[o0[i0] as int].prev == (if i0 == 0 {
                    None::<usize>
                } else {
                    Some(o0[i0 - 1])
                }));
                assert(old(self).nodes@[o0[i0] as int].next == (if i0 + 1 == o0.len() {
                    None::<usize>
                } else {
                    Some(o0[i0 + 1])
                }));
                if i < k {
                    assert(i - 1 < k && o1[i] == o0[i]);
                }
            }
            assert(self.wf());
            assert(self@ =~= old(self)@.remove(k));
            assert forall|i: int| 0 <= i < o1.len() implies o1[i] != h by {
                let i0 = if i < k {
                    i
                } else {
                    i + 1
                };
                assert(o1[i] == o0[i0] && o0[k] == h);
            }
            assert(!self.valid(h));
            assert forall|g: usize| old(self).valid(g) && g != h implies self.valid(g)
                && self.pos(g) == (if old(self).pos(g) < k {
                old(self).pos(g)
            } else {
                old(self).pos(g) - 1
            }) by {
                old(self).lemma_pos(g);
                let j0 = old(self).pos(g);
                if j0 < k {
                    assert(o1[j0] == o0[j0]);
                    self.lemma_pos_unique(g, j0);
                } else {
                    assert(o1[j0 - 1] == o0[j0]);
                    self.lemma_pos_unique(g, j0 - 1);
                }
            }
        }
        node.elem
    }

    /// Splice a new node holding `elem` in immediately after the node with
    /// handle `h`; returns the new node's handle.
    #[verifier::rlimit(60)]
    #[verifier::spinoff_prover]
    pub fn insert_node_after(&mut self, h: usize, elem: T) -> (nh: usize)
        requires
            old(self).wf(),
            old(self).valid(h),
        ensures
            final(self).wf(),
            final(self)@ == old(self)@.insert(old(self).pos(h) + 1, elem),
            final(self).valid(nh),
            final(self).pos(nh) == old(self).pos(h) + 1,
            !old(self).valid(nh),
            forall|g: usize|
                old(self).valid(g) ==> final(self).valid(g) && final(self).pos(g) == (if old(
                    self,
                ).pos(g) <= old(self).pos(h) {
                    old(self).pos(g)
                } else {
                    old(self).pos(g) + 1
                }),
    {
        proof {
            self.lemma_pos(h);
        }
        let ghost k = self.pos(h);
        let idx = self.nodes.len();
        let hn = self.nodes[h];
        let node = Node { elem, prev: Some(h), next: hn.next };
        self.nodes.push(node);
        let mut hh = self.nodes[h];
        hh.next = Some(idx);
        self.nodes[h] = hh;
        match hn.next {
            Some(nx) => {
                proof {
                    if k + 1 < old(self).ord@.len() {
                        assert(old(self).ord@[k + 1] != old(self).ord@[k]);
                    }
                }
                let mut nn = self.nodes[nx];
                nn.prev = Some(idx);
                self.nodes[nx] = nn;
            },
            None => {
                self.tail = Some(idx);
            },
        }
        proof {
            let o0 = old(self).ord@;
            self.ord@ = o0.insert(k + 1, idx);
            let o1 = self.ord@;
            assert forall|i: int| 0 <= i < o0.len() implies o0[i] != idx by {}
            assert forall|i: int, j: int|
                0 <= i < o1.len() && 0 <= j < o1.len() && i != j implies o1[i] != o1[j] by {
                if i != k + 1 && j != k + 1 {
                    let i0 = if i < k + 1 {
                        i
                    } else {
                        i - 1
                    };
                    let j0 = if j < k + 1 {
                        j
                    } else {
                        j - 1
                    };
                    assert(o1[i] == o0[i0] && o1[j] == o0[j0]);
                }
            }
            assert forall|i: int|
                0 <= i < o1.len() implies self.nodes@[(#[trigger] o1[i]) as int].prev == (if i == 0 {
                None::<usize>
            } else {
                Some(o1[i - 1])
            }) && self.nodes@[o1[i] as int].next == (if i + 1 == o1.len() {
                None::<usize>
            } else {
                Some(o1[i + 1])
            }) by {
                if i != k + 1 {
                    let i0 = if i < k + 1 {
                        i
                    } else {
                        i - 1
                    };
                    assert(o1[i] == o0[i0]);
                    assert(old(self).nodes@[o0[i0] as int].prev == (if i0 == 0 {
                        None::<usize>
                    } else {
                        Some(o0[i0 - 1])
                    }));
                    assert(old(self).nodes@[o0[i0] as int].next == (if i0 + 1 == o0.len() {
                        None::<usize>
                    } else {
                        Some(o0[i0 + 1])
                    }));
                }
            }
            assert(self.wf());
            assert(self@ =~= old(self)@.insert(k + 1, elem));
            assert(o1[k + 1] == idx);
            self.lemma_pos_unique(idx, k + 1);
            assert forall|g: usize| old(self).valid(g) implies self.valid(g) && self.pos(g) == (
            if old(self).pos(g) <= k {
                old(self).pos(g)
            } else {
                old(self).pos(g) + 1
            }) by {
                old(self).lemma_pos(g);
                let j0 = old(self).pos(g);
                if j0 <= k {
                    assert(o1[j0] == o0[j0]);
                    self.lemma_pos_unique(g, j0);
                } else {
                    assert(o1[j0 + 1] == o0[j0]);
                    self.lemma_pos_unique(g, j0 + 1);
                }
            }
        }
        idx
    }

    /// Splice a new node holding `elem` in immediately before the node with
    /// handle `h`; returns the new node's handle.
    pub fn insert_node_before(&mut self, h: usize, elem: T) -> (nh: usize)
        requires
            old(self).wf(),
            old(self).valid(h),
        ensures
            final(self).wf(),
            final(self)@ == old(self)@.insert(old(self).pos(h), elem),
            final(self).valid(nh),
            final(self).pos(nh) == old(self).pos(h),
            !old(self).valid(nh),
            forall|g: usize|
                old(self).valid(g) ==> final(self).valid(g) && final(self).pos(g) == (if old(
                    self,
                ).pos(g) < old(self).pos(h) {
                    old(self).pos(g)
                } else {
                    old(self).pos(g) + 1
                }),
    {
        let r = match self.prev(h) {
            Some(p) => self.insert_node_after(p, elem),
            None => {
                self.push_front(elem);
                proof {
                    assert(self@ =~= old(self)@.insert(0, elem));
                }
                let r0 = match self.head() {
                    Some(nh) => nh,
                    None => {
                        proof {
                            assert(false);
                        }
                        0
                    },
                };
                r0
            },
        };
        proof {
            assert(final(self)@ =~= old(self)@.insert(old(self).pos(h), elem));
        }
        r
    }

    pub fn pop_back(&mut self) -> (r: Option<T>)
        requires
            old(self).wf(),
        ensures
            final(self).wf(),
            match r {
                Some(e) => old(self)@.len() > 0 && e == old(self)@.last() && final(self)@ == old(
                    self,
                )@.drop_last(),
                None => old(self)@.len() == 0 && final(self)@ == old(self)@,
            },
    {
        match self.tail() {
            None => None,
            Some(t) => {
                let e = self.remove(t);
                proof {
                    assert(final(self)@ =~= old(self)@.drop_last());
                }
                Some(e)
            },
        }
    }

    pub fn pop_front(&mut self) -> (r: Option<T>)
        requires
            old(self).wf(),
        ensures
            final(self).wf(),
            match r {
                Some(e) => old(self)@.len() > 0 && e == old(self)@.first() && final(self)@ == old(
                    self,
                )@.drop_first(),
                None => old(self)@.len() == 0 && final(self)@ == old(self)@,
            },
    {
        match self.head() {
            None => None,
            Some(h) => {
                let e = self.remove(h);
                proof {
                    assert(final(self)@ =~= old(self)@.drop_first());
                }
                Some(e)
            },
        }
    }

    /// Walk from the head to the node at position `pos`.
    pub(crate) fn handle_at(&self, pos: usize) -> (h: usize)
        requires
            self.wf(),
            pos < self@.len(),
        ensures
            self.valid(h),
            self.pos(h) == pos,
    {
        let mut h: usize = match self.head() {
            Some(h0) => h0,
            None => {
                proof {
                    assert(false);
                }
                0
            },
        };
        let mut i: usize = 0;
        while i < pos
            invariant
                self.wf(),
                i <= pos,
                pos < self@.len(),
                self.valid(h),
                self.pos(h) == i,
            decreases pos - i,
        {
            h = match self.next(h) {
                Some(h2) => h2,
                None => {
                    proof {
                        assert(false);
                    }
                    0
                },
            };
            i = i + 1;
        }
        h
    }

    /// Count how many nodes precede the node with handle `h`.
    pub(crate) fn position_of(&self, h: usize) -> (i: usize)
        requires
            self.wf(),
            self.valid(h),
        ensures
            i == self.pos(h),
    {
        proof {
            self.lemma_pos(h);
        }
        let bound = self.nodes.len();
        let mut cur = h;
        let mut i: usize = 0;
        loop
            invariant
                self.wf(),
                self.valid(cur),
                bound == self.nodes@.len(),
                self.pos(h) < bound,
                i <= self.pos(h),
                self.pos(cur) == self.pos(h) - i,
            decreases self.pos(cur),
        {
            proof {
                self.lemma_pos(cur);
            }
            match self.prev(cur) {
                Some(p) => {
                    cur = p;
                    i = i + 1;
                },
                None => {
                    return i;
                },
            }
        }
    }

    /// Replace the `n` nodes starting at position `pos` with fresh nodes
    /// holding the elements of `repl`, in order.
    #[verifier::rlimit(60)]
    #[verifier::spinoff_prover]
    pub(crate) fn replace_range(&mut self, pos: usize, n: usize, repl: &Vec<T>)
        requires
            old(self).wf(),
            pos + n <= old(self)@.len(),
        ensures
            final(self).wf(),
            final(self)@ == old(self)@.subrange(0, pos as int) + repl@ + old(self)@.subrange(
                pos + n,
                old(self)@.len() as int,
            ),
    {
        let ghost s0 = self@;
        let anchor: Option<usize> = if pos == 0 {
            None
        } else {
            Some(self.handle_at(pos - 1))
        };
        let mut i: usize = 0;
        while i < n
            invariant
                self.wf(),
                i <= n,
                pos + n <= s0.len(),
                self@ == s0.subrange(0, pos as int) + s0.subrange(pos + i, s0.len() as int),
                match anchor {
                    Some(a) => pos >= 1 && self.valid(a) && self.pos(a) == pos - 1,
                    None => pos == 0,
                },
            decreases n - i,
        {
            let victim = match anchor {
                None => self.head(),
                Some(a) => self.next(a),
            };
            let v = match victim {
                Some(v) => v,
                None => {
                    proof {
                        assert(false);
                    }
                    0
                },
            };
            let ghost before = self@;
            self.remove(v);
            proof {
                lemma_two_part_remove(s0, pos as int, i as int);
                assert(self@ == before.remove(pos as int));
            }
            i = i + 1;
        }
        let mut cur = anchor;
        let mut j: usize = 0;
        while j < repl.len()
            invariant
                self.wf(),
                j <= repl@.len(),
                pos + n <= s0.len(),
                self@ == s0.subrange(0, pos as int) + repl@.subrange(0, j as int) + s0.subrange(
                    pos + n,
                    s0.len() as int,
                ),
                match cur {
                    Some(c) => self.valid(c) && self.pos(c) == pos + j - 1,
                    None => pos == 0 && j == 0,
                },
            decreases repl@.len() - j,
        {
            let x = repl[j];
            let ghost before = self@;
            match cur {
                None => {
                    self.push_front(x);
                    cur = self.head();
                    proof {
                        assert(self@ =~= before.insert(0, x));
                    }
                },
                Some(c) => {
                    let nh = self.insert_node_after(c, x);
                    cur = Some(nh);
                },
            }
            proof {
                lemma_three_part_insert(s0, repl@, pos as int, n as int, j as int, x);
                assert(self@ == before.insert(pos + j, x));
            }
            j = j + 1;
        }
        proof {
            assert(repl@.subrange(0, repl@.len() as int) =~= repl@);
        }
    }

    pub fn peek_front(&self) -> (r: Option<&T>)
        requires
            self.wf(),
        ensures
            match r {
                Some(e) => self@.len() > 0 && *e == self@[0],
                None => self@.len() == 0,
            },
    {
        match self.head() {
            None => None,
            Some(h) => {
                proof {
                    self.lemma_pos(h);
                }
                Some(&self.nodes[h].elem)
            },
        }
    }

    pub fn peek_back(&self) -> (r: Option<&T>)
        requires
            self.wf(),
        ensures
            match r {
                Some(e) => self@.len() > 0 && *e == self@[self@.len() - 1],
                None => self@.len() == 0,
            },
    {
        match self.tail() {
            None => None,
            Some(t) => {
                proof {
                    self.lemma_pos(t);
                }
                Some(&self.nodes[t].elem)
            },
        }
    }

    /// Consume the list into a double-ended by-value iterator.
    pub fn into_iter(self) -> (it: IntoIter<T>)
        requires
            self.wf(),
        ensures
            it.wf(),
            it.remaining() == self@,
    {
        IntoIter(self)
    }

    /// A double-ended iterator of references into the list.
    pub fn iter(&self) -> (it: Iter<'_, T>)
        requires
            self.wf(),
        ensures
            it.wf(),
            it.remaining() == self@,
    {
        let h = self.head();
        let t = self.tail();
        let it = match (h, t) {
            (Some(hf), Some(hb)) => Iter {
                list: self,
                next: Some(hf),
                next_back: Some(hb),
                fpos: Ghost(0),
                bpos: Ghost(self@.len() - 1),
            },
            _ => Iter { list: self, next: None, next_back: None, fpos: Ghost(0), bpos: Ghost(-1) },
        };
        proof {
            assert(it.remaining() =~= self@);
        }
        it
    }
}

/// By-value double-ended iterator over a consumed list.
pub struct IntoIter<T>(List<T>);

impl<T: Copy> IntoIter<T> {
    pub closed spec fn wf(&self) -> bool {
        self.0.wf()
    }

    /// The elements not yet yielded, front to back.
    pub closed spec fn remaining(&self) -> Seq<T> {
        self.0@
    }

    pub fn next(&mut self) -> (r: Option<T>)
        requires
            old(self).wf(),
        ensures
            final(self).wf(),
            match r {
                Some(e) => old(self).remaining().len() > 0 && e == old(self).remaining()[0]
                    && final(self).remaining() == old(self).remaining().drop_first(),
                None => old(self).remaining().len() == 0 && final(self).remaining() == old(
                    self,
                ).remaining(),
            },
    {
        self.0.pop_front()
    }

    pub fn next_back(&mut self) -> (r: Option<T>)
        requires
            old(self).wf(),
        ensures
            final(self).wf(),
            match r {
                Some(e) => old(self).remaining().len() > 0 && e == old(self).remaining().last()
                    && final(self).remaining() == old(self).remaining().drop_last(),
                None => old(self).remaining().len() == 0 && final(self).remaining() == old(
                    self,
                ).remaining(),
            },
    {
        self.0.pop_back()
    }
}

/// Borrowing double-ended iterator. The two cursors walk towards each other;
/// each element is yielded once.
pub struct Iter<'a, T> {
    list: &'a List<T>,
    next: Option<usize>,
    next_back: Option<usize>,
    fpos: Ghost<int>,
    bpos: Ghost<int>,
}

impl<'a, T: Copy> Iter<'a, T> {
    pub closed spec fn wf(&self) -> bool {
        &&& self.list.wf()
        &&& 0 <= self.fpos@
        &&& self.bpos@ < self.list@.len()
        &&& match (self.next, self.next_back) {
            (Some(f), Some(b)) => self.list.valid(f) && self.list.valid(b) && self.fpos@
                == self.list.pos(f) && self.bpos@ == self.list.pos(b) && self.fpos@ <= self.bpos@,
            (None, None) => self.fpos@ == self.bpos@ + 1,
            _ => false,
        }
    }

    /// The elements not yet yielded, front to back.
    pub closed spec fn remaining(&self) -> Seq<T> {
        self.list@.subrange(self.fpos@, self.bpos@ + 1)
    }

    pub fn next(&mut self) -> (r: Option<&'a T>)
        requires
            old(self).wf(),
        ensures
            final(self).wf(),
            match r {
                Some(e) => old(self).remaining().len() > 0 && *e == old(self).remaining()[0]
                    && final(self).remaining() == old(self).remaining().drop_first(),
                None => old(self).remaining().len() == 0 && final(self).remaining() == old(
                    self,
                ).remaining(),
            },
    {
        match self.next {
            None => None,
            Some(f) => {
                let lst = self.list;
                proof {
                    lst.lemma_pos(f);
                }
                let r = &lst.nodes[f].elem;
                let same = match self.next_back {
                    Some(b) => f == b,
                    None => false,
                };
                if same {
                    self.next = None;
                    self.next_back = None;
                } else {
                    proof {
                        match self.next_back {
                            Some(b) => {
                                lst.lemma_pos(b);
                                if lst.pos(f) == lst.pos(b) {
                                    assert(lst.ord@[lst.pos(f)] == f);
                                    assert(false);
                                }
                            },
                            None => {
                                assert(false);
                            },
                        }
                    }
                    self.next = lst.next(f);
                }
                proof {
                    self.fpos@ = self.fpos@ + 1;
                    assert(self.remaining() =~= old(self).remaining().drop_first());
                }
                Some(r)
            },
        }
    }

    pub fn next_back(&mut self) -> (r: Option<&'a T>)
        requires
            old(self).wf(),
        ensures
            final(self).wf(),
            match r {
                Some(e) => old(self).remaining().len() > 0 && *e == old(self).remaining().last()
                    && final(self).remaining() == old(self).remaining().drop_last(),
                None => old(self).remaining().len() == 0 && final(self).remaining() == old(
                    self,
                ).remaining(),
            },
    {
        match self.next_back {
            None => None,
            Some(b) => {
                let lst = self.list;
                proof {
                    lst.lemma_pos(b);
                }
                let r = &lst.nodes[b].elem;
                let same = match self.next {
                    Some(f) => f == b,
                    None => false,
                };
                if same {
                    self.next = None;
                    self.next_back = None;
                    proof {
                        self.bpos@ = self.bpos@ - 1;
                    }
                } else {
                    proof {
                        match self.next {
                            Some(f) => {
                                lst.lemma_pos(f);
                                if lst.pos(f) == lst.pos(b) {
                                    assert(lst.ord@[lst.pos(f)] == f);
                                    assert(false);
                                }
                            },
                            None => {
                                assert(false);
                            },
                        }
                    }
                    self.next_back = lst.prev(b);
                    proof {
                        self.bpos@ = self.bpos@ - 1;
                    }
                }
                proof {
                    assert(self.remaining() =~= old(self).remaining().drop_last());
                }
                Some(r)
            },
        }
    }
}

} // verus!
