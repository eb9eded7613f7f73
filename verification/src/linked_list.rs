//! A circular doubly linked list held in an index arena: nodes live in a
//! vector and link to each other by index, so the ring carries no shared
//! mutable references. The insertion rule walks the ring exactly as many
//! steps as the clamped position asks for, so an insertion position past the
//! end wraps around the ring.

use vstd::arithmetic::div_mod::{
    lemma_mod_add_multiples_vanish, lemma_mod_self_0, lemma_small_mod,
};
use vstd::prelude::*;
use vstd::std_specs::cmp::PartialEqSpec;

verus! {

/// Relies on rand::random: a fresh identity tag drawn from the thread-local
/// generator. Nothing can be promised of the value, so nothing is stated.
#[verifier::external_body]
fn random_id() -> i32 {
    rand::random::<i32>()
}

/// The modular steps a ring of `n` nodes takes from a position `t`.
proof fn lemma_cyc_index(t: int, n: int)
    requires
        0 < n,
        0 <= t < n,
    ensures
        t % n == t,
        (t + n) % n == t,
        (t - 1 + n) % n == if t == 0 {
            n - 1
        } else {
            t - 1
        },
        (t + 1) % n == if t == n - 1 {
            0
        } else {
            t + 1
        },
{
    lemma_small_mod(t as nat, n as nat);
    lemma_mod_add_multiples_vanish(t, n);
    if t == 0 {
        lemma_small_mod((n - 1) as nat, n as nat);
    } else {
        lemma_mod_add_multiples_vanish(t - 1, n);
        lemma_small_mod((t - 1) as nat, n as nat);
    }
    if t == n - 1 {
        lemma_mod_self_0(n);
    } else {
        lemma_small_mod((t + 1) as nat, n as nat);
    }
}

/// A node of the ring: links to its neighbours by arena index, a random
/// identity tag, and the carried contents.
#[derive(Debug)]
pub struct DoublyLinkedListNode<T> {
    pub prev: Option<usize>,
    pub next: Option<usize>,
    pub id: i32,
    pub contents: T,
}

impl<T> DoublyLinkedListNode<T> {
    /// A fresh, unlinked node around the given contents, tagged with a
    /// random identity.
    pub fn new(contents: T) -> (r: Self)
        ensures
            r.prev is None,
            r.next is None,
            r.contents == contents,
    {
        DoublyLinkedListNode { prev: None, next: None, id: random_id(), contents }
    }

    /// Point the backward link at the given arena index.
    pub fn set_prev(&mut self, prev: Option<usize>)
        ensures
            final(self).prev == prev,
            final(self).next == old(self).next,
            final(self).id == old(self).id,
            final(self).contents == old(self).contents,
    {
        self.prev = prev;
    }

    /// Point the forward link at the given arena index.
    pub fn set_next(&mut self, next: Option<usize>)
        ensures
            final(self).next == next,
            final(self).prev == old(self).prev,
            final(self).id == old(self).id,
            final(self).contents == old(self).contents,
    {
        self.next = next;
    }
}

/// The node at position `t` of the cyclic order points forward to the next
/// listed node and backward to the previous one, wrapping around.
pub open spec fn ring_linked<T>(
    nodes: Seq<DoublyLinkedListNode<T>>,
    order: Seq<int>,
    t: int,
) -> bool {
    &&& nodes[order[t]].next == Some(order[(t + 1) % order.len() as int] as usize)
    &&& nodes[order[t]].prev == Some(
        order[(t - 1 + order.len() as int) % order.len() as int] as usize,
    )
}

/// The ring's links realise a cyclic order of arena indices.
pub open spec fn links_ok<T>(nodes: Seq<DoublyLinkedListNode<T>>, order: Seq<int>) -> bool {
    forall|t: int| 0 <= t < order.len() ==> #[trigger] ring_linked(nodes, order, t)
}

/// The contents of a list after the ring insertion rule has run: the walk
/// starts at the head and stops before the node at position
/// `(max(idx, len) - 1) % len`; the new item is spliced in before that node
/// (before the head this appends at the end of the linear reading), and an
/// insertion at position zero additionally makes the new item the head,
/// which rotates the linear reading to start at it.
pub open spec fn inserted_contents<T>(cs: Seq<T>, x: T, idx: int) -> Seq<T> {
    let n = cs.len() as int;
    if n == 0 {
        seq![x]
    } else {
        let p = ((if idx > n {
            idx
        } else {
            n
        }) - 1) % n;
        let linear = if p == 0 {
            cs + seq![x]
        } else {
            cs.take(p) + seq![x] + cs.skip(p)
        };
        let pos = if p == 0 {
            n
        } else {
            p
        };
        if idx == 0 {
            linear.skip(pos) + linear.take(pos)
        } else {
            linear
        }
    }
}

/// A circular doubly linked list over an index arena. `order` is the ghost
/// reading of the ring: the arena indices of the listed nodes, starting at
/// the head.
pub struct CircularDoublyLinkedList<T> {
    pub nodes: Vec<DoublyLinkedListNode<T>>,
    pub size: usize,
    pub head: Option<usize>,
    pub tail: Option<usize>,
    pub order: Ghost<Seq<int>>,
}

impl<T> CircularDoublyLinkedList<T> {
    /// The list invariant: the arena holds exactly the listed nodes, the
    /// ghost order is a permutation of the arena indices, the head is the
    /// order's first node, and the links realise the cyclic order.
    pub open spec fn wf(&self) -> bool {
        &&& self.order@.len() == self.size as int
        &&& self.nodes@.len() == self.size as int
        &&& forall|t: int|
            0 <= t < self.order@.len() ==> 0 <= #[trigger] self.order@[t] < self.size as int
        &&& forall|t: int, u: int| 0 <= t < u < self.order@.len() ==> self.order@[t] != self.order@[u]
        &&& if self.size == 0 {
            self.head is None
        } else {
            self.head == Some(self.order@[0] as usize)
        }
        &&& links_ok(self.nodes@, self.order@)
    }

    /// The listed contents in ring order, starting at the head.
    pub open spec fn contents_seq(&self) -> Seq<T> {
        Seq::new(self.order@.len(), |t: int| self.nodes@[self.order@[t]].contents)
    }

    /// An empty list.
    pub fn new() -> (r: Self)
        ensures
            r.wf(),
            r.size == 0,
            r.contents_seq() == Seq::<T>::empty(),
            r.head is None,
            r.tail is None,
    {
        let r = CircularDoublyLinkedList {
            nodes: Vec::new(),
            size: 0,
            head: None,
            tail: None,
            order: Ghost(Seq::empty()),
        };
        proof {
            assert(r.contents_seq() =~= Seq::<T>::empty());
        }
        r
    }

    /// The arena indices of the listed nodes in ring order, starting at the
    /// head: the order in which an iteration of the ring visits them.
    #[verifier::loop_isolation(false)]
    pub fn in_order(&self) -> (r: Vec<usize>)
        requires
            self.wf(),
        ensures
            r@.len() == self.size,
            forall|t: int| 0 <= t < r@.len() ==> #[trigger] r@[t] as int == self.order@[t],
    {
        let mut r: Vec<usize> = Vec::new();
        if self.size == 0 {
            return r;
        }
        let mut cur: usize = match self.head {
            Some(h) => h,
            None => {
                proof {
                    assert(false);
                }
                0
            },
        };
        let mut t: usize = 0;
        while t < self.size
            invariant
                self.wf(),
                0 < self.size,
                t <= self.size,
                r@.len() == t,
                forall|u: int| 0 <= u < t as int ==> #[trigger] r@[u] as int == self.order@[u],
                t < self.size ==> cur as int == self.order@[t as int],
            decreases self.size - t,
        {
            r.push(cur);
            proof {
                assert(ring_linked(self.nodes@, self.order@, t as int));
            }
            let next = match self.nodes[cur].next {
                Some(nx) => nx,
                None => {
                    proof {
                        assert(false);
                    }
                    0
                },
            };
            proof {
                lemma_cyc_index(t as int, self.size as int);
            }
            cur = next;
            t += 1;
        }
        r
    }

    /// Insert at the head of the ring.
    pub fn insert_head(&mut self, new_head: T)
        requires
            old(self).wf(),
            old(self).size < usize::MAX,
        ensures
            final(self).wf(),
            final(self).size == old(self).size + 1,
            final(self).contents_seq() == inserted_contents(old(self).contents_seq(), new_head, 0),
    {
        self.insert_at(new_head, 0);
    }

    /// Insert at the tail position of the ring's insertion rule.
    pub fn insert_tail(&mut self, new_tail: T)
        requires
            old(self).wf(),
            old(self).size < usize::MAX,
        ensures
            final(self).wf(),
            final(self).size == old(self).size + 1,
            final(self).contents_seq() == inserted_contents(
                old(self).contents_seq(),
                new_tail,
                old(self).size as int,
            ),
    {
        let idx = self.size;
        self.insert_at(new_tail, idx);
    }

    /// Splice a new node into the ring. The position is clamped below to the
    /// current size; the walk to it wraps around the ring, and position zero
    /// moves the head to the new node. An insertion into an empty list must
    /// ask for position zero, the only position the ring then has.
    #[verifier::loop_isolation(false)]
    #[verifier::rlimit(100)]
    pub fn insert_at(&mut self, new_item: T, idx: usize)
        requires
            old(self).wf(),
            old(self).size < usize::MAX,
            old(self).size == 0 ==> idx == 0,
        ensures
            final(self).wf(),
            final(self).size == old(self).size + 1,
            final(self).contents_seq() == inserted_contents(
                old(self).contents_seq(),
                new_item,
                idx as int,
            ),
            final(self).tail == (if idx as int == old(self).size + 1 {
                Some(old(self).nodes@.len() as usize)
            } else {
                old(self).tail
            }),
    {
        let ghost inserted = new_item;
        let ghost old_order = self.order@;
        let ghost old_nodes = self.nodes@;
        let ghost old_cs = self.contents_seq();
        let m = self.nodes.len();
        if self.size == 0 {
            let mut node = DoublyLinkedListNode::new(new_item);
            node.set_prev(Some(m));
            node.set_next(Some(m));
            self.nodes.push(node);
            self.size = 1;
            self.head = Some(m);
            let ghost singleton_order: Seq<int> = seq![m as int];
            self.order = Ghost(singleton_order);
            proof {
                lemma_cyc_index(0, 1);
                assert(self.wf());
                assert(self.contents_seq() =~= inserted_contents(old_cs, new_item, idx as int));
            }
            if idx == self.size {
                self.tail = Some(m);
            }
            return;
        }
        let n = self.size;
        let ghost nn = n as int;
        let idxp = if idx > n {
            idx
        } else {
            n
        };
        let p = (idxp - 1) % n;
        let ghost pn = p as int;
        // Walk `p` steps from the head to the node the new one is spliced in
        // before.
        let mut cur: usize = match self.head {
            Some(h) => h,
            None => {
                proof {
                    assert(false);
                }
                0
            },
        };
        let mut step: usize = 0;
        while step < p
            invariant
                self.wf(),
                0 < self.size == n,
                p < n,
                step <= p,
                cur as int == self.order@[step as int],
            decreases p - step,
        {
            proof {
                assert(ring_linked(self.nodes@, self.order@, step as int));
            }
            let next = match self.nodes[cur].next {
                Some(nx) => nx,
                None => {
                    proof {
                        assert(false);
                    }
                    0
                },
            };
            proof {
                lemma_cyc_index(step as int, nn);
            }
            cur = next;
            step += 1;
        }
        let ghost qpos = if pn == 0 {
            nn - 1
        } else {
            pn - 1
        };
        proof {
            lemma_cyc_index(pn, nn);
            assert(ring_linked(self.nodes@, self.order@, pn));
            assert(cur as int == old_order[pn]);
            assert((pn - 1 + nn) % nn == qpos);
        }
        let q: usize = match self.nodes[cur].prev {
            Some(qq) => qq,
            None => {
                proof {
                    assert(false);
                }
                0
            },
        };
        proof {
            assert(q as int == old_order[qpos]);
        }
        let mut node = DoublyLinkedListNode::new(new_item);
        node.set_prev(Some(q));
        node.set_next(Some(cur));
        self.nodes.push(node);
        self.nodes[q].next = Some(m);
        self.nodes[cur].prev = Some(m);
        self.size = n + 1;
        let ghost linear = if pn == 0 {
            old_order.push(m as int)
        } else {
            old_order.take(pn) + seq![m as int] + old_order.skip(pn)
        };
        let ghost pos = if pn == 0 {
            nn
        } else {
            pn
        };
        proof {
            // The arena now realises `linear`: only the spliced neighbours'
            // links changed, and the listed indices are pairwise distinct.
            assert forall|t: int| 0 <= t < nn implies {
                &&& (#[trigger] self.nodes@[old_order[t]]).next == (if t == qpos {
                    Some(m as usize)
                } else {
                    Some(old_order[(t + 1) % nn] as usize)
                })
                &&& self.nodes@[old_order[t]].prev == (if t == pn {
                    Some(m as usize)
                } else {
                    Some(old_order[(t - 1 + nn) % nn] as usize)
                })
            } by {
                assert(ring_linked(old_nodes, old_order, t));
                if old_order[t] == q as int && t != qpos {
                    if t < qpos {
                        assert(old_order[t] != old_order[qpos]);
                    } else {
                        assert(old_order[qpos] != old_order[t]);
                    }
                }
                if old_order[t] == cur as int && t != pn {
                    if t < pn {
                        assert(old_order[t] != old_order[pn]);
                    } else {
                        assert(old_order[pn] != old_order[t]);
                    }
                }
            }
            lemma_linear_insert_links_ok(self.nodes@, old_order, m as int, pn);
            lemma_inserted_distinct(old_order, m as int, pn, idx as int, pos);
        }
        if idx == 0 {
            self.head = Some(m);
            let ghost rotated: Seq<int> = linear.skip(pos) + linear.take(pos);
            self.order = Ghost(rotated);
            proof {
                lemma_links_ok_rotation(self.nodes@, linear, pos);
                assert(self.order@[0] == linear[pos]);
                assert(linear[pos] == m as int);
            }
        } else {
            self.order = Ghost(linear);
            proof {
                assert(self.order@[0] == old_order[0]);
            }
        }
        if idx == self.size {
            self.tail = Some(m);
        }
        proof {
            assert(self.wf());
            assert forall|t: int| 0 <= t < nn implies #[trigger] self.nodes@[old_order[t]].contents
                == old_cs[t] by {}
            lemma_spliced_contents(
                self.nodes@,
                old_cs,
                old_order,
                self.order@,
                m as int,
                pn,
                idx as int,
                inserted,
            );
            assert(self.contents_seq() =~= Seq::new(
                self.order@.len(),
                |t: int| self.nodes@[self.order@[t]].contents,
            ));
        }
    }
}

impl<T: PartialEq> CircularDoublyLinkedList<T> {
    /// The arena index of the first node in ring order whose contents equal
    /// the given value, or `None` when no listed node matches. The stated
    /// result assumes the element type's equality obeys its specification.
    #[verifier::loop_isolation(false)]
    #[verifier::rlimit(100)]
    pub fn find(&self, contents_to_find: T) -> (r: Option<usize>)
        requires
            self.wf(),
        ensures
            T::obeys_eq_spec() ==> match r {
                Some(i) => exists|t: int|
                    {
                        &&& 0 <= t < self.contents_seq().len()
                        &&& #[trigger] self.order@[t] == i as int
                        &&& self.contents_seq()[t].eq_spec(&contents_to_find)
                        &&& forall|u: int|
                            0 <= u < t ==> !(#[trigger] self.contents_seq()[u]).eq_spec(
                                &contents_to_find,
                            )
                    },
                None => forall|t: int|
                    0 <= t < self.contents_seq().len() ==> !(#[trigger] self.contents_seq()[t]).eq_spec(
                        &contents_to_find,
                    ),
            },
    {
        if self.size == 0 {
            return None;
        }
        let mut cur: usize = match self.head {
            Some(h) => h,
            None => {
                proof {
                    assert(false);
                }
                0
            },
        };
        let mut t: usize = 0;
        while t < self.size
            invariant
                self.wf(),
                0 < self.size,
                t <= self.size,
                t < self.size ==> cur as int == self.order@[t as int],
                T::obeys_eq_spec() ==> forall|u: int|
                    0 <= u < t as int ==> !(#[trigger] self.contents_seq()[u]).eq_spec(
                        &contents_to_find,
                    ),
            decreases self.size - t,
        {
            proof {
                assert(ring_linked(self.nodes@, self.order@, t as int));
            }
            if self.nodes[cur].contents == contents_to_find {
                return Some(cur);
            }
            let next = match self.nodes[cur].next {
                Some(nx) => nx,
                None => {
                    proof {
                        assert(false);
                    }
                    0
                },
            };
            proof {
                lemma_cyc_index(t as int, self.size as int);
            }
            cur = next;
            t += 1;
        }
        None
    }
}

/// The contents read off the spliced order are exactly what the insertion
/// rule says they are.
#[verifier::rlimit(100)]
proof fn lemma_spliced_contents<T>(
    nodes: Seq<DoublyLinkedListNode<T>>,
    old_contents: Seq<T>,
    old_order: Seq<int>,
    order: Seq<int>,
    m: int,
    p: int,
    idx: int,
    x: T,
)
    requires
        old_order.len() >= 1,
        m == old_order.len(),
        old_contents.len() == old_order.len(),
        forall|t: int| 0 <= t < old_order.len() ==> 0 <= #[trigger] old_order[t] < m,
        nodes.len() == m + 1,
        nodes[m].contents == x,
        forall|t: int|
            0 <= t < old_order.len() ==> #[trigger] nodes[old_order[t]].contents
                == old_contents[t],
        0 <= p < m,
        p == ((if idx > m {
            idx
        } else {
            m
        }) - 1) % m,
        order == ({
            let linear = if p == 0 {
                old_order.push(m)
            } else {
                old_order.take(p) + seq![m] + old_order.skip(p)
            };
            let pos = if p == 0 {
                m
            } else {
                p
            };
            if idx == 0 {
                linear.skip(pos) + linear.take(pos)
            } else {
                linear
            }
        }),
    ensures
        Seq::new(order.len(), |t: int| nodes[order[t]].contents) == inserted_contents(
            old_contents,
            x,
            idx,
        ),
{
    let n = m;
    let pos = if p == 0 {
        n
    } else {
        p
    };
    let linear = if p == 0 {
        old_order.push(m)
    } else {
        old_order.take(p) + seq![m] + old_order.skip(p)
    };
    let linear_c = if p == 0 {
        old_contents + seq![x]
    } else {
        old_contents.take(p) + seq![x] + old_contents.skip(p)
    };
    assert(linear.len() == n + 1 && linear_c.len() == n + 1);
    assert forall|s: int| 0 <= s < n + 1 implies #[trigger] nodes[linear[s]].contents
        == linear_c[s] by {
        if p == 0 {
            if s < n {
                assert(linear[s] == old_order[s]);
            }
        } else {
            if s < p {
                assert(linear[s] == old_order[s]);
            } else if s > p {
                assert(linear[s] == old_order[s - 1]);
            }
        }
    }
    if idx == 0 {
        let b = linear.skip(pos) + linear.take(pos);
        let bc = linear_c.skip(pos) + linear_c.take(pos);
        assert forall|t: int| 0 <= t < n + 1 implies #[trigger] nodes[b[t]].contents == bc[t] by {
            let src = if t < n + 1 - pos {
                t + pos
            } else {
                t + pos - (n + 1)
            };
            assert(b[t] == linear[src]);
            assert(bc[t] == linear_c[src]);
        }
        assert(Seq::new(order.len(), |t: int| nodes[order[t]].contents) =~= inserted_contents(
            old_contents,
            x,
            idx,
        ));
    } else {
        assert(Seq::new(order.len(), |t: int| nodes[order[t]].contents) =~= inserted_contents(
            old_contents,
            x,
            idx,
        ));
    }
}

/// Splicing a new node before the walk's stop position yields an arena whose
/// links realise the linear order with the new node at that position (at the
/// end when the stop position is the head).
proof fn lemma_linear_insert_links_ok<T>(
    nodes: Seq<DoublyLinkedListNode<T>>,
    old_order: Seq<int>,
    m: int,
    p: int,
)
    requires
        old_order.len() >= 1,
        0 <= p < old_order.len(),
        nodes.len() == old_order.len() + 1,
        m == old_order.len(),
        forall|t: int| 0 <= t < old_order.len() ==> 0 <= #[trigger] old_order[t] < m,
        forall|t: int, u: int| 0 <= t < u < old_order.len() ==> old_order[t] != old_order[u],
        nodes[m].next == Some(old_order[p] as usize),
        nodes[m].prev == Some(
            old_order[(p - 1 + old_order.len() as int) % old_order.len() as int] as usize,
        ),
        forall|t: int|
            0 <= t < old_order.len() ==> (#[trigger] nodes[old_order[t]]).next == (if t == (p - 1
                + old_order.len() as int) % old_order.len() as int {
                Some(m as usize)
            } else {
                Some(old_order[(t + 1) % old_order.len() as int] as usize)
            }),
        forall|t: int|
            0 <= t < old_order.len() ==> (#[trigger] nodes[old_order[t]]).prev == (if t == p {
                Some(m as usize)
            } else {
                Some(old_order[(t - 1 + old_order.len() as int) % old_order.len() as int] as usize)
            }),
    ensures
        links_ok(
            nodes,
            (if p == 0 {
                old_order.push(m)
            } else {
                old_order.take(p) + seq![m] + old_order.skip(p)
            }),
        ),
{
    let n = old_order.len() as int;
    let linear = if p == 0 {
        old_order.push(m)
    } else {
        old_order.take(p) + seq![m] + old_order.skip(p)
    };
    assert(linear.len() == n + 1);
    lemma_cyc_index(p, n);
    assert forall|t: int| 0 <= t < n + 1 implies #[trigger] ring_linked(nodes, linear, t) by {
        lemma_cyc_index(t, n + 1);
        if p == 0 {
            // linear = old_order + [m]: old positions keep their rank.
            if t < n {
                lemma_cyc_index(t, n);
            }
        } else {
            // linear = take(p) + [m] + skip(p): position t reads
            // old_order[t] below p, m at p, old_order[t - 1] above p.
            if t < p {
                lemma_cyc_index(t, n);
            } else if t > p {
                lemma_cyc_index(t - 1, n);
            }
        }
    }
}

/// A rotation of a cyclically linked order is cyclically linked.
#[verifier::rlimit(100)]
proof fn lemma_links_ok_rotation<T>(nodes: Seq<DoublyLinkedListNode<T>>, a: Seq<int>, r: int)
    requires
        links_ok(nodes, a),
        0 < r <= a.len(),
    ensures
        links_ok(nodes, a.skip(r) + a.take(r)),
{
    let n = a.len() as int;
    let b = a.skip(r) + a.take(r);
    assert(b.len() == n);
    assert forall|t: int| 0 <= t < n implies #[trigger] ring_linked(nodes, b, t) by {
        lemma_cyc_index(t, n);
        let s = if t < n - r {
            t + r
        } else {
            t + r - n
        };
        assert(b[t] == a[s]);
        lemma_cyc_index(s, n);
        assert(ring_linked(nodes, a, s));
    }
}

/// The spliced order is made of pairwise distinct arena indices, all at most
/// the new node's index.
proof fn lemma_inserted_distinct(old_order: Seq<int>, m: int, p: int, idx: int, pos: int)
    requires
        old_order.len() >= 1,
        0 <= p < old_order.len(),
        m == old_order.len(),
        forall|t: int| 0 <= t < old_order.len() ==> 0 <= #[trigger] old_order[t] < m,
        forall|t: int, u: int| 0 <= t < u < old_order.len() ==> old_order[t] != old_order[u],
        pos == (if p == 0 {
            old_order.len() as int
        } else {
            p
        }),
    ensures
        ({
            let linear = if p == 0 {
                old_order.push(m)
            } else {
                old_order.take(p) + seq![m] + old_order.skip(p)
            };
            let new_order = if idx == 0 {
                linear.skip(pos) + linear.take(pos)
            } else {
                linear
            };
            &&& new_order.len() == old_order.len() + 1
            &&& forall|t: int| 0 <= t < new_order.len() ==> 0 <= #[trigger] new_order[t] <= m
            &&& forall|t: int, u: int| 0 <= t < u < new_order.len() ==> new_order[t] != new_order[u]
        }),
{
    let n = old_order.len() as int;
    let linear = if p == 0 {
        old_order.push(m)
    } else {
        old_order.take(p) + seq![m] + old_order.skip(p)
    };
    assert(linear.len() == n + 1);
    assert forall|t: int| 0 <= t < linear.len() implies 0 <= #[trigger] linear[t] <= m by {}
    assert forall|t: int, u: int| 0 <= t < u < linear.len() implies linear[t] != linear[u] by {
        let vt = if p == 0 {
            if t < n {
                old_order[t]
            } else {
                m
            }
        } else {
            if t < p {
                old_order[t]
            } else if t == p {
                m
            } else {
                old_order[t - 1]
            }
        };
        assert(linear[t] == vt);
    }
    if idx == 0 {
        let b = linear.skip(pos) + linear.take(pos);
        assert(b.len() == n + 1);
        assert forall|t: int| 0 <= t < b.len() implies 0 <= #[trigger] b[t] <= m by {
            let s = if t < n + 1 - pos {
                t + pos
            } else {
                t + pos - (n + 1)
            };
            assert(b[t] == linear[s]);
        }
        assert forall|t: int, u: int| 0 <= t < u < b.len() implies b[t] != b[u] by {
            let st = if t < n + 1 - pos {
                t + pos
            } else {
                t + pos - (n + 1)
            };
            let su = if u < n + 1 - pos {
                u + pos
            } else {
                u + pos - (n + 1)
            };
            assert(b[t] == linear[st]);
            assert(b[u] == linear[su]);
            if st < su {
                assert(linear[st] != linear[su]);
            } else {
                assert(linear[su] != linear[st]);
            }
        }
    }
}

} // verus!
