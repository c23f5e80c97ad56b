//! Circular doubly-linked lists whose nodes live in one arena and name each
//! other by position instead of by address.
//!
//! Every node is always on exactly one ring. A node that is alone on its ring
//! is its own sentinel: an empty list. Any node can serve as the head of the
//! list formed by the other nodes of its ring.

use vstd::prelude::*;

verus! {

/// The two links of a list node. Both are positions in the arena that holds
/// the node.
#[derive(Clone, Copy, PartialEq, Eq, Debug, Structural)]
pub struct Node {
    /// Position of the next node.
    pub next: usize,
    /// Position of the previous node.
    pub prev: usize,
}

/// The arena that owns every node, together with the ring that each node
/// heads.
pub struct NodeArena {
    nodes: Vec<Node>,
    rings: Ghost<Seq<Seq<usize>>>,
}

/// A cursor on the ring of one head node. It stands on the head or on one of
/// the members of the head's list, and moves one node at a time.
pub struct Iter {
    pos: usize,
    head: usize,
}

/// `r` with `x` placed right behind the element `after`.
pub open spec fn insert_after(r: Seq<usize>, after: usize, x: usize) -> Seq<usize> {
    r.insert(r.index_of(after) + 1, x)
}

/// `r` with the element `x` taken out, where it holds one.
pub open spec fn without(r: Seq<usize>, x: usize) -> Seq<usize> {
    if r.contains(x) {
        r.remove(r.index_of(x))
    } else {
        r
    }
}

/// `r` is the ring that node `i` heads, going by the links in `nodes`.
spec fn ring_ok_at(nodes: Seq<Node>, r: Seq<usize>, i: usize) -> bool {
    let n = nodes.len();
    &&& r.no_duplicates()
    &&& !r.contains(i)
    &&& forall|k: int| 0 <= k < r.len() ==> (#[trigger] r[k]) < n
    &&& nodes[i as int].next == (if r.len() == 0 { i } else { r[0] })
    &&& nodes[i as int].prev == (if r.len() == 0 { i } else { r[r.len() - 1] })
    &&& forall|k: int|
        0 <= k < r.len() ==> nodes[(#[trigger] r[k]) as int].next == (if k + 1 < r.len() {
            r[k + 1]
        } else {
            i
        })
    &&& forall|k: int|
        0 <= k < r.len() ==> nodes[(#[trigger] r[k]) as int].prev == (if k > 0 {
            r[k - 1]
        } else {
            i
        })
}

/// `rings` holds, for every node, the ring that it heads.
spec fn rings_fit(nodes: Seq<Node>, rings: Seq<Seq<usize>>) -> bool {
    &&& rings.len() == nodes.len()
    &&& forall|i: usize| i < nodes.len() ==> #[trigger] ring_ok_at(nodes, rings[i as int], i)
}

impl Node {
    /// The links of a node at position `this` that is alone on its ring.
    pub fn new_empty(this: usize) -> (node: Node)
        ensures
            node == (Node { next: this, prev: this }),
    {
        Node { next: this, prev: this }
    }

    /// Makes a new node that is its own sentinel, the head of an empty list,
    /// and returns its position. No other ring changes.
    pub fn init(arena: &mut NodeArena) -> (i: usize)
        requires
            old(arena).wf(),
        ensures
            final(arena).wf(),
            i == old(arena).spec_len(),
            final(arena).spec_len() == old(arena).spec_len() + 1,
            final(arena).detached(i),
            forall|j: usize|
                j < old(arena).spec_len() ==> #[trigger] final(arena).ring(j) == old(arena).ring(j),
    {
        let i = arena.nodes.len();
        arena.nodes.push(Node::new_empty(i));
        proof {
            arena.rings@ = arena.rings@.push(Seq::empty());
            assert forall|j: usize| j < arena.nodes@.len() implies #[trigger] ring_ok_at(
                arena.nodes@,
                arena.rings@[j as int],
                j,
            ) by {
                if j < i {
                    assert(ring_ok_at(old(arena).nodes@, old(arena).rings@[j as int], j));
                }
            }
        }
        i
    }

    /// A cursor that stands on `head`, ready to walk the list that `head`
    /// heads in either direction.
    pub fn into_iter(arena: &NodeArena, head: usize) -> (it: Iter)
        requires
            arena.wf(),
            head < arena.spec_len(),
        ensures
            it.wf(arena),
            it.head() == head,
            it.index(arena) == 0,
    {
        Iter { pos: head, head }
    }

    /// Splices `node`, which is alone on its ring, in right behind `head`, so
    /// that it becomes the first member of the list that `head` heads. Seen
    /// from any other node of that ring, `node` now follows `head`. Rings
    /// that `head` is not on stay as they are.
    pub fn insert(arena: &mut NodeArena, head: usize, node: usize)
        requires
            old(arena).wf(),
            head < old(arena).spec_len(),
            node < old(arena).spec_len(),
            node != head,
            old(arena).detached(node),
        ensures
            final(arena).wf(),
            final(arena).spec_len() == old(arena).spec_len(),
            final(arena).ring(head) == old(arena).ring(head).insert(0, node),
            final(arena).ring(node) == old(arena).ring(head).push(head),
            forall|j: usize|
                j < old(arena).spec_len() && j != head && j != node ==> #[trigger] final(arena).ring(
                    j,
                ) == (if old(arena).ring(j).contains(head) {
                    insert_after(old(arena).ring(j), head, node)
                } else {
                    old(arena).ring(j)
                }),
    {
        proof {
            lemma_insert_fits(arena.nodes@, arena.rings@, head, node);
            assert(ring_ok_at(arena.nodes@, arena.rings@[head as int], head));
            if arena.rings@[head as int].len() > 0 {
                assert(arena.rings@[head as int][0] < arena.nodes@.len());
            }
        }
        let first = arena.nodes[head].next;
        arena.nodes[first].prev = node;
        arena.nodes[node].next = first;
        arena.nodes[head].next = node;
        arena.nodes[node].prev = head;
        proof {
            arena.rings@ = rings_after_insert(arena.rings@, head, node);
            assert(arena.nodes@ =~= nodes_after_insert(old(arena).nodes@, head, node));
        }
    }

    /// Takes `node` off its ring: its two neighbours become neighbours of
    /// each other, and `node` is left alone on a ring of its own. Every other
    /// ring loses `node` if it had it and keeps its order.
    pub fn remove(arena: &mut NodeArena, node: usize)
        requires
            old(arena).wf(),
            node < old(arena).spec_len(),
        ensures
            final(arena).wf(),
            final(arena).spec_len() == old(arena).spec_len(),
            final(arena).detached(node),
            forall|j: usize|
                j < old(arena).spec_len() && j != node ==> #[trigger] final(arena).ring(j)
                    == without(old(arena).ring(j), node),
    {
        proof {
            lemma_remove_fits(arena.nodes@, arena.rings@, node);
            assert(ring_ok_at(arena.nodes@, arena.rings@[node as int], node));
            if arena.rings@[node as int].len() > 0 {
                assert(arena.rings@[node as int][0] < arena.nodes@.len());
                assert(arena.rings@[node as int][arena.rings@[node as int].len() - 1]
                    < arena.nodes@.len());
            }
        }
        let prev = arena.nodes[node].prev;
        let next = arena.nodes[node].next;
        arena.nodes[next].prev = prev;
        arena.nodes[prev].next = next;
        arena.nodes[node].next = node;
        arena.nodes[node].prev = node;
        proof {
            arena.rings@ = rings_after_remove(arena.rings@, node);
            assert(arena.nodes@ =~= nodes_after_remove(old(arena).nodes@, node));
        }
    }
}

impl NodeArena {
    /// Number of nodes in the arena.
    pub closed spec fn spec_len(&self) -> nat {
        self.nodes@.len()
    }

    /// The nodes met when walking forward from `i` until `i` comes up again,
    /// `i` itself left out.
    pub closed spec fn ring(&self, i: usize) -> Seq<usize> {
        self.rings@[i as int]
    }

    /// The node that follows `i` on its ring.
    pub open spec fn successor(&self, i: usize) -> usize {
        if self.ring(i).len() == 0 {
            i
        } else {
            self.ring(i).first()
        }
    }

    /// The node that precedes `i` on its ring.
    pub open spec fn predecessor(&self, i: usize) -> usize {
        if self.ring(i).len() == 0 {
            i
        } else {
            self.ring(i).last()
        }
    }

    /// `i` is alone on its ring.
    pub open spec fn detached(&self, i: usize) -> bool {
        self.ring(i).len() == 0
    }

    /// Every node's links agree with the ring recorded for it.
    pub closed spec fn wf(&self) -> bool {
        rings_fit(self.nodes@, self.rings@)
    }

    /// A member of a ring is not alone: it has a ring of its own, which is
    /// not empty.
    pub proof fn lemma_member_linked(&self, head: usize, member: usize)
        requires
            self.wf(),
            head < self.spec_len(),
            self.ring(head).contains(member),
        ensures
            member != head,
            member < self.spec_len(),
            !self.detached(member),
    {
        self.lemma_ring_shape(head);
        if self.ring(member).len() == 0 {
            lemma_alone_in_no_ring(self.nodes@, self.rings@, head, member);
        }
    }

    /// Two different nodes that both have `ring(a)[i]` on their rings are on
    /// the rings of each other: walking on from the shared member, one of
    /// them comes up first.
    pub proof fn lemma_shared_member(&self, a: usize, i: int, b: usize, j: int)
        requires
            self.wf(),
            a < self.spec_len(),
            b < self.spec_len(),
            a != b,
            0 <= i < self.ring(a).len(),
            0 <= j < self.ring(b).len(),
            self.ring(a)[i] == self.ring(b)[j],
        ensures
            self.ring(a).contains(b) || self.ring(b).contains(a),
        decreases self.ring(a).len() - i,
    {
        let ra = self.ring(a);
        let rb = self.ring(b);
        assert(ring_ok_at(self.nodes@, self.rings@[a as int], a));
        assert(ring_ok_at(self.nodes@, self.rings@[b as int], b));
        let after_a = self.nodes@[ra[i] as int].next;
        let after_b = self.nodes@[rb[j] as int].next;
        assert(after_a == after_b);
        if i + 1 < ra.len() {
            if j + 1 < rb.len() {
                self.lemma_shared_member(a, i + 1, b, j + 1);
            } else {
                assert(ra[i + 1] == b);
            }
        } else {
            if j + 1 < rb.len() {
                assert(rb[j + 1] == a);
            }
        }
    }

    /// The positions of the arena fit the machine word.
    pub proof fn lemma_len_fits(&self)
        ensures
            self.spec_len() <= usize::MAX,
    {
        vstd::std_specs::vec::axiom_spec_len(&self.nodes);
    }

    /// What a ring looks like: its members are distinct nodes of the arena,
    /// the head is not among them, and each member is followed by the next
    /// member, the last one by the head.
    pub proof fn lemma_ring_shape(&self, i: usize)
        requires
            self.wf(),
            i < self.spec_len(),
        ensures
            self.ring(i).no_duplicates(),
            !self.ring(i).contains(i),
            self.ring(i).len() < self.spec_len(),
            forall|k: int|
                0 <= k < self.ring(i).len() ==> (#[trigger] self.ring(i)[k]) < self.spec_len(),
            forall|k: int|
                0 <= k < self.ring(i).len() ==> self.successor(#[trigger] self.ring(i)[k]) == (if k + 1
                    < self.ring(i).len() {
                    self.ring(i)[k + 1]
                } else {
                    i
                }),
            forall|k: int|
                0 <= k < self.ring(i).len() ==> self.predecessor(#[trigger] self.ring(i)[k]) == (if k
                    > 0 {
                    self.ring(i)[k - 1]
                } else {
                    i
                }),
    {
        assert(ring_ok_at(self.nodes@, self.rings@[i as int], i));
        let r = self.ring(i);
        let n = self.spec_len();
        assert forall|k: int| 0 <= k < r.len() implies self.successor(#[trigger] r[k]) == (if k + 1
            < r.len() {
            r[k + 1]
        } else {
            i
        }) && self.predecessor(r[k]) == (if k > 0 {
            r[k - 1]
        } else {
            i
        }) by {
            assert(ring_ok_at(self.nodes@, self.rings@[r[k] as int], r[k]));
        }
        assert(r.push(i).no_duplicates()) by {
            assert forall|a: int, b: int|
                0 <= a < r.push(i).len() && 0 <= b < r.push(i).len() && a != b implies r.push(
                i,
            )[a] != r.push(i)[b] by {
                if a < r.len() && b < r.len() {
                } else if a < r.len() {
                    assert(r.contains(r[a]));
                } else {
                    assert(r.contains(r[b]));
                }
            }
        }
        Self::lemma_bounded_distinct(r.push(i), n);
    }

    /// An arena without nodes.
    pub fn new() -> (arena: Self)
        ensures
            arena.wf(),
            arena.spec_len() == 0,
    {
        NodeArena { nodes: Vec::new(), rings: Ghost(Seq::empty()) }
    }

    /// Number of nodes in the arena.
    pub fn len(&self) -> (n: usize)
        ensures
            n == self.spec_len(),
    {
        self.nodes.len()
    }

    /// The links of node `i` as they stand.
    pub fn node(&self, i: usize) -> (node: Node)
        requires
            self.wf(),
            i < self.spec_len(),
        ensures
            node.next == self.successor(i),
            node.prev == self.predecessor(i),
    {
        proof {
            assert(ring_ok_at(self.nodes@, self.rings@[i as int], i));
        }
        self.nodes[i]
    }

    /// The node that follows `i`.
    pub fn next(&self, i: usize) -> (n: usize)
        requires
            self.wf(),
            i < self.spec_len(),
        ensures
            n == self.successor(i),
            n < self.spec_len(),
    {
        proof {
            assert(ring_ok_at(self.nodes@, self.rings@[i as int], i));
        }
        self.nodes[i].next
    }

    /// The node that precedes `i`.
    pub fn prev(&self, i: usize) -> (n: usize)
        requires
            self.wf(),
            i < self.spec_len(),
        ensures
            n == self.predecessor(i),
            n < self.spec_len(),
    {
        proof {
            assert(ring_ok_at(self.nodes@, self.rings@[i as int], i));
        }
        self.nodes[i].prev
    }

    /// Whether `i` is alone on its ring, that is, heads an empty list.
    pub fn is_detached(&self, i: usize) -> (alone: bool)
        requires
            self.wf(),
            i < self.spec_len(),
        ensures
            alone == self.detached(i),
    {
        proof {
            assert(ring_ok_at(self.nodes@, self.rings@[i as int], i));
            if self.ring(i).len() > 0 {
                assert(self.ring(i).contains(self.ring(i)[0]));
            }
        }
        self.nodes[i].next == i
    }

    /// The first `k` members of a sequence that follows the links from `i`
    /// are the first `k` members of the ring of `i`.
    proof fn lemma_ring_prefix(&self, i: usize, r: Seq<usize>, k: int)
        requires
            self.wf(),
            i < self.spec_len(),
            !r.contains(i),
            0 <= k <= r.len(),
            self.successor(i) == (if r.len() == 0 { i } else { r[0] }),
            forall|m: int|
                0 <= m < r.len() ==> self.successor(#[trigger] r[m]) == (if m + 1 < r.len() {
                    r[m + 1]
                } else {
                    i
                }),
        ensures
            k <= self.ring(i).len(),
            forall|m: int| 0 <= m < k ==> r[m] == self.ring(i)[m],
        decreases k,
    {
        if k > 0 {
            self.lemma_ring_prefix(i, r, k - 1);
            self.lemma_ring_shape(i);
            let q = self.ring(i);
            assert(r.contains(r[k - 1]));
            if k == 1 {
                assert(r[0] == self.successor(i));
            } else {
                assert(r[k - 2] == q[k - 2]);
                assert(self.successor(r[k - 2]) == r[k - 1]);
                assert(self.successor(q[k - 2]) == (if k - 1 < q.len() { q[k - 1] } else { i }));
            }
        }
    }

    /// The links determine the ring: a sequence that does not hold `i`,
    /// starts behind `i`, follows the links from member to member and ends in
    /// front of `i` is the ring of `i`.
    pub proof fn lemma_ring_is(&self, i: usize, r: Seq<usize>)
        requires
            self.wf(),
            i < self.spec_len(),
            !r.contains(i),
            self.successor(i) == (if r.len() == 0 { i } else { r[0] }),
            forall|m: int|
                0 <= m < r.len() ==> self.successor(#[trigger] r[m]) == (if m + 1 < r.len() {
                    r[m + 1]
                } else {
                    i
                }),
        ensures
            r == self.ring(i),
    {
        self.lemma_ring_prefix(i, r, r.len() as int);
        self.lemma_ring_shape(i);
        let q = self.ring(i);
        if r.len() < q.len() {
            let n = r.len() as int;
            assert(q.contains(q[n]));
            if n == 0 {
                assert(q[0] == self.successor(i));
            } else {
                assert(r[n - 1] == q[n - 1]);
                assert(self.successor(r[n - 1]) == i);
                assert(self.successor(q[n - 1]) == q[n]);
            }
        }
        assert(r =~= q);
    }

    /// The list that `head` heads, walked forward: from the node behind
    /// `head` on, until `head` comes up again.
    pub fn forward(&self, head: usize) -> (members: Vec<usize>)
        requires
            self.wf(),
            head < self.spec_len(),
        ensures
            members@ == self.ring(head),
    {
        let mut it = Node::into_iter(self, head);
        let mut members: Vec<usize> = Vec::new();
        loop
            invariant_except_break
                it.index(self) == members@.len(),
            invariant
                self.wf(),
                it.wf(self),
                it.head() == head,
                members@.len() <= self.ring(head).len(),
                members@ == self.ring(head).subrange(0, members@.len() as int),
            ensures
                members@ == self.ring(head),
            decreases self.ring(head).len() - members@.len(),
        {
            match it.next(self) {
                Some(member) => {
                    members.push(member);
                    proof {
                        assert(members@ =~= self.ring(head).subrange(0, members@.len() as int));
                    }
                },
                None => {
                    proof {
                        assert(members@ =~= self.ring(head));
                    }
                    break ;
                },
            }
        }
        members
    }

    /// The list that `head` heads, walked backward: from the node in front
    /// of `head` on, until `head` comes up again.
    pub fn backward(&self, head: usize) -> (members: Vec<usize>)
        requires
            self.wf(),
            head < self.spec_len(),
        ensures
            members@ == self.ring(head).reverse(),
    {
        let mut it = Node::into_iter(self, head);
        let mut members: Vec<usize> = Vec::new();
        let ghost ring = self.ring(head);
        loop
            invariant_except_break
                it.index(self) == (if members@.len() == 0 {
                    0
                } else {
                    ring.len() - members@.len() + 1
                }),
            invariant
                self.wf(),
                it.wf(self),
                it.head() == head,
                ring == self.ring(head),
                members@.len() <= ring.len(),
                forall|k: int|
                    0 <= k < members@.len() ==> #[trigger] members@[k] == ring[ring.len() - 1 - k],
            ensures
                members@.len() == ring.len(),
            decreases ring.len() - members@.len(),
        {
            match it.next_back(self) {
                Some(member) => {
                    members.push(member);
                },
                None => {
                    break ;
                },
            }
        }
        proof {
            assert(members@ =~= ring.reverse());
        }
        members
    }

    /// A sequence of distinct numbers below `n` has at most `n` elements.
    proof fn lemma_bounded_distinct(s: Seq<usize>, n: nat)
        requires
            s.no_duplicates(),
            forall|k: int| 0 <= k < s.len() ==> (#[trigger] s[k]) < n,
        ensures
            s.len() <= n,
    {
        let m = s.map_values(|x: usize| x as int);
        assert(m.no_duplicates());
        m.unique_seq_to_set();
        let range = vstd::set_lib::set_int_range(0, n as int);
        vstd::set_lib::lemma_int_range(0, n as int);
        assert(m.to_set().subset_of(range)) by {
            assert forall|v: int| m.to_set().contains(v) implies range.contains(v) by {
                let k = choose|k: int| 0 <= k < m.len() && m[k] == v;
                assert(s[k] < n);
            }
        }
        vstd::set_lib::lemma_len_subset(m.to_set(), range);
    }
}

/// Taking `x` out of a sequence without duplicates leaves exactly the other
/// elements, in their order.
pub proof fn lemma_without(r: Seq<usize>, x: usize)
    requires
        r.no_duplicates(),
    ensures
        without(r, x).no_duplicates(),
        !without(r, x).contains(x),
        forall|y: usize| y != x ==> (#[trigger] without(r, x).contains(y) <==> r.contains(y)),
        forall|i: int| 0 <= i < without(r, x).len() ==> r.contains(#[trigger] without(r, x)[i]),
        without(r, x).len() == (if r.contains(x) { r.len() - 1 } else { r.len() as int }),
        !r.contains(x) ==> without(r, x) == r,
{
    if r.contains(x) {
        let p = r.index_of(x);
        let a = r.remove(p);
        assert forall|i: int, j: int| 0 <= i < a.len() && 0 <= j < a.len() && i != j implies a[i]
            != a[j] by {
            let i1 = if i < p { i } else { i + 1 };
            let j1 = if j < p { j } else { j + 1 };
            assert(a[i] == r[i1] && a[j] == r[j1]);
        }
        assert forall|i: int| 0 <= i < a.len() implies r.contains(#[trigger] a[i]) && a[i] != x by {
            let i1 = if i < p { i } else { i + 1 };
            assert(a[i] == r[i1]);
        }
        assert forall|y: usize| y != x && r.contains(y) implies #[trigger] a.contains(y) by {
            let k = choose|k: int| 0 <= k < r.len() && r[k] == y;
            let k1 = if k < p { k } else { k - 1 };
            assert(a[k1] == y);
        }
    }
}

/// In a sequence without duplicates an element is found where it stands.
pub proof fn lemma_index_of_distinct(r: Seq<usize>, k: int)
    requires
        r.no_duplicates(),
        0 <= k < r.len(),
    ensures
        r.index_of(r[k]) == k,
        r.contains(r[k]),
{
    let i = r.index_of(r[k]);
    assert(r.contains(r[k]));
    assert(0 <= i < r.len() && r[i] == r[k]);
}

impl Iter {
    /// The head of the list that the cursor walks.
    pub closed spec fn head(&self) -> usize {
        self.head
    }

    /// The node that the cursor stands on.
    pub closed spec fn pos(&self) -> usize {
        self.pos
    }

    /// The cursor stands on its head or on a member of the head's list.
    pub open spec fn wf(&self, arena: &NodeArena) -> bool {
        &&& self.head() < arena.spec_len()
        &&& self.pos() == self.head() || arena.ring(self.head()).contains(self.pos())
    }

    /// Where the cursor stands: 0 on the head, `k + 1` on the member `k` of
    /// the head's list.
    pub open spec fn index(&self, arena: &NodeArena) -> int {
        if self.pos() == self.head() {
            0
        } else {
            arena.ring(self.head()).index_of(self.pos()) + 1
        }
    }

    /// The node at place `index` of the walk: `None` for the head.
    pub open spec fn item(arena: &NodeArena, head: usize, index: int) -> Option<usize> {
        if index == 0 {
            None
        } else {
            Some(arena.ring(head)[index - 1])
        }
    }

    /// Steps forward. Returns the member now stood on, or `None` when the
    /// step led back to the head.
    pub fn next(&mut self, arena: &NodeArena) -> (item: Option<usize>)
        requires
            arena.wf(),
            old(self).wf(arena),
        ensures
            final(self).wf(arena),
            final(self).head() == old(self).head(),
            0 <= old(self).index(arena) <= arena.ring(old(self).head()).len(),
            final(self).index(arena) == (if old(self).index(arena) == arena.ring(
                old(self).head(),
            ).len() {
                0
            } else {
                old(self).index(arena) + 1
            }),
            item == Self::item(arena, final(self).head(), final(self).index(arena)),
            item matches Some(n) ==> n < arena.spec_len(),
    {
        proof {
            let r = arena.ring(self.head);
            arena.lemma_ring_shape(self.head);
            if self.pos != self.head {
                let k = r.index_of(self.pos);
                assert(0 <= k < r.len() && r[k] == self.pos);
                if k + 1 < r.len() {
                    lemma_index_of_distinct(r, k + 1);
                }
            } else if r.len() > 0 {
                lemma_index_of_distinct(r, 0);
            }
        }
        self.pos = arena.next(self.pos);
        if self.pos != self.head {
            Some(self.pos)
        } else {
            None
        }
    }

    /// Steps backward. Returns the member now stood on, or `None` when the
    /// step led back to the head.
    pub fn next_back(&mut self, arena: &NodeArena) -> (item: Option<usize>)
        requires
            arena.wf(),
            old(self).wf(arena),
        ensures
            final(self).wf(arena),
            final(self).head() == old(self).head(),
            0 <= old(self).index(arena) <= arena.ring(old(self).head()).len(),
            final(self).index(arena) == (if old(self).index(arena) == 0 {
                arena.ring(old(self).head()).len() as int
            } else {
                old(self).index(arena) - 1
            }),
            item == Self::item(arena, final(self).head(), final(self).index(arena)),
            item matches Some(n) ==> n < arena.spec_len(),
    {
        proof {
            let r = arena.ring(self.head);
            arena.lemma_ring_shape(self.head);
            if self.pos != self.head {
                let k = r.index_of(self.pos);
                assert(0 <= k < r.len() && r[k] == self.pos);
                if k > 0 {
                    lemma_index_of_distinct(r, k - 1);
                }
            } else if r.len() > 0 {
                lemma_index_of_distinct(r, r.len() - 1);
            }
        }
        self.pos = arena.prev(self.pos);
        if self.pos != self.head {
            Some(self.pos)
        } else {
            None
        }
    }
}

/// The links after `node`, alone on its ring, was spliced in behind `head`.
spec fn nodes_after_insert(o: Seq<Node>, head: usize, node: usize) -> Seq<Node> {
    let first = o[head as int].next;
    let a = o.update(first as int, Node { next: o[first as int].next, prev: node });
    let b = a.update(node as int, Node { next: first, prev: a[node as int].prev });
    let c = b.update(head as int, Node { next: node, prev: b[head as int].prev });
    c.update(node as int, Node { next: c[node as int].next, prev: head })
}

/// The rings after `node`, alone on its ring, was spliced in behind `head`.
spec fn rings_after_insert(rings: Seq<Seq<usize>>, head: usize, node: usize) -> Seq<Seq<usize>> {
    Seq::new(
        rings.len(),
        |j: int|
            if j == head {
                rings[head as int].insert(0, node)
            } else if j == node {
                rings[head as int].push(head)
            } else if rings[j].contains(head) {
                insert_after(rings[j], head, node)
            } else {
                rings[j]
            },
    )
}

/// A node that is alone on its ring is a member of no other node's ring.
proof fn lemma_alone_in_no_ring(nodes: Seq<Node>, rings: Seq<Seq<usize>>, j: usize, x: usize)
    requires
        rings_fit(nodes, rings),
        j < nodes.len(),
        x < nodes.len(),
        rings[x as int].len() == 0,
        j != x,
    ensures
        !rings[j as int].contains(x),
{
    let r = rings[j as int];
    assert(ring_ok_at(nodes, rings[x as int], x));
    assert(ring_ok_at(nodes, r, j));
    if r.contains(x) {
        let k = choose|k: int| 0 <= k < r.len() && r[k] == x;
        assert(nodes[r[k] as int].next == x);
        if k + 1 < r.len() {
            assert(r[k + 1] != r[k]);
        }
    }
}

/// The node behind `head` is reached from `head` alone: it is `j` or a
/// member of `j`'s ring only if `head` is.
proof fn lemma_first_follows_head(nodes: Seq<Node>, rings: Seq<Seq<usize>>, j: usize, head: usize)
    requires
        rings_fit(nodes, rings),
        j < nodes.len(),
        head < nodes.len(),
        j != head,
        !rings[j as int].contains(head),
    ensures
        nodes[head as int].next != j,
        !rings[j as int].contains(nodes[head as int].next),
        nodes[head as int].next < nodes.len(),
{
    let r = rings[j as int];
    let h = rings[head as int];
    let first = nodes[head as int].next;
    assert(ring_ok_at(nodes, h, head));
    assert(ring_ok_at(nodes, r, j));
    if h.len() > 0 {
        assert(h[0] < nodes.len());
        assert(nodes[h[0] as int].prev == head);
    }
    assert(nodes[first as int].prev == head);
    if first == j {
        if r.len() > 0 {
            assert(r.contains(r[r.len() - 1]));
        }
    }
    if r.contains(first) {
        let k = choose|k: int| 0 <= k < r.len() && r[k] == first;
        assert(nodes[r[k] as int].prev == head);
        if k > 0 {
            assert(r.contains(r[k - 1]));
        }
    }
}

#[verifier::rlimit(40)]
proof fn lemma_insert_head(nodes: Seq<Node>, rings: Seq<Seq<usize>>, head: usize, node: usize)
    requires
        rings_fit(nodes, rings),
        head < nodes.len(),
        node < nodes.len(),
        head != node,
        rings[node as int].len() == 0,
    ensures
        ring_ok_at(
            nodes_after_insert(nodes, head, node),
            rings[head as int].insert(0, node),
            head,
        ),
        ring_ok_at(
            nodes_after_insert(nodes, head, node),
            rings[head as int].push(head),
            node,
        ),
{
    let r = rings[head as int];
    let m = nodes_after_insert(nodes, head, node);
    let first = nodes[head as int].next;
    assert(ring_ok_at(nodes, r, head));
    assert(ring_ok_at(nodes, rings[node as int], node));
    lemma_alone_in_no_ring(nodes, rings, head, node);
    if r.len() > 0 {
        assert(r.contains(r[0]));
        assert(r[0] < nodes.len());
    }
    assert(first != node);
    assert(first < nodes.len());
    assert(m[node as int] == Node { next: first, prev: head });
    assert(m[head as int].next == node);
    assert(forall|x: int|
        0 <= x < nodes.len() && x != node && x != head ==> (#[trigger] m[x]).next == nodes[x].next);
    assert(forall|x: int|
        0 <= x < nodes.len() && x != node && x != first ==> (#[trigger] m[x]).prev
            == nodes[x].prev);
    assert(m[first as int].prev == node);
    let a = r.insert(0, node);
    assert(a.len() == r.len() + 1);
    assert(a[0] == node);
    assert(forall|k: int| 1 <= k < a.len() ==> #[trigger] a[k] == r[k - 1]);
    assert(a.no_duplicates()) by {
        assert forall|x: int, y: int| 0 <= x < a.len() && 0 <= y < a.len() && x != y implies a[x]
            != a[y] by {
            if x >= 1 {
                assert(r.contains(r[x - 1]));
            }
            if y >= 1 {
                assert(r.contains(r[y - 1]));
            }
        }
    }
    assert(!a.contains(head)) by {
        if a.contains(head) {
            let k = choose|k: int| 0 <= k < a.len() && a[k] == head;
            if k >= 1 {
                assert(r.contains(r[k - 1]));
            }
        }
    }
    assert forall|k: int| 0 <= k < a.len() implies m[(#[trigger] a[k]) as int].next == (if k + 1
        < a.len() {
        a[k + 1]
    } else {
        head
    }) by {
        if k >= 1 {
            assert(r.contains(r[k - 1]));
            assert(r[k - 1] < nodes.len());
        }
    }
    assert forall|k: int| 0 <= k < a.len() implies m[(#[trigger] a[k]) as int].prev == (if k
        > 0 {
        a[k - 1]
    } else {
        head
    }) by {
        if k >= 1 {
            assert(r.contains(r[k - 1]));
            assert(r[k - 1] < nodes.len());
            if k >= 2 {
                assert(r[k - 1] != r[0]);
            }
        }
    }
    assert(ring_ok_at(m, a, head));
    let b = r.push(head);
    assert(b.len() == r.len() + 1);
    assert(b[r.len() as int] == head);
    assert(forall|k: int| 0 <= k < r.len() ==> #[trigger] b[k] == r[k]);
    assert(b.no_duplicates()) by {
        assert forall|x: int, y: int| 0 <= x < b.len() && 0 <= y < b.len() && x != y implies b[x]
            != b[y] by {
            if x < r.len() {
                assert(r.contains(r[x]));
            }
            if y < r.len() {
                assert(r.contains(r[y]));
            }
        }
    }
    assert(!b.contains(node)) by {
        if b.contains(node) {
            let k = choose|k: int| 0 <= k < b.len() && b[k] == node;
            if k < r.len() {
                assert(r.contains(r[k]));
            }
        }
    }
    assert forall|k: int| 0 <= k < b.len() implies m[(#[trigger] b[k]) as int].next == (if k + 1
        < b.len() {
        b[k + 1]
    } else {
        node
    }) by {
        if k < r.len() {
            assert(r.contains(r[k]));
            assert(r[k] < nodes.len());
        }
    }
    assert forall|k: int| 0 <= k < b.len() implies m[(#[trigger] b[k]) as int].prev == (if k
        > 0 {
        b[k - 1]
    } else {
        node
    }) by {
        if k < r.len() {
            assert(r.contains(r[k]));
            assert(r[k] < nodes.len());
            if k >= 1 {
                assert(r[k] != r[0]);
            }
        }
    }
    assert(ring_ok_at(m, b, node));
}

/// What placing `x` at `p + 1` does to a sequence without duplicates that
/// holds neither `x` nor `j`.
proof fn lemma_insert_at(r: Seq<usize>, p: int, x: usize, j: usize)
    requires
        r.no_duplicates(),
        !r.contains(j),
        !r.contains(x),
        x != j,
        0 <= p < r.len(),
    ensures
        r.insert(p + 1, x).len() == r.len() + 1,
        r.insert(p + 1, x)[p + 1] == x,
        forall|k: int| 0 <= k <= p ==> #[trigger] r.insert(p + 1, x)[k] == r[k],
        forall|k: int| p + 2 <= k <= r.len() ==> #[trigger] r.insert(p + 1, x)[k] == r[k - 1],
        r.insert(p + 1, x).no_duplicates(),
        !r.insert(p + 1, x).contains(j),
{
    let a = r.insert(p + 1, x);
    assert forall|u: int, v: int| 0 <= u < a.len() && 0 <= v < a.len() && u != v implies a[u]
        != a[v] by {
        if u != p + 1 {
            let u1 = if u <= p { u } else { u - 1 };
            assert(a[u] == r[u1]);
            assert(r.contains(r[u1]));
        }
        if v != p + 1 {
            let v1 = if v <= p { v } else { v - 1 };
            assert(a[v] == r[v1]);
            assert(r.contains(r[v1]));
        }
    }
    assert forall|k: int| 0 <= k < a.len() implies a[k] != j by {
        if k != p + 1 {
            let k1 = if k <= p { k } else { k - 1 };
            assert(a[k] == r[k1]);
            assert(r.contains(r[k1]));
        }
    }
}

#[verifier::rlimit(40)]
proof fn lemma_insert_member_next(
    nodes: Seq<Node>,
    r: Seq<usize>,
    head: usize,
    node: usize,
    j: usize,
)
    requires
        ring_ok_at(nodes, r, j),
        head < nodes.len(),
        node < nodes.len(),
        j < nodes.len(),
        head != node,
        j != head,
        j != node,
        r.contains(head),
        !r.contains(node),
    ensures
        ({
            let m = nodes_after_insert(nodes, head, node);
            let a = insert_after(r, head, node);
            &&& m[j as int].next == a[0]
            &&& forall|k: int|
                0 <= k < a.len() ==> m[(#[trigger] a[k]) as int].next == (if k + 1 < a.len() {
                    a[k + 1]
                } else {
                    j
                })
        }),
{
    let m = nodes_after_insert(nodes, head, node);
    let first = nodes[head as int].next;
    let p = r.index_of(head);
    assert(0 <= p < r.len() && r[p] == head);
    assert(nodes[r[p] as int].next == first);
    if p + 1 < r.len() {
        assert(r.contains(r[p + 1]));
        assert(r[p + 1] < nodes.len());
    }
    assert(first != node && first != head && first < nodes.len());
    assert(m[node as int].next == first);
    assert(m[head as int].next == node);
    assert(forall|x: int|
        0 <= x < nodes.len() && x != node && x != head ==> (#[trigger] m[x]).next == nodes[x].next);
    let a = r.insert(p + 1, node);
    lemma_insert_at(r, p, node, j);
    assert forall|k: int| 0 <= k < a.len() implies m[(#[trigger] a[k]) as int].next == (if k + 1
        < a.len() {
        a[k + 1]
    } else {
        j
    }) by {
        if k == p {
            assert(a[k] == head);
        } else if k == p + 1 {
            if p + 2 < a.len() {
                assert(a[p + 2] == r[p + 1]);
            }
        } else {
            let k1 = if k < p { k } else { k - 1 };
            assert(a[k] == r[k1]);
            assert(r.contains(r[k1]));
            assert(r[k1] < nodes.len());
            assert(r[k1] != r[p]);
            assert(m[r[k1] as int].next == nodes[r[k1] as int].next);
            if k + 1 < a.len() {
                if k < p {
                    assert(a[k + 1] == r[k1 + 1]);
                } else {
                    assert(a[k + 1] == r[k1 + 1]);
                }
            }
        }
    }
    assert(a[0] == r[0]);
    assert(r.contains(r[0]));
    assert(m[j as int].next == nodes[j as int].next);
}

#[verifier::rlimit(40)]
proof fn lemma_insert_member_prev(
    nodes: Seq<Node>,
    r: Seq<usize>,
    head: usize,
    node: usize,
    j: usize,
)
    requires
        ring_ok_at(nodes, r, j),
        head < nodes.len(),
        node < nodes.len(),
        j < nodes.len(),
        head != node,
        j != head,
        j != node,
        r.contains(head),
        !r.contains(node),
    ensures
        ({
            let m = nodes_after_insert(nodes, head, node);
            let a = insert_after(r, head, node);
            &&& m[j as int].prev == a[a.len() - 1]
            &&& forall|k: int|
                0 <= k < a.len() ==> m[(#[trigger] a[k]) as int].prev == (if k > 0 {
                    a[k - 1]
                } else {
                    j
                })
        }),
{
    let m = nodes_after_insert(nodes, head, node);
    let first = nodes[head as int].next;
    let p = r.index_of(head);
    assert(0 <= p < r.len() && r[p] == head);
    assert(nodes[r[p] as int].next == first);
    if p + 1 < r.len() {
        assert(r.contains(r[p + 1]));
        assert(r[p + 1] < nodes.len());
    }
    assert(first != node && first != head && first < nodes.len());
    assert(m[node as int].prev == head);
    assert(m[first as int].prev == node);
    assert(forall|x: int|
        0 <= x < nodes.len() && x != node && x != first ==> (#[trigger] m[x]).prev
            == nodes[x].prev);
    let a = r.insert(p + 1, node);
    lemma_insert_at(r, p, node, j);
    assert forall|k: int| 0 <= k < a.len() implies m[(#[trigger] a[k]) as int].prev == (if k
        > 0 {
        a[k - 1]
    } else {
        j
    }) by {
        if k == p + 1 {
            assert(a[p] == head);
        } else if k == p + 2 {
            assert(a[k] == r[p + 1]);
            assert(r[p + 1] == first);
        } else {
            let k1 = if k <= p { k } else { k - 1 };
            assert(a[k] == r[k1]);
            assert(r.contains(r[k1]));
            assert(r[k1] < nodes.len());
            if p + 1 < r.len() {
                assert(r[k1] != r[p + 1]);
            }
            assert(r[k1] != first);
            assert(m[r[k1] as int].prev == nodes[r[k1] as int].prev);
            if k > 0 {
                assert(a[k - 1] == r[k1 - 1]);
            }
        }
    }
    if first == j {
        assert(p + 1 == r.len());
        assert(a[a.len() - 1] == node);
    } else {
        assert(m[j as int].prev == nodes[j as int].prev);
        assert(r.contains(r[r.len() - 1]));
        assert(a[a.len() - 1] == r[r.len() - 1]);
    }
}

proof fn lemma_insert_member(
    nodes: Seq<Node>,
    rings: Seq<Seq<usize>>,
    head: usize,
    node: usize,
    j: usize,
)
    requires
        rings_fit(nodes, rings),
        head < nodes.len(),
        node < nodes.len(),
        j < nodes.len(),
        head != node,
        j != head,
        j != node,
        rings[node as int].len() == 0,
        rings[j as int].contains(head),
    ensures
        ring_ok_at(
            nodes_after_insert(nodes, head, node),
            insert_after(rings[j as int], head, node),
            j,
        ),
{
    let r = rings[j as int];
    let p = r.index_of(head);
    let a = insert_after(r, head, node);
    assert(ring_ok_at(nodes, r, j));
    lemma_alone_in_no_ring(nodes, rings, j, node);
    lemma_insert_at(r, p, node, j);
    lemma_insert_member_next(nodes, r, head, node, j);
    lemma_insert_member_prev(nodes, r, head, node, j);
    assert forall|k: int| 0 <= k < a.len() implies (#[trigger] a[k]) < nodes.len() by {
        if k != p + 1 {
            let k1 = if k <= p { k } else { k - 1 };
            assert(a[k] == r[k1]);
        }
    }
}

#[verifier::rlimit(40)]
proof fn lemma_insert_other(
    nodes: Seq<Node>,
    rings: Seq<Seq<usize>>,
    head: usize,
    node: usize,
    j: usize,
)
    requires
        rings_fit(nodes, rings),
        head < nodes.len(),
        node < nodes.len(),
        j < nodes.len(),
        head != node,
        j != head,
        j != node,
        rings[node as int].len() == 0,
        !rings[j as int].contains(head),
    ensures
        ring_ok_at(nodes_after_insert(nodes, head, node), rings[j as int], j),
{
    let r = rings[j as int];
    let m = nodes_after_insert(nodes, head, node);
    let first = nodes[head as int].next;
    assert(ring_ok_at(nodes, r, j));
    lemma_alone_in_no_ring(nodes, rings, j, node);
    lemma_first_follows_head(nodes, rings, j, head);
    assert(forall|x: int|
        0 <= x < nodes.len() && x != node && x != head ==> (#[trigger] m[x]).next == nodes[x].next);
    assert(forall|x: int|
        0 <= x < nodes.len() && x != node && x != first ==> (#[trigger] m[x]).prev
            == nodes[x].prev);
    assert forall|k: int| 0 <= k < r.len() implies m[(#[trigger] r[k]) as int] == nodes[r[k] as int] by {
        assert(r.contains(r[k]));
        assert(r[k] < nodes.len());
    }
    assert(m[j as int] == nodes[j as int]);
}

proof fn lemma_insert_fits(nodes: Seq<Node>, rings: Seq<Seq<usize>>, head: usize, node: usize)
    requires
        rings_fit(nodes, rings),
        head < nodes.len(),
        node < nodes.len(),
        head != node,
        rings[node as int].len() == 0,
    ensures
        rings_fit(nodes_after_insert(nodes, head, node), rings_after_insert(rings, head, node)),
{
    let m = nodes_after_insert(nodes, head, node);
    let q = rings_after_insert(rings, head, node);
    assert(ring_ok_at(nodes, rings[head as int], head));
    assert(m.len() == nodes.len());
    assert forall|j: usize| j < m.len() implies #[trigger] ring_ok_at(m, q[j as int], j) by {
        if j == head || j == node {
            lemma_insert_head(nodes, rings, head, node);
        } else if rings[j as int].contains(head) {
            lemma_insert_member(nodes, rings, head, node, j);
        } else {
            lemma_insert_other(nodes, rings, head, node, j);
        }
    }
}

/// The links after `node` was taken off its ring and left alone.
spec fn nodes_after_remove(o: Seq<Node>, node: usize) -> Seq<Node> {
    let prev = o[node as int].prev;
    let next = o[node as int].next;
    let a = o.update(next as int, Node { next: o[next as int].next, prev: prev });
    let b = a.update(prev as int, Node { next: next, prev: a[prev as int].prev });
    b.update(node as int, Node { next: node, prev: node })
}

/// The rings after `node` was taken off its ring and left alone.
spec fn rings_after_remove(rings: Seq<Seq<usize>>, node: usize) -> Seq<Seq<usize>> {
    Seq::new(
        rings.len(),
        |j: int|
            if j == node {
                Seq::empty()
            } else {
                without(rings[j], node)
            },
    )
}

/// What taking out the element at `p` does to a sequence without duplicates.
proof fn lemma_remove_at(r: Seq<usize>, p: int, j: usize)
    requires
        r.no_duplicates(),
        !r.contains(j),
        0 <= p < r.len(),
    ensures
        r.remove(p).len() == r.len() - 1,
        forall|k: int| 0 <= k < p ==> #[trigger] r.remove(p)[k] == r[k],
        forall|k: int| p <= k < r.len() - 1 ==> #[trigger] r.remove(p)[k] == r[k + 1],
        r.remove(p).no_duplicates(),
        !r.remove(p).contains(j),
        !r.remove(p).contains(r[p]),
{
    let a = r.remove(p);
    assert forall|x: int, y: int| 0 <= x < a.len() && 0 <= y < a.len() && x != y implies a[x]
        != a[y] by {
        let x1 = if x < p { x } else { x + 1 };
        let y1 = if y < p { y } else { y + 1 };
        assert(a[x] == r[x1] && a[y] == r[y1]);
    }
    assert forall|k: int| 0 <= k < a.len() implies a[k] != j && a[k] != r[p] by {
        let k1 = if k < p { k } else { k + 1 };
        assert(a[k] == r[k1]);
        assert(r.contains(r[k1]));
    }
}

#[verifier::rlimit(40)]
proof fn lemma_remove_member_next(nodes: Seq<Node>, r: Seq<usize>, node: usize, j: usize)
    requires
        ring_ok_at(nodes, r, j),
        node < nodes.len(),
        j < nodes.len(),
        j != node,
        r.contains(node),
    ensures
        ({
            let m = nodes_after_remove(nodes, node);
            let a = without(r, node);
            &&& m[j as int].next == (if a.len() == 0 { j } else { a[0] })
            &&& forall|k: int|
                0 <= k < a.len() ==> m[(#[trigger] a[k]) as int].next == (if k + 1 < a.len() {
                    a[k + 1]
                } else {
                    j
                })
        }),
{
    let m = nodes_after_remove(nodes, node);
    let prev = nodes[node as int].prev;
    let next = nodes[node as int].next;
    let p = r.index_of(node);
    assert(0 <= p < r.len() && r[p] == node);
    assert(nodes[r[p] as int].next == next);
    assert(nodes[r[p] as int].prev == prev);
    if p > 0 {
        assert(r.contains(r[p - 1]));
        assert(r[p - 1] < nodes.len());
    }
    if p + 1 < r.len() {
        assert(r.contains(r[p + 1]));
        assert(r[p + 1] < nodes.len());
    }
    assert(prev != node && next != node);
    assert(m[prev as int].next == next);
    assert(forall|x: int|
        0 <= x < nodes.len() && x != node && x != prev ==> (#[trigger] m[x]).next == nodes[x].next);
    let a = r.remove(p);
    lemma_remove_at(r, p, j);
    assert forall|k: int| 0 <= k < a.len() implies m[(#[trigger] a[k]) as int].next == (if k + 1
        < a.len() {
        a[k + 1]
    } else {
        j
    }) by {
        let k1 = if k < p { k } else { k + 1 };
        assert(a[k] == r[k1]);
        assert(r.contains(r[k1]));
        assert(r[k1] < nodes.len());
        assert(r[k1] != r[p]);
        if k1 == p - 1 {
        } else {
            if p > 0 {
                assert(r[k1] != r[p - 1]);
            }
            assert(r[k1] != prev);
            assert(m[r[k1] as int].next == nodes[r[k1] as int].next);
        }
    }
    if p > 0 {
        assert(r.contains(r[0]));
        assert(m[j as int].next == nodes[j as int].next);
        assert(a[0] == r[0]);
    }
}

#[verifier::rlimit(40)]
proof fn lemma_remove_member_prev(nodes: Seq<Node>, r: Seq<usize>, node: usize, j: usize)
    requires
        ring_ok_at(nodes, r, j),
        node < nodes.len(),
        j < nodes.len(),
        j != node,
        r.contains(node),
    ensures
        ({
            let m = nodes_after_remove(nodes, node);
            let a = without(r, node);
            &&& m[j as int].prev == (if a.len() == 0 { j } else { a[a.len() - 1] })
            &&& forall|k: int|
                0 <= k < a.len() ==> m[(#[trigger] a[k]) as int].prev == (if k > 0 {
                    a[k - 1]
                } else {
                    j
                })
        }),
{
    let m = nodes_after_remove(nodes, node);
    let prev = nodes[node as int].prev;
    let next = nodes[node as int].next;
    let p = r.index_of(node);
    assert(0 <= p < r.len() && r[p] == node);
    assert(nodes[r[p] as int].next == next);
    assert(nodes[r[p] as int].prev == prev);
    if p > 0 {
        assert(r.contains(r[p - 1]));
        assert(r[p - 1] < nodes.len());
    }
    if p + 1 < r.len() {
        assert(r.contains(r[p + 1]));
        assert(r[p + 1] < nodes.len());
    }
    assert(prev != node && next != node);
    assert(prev < nodes.len() && next < nodes.len());
    assert(m[next as int].prev == prev);
    assert(forall|x: int|
        0 <= x < nodes.len() && x != node && x != next ==> (#[trigger] m[x]).prev
            == nodes[x].prev);
    let a = r.remove(p);
    lemma_remove_at(r, p, j);
    assert forall|k: int| 0 <= k < a.len() implies m[(#[trigger] a[k]) as int].prev == (if k
        > 0 {
        a[k - 1]
    } else {
        j
    }) by {
        let k1 = if k < p { k } else { k + 1 };
        assert(a[k] == r[k1]);
        assert(r.contains(r[k1]));
        assert(r[k1] < nodes.len());
        assert(r[k1] != r[p]);
        if k1 == p + 1 {
        } else {
            if p + 1 < r.len() {
                assert(r[k1] != r[p + 1]);
            }
            assert(r[k1] != next);
            assert(m[r[k1] as int].prev == nodes[r[k1] as int].prev);
        }
    }
    if p + 1 < r.len() {
        assert(r.contains(r[r.len() - 1]));
        assert(m[j as int].prev == nodes[j as int].prev);
        assert(a[a.len() - 1] == r[r.len() - 1]);
    }
}

proof fn lemma_remove_member(nodes: Seq<Node>, rings: Seq<Seq<usize>>, node: usize, j: usize)
    requires
        rings_fit(nodes, rings),
        node < nodes.len(),
        j < nodes.len(),
        j != node,
        rings[j as int].contains(node),
    ensures
        ring_ok_at(nodes_after_remove(nodes, node), without(rings[j as int], node), j),
{
    let r = rings[j as int];
    let p = r.index_of(node);
    let a = without(r, node);
    assert(ring_ok_at(nodes, r, j));
    lemma_remove_at(r, p, j);
    lemma_remove_member_next(nodes, r, node, j);
    lemma_remove_member_prev(nodes, r, node, j);
    assert forall|k: int| 0 <= k < a.len() implies (#[trigger] a[k]) < nodes.len() by {
        let k1 = if k < p { k } else { k + 1 };
        assert(a[k] == r[k1]);
    }
}

#[verifier::rlimit(40)]
proof fn lemma_remove_other(nodes: Seq<Node>, rings: Seq<Seq<usize>>, node: usize, j: usize)
    requires
        rings_fit(nodes, rings),
        node < nodes.len(),
        j < nodes.len(),
        j != node,
        !rings[j as int].contains(node),
    ensures
        ring_ok_at(nodes_after_remove(nodes, node), rings[j as int], j),
{
    let r = rings[j as int];
    let rn = rings[node as int];
    let m = nodes_after_remove(nodes, node);
    let prev = nodes[node as int].prev;
    let next = nodes[node as int].next;
    assert(ring_ok_at(nodes, r, j));
    assert(ring_ok_at(nodes, rn, node));
    if rn.len() > 0 {
        assert(rn[0] < nodes.len());
        assert(rn[rn.len() - 1] < nodes.len());
        assert(nodes[rn[0] as int].prev == node);
        assert(nodes[rn[rn.len() - 1] as int].next == node);
    }
    assert(prev < nodes.len() && next < nodes.len());
    assert(nodes[prev as int].next == node);
    assert(nodes[next as int].prev == node);
    assert(prev != j) by {
        if prev == j && r.len() > 0 {
            assert(r.contains(r[0]));
        }
    }
    assert(next != j) by {
        if next == j && r.len() > 0 {
            assert(r.contains(r[r.len() - 1]));
        }
    }
    assert(!r.contains(prev)) by {
        if r.contains(prev) {
            let k = choose|k: int| 0 <= k < r.len() && r[k] == prev;
            assert(nodes[r[k] as int].next == node);
            if k + 1 < r.len() {
                assert(r.contains(r[k + 1]));
            }
        }
    }
    assert(!r.contains(next)) by {
        if r.contains(next) {
            let k = choose|k: int| 0 <= k < r.len() && r[k] == next;
            assert(nodes[r[k] as int].prev == node);
            if k > 0 {
                assert(r.contains(r[k - 1]));
            }
        }
    }
    assert(forall|x: int|
        0 <= x < nodes.len() && x != node && x != prev ==> (#[trigger] m[x]).next == nodes[x].next);
    assert(forall|x: int|
        0 <= x < nodes.len() && x != node && x != next ==> (#[trigger] m[x]).prev
            == nodes[x].prev);
    assert forall|k: int| 0 <= k < r.len() implies m[(#[trigger] r[k]) as int] == nodes[r[k] as int] by {
        assert(r.contains(r[k]));
        assert(r[k] < nodes.len());
    }
    assert(m[j as int] == nodes[j as int]);
}

proof fn lemma_remove_fits(nodes: Seq<Node>, rings: Seq<Seq<usize>>, node: usize)
    requires
        rings_fit(nodes, rings),
        node < nodes.len(),
    ensures
        rings_fit(nodes_after_remove(nodes, node), rings_after_remove(rings, node)),
{
    let m = nodes_after_remove(nodes, node);
    let q = rings_after_remove(rings, node);
    assert(ring_ok_at(nodes, rings[node as int], node));
    if rings[node as int].len() > 0 {
        assert(rings[node as int][0] < nodes.len());
        assert(rings[node as int][rings[node as int].len() - 1] < nodes.len());
    }
    assert(m.len() == nodes.len());
    assert forall|j: usize| j < m.len() implies #[trigger] ring_ok_at(m, q[j as int], j) by {
        if j == node {
            assert(m[node as int] == Node { next: node, prev: node });
        } else if rings[j as int].contains(node) {
            lemma_remove_member(nodes, rings, node, j);
        } else {
            lemma_remove_other(nodes, rings, node, j);
        }
    }
}

} // verus!
