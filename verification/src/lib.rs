//! A persistent (immutable) min-priority queue built on a leftist heap.
//!
//! Every operation returns a new heap value and leaves its operands
//! untouched, so older heap values stay valid; unchanged subtrees are
//! shared between versions through reference counting. Merging two heaps
//! is the primitive operation, and it walks only the right spine, whose
//! length the leftist rank invariant keeps logarithmic in the size.

use std::rc::Rc;
use vstd::prelude::*;

verus! {

use vstd::multiset::Multiset;

broadcast use vstd::multiset::group_multiset_axioms;

/// Relies on `Rc::clone`: cloning a reference-counted pointer yields a
/// second handle to the very same allocation, so the pointed-to value of
/// the result equals that of the argument.
#[verifier::external_body]
fn share(rc: &Rc<MinHeap>) -> (res: Rc<MinHeap>)
    ensures
        res == *rc,
{
    rc.clone()
}

/// One non-empty heap-ordered subtree: the root value, the leftist rank
/// (length of the rightmost spine), and the two child heaps.
pub struct Node {
    value: u64,
    rank: u32,
    left: Rc<MinHeap>,
    right: Rc<MinHeap>,
}

/// A persistent min-heap: either empty or one [`Node`].
pub struct MinHeap {
    node: Option<Node>,
}

impl Node {
    /// The multiset of values stored in this subtree.
    pub closed spec fn elems(&self) -> Multiset<u64>
        decreases *self,
    {
        Multiset::singleton(self.value).add((*self.left).elems()).add((*self.right).elems())
    }

    /// Structural well-formedness: both children are well-formed, the root
    /// value is no larger than anything below it, the left child's rank is
    /// at least the right child's, and the stored rank is one more than
    /// the right child's.
    pub closed spec fn wf(&self) -> bool
        decreases self,
    {
        &&& (*self.left).wf()
        &&& (*self.right).wf()
        &&& (forall|v: u64| (*self.left).elems().contains(v) ==> self.value <= v)
        &&& (forall|v: u64| (*self.right).elems().contains(v) ==> self.value <= v)
        &&& (*self.left).rank_of() >= (*self.right).rank_of()
        &&& self.rank == (*self.right).rank_of() + 1
    }
}

impl MinHeap {
    /// The multiset of values stored in the heap.
    pub closed spec fn elems(&self) -> Multiset<u64>
        decreases self,
    {
        match self.node {
            None => Multiset::empty(),
            Some(n) => n.elems(),
        }
    }

    /// The leftist rank of the heap: 0 when empty, the root's rank otherwise.
    pub closed spec fn rank_of(&self) -> nat {
        match self.node {
            None => 0,
            Some(n) => n.rank as nat,
        }
    }

    /// Every node reachable from the heap satisfies the heap-order and
    /// leftist rank invariants.
    pub closed spec fn wf(&self) -> bool
        decreases self,
    {
        match self.node {
            None => true,
            Some(n) => n.wf(),
        }
    }
}

impl Default for MinHeap {
    /// The empty heap, the identity element of `merge`.
    fn default() -> (r: Self)
        ensures
            r.wf(),
            r.elems() == Multiset::<u64>::empty(),
            r.rank_of() == 0,
    {
        MinHeap { node: None }
    }
}

/// A copy of a node that shares both children with the original.
fn dup_node(n: &Node) -> (r: Node)
    ensures
        r == *n,
{
    Node { value: n.value, rank: n.rank, left: share(&n.left), right: share(&n.right) }
}

impl MinHeap {
    /// A copy of the heap that shares all nodes with the original.
    fn dup(&self) -> (r: Self)
        ensures
            r == *self,
    {
        match &self.node {
            None => MinHeap { node: None },
            Some(n) => MinHeap { node: Some(dup_node(n)) },
        }
    }

    /// A heap holding exactly one value.
    pub fn new(value: u64) -> (r: Self)
        ensures
            r.wf(),
            r.elems() == Multiset::singleton(value),
    {
        let r = MinHeap {
            node: Some(
                Node {
                    value,
                    rank: 1,
                    left: Rc::new(MinHeap::default()),
                    right: Rc::new(MinHeap::default()),
                },
            ),
        };
        proof {
            assert(r.elems() =~= Multiset::singleton(value));
        }
        r
    }

    /// Whether the heap holds no value at all.
    pub fn is_empty(&self) -> (r: bool)
        ensures
            r == (self.elems().len() == 0),
    {
        proof {
            if let Some(n) = &self.node {
                assert(n.elems().contains(n.value));
            }
        }
        self.node.is_none()
    }

    /// Wraps a node as a heap.
    fn from_node(node: Node) -> (r: Self)
        ensures
            r.wf() == node.wf(),
            r.elems() == node.elems(),
            r.rank_of() == node.rank as nat,
    {
        Self { node: Some(node) }
    }
}

/// 2 raised to the power `e`.
spec fn two_pow(e: nat) -> nat
    decreases e,
{
    if e == 0 {
        1
    } else {
        2 * two_pow((e - 1) as nat)
    }
}

proof fn lemma_two_pow_monotone(a: nat, b: nat)
    requires
        a <= b,
    ensures
        two_pow(a) <= two_pow(b),
    decreases b,
{
    if a < b {
        lemma_two_pow_monotone(a, (b - 1) as nat);
    }
}

/// The leftist bound: a well-formed heap of rank `r` holds at least
/// `2^r - 1` values, because the right spine has length `r` and left
/// subtrees are always at least as deep along their own right spines.
proof fn lemma_size_of_rank(h: &MinHeap)
    requires
        h.wf(),
    ensures
        two_pow(h.rank_of()) <= h.elems().len() + 1,
    decreases *h,
{
    match &h.node {
        None => {}
        Some(n) => {
            lemma_size_of_rank(&*n.left);
            lemma_size_of_rank(&*n.right);
            lemma_two_pow_monotone((*n.right).rank_of(), (*n.left).rank_of());
        }
    }
}

/// The root of a well-formed subtree is a minimum of all its values.
proof fn lemma_node_min(n: &Node)
    requires
        n.wf(),
    ensures
        forall|v: u64| n.elems().contains(v) ==> n.value <= v,
{
    assert forall|v: u64| n.elems().contains(v) implies n.value <= v by {
        if (*n.left).elems().contains(v) {
        } else if (*n.right).elems().contains(v) {
        } else {
            assert(Multiset::singleton(n.value).count(v) > 0);
        }
    }
}

/// A heap small enough to exist in memory has rank at most 64.
proof fn lemma_rank_le_64(h: &MinHeap)
    requires
        h.wf(),
        h.elems().len() <= usize::MAX,
    ensures
        h.rank_of() <= 64,
{
    if h.rank_of() > 64 {
        lemma_size_of_rank(h);
        lemma_two_pow_monotone(65, h.rank_of());
        assert(two_pow(65) == 0x20000000000000000) by {
            reveal_with_fuel(two_pow, 66);
        }
    }
}

impl Node {
    /// Merges two well-formed heap-ordered subtrees into one holding the
    /// multiset union of their values. The recursion descends only along
    /// right spines, so its depth is bounded by the ranks of the inputs.
    pub fn merge(&self, other: &Self) -> (r: Self)
        requires
            self.wf(),
            other.wf(),
            self.elems().len() + other.elems().len() <= usize::MAX,
        ensures
            r.wf(),
            r.elems() == self.elems().add(other.elems()),
        decreases self.elems().len() + other.elems().len(), 0nat,
    {
        let (min, max) = if self.value < other.value { (self, other) } else { (other, self) };
        proof {
            assert(min.elems().add(max.elems()) =~= self.elems().add(other.elems()));
            lemma_node_min(max);
        }
        let merged = min.right.merge_data(max);
        let merged_rank = merged.rank;
        let right_heap = MinHeap::from_node(merged);
        proof {
            lemma_rank_le_64(&right_heap);
            lemma_rank_le_64(&*min.left);
            assert forall|v: u64| right_heap.elems().contains(v) implies min.value <= v by {
                if !(*min.right).elems().contains(v) {
                    assert(max.elems().contains(v));
                }
            }
        }
        let right = Rc::new(right_heap);
        let value = min.value;
        match &min.left.node {
            Some(left) => {
                if left.rank < merged_rank {
                    let r = Node {
                        value,
                        rank: left.rank + 1,
                        left: right,
                        right: share(&min.left),
                    };
                    proof {
                        assert(r.elems() =~= self.elems().add(other.elems()));
                    }
                    r
                } else {
                    let r = Node {
                        value,
                        rank: merged_rank + 1,
                        left: share(&min.left),
                        right,
                    };
                    proof {
                        assert(r.elems() =~= self.elems().add(other.elems()));
                    }
                    r
                }
            }
            None => {
                let r = Node { value, rank: 1, left: right, right: share(&min.left) };
                proof {
                    assert(r.elems() =~= self.elems().add(other.elems()));
                }
                r
            }
        }
    }
}

impl MinHeap {
    /// Merges two heaps into one holding the multiset union of their
    /// values. Merging with an empty heap returns the other operand's
    /// value unchanged.
    pub fn merge(&self, other: &Self) -> (r: Self)
        requires
            self.wf(),
            other.wf(),
            self.elems().len() + other.elems().len() <= usize::MAX,
        ensures
            r.wf(),
            r.elems() == self.elems().add(other.elems()),
            self.elems().len() == 0 ==> r == *other,
            other.elems().len() == 0 ==> r == *self,
    {
        proof {
            if let Some(n) = &self.node {
                assert(n.elems().contains(n.value));
            }
            if let Some(n) = &other.node {
                assert(n.elems().contains(n.value));
            }
        }
        match (&self.node, &other.node) {
            (None, _) => {
                let r = other.dup();
                proof {
                    assert(self.elems().add(other.elems()) =~= other.elems());
                }
                r
            }
            (_, None) => {
                let r = self.dup();
                proof {
                    assert(self.elems().add(other.elems()) =~= self.elems());
                }
                r
            }
            (Some(a), Some(b)) => MinHeap::from_node(a.merge(b)),
        }
    }

    /// Adds one value to the heap, leaving the original untouched.
    pub fn insert(&self, value: u64) -> (r: Self)
        requires
            self.wf(),
            self.elems().len() < usize::MAX,
        ensures
            r.wf(),
            r.elems() == self.elems().insert(value),
    {
        self.merge(&Self::new(value))
    }

    /// Splits the heap into a minimum value and the heap of the remaining
    /// values; an empty heap reports the absence of a minimum and stays
    /// empty. The operands are left untouched.
    pub fn pop(&self) -> (r: (Self, Option<u64>))
        requires
            self.wf(),
            self.elems().len() <= usize::MAX,
        ensures
            r.0.wf(),
            (r.1 is None) <==> self.elems().len() == 0,
            match r.1 {
                None => r.0 == *self,
                Some(v) => {
                    &&& self.elems().contains(v)
                    &&& (forall|x: u64| self.elems().contains(x) ==> v <= x)
                    &&& r.0.elems() == self.elems().remove(v)
                },
            },
    {
        match &self.node {
            Some(node) => {
                proof {
                    lemma_node_min(node);
                    assert(node.elems().contains(node.value));
                    assert((*node.left).elems().add((*node.right).elems()) =~= node.elems()
                        .remove(node.value));
                }
                (node.left.merge(&node.right), Some(node.value))
            }
            None => (Self::default(), None),
        }
    }

    /// The minimum value of the heap, without removing it; `None` when the
    /// heap is empty.
    pub fn peek_min(&self) -> (r: Option<u64>)
        requires
            self.wf(),
        ensures
            (r is None) <==> self.elems().len() == 0,
            r matches Some(v) ==> self.elems().contains(v) && (forall|x: u64|
                self.elems().contains(x) ==> v <= x),
    {
        match &self.node {
            Some(node) => {
                proof {
                    lemma_node_min(node);
                    assert(node.elems().contains(node.value));
                }
                Some(node.value)
            }
            None => None,
        }
    }

    /// The leftist rank of the heap: the length of its rightmost spine.
    pub fn rank(&self) -> (r: u32)
        ensures
            r as nat == self.rank_of(),
    {
        match &self.node {
            Some(node) => node.rank,
            None => 0,
        }
    }

    /// Merges this heap with a non-empty subtree.
    fn merge_data(&self, other: &Node) -> (r: Node)
        requires
            self.wf(),
            other.wf(),
            self.elems().len() + other.elems().len() <= usize::MAX,
        ensures
            r.wf(),
            r.elems() == self.elems().add(other.elems()),
        decreases self.elems().len() + other.elems().len(), 1nat,
    {
        match &self.node {
            Some(data) => data.merge(other),
            None => {
                let r = dup_node(other);
                proof {
                    assert(self.elems().add(other.elems()) =~= other.elems());
                }
                r
            }
        }
    }
}

impl MinHeap {
    /// Builds a heap by inserting each value of `values` in order into an
    /// initially empty heap.
    pub fn from_iter(values: &Vec<u64>) -> (r: Self)
        ensures
            r.wf(),
            r.elems() == values@.to_multiset(),
    {
        let mut ret = Self::default();
        let mut i: usize = 0;
        proof {
            vstd::seq_lib::to_multiset_len(values@.take(0));
            vstd::multiset::lemma_multiset_empty_len(values@.take(0).to_multiset());
        }
        while i < values.len()
            invariant
                i <= values.len(),
                ret.wf(),
                ret.elems() == values@.take(i as int).to_multiset(),
            decreases values.len() - i,
        {
            proof {
                vstd::seq_lib::to_multiset_len(values@.take(i as int));
                vstd::seq_lib::to_multiset_build(values@.take(i as int), values@[i as int]);
                assert(values@.take(i + 1) =~= values@.take(i as int).push(values@[i as int]));
            }
            ret = ret.insert(values[i]);
            i = i + 1;
        }
        proof {
            assert(values@.take(values@.len() as int) =~= values@);
        }
        ret
    }

    /// A producer of the heap's values in non-decreasing order; the heap
    /// itself is left untouched and stays usable.
    pub fn iter(&self) -> (r: Iter)
        requires
            self.wf(),
            self.elems().len() <= usize::MAX,
        ensures
            r.wf(),
            r@ == self.elems(),
    {
        Iter { state: self.dup() }
    }

    /// Drains a copy of the heap by repeated `pop`, returning all its
    /// values in non-decreasing order; the heap itself is left untouched.
    pub fn to_sorted_vec(&self) -> (r: Vec<u64>)
        requires
            self.wf(),
            self.elems().len() <= usize::MAX,
        ensures
            sorted(r@),
            r@.to_multiset() == self.elems(),
    {
        let mut heap = self.dup();
        let mut out: Vec<u64> = Vec::new();
        proof {
            vstd::seq_lib::to_multiset_len(out@);
            vstd::multiset::lemma_multiset_empty_len(out@.to_multiset());
            assert(out@.to_multiset().add(heap.elems()) =~= heap.elems());
        }
        loop
            invariant
                heap.wf(),
                heap.elems().len() <= usize::MAX,
                out@.to_multiset().add(heap.elems()) == self.elems(),
                sorted(out@),
                forall|i: int, x: u64|
                    0 <= i < out@.len() && heap.elems().contains(x) ==> out@[i] <= x,
            ensures
                sorted(out@),
                out@.to_multiset() == self.elems(),
            decreases heap.elems().len(),
        {
            let (rest, popped) = heap.pop();
            match popped {
                None => {
                    proof {
                        assert(out@.to_multiset().add(heap.elems()) =~= out@.to_multiset());
                    }
                    break ;
                }
                Some(v) => {
                    proof {
                        vstd::seq_lib::to_multiset_build(out@, v);
                        assert(out@.push(v).to_multiset().add(rest.elems()) =~= out@.to_multiset()
                            .add(heap.elems()));
                        assert forall|i: int, x: u64|
                            0 <= i < out@.push(v).len() && rest.elems().contains(x) implies out@.push(
                            v,
                        )[i] <= x by {
                            assert(heap.elems().contains(x));
                            if i < out@.len() {
                                assert(heap.elems().contains(v));
                            }
                        }
                        assert(sorted(out@.push(v))) by {
                            assert(forall|i: int|
                                0 <= i < out@.len() ==> out@[i] <= v && out@.push(v)[i] == out@[i]);
                        }
                    }
                    out.push(v);
                    heap = rest;
                }
            }
        }
        out
    }
}

/// Whether a sequence is in non-decreasing order.
pub open spec fn sorted(s: Seq<u64>) -> bool {
    forall|i: int, j: int| 0 <= i <= j < s.len() ==> s[i] <= s[j]
}

/// A sorted-sequence producer: holds one heap value and replaces it with
/// the remainder of a `pop` at each step, yielding the values of the
/// original heap in non-decreasing order. The heap it was created from is
/// unaffected and can seed a fresh producer at any time.
pub struct Iter {
    state: MinHeap,
}

impl View for Iter {
    type V = Multiset<u64>;

    /// The multiset of values the producer has not yet yielded.
    closed spec fn view(&self) -> Multiset<u64> {
        self.state.elems()
    }
}

impl Iter {
    /// The held heap is well-formed and small enough to pop from.
    pub closed spec fn wf(&self) -> bool {
        self.state.wf() && self.state.elems().len() <= usize::MAX
    }

    /// Yields a minimum of the values not yet yielded and removes exactly
    /// that value from the producer's state, or reports the end of the
    /// sequence when none remain.
    pub fn next(&mut self) -> (r: Option<u64>)
        requires
            old(self).wf(),
        ensures
            final(self).wf(),
            (r is None) <==> old(self)@.len() == 0,
            match r {
                None => final(self)@ == old(self)@,
                Some(v) => {
                    &&& old(self)@.contains(v)
                    &&& (forall|x: u64| old(self)@.contains(x) ==> v <= x)
                    &&& final(self)@ == old(self)@.remove(v)
                },
            },
    {
        let (state, ret) = self.state.pop();
        self.state = state;
        ret
    }
}

/// Draining by repeated `pop` yields values in non-decreasing order: a
/// minimum taken after another minimum was removed is never smaller than
/// the first.
pub proof fn lemma_pop_monotonic(m: Multiset<u64>, a: u64, b: u64)
    requires
        m.contains(a),
        forall|x: u64| m.contains(x) ==> a <= x,
        m.remove(a).contains(b),
        forall|x: u64| m.remove(a).contains(x) ==> b <= x,
    ensures
        a <= b,
{
    assert(m.contains(b));
}

/// Merging is commutative over the contained multisets: the two orders of
/// `merge` produce heaps holding the same values.
pub proof fn lemma_merge_multiset_commutative(a: &MinHeap, b: &MinHeap)
    ensures
        a.elems().add(b.elems()) == b.elems().add(a.elems()),
{
    assert(a.elems().add(b.elems()) =~= b.elems().add(a.elems()));
}

/// Merging is associative over the contained multisets: either grouping
/// of three `merge`s produces a heap holding the same values.
pub proof fn lemma_merge_multiset_associative(a: &MinHeap, b: &MinHeap, c: &MinHeap)
    ensures
        a.elems().add(b.elems()).add(c.elems()) == a.elems().add(b.elems().add(c.elems())),
{
    assert(a.elems().add(b.elems()).add(c.elems()) =~= a.elems().add(b.elems().add(c.elems())));
}

/// Two sorted sequences holding the same multiset of values are equal:
/// heaps holding the same values drain to the very same sorted sequence,
/// however they were built.
pub proof fn lemma_sorted_drain_unique(s1: Seq<u64>, s2: Seq<u64>)
    requires
        sorted(s1),
        sorted(s2),
        s1.to_multiset() == s2.to_multiset(),
    ensures
        s1 == s2,
{
    let leq = |a: u64, b: u64| a <= b;
    assert(vstd::relations::sorted_by(s1, leq));
    assert(vstd::relations::sorted_by(s2, leq));
    assert(vstd::relations::total_ordering(leq)) by {
        assert(vstd::relations::reflexive(leq));
        assert(vstd::relations::antisymmetric(leq));
        assert(vstd::relations::transitive(leq));
        assert(vstd::relations::strongly_connected(leq));
    }
    vstd::seq_lib::lemma_sorted_unique(s1, s2, leq);
    assert(s1 =~= s2);
}

} // verus!

