//! An array-backed binary min-heap.
//!
//! The backing vector stores a complete binary tree: the children of the
//! element at index `i` sit at indices `2i + 1` and `2i + 2`, its parent at
//! `(i - 1) / 2`. The heap-order invariant — every parent is no greater than
//! its children — makes the root a minimum of the whole collection, so the
//! queue supports insertion and extraction of a minimum in logarithmic time.

use vstd::prelude::*;

use core::cmp::Ordering;
use vstd::multiset::Multiset;
use vstd::std_specs::cmp::PartialEqSpec;
use vstd::std_specs::cmp::PartialOrdSpec;

use crate::order::TotalPreorder;
use crate::order::order_equiv;

verus! {

/// Index of the parent of the node at index `i` (meaningful for `i > 0`).
pub open spec fn heap_parent(i: int) -> int {
    (i - 1) / 2
}

/// Index of the left child of the node at index `i`.
pub open spec fn heap_left(i: int) -> int {
    2 * i + 1
}

/// Index of the right child of the node at index `i`.
pub open spec fn heap_right(i: int) -> int {
    2 * i + 2
}

/// The heap-order invariant: every element with a parent is no smaller than
/// that parent.
pub open spec fn is_min_heap<T: TotalPreorder>(s: Seq<T>) -> bool {
    forall|i: int| 1 <= i < s.len() ==> s[heap_parent(i)].le_spec(#[trigger] s[i])
}

/// Heap order holds at every parent-child edge except possibly the one from
/// `c`'s parent down to `c`. This is the state while an element bubbles up.
spec fn heap_except_at<T: TotalPreorder>(s: Seq<T>, c: int) -> bool {
    forall|i: int| 1 <= i < s.len() && i != c ==> s[heap_parent(i)].le_spec(#[trigger] s[i])
}

/// The parent of `c` (when `c` has one) is no greater than either child of
/// `c`: the out-of-place element at `c` can be swapped with a neighbour
/// without breaking the edges around it.
spec fn parent_below_children<T: TotalPreorder>(s: Seq<T>, c: int) -> bool {
    c > 0 ==> {
        &&& heap_left(c) < s.len() ==> s[heap_parent(c)].le_spec(s[heap_left(c)])
        &&& heap_right(c) < s.len() ==> s[heap_parent(c)].le_spec(s[heap_right(c)])
    }
}

/// Index `i` lies in the subtree rooted at index `root` of the implicit
/// binary tree over the array: `root` itself, or a node whose parent chain
/// passes through `root`.
pub open spec fn in_subtree(root: int, i: int) -> bool
    decreases i,
{
    i == root || (0 <= root < i && in_subtree(root, heap_parent(i)))
}

/// Index `j` lies on the path from index `i` up to the root of the array:
/// `i` itself or one of its ancestors.
pub open spec fn on_root_path(i: int, j: int) -> bool
    decreases i,
{
    j == i || (i > 0 && on_root_path(heap_parent(i), j))
}

/// Heap order holds at every edge inside the subtree rooted at `root`.
pub open spec fn subtree_heap<T: TotalPreorder>(s: Seq<T>, root: int) -> bool {
    forall|j: int|
        in_subtree(root, j) && j != root && j < s.len() ==> s[heap_parent(j)].le_spec(
            #[trigger] s[j],
        )
}

/// Heap order holds at every edge inside the subtree rooted at `c` except
/// possibly the two edges out of `c` itself: the two child subtrees of `c`
/// are heaps. This is all that sifting `c` down needs on entry.
spec fn almost_heap_below<T: TotalPreorder>(s: Seq<T>, c: int) -> bool {
    forall|j: int|
        in_subtree(c, j) && j != c && heap_parent(j) != c && j < s.len() ==> s[heap_parent(
            j,
        )].le_spec(#[trigger] s[j])
}

/// The sequence left behind by sifting the element at index `i` up the
/// parent chain: it swaps with its parent while it is strictly smaller,
/// stopping at the root or at a parent no larger than it.
pub open spec fn sift_up<T: TotalPreorder>(s: Seq<T>, i: int) -> Seq<T>
    decreases i,
{
    if i <= 0 || i >= s.len() {
        s
    } else {
        let p = heap_parent(i);
        if s[p].le_spec(s[i]) {
            s
        } else {
            sift_up(s.update(i, s[p]).update(p, s[i]), p)
        }
    }
}

/// The sequence left behind by sifting the element at index `i` down the
/// tree: at each level it is compared with its children and swaps with the
/// smallest when that child is strictly smaller, the left child winning
/// ties between children, until no child is smaller or none exists.
pub open spec fn sift_down<T: TotalPreorder>(s: Seq<T>, i: int) -> Seq<T>
    decreases s.len() - i,
{
    if i < 0 || heap_left(i) >= s.len() {
        s
    } else {
        let l = heap_left(i);
        let r = heap_right(i);
        let m1 = if !s[i].le_spec(s[l]) {
            l
        } else {
            i
        };
        let m = if r < s.len() && !s[m1].le_spec(s[r]) {
            r
        } else {
            m1
        };
        if m == i {
            s
        } else {
            sift_down(s.update(i, s[m]).update(m, s[i]), m)
        }
    }
}

/// Subtree membership is transitive.
proof fn lemma_in_subtree_trans(a: int, b: int, c: int)
    requires
        0 <= a,
        in_subtree(a, b),
        in_subtree(b, c),
    ensures
        in_subtree(a, c),
    decreases c,
{
    if c != b {
        lemma_in_subtree_trans(a, b, heap_parent(c));
    }
}

/// Every non-negative index lies in the subtree of the root.
proof fn lemma_in_root_subtree(j: int)
    requires
        0 <= j,
    ensures
        in_subtree(0, j),
    decreases j,
{
    if j > 0 {
        lemma_in_root_subtree(heap_parent(j));
    }
}

/// Within a subtree in heap order, the subtree's root is a minimum: walking
/// the parent chain of `j` stops at `root`.
proof fn lemma_subtree_root_min<T: TotalPreorder>(s: Seq<T>, root: int, j: int)
    requires
        0 <= root <= j < s.len(),
        in_subtree(root, j),
        subtree_heap(s, root),
    ensures
        s[root].le_spec(s[j]),
    decreases j,
{
    if j == root {
        T::lemma_le_total(s[j], s[j]);
    } else {
        let p = heap_parent(j);
        assert(0 <= p < j);
        assert(in_subtree(root, p));
        assert(root <= p);
        lemma_subtree_root_min(s, root, p);
        assert(s[p].le_spec(s[j]));
        T::lemma_le_trans(s[root], s[p], s[j]);
    }
}

/// Sifting down from `i` when both child subtrees of `i` are heaps makes
/// the whole subtree rooted at `i` a heap, leaves every position outside
/// that subtree unchanged, preserves the multiset, and puts at `i` a value
/// drawn from the subtree.
proof fn lemma_sift_down_props<T: TotalPreorder>(s: Seq<T>, i: int)
    requires
        0 <= i,
        almost_heap_below(s, i),
    ensures
        sift_down(s, i).len() == s.len(),
        sift_down(s, i).to_multiset() == s.to_multiset(),
        subtree_heap(sift_down(s, i), i),
        forall|j: int| 0 <= j < s.len() && !in_subtree(i, j) ==> sift_down(s, i)[j] == s[j],
        i < s.len() ==> exists|k: int|
            in_subtree(i, k) && k < s.len() && sift_down(s, i)[i] == s[k],
    decreases s.len() - i,
{
    let res = sift_down(s, i);
    let l = heap_left(i);
    let r = heap_right(i);
    if l >= s.len() {
        // no children: nothing to do, and no edge inside the subtree can
        // start at i
        assert(res == s);
        assert forall|j: int|
            in_subtree(i, j) && j != i && j < s.len() implies s[heap_parent(j)].le_spec(
            #[trigger] s[j],
        ) by {
            if heap_parent(j) == i {
                assert(j == heap_left(i) || j == heap_right(i));
            }
        }
        if i < s.len() {
            assert(in_subtree(i, i) && res[i] == s[i]);
        }
    } else {
        assert(in_subtree(i, i));
        assert(in_subtree(i, l)) by {
            assert(heap_parent(l) == i);
        }
        assert(in_subtree(i, r)) by {
            assert(heap_parent(r) == i);
        }
        let m1 = if !s[i].le_spec(s[l]) {
            l
        } else {
            i
        };
        let m = if r < s.len() && !s[m1].le_spec(s[r]) {
            r
        } else {
            m1
        };
        // the chosen child is no greater than the element at i or either child
        if m1 == l {
            T::lemma_le_total(s[i], s[l]);
        }
        if m == r && m1 == l {
            T::lemma_le_total(s[l], s[r]);
            T::lemma_le_trans(s[r], s[l], s[i]);
        }
        if m == r && m1 == i {
            T::lemma_le_total(s[i], s[r]);
            T::lemma_le_trans(s[r], s[i], s[l]);
        }
        T::lemma_le_total(s[m], s[m]);
        if m == i {
            assert(res == s);
            assert forall|j: int|
                in_subtree(i, j) && j != i && j < s.len() implies s[heap_parent(j)].le_spec(
                #[trigger] s[j],
            ) by {
                if heap_parent(j) == i {
                    assert(j == heap_left(i) || j == heap_right(i));
                }
            }
            assert(in_subtree(i, i) && res[i] == s[i]);
        } else {
            assert(s[m].le_spec(s[i]) && s[m].le_spec(s[l]));
            assert(r < s.len() ==> s[m].le_spec(s[r]));
            assert(in_subtree(i, m) && i < m);
            let s2 = s.update(i, s[m]).update(m, s[i]);
            assert(res == sift_down(s2, m));
            lemma_swap_preserves_multiset(s, i, m);
            // positions strictly inside the subtree of m are untouched by
            // the swap, and their edges held before
            assert forall|j: int|
                in_subtree(m, j) && j != m && heap_parent(j) != m && j < s2.len() implies s2[
                heap_parent(j)].le_spec(#[trigger] s2[j]) by {
                let pj = heap_parent(j);
                assert(m < j && in_subtree(m, pj));
                assert(m <= pj);
                assert(j != i && pj != i && j != m && pj != m);
                lemma_in_subtree_trans(i, m, j);
                assert(s[pj].le_spec(s[j]));
            }
            assert(almost_heap_below(s2, m));
            lemma_sift_down_props(s2, m);
            // the subtree of m, in the original arrangement, is a heap with
            // m at the top
            assert forall|j: int|
                in_subtree(m, j) && j != m && j < s.len() implies s[heap_parent(j)].le_spec(
                #[trigger] s[j],
            ) by {
                let pj = heap_parent(j);
                assert(m < j && in_subtree(m, pj));
                assert(m <= pj);
                lemma_in_subtree_trans(i, m, j);
                assert(j != i && pj != i && heap_parent(j) != i);
            }
            assert(subtree_heap(s, m));
            // frame: i is not in the subtree of m, so the recursion leaves
            // it alone, holding the promoted child
            assert(!in_subtree(m, i));
            assert(res[i] == s2[i] && s2[i] == s[m]);
            assert forall|j: int|
                0 <= j < s.len() && !in_subtree(i, j) implies res[j] == s[j] by {
                assert(j != i && j != m);
                if in_subtree(m, j) {
                    lemma_in_subtree_trans(i, m, j);
                }
                assert(res[j] == s2[j]);
            }
            // heap order across the whole subtree of i
            assert forall|j: int|
                in_subtree(i, j) && j != i && j < s.len() implies res[heap_parent(j)].le_spec(
                #[trigger] res[j],
            ) by {
                let pj = heap_parent(j);
                assert(0 <= pj < j);
                if in_subtree(m, j) && j != m {
                    assert(res[pj].le_spec(res[j]));
                } else if j == m {
                    // the edge from i down to m: i now holds the old child,
                    // m holds a value drawn from m's subtree
                    let k = choose|k: int|
                        in_subtree(m, k) && k < s2.len() && sift_down(s2, m)[m] == s2[k];
                    assert(res[m] == s2[k]);
                    if k == m {
                        assert(res[m] == s[i]);
                    } else {
                        assert(s2[k] == s[k]);
                        lemma_subtree_root_min(s, m, k);
                    }
                } else {
                    // j is the other child of i or below it: untouched
                    assert(!in_subtree(m, j));
                    assert(!in_subtree(m, pj)) by {
                        if in_subtree(m, pj) {
                            assert(in_subtree(m, j));
                        }
                    }
                    assert(j != i && j != m && pj != m);
                    assert(res[j] == s2[j] && s2[j] == s[j]);
                    if pj == i {
                        assert(j == heap_left(i) || j == heap_right(i));
                        assert(res[pj] == s[m]);
                        assert(s[m].le_spec(s[j]));
                    } else {
                        assert(res[pj] == s2[pj] && s2[pj] == s[pj]);
                        assert(s[pj].le_spec(s[j]));
                    }
                }
            }
        }
    }
}

/// Sifting up from `i` in a sequence whose heap order can fail only at the
/// edge into `i` (and whose grandparent already sits below `i`'s children)
/// restores heap order everywhere, permutes nothing but the elements on the
/// path from `i` to the root, and preserves the multiset.
proof fn lemma_sift_up_props<T: TotalPreorder>(s: Seq<T>, i: int)
    requires
        0 <= i < s.len(),
        heap_except_at(s, i),
        parent_below_children(s, i),
    ensures
        sift_up(s, i).len() == s.len(),
        sift_up(s, i).to_multiset() == s.to_multiset(),
        is_min_heap(sift_up(s, i)),
        forall|j: int| 0 <= j < s.len() && !on_root_path(i, j) ==> sift_up(s, i)[j] == s[j],
    decreases i,
{
    if i == 0 {
        assert(sift_up(s, i) == s);
        assert forall|j: int| 1 <= j < s.len() implies s[heap_parent(j)].le_spec(
            #[trigger] s[j],
        ) by {
            assert(j != 0);
        }
    } else {
        let p = heap_parent(i);
        assert(0 <= p < i);
        let cur = s[i];
        let par = s[p];
        if par.le_spec(cur) {
            assert(sift_up(s, i) == s);
            assert forall|j: int| 1 <= j < s.len() implies s[heap_parent(j)].le_spec(
                #[trigger] s[j],
            ) by {
                if j == i {
                    assert(s[heap_parent(j)] == par);
                }
            }
        } else {
            T::lemma_le_total(par, cur);
            assert(cur.le_spec(par));
            lemma_swap_preserves_multiset(s, i, p);
            let s2 = s.update(i, par).update(p, cur);
            assert(sift_up(s, i) == sift_up(s2, p));
            assert(heap_left(p) == i || heap_right(p) == i);
            assert forall|j: int| 1 <= j < s2.len() && j != p implies s2[heap_parent(
                j,
            )].le_spec(#[trigger] s2[j]) by {
                let pj = heap_parent(j);
                assert(0 <= pj < j);
                if j == i {
                    // the displaced parent now sits below the new element
                } else if pj == p {
                    // sibling of i: it was above the old parent, which is
                    // above the new element
                    assert(s[pj].le_spec(s[j]));
                    T::lemma_le_trans(cur, par, s[j]);
                } else if pj == i {
                    // child of i: covered by the grandparent bound
                    assert(j == heap_left(i) || j == heap_right(i));
                    assert(s[heap_parent(i)].le_spec(s[j]));
                } else {
                    assert(s[pj].le_spec(s[j]));
                }
            }
            assert(heap_except_at(s2, p));
            if p > 0 {
                let gp = heap_parent(p);
                assert(0 <= gp < p);
                assert forall|j: int|
                    (j == heap_left(p) || j == heap_right(p)) && j < s2.len() implies s2[
                    gp].le_spec(s2[j]) by {
                    if j == i {
                        assert(s[gp].le_spec(s[p]));
                    } else {
                        assert(s[p].le_spec(s[j]));
                        assert(s[gp].le_spec(s[p]));
                        T::lemma_le_trans(s[gp], s[p], s[j]);
                    }
                }
                assert(parent_below_children(s2, p));
            }
            lemma_sift_up_props(s2, p);
            assert(on_root_path(i, i));
            assert(on_root_path(p, p));
            assert(on_root_path(i, p));
            assert forall|j: int|
                0 <= j < s.len() && !on_root_path(i, j) implies sift_up(s, i)[j] == s[j] by {
                assert(j != i && j != p);
                assert(!on_root_path(p, j));
                assert(sift_up(s2, p)[j] == s2[j]);
            }
        }
    }
}

/// In a min-heap the root is a minimum: it is no greater than the element at
/// any index. Follows from the heap-order invariant by walking the parent
/// chain of `i` down from the root.
pub proof fn lemma_root_is_min<T: TotalPreorder>(s: Seq<T>, i: int)
    requires
        is_min_heap(s),
        0 <= i < s.len(),
    ensures
        s[0].le_spec(s[i]),
    decreases i,
{
    if i == 0 {
        T::lemma_le_total(s[0], s[0]);
    } else {
        let p = heap_parent(i);
        assert(0 <= p < i);
        lemma_root_is_min(s, p);
        assert(s[p].le_spec(s[i]));
        T::lemma_le_trans(s[0], s[p], s[i]);
    }
}

/// Extract-min correctness: when one extraction takes the root of a heap and
/// leaves the remaining multiset behind in heap order, the next extraction
/// returns an element at least as large. Draining a heap therefore yields its
/// elements in non-decreasing order.
pub proof fn lemma_drain_in_order<T: TotalPreorder>(s1: Seq<T>, s2: Seq<T>)
    requires
        is_min_heap(s1),
        s1.len() > 0,
        is_min_heap(s2),
        s2.len() > 0,
        s2.to_multiset() == s1.to_multiset().remove(s1[0]),
    ensures
        s1[0].le_spec(s2[0]),
{
    broadcast use vstd::seq_lib::group_to_multiset_ensures;
    broadcast use vstd::multiset::group_multiset_axioms;

    assert(s2.contains(s2[0]));
    assert(s2.to_multiset().count(s2[0]) > 0);
    assert(s1.to_multiset().count(s2[0]) > 0);
    assert(s1.contains(s2[0]));
    let j = choose|j: int| 0 <= j < s1.len() && s1[j] == s2[0];
    lemma_root_is_min(s1, j);
}

/// Swapping two positions of a sequence leaves its multiset of elements
/// unchanged.
proof fn lemma_swap_preserves_multiset<T>(s: Seq<T>, i: int, j: int)
    requires
        0 <= i < s.len(),
        0 <= j < s.len(),
    ensures
        s.update(i, s[j]).update(j, s[i]).to_multiset() == s.to_multiset(),
{
    broadcast use vstd::seq_lib::group_to_multiset_ensures;
    broadcast use vstd::multiset::group_multiset_axioms;

    if i == j {
        assert(s.update(i, s[j]).update(j, s[i]) =~= s);
    } else {
        let a = s[i];
        let b = s[j];
        let s1 = s.update(i, b);
        let s2 = s1.update(j, a);
        assert(s1[j] == b);
        assert(s1.to_multiset() == s.to_multiset().insert(b).remove(a));
        assert(s2.to_multiset() == s1.to_multiset().insert(a).remove(b));
        assert(s.contains(a));
        assert(s.to_multiset().count(a) > 0);
        assert forall|x: T| s2.to_multiset().count(x) == s.to_multiset().count(x) by {
            if x == a && x == b {
            } else if x == a {
                assert(Multiset::singleton(a).count(x) == 1);
                assert(Multiset::singleton(b).count(x) == 0);
            } else if x == b {
                assert(Multiset::singleton(a).count(x) == 0);
                assert(Multiset::singleton(b).count(x) == 1);
            } else {
                assert(Multiset::singleton(a).count(x) == 0);
                assert(Multiset::singleton(b).count(x) == 0);
            }
        }
        assert(s2.to_multiset() =~= s.to_multiset());
    }
}

/// An explicit priority paired with an arbitrary payload. Ordering and
/// equality are decided by the priority alone, so a payload can be scheduled
/// by an externally computed cost without being ordered itself; two pairs
/// with equal priority and different payloads compare equal.
#[derive(Clone, Copy)]
pub struct PriorityTuple<T> {
    pub priority: u32,
    pub value: T,
}

impl<T> PriorityTuple<T> {
    /// Pairs `value` with `priority`.
    pub fn new(priority: u32, value: T) -> (r: PriorityTuple<T>)
        ensures
            r.priority == priority,
            r.value == value,
    {
        PriorityTuple { priority, value }
    }
}

impl<T> TotalPreorder for PriorityTuple<T> {
    open spec fn le_spec(self, other: PriorityTuple<T>) -> bool {
        self.priority <= other.priority
    }

    proof fn lemma_le_total(a: PriorityTuple<T>, b: PriorityTuple<T>) {
    }

    proof fn lemma_le_trans(a: PriorityTuple<T>, b: PriorityTuple<T>, c: PriorityTuple<T>) {
    }

    fn le(&self, other: &PriorityTuple<T>) -> (r: bool) {
        self.priority <= other.priority
    }
}

impl<T> PartialEq for PriorityTuple<T> {
    fn eq(&self, other: &PriorityTuple<T>) -> (r: bool) {
        self.priority == other.priority
    }
}

impl<T> vstd::std_specs::cmp::PartialEqSpecImpl for PriorityTuple<T> {
    open spec fn obeys_eq_spec() -> bool {
        true
    }

    open spec fn eq_spec(&self, other: &PriorityTuple<T>) -> bool {
        self.priority == other.priority
    }
}

impl<T> PartialOrd for PriorityTuple<T> {
    fn partial_cmp(&self, other: &PriorityTuple<T>) -> (r: Option<Ordering>) {
        if self.priority < other.priority {
            Some(Ordering::Less)
        } else if self.priority == other.priority {
            Some(Ordering::Equal)
        } else {
            Some(Ordering::Greater)
        }
    }
}

impl<T> vstd::std_specs::cmp::PartialOrdSpecImpl for PriorityTuple<T> {
    open spec fn obeys_partial_cmp_spec() -> bool {
        true
    }

    open spec fn partial_cmp_spec(&self, other: &PriorityTuple<T>) -> Option<Ordering> {
        if self.priority < other.priority {
            Some(Ordering::Less)
        } else if self.priority == other.priority {
            Some(Ordering::Equal)
        } else {
            Some(Ordering::Greater)
        }
    }
}

/// Priority-pair ordering ignores the payload: two pairs with equal priority
/// are equivalent under the heap order, and compare equal, whatever their
/// payloads hold.
pub proof fn lemma_priority_ignores_payload<T>(a: PriorityTuple<T>, b: PriorityTuple<T>)
    requires
        a.priority == b.priority,
    ensures
        order_equiv(a, b),
        a.eq_spec(&b),
        a.partial_cmp_spec(&b) == Some(Ordering::Equal),
{
}

/// A priority queue over an ordered element type, laid out as a binary
/// min-heap in a growable array.
pub struct BinaryHeap<T> {
    heap: Vec<T>,
}

impl<T> View for BinaryHeap<T> {
    type V = Seq<T>;

    closed spec fn view(&self) -> Seq<T> {
        self.heap@
    }
}

impl<T: TotalPreorder + Copy> BinaryHeap<T> {
    /// Creates an empty queue.
    pub fn new() -> (q: BinaryHeap<T>)
        ensures
            q@ == Seq::<T>::empty(),
            q@.len() == 0,
            is_min_heap(q@),
    {
        BinaryHeap { heap: Vec::new() }
    }

    /// True exactly when the queue holds no elements.
    pub fn is_empty(&self) -> (r: bool)
        ensures
            r == (self@.len() == 0),
    {
        self.heap.len() == 0
    }

    /// Number of elements currently stored.
    pub fn size(&self) -> (n: usize)
        ensures
            n == self@.len(),
    {
        self.heap.len()
    }

    /// A copy of the backing array, in heap order (not sorted order).
    pub fn get_heap(&self) -> (r: Vec<T>)
        ensures
            r@ == self@,
    {
        let mut out: Vec<T> = Vec::new();
        let mut idx: usize = 0;
        while idx < self.heap.len()
            invariant
                idx <= self.heap@.len(),
                out@ == self.heap@.take(idx as int),
            decreases self.heap@.len() - idx,
        {
            out.push(self.heap[idx]);
            assert(self.heap@.take(idx + 1 as int) =~= self.heap@.take(idx as int).push(
                self.heap@[idx as int],
            ));
            idx = idx + 1;
        }
        assert(self.heap@.take(self.heap@.len() as int) =~= self.heap@);
        out
    }

    /// The current minimum, without removing it; `None` on an empty queue.
    pub fn peek(&self) -> (r: Option<T>)
        requires
            is_min_heap(self@),
        ensures
            self@.len() == 0 ==> r is None,
            self@.len() > 0 ==> {
                &&& r == Some(self@[0])
                &&& forall|i: int| 0 <= i < self@.len() ==> self@[0].le_spec(#[trigger] self@[i])
            },
    {
        if self.heap.len() == 0 {
            None
        } else {
            proof {
                assert forall|i: int| 0 <= i < self@.len() implies self@[0].le_spec(
                    #[trigger] self@[i],
                ) by {
                    lemma_root_is_min(self@, i);
                }
            }
            Some(self.heap[0])
        }
    }

    /// The left child of the node at index `i`, if it exists.
    fn get_left(&self, i: usize) -> (r: Option<T>)
        ensures
            heap_left(i as int) < self@.len() ==> r == Some(self@[heap_left(i as int)]),
            heap_left(i as int) >= self@.len() ==> r is None,
    {
        let n = self.heap.len();
        if i < n / 2 {
            Some(self.heap[2 * i + 1])
        } else {
            None
        }
    }

    /// The right child of the node at index `i`, if it exists.
    fn get_right(&self, i: usize) -> (r: Option<T>)
        ensures
            heap_right(i as int) < self@.len() ==> r == Some(self@[heap_right(i as int)]),
            heap_right(i as int) >= self@.len() ==> r is None,
    {
        let n = self.heap.len();
        if i < n / 2 {
            let j: usize = 2 * i + 2;
            if j < n {
                Some(self.heap[j])
            } else {
                None
            }
        } else {
            None
        }
    }

    /// Index of the left child of the node at index `i`.
    fn get_left_index(&self, i: usize) -> (r: usize)
        requires
            2 * i + 1 <= usize::MAX,
        ensures
            r == heap_left(i as int),
    {
        2 * i + 1
    }

    /// Index of the right child of the node at index `i`.
    fn get_right_index(&self, i: usize) -> (r: usize)
        requires
            2 * i + 2 <= usize::MAX,
        ensures
            r == heap_right(i as int),
    {
        2 * i + 2
    }

    /// The parent of the node at index `i`. The root has no parent, so
    /// `i > 0` is a precondition rather than a runtime failure.
    fn get_parent(&self, i: usize) -> (r: T)
        requires
            0 < i < self@.len(),
        ensures
            r == self@[heap_parent(i as int)],
    {
        self.heap[(i - 1) / 2]
    }

    /// Index of the parent of the node at index `i` (the root excluded).
    fn get_parent_index(&self, i: usize) -> (r: usize)
        requires
            i > 0,
        ensures
            r == heap_parent(i as int),
    {
        (i - 1) / 2
    }

    /// Appends `value` at the end of the backing array, then restores the
    /// heap-order invariant by bubbling the new element up. The resulting
    /// arrangement is exactly the sift-up of the extended array, and the
    /// stored multiset gains exactly one occurrence of `value`.
    pub fn insert(&mut self, value: T)
        requires
            is_min_heap(old(self)@),
        ensures
            final(self)@ == sift_up(old(self)@.push(value), old(self)@.len() as int),
            final(self)@.len() == old(self)@.len() + 1,
            final(self)@.to_multiset() == old(self)@.to_multiset().insert(value),
            is_min_heap(final(self)@),
    {
        proof {
            broadcast use vstd::seq_lib::group_to_multiset_ensures;
        }
        self.heap.push(value);
        let i = self.heap.len() - 1;
        proof {
            let s = self.heap@;
            let c = i as int;
            assert forall|j: int| 1 <= j < s.len() && j != c implies s[heap_parent(j)].le_spec(
                #[trigger] s[j],
            ) by {
                assert(old(self)@[heap_parent(j)].le_spec(old(self)@[j]));
            }
            assert(heap_left(c) >= s.len() && heap_right(c) >= s.len());
        }
        self.bubble_up(i);
    }

    /// Walks the element at `start` up the parent chain, swapping while it is
    /// strictly smaller than its parent; an element equal to its parent stays
    /// put. On entry heap order may fail only at the edge into `start`. The
    /// result is exactly the sift-up of the array from `start`: heap-ordered,
    /// the same multiset, and untouched off the path from `start` to the root.
    fn bubble_up(&mut self, start: usize)
        requires
            start < old(self)@.len(),
            heap_except_at(old(self)@, start as int),
            parent_below_children(old(self)@, start as int),
        ensures
            final(self)@ == sift_up(old(self)@, start as int),
            final(self)@.len() == old(self)@.len(),
            final(self)@.to_multiset() == old(self)@.to_multiset(),
            is_min_heap(final(self)@),
            forall|j: int|
                0 <= j < old(self)@.len() && !on_root_path(start as int, j) ==> final(self)@[j]
                    == old(self)@[j],
    {
        proof {
            lemma_sift_up_props(self.heap@, start as int);
        }
        let ghost orig = self.heap@;
        let mut c = start;
        loop
            invariant
                c < self.heap@.len(),
                self.heap@.len() == orig.len(),
                sift_up(orig, start as int) == sift_up(self.heap@, c as int),
            ensures
                self.heap@ == sift_up(orig, start as int),
            decreases c,
        {
            if c == 0 {
                proof {
                    assert(sift_up(self.heap@, 0) == self.heap@);
                }
                break;
            }
            let p = self.get_parent_index(c);
            let cur = self.heap[c];
            let par = self.get_parent(c);
            if par.le(&cur) {
                proof {
                    assert(sift_up(self.heap@, c as int) == self.heap@);
                }
                break;
            }
            let ghost s = self.heap@;
            self.heap[c] = par;
            self.heap[p] = cur;
            proof {
                assert(self.heap@ == s.update(c as int, par).update(p as int, cur));
                assert(sift_up(s, c as int) == sift_up(self.heap@, p as int));
            }
            c = p;
        }
    }

    /// Removes and returns a minimum element; `None` on an empty queue. The
    /// root is saved, the last element moves into its place and sifts down,
    /// so the remaining arrangement is exactly the sift-down of that array.
    pub fn extract(&mut self) -> (r: Option<T>)
        requires
            is_min_heap(old(self)@),
        ensures
            old(self)@.len() == 0 ==> r is None && final(self)@ == old(self)@,
            old(self)@.len() > 0 ==> {
                &&& r == Some(old(self)@[0])
                &&& final(self)@ == sift_down(
                    old(self)@.update(0, old(self)@.last()).drop_last(),
                    0,
                )
                &&& final(self)@.len() == old(self)@.len() - 1
                &&& final(self)@.to_multiset() == old(self)@.to_multiset().remove(old(self)@[0])
                &&& forall|i: int|
                    0 <= i < old(self)@.len() ==> old(self)@[0].le_spec(#[trigger] old(self)@[i])
            },
            is_min_heap(final(self)@),
    {
        proof {
            broadcast use vstd::seq_lib::group_to_multiset_ensures;
            broadcast use vstd::multiset::group_multiset_axioms;
        }
        let n = self.heap.len();
        if n == 0 {
            return None;
        }
        let ghost s = self.heap@;
        let last = n - 1;
        let a = self.heap[0];
        let b = self.heap[last];
        proof {
            lemma_swap_preserves_multiset(s, 0, last as int);
        }
        self.heap[0] = b;
        self.heap[last] = a;
        let ghost s1 = self.heap@;
        let value = self.heap.pop().unwrap();
        let ghost s2 = self.heap@;
        proof {
            assert(value == s[0]);
            assert(s2 =~= s.update(0, s.last()).drop_last());
            assert(s1 =~= s2.push(value));
            assert(s1.to_multiset() == s2.to_multiset().insert(value));
            assert(s1.to_multiset() == s.to_multiset());
            assert forall|x: T|
                s2.to_multiset().count(x) == s.to_multiset().remove(s[0]).count(x) by {
                if x == value {
                    assert(s.contains(value));
                    assert(s.to_multiset().count(value) > 0);
                    assert(Multiset::singleton(value).count(x) == 1);
                } else {
                    assert(Multiset::singleton(value).count(x) == 0);
                }
            }
            assert(s2.to_multiset() =~= s.to_multiset().remove(s[0]));
            assert forall|j: int|
                in_subtree(0, j) && j != 0 && heap_parent(j) != 0 && j < s2.len() implies s2[
                heap_parent(j)].le_spec(#[trigger] s2[j]) by {
                let pj = heap_parent(j);
                assert(0 < pj < j);
                assert(s2[j] == s[j]);
                assert(s2[pj] == s[pj]);
                assert(s[pj].le_spec(s[j]));
            }
            assert(almost_heap_below(s2, 0));
            assert forall|i: int| 0 <= i < s.len() implies s[0].le_spec(#[trigger] s[i]) by {
                lemma_root_is_min(s, i);
            }
        }
        self.percolate_down(0);
        proof {
            assert forall|j: int| 1 <= j < self.heap@.len() implies self.heap@[heap_parent(
                j,
            )].le_spec(#[trigger] self.heap@[j]) by {
                lemma_in_root_subtree(j);
            }
        }
        Some(value)
    }

    /// Walks the element at `start` down the tree: at each step it is
    /// compared with its children, swaps with the smallest when one is
    /// strictly smaller, and stops once no child is smaller. On entry the
    /// two child subtrees of `start` must be heaps; on exit the array is
    /// exactly its sift-down from `start`: the whole subtree of `start` in
    /// heap order, every position outside it untouched, and the multiset
    /// unchanged.
    fn percolate_down(&mut self, start: usize)
        requires
            old(self)@.len() == 0 || start < old(self)@.len(),
            almost_heap_below(old(self)@, start as int),
        ensures
            final(self)@ == sift_down(old(self)@, start as int),
            final(self)@.len() == old(self)@.len(),
            final(self)@.to_multiset() == old(self)@.to_multiset(),
            subtree_heap(final(self)@, start as int),
            forall|j: int|
                0 <= j < old(self)@.len() && !in_subtree(start as int, j) ==> final(self)@[j]
                    == old(self)@[j],
    {
        proof {
            lemma_sift_down_props(self.heap@, start as int);
        }
        let ghost orig = self.heap@;
        if self.heap.len() == 0 {
            proof {
                assert(sift_down(orig, start as int) == orig);
            }
            return;
        }
        let mut c = start;
        loop
            invariant
                c < self.heap@.len(),
                self.heap@.len() == orig.len(),
                sift_down(orig, start as int) == sift_down(self.heap@, c as int),
            ensures
                self.heap@ == sift_down(orig, start as int),
            decreases self.heap@.len() - c,
        {
            let n = self.heap.len();
            if c >= n / 2 {
                proof {
                    assert(heap_left(c as int) >= self.heap@.len());
                    assert(sift_down(self.heap@, c as int) == self.heap@);
                }
                break;
            }
            assert(2 * c + 1 < n);
            let l = self.get_left_index(c);
            let cv = self.heap[c];
            let lv = self.get_left(c).unwrap();
            let mut m = c;
            let mut mv = cv;
            if !cv.le(&lv) {
                m = l;
                mv = lv;
            }
            let r = self.get_right_index(c);
            if r < n {
                let rv = self.get_right(c).unwrap();
                if !mv.le(&rv) {
                    m = r;
                    mv = rv;
                }
            }
            if m == c {
                proof {
                    assert(sift_down(self.heap@, c as int) == self.heap@);
                }
                break;
            }
            let ghost s = self.heap@;
            self.heap[c] = mv;
            self.heap[m] = cv;
            proof {
                assert(self.heap@ == s.update(c as int, s[m as int]).update(
                    m as int,
                    s[c as int],
                ));
                assert(sift_down(s, c as int) == sift_down(self.heap@, m as int));
            }
            c = m;
        }
    }

    /// Linear-scan membership test, judged by equivalence under the order
    /// (for a priority pair: equality of priorities). The heap structure
    /// gives no shortcut here.
    pub fn contains(&self, key: T) -> (r: bool)
        ensures
            r == exists|i: int| 0 <= i < self@.len() && order_equiv(#[trigger] self@[i], key),
    {
        let mut idx: usize = 0;
        while idx < self.heap.len()
            invariant
                idx <= self.heap@.len(),
                forall|j: int| 0 <= j < idx ==> !order_equiv(#[trigger] self.heap@[j], key),
            decreases self.heap@.len() - idx,
        {
            let e = self.heap[idx];
            if e.le(&key) && key.le(&e) {
                assert(order_equiv(self@[idx as int], key));
                return true;
            }
            idx = idx + 1;
        }
        false
    }
}

} // verus!
