//! A binary search tree with ordered traversals.
//!
//! Keys are inserted unbalanced: smaller keys to the left, equal or larger
//! keys to the right. The in-order traversal of a well-formed tree lists the
//! keys in non-decreasing order; pre-order and post-order traversals expose
//! the exact shape the insertion order produced.

use vstd::prelude::*;

use vstd::multiset::Multiset;

use crate::order::TotalPreorder;
use crate::order::lt_spec;

verus! {

/// The order in which a traversal visits a node relative to its subtrees.
#[derive(Clone, Copy)]
pub enum SortOrder {
    Inorder,
    Preorder,
    Postorder,
}

/// A node of the tree: a key and two optional subtrees.
pub struct BinaryTreeNode<T> {
    pub left: Option<Box<BinaryTreeNode<T>>>,
    pub right: Option<Box<BinaryTreeNode<T>>>,
    pub val: T,
}

/// The keys of `node` in in-order: left subtree, key, right subtree.
pub open spec fn tree_inorder<T>(node: Option<Box<BinaryTreeNode<T>>>) -> Seq<T>
    decreases node,
{
    match node {
        None => Seq::empty(),
        Some(n) => tree_inorder(n.left) + seq![n.val] + tree_inorder(n.right),
    }
}

/// The keys of `node` in pre-order: key, left subtree, right subtree.
pub open spec fn tree_preorder<T>(node: Option<Box<BinaryTreeNode<T>>>) -> Seq<T>
    decreases node,
{
    match node {
        None => Seq::empty(),
        Some(n) => seq![n.val] + tree_preorder(n.left) + tree_preorder(n.right),
    }
}

/// The keys of `node` in post-order: left subtree, right subtree, key.
pub open spec fn tree_postorder<T>(node: Option<Box<BinaryTreeNode<T>>>) -> Seq<T>
    decreases node,
{
    match node {
        None => Seq::empty(),
        Some(n) => tree_postorder(n.left) + tree_postorder(n.right) + seq![n.val],
    }
}

/// The traversal of `node` selected by `sort`.
pub open spec fn tree_traversal<T>(node: Option<Box<BinaryTreeNode<T>>>, sort: SortOrder) -> Seq<
    T,
> {
    match sort {
        SortOrder::Inorder => tree_inorder(node),
        SortOrder::Preorder => tree_preorder(node),
        SortOrder::Postorder => tree_postorder(node),
    }
}

/// The search-tree invariant: every key in a left subtree is strictly below
/// its node's key, every key in a right subtree is at or above it.
pub open spec fn tree_wf<T: TotalPreorder>(node: Option<Box<BinaryTreeNode<T>>>) -> bool
    decreases node,
{
    match node {
        None => true,
        Some(n) => {
            &&& tree_wf(n.left)
            &&& tree_wf(n.right)
            &&& forall|j: int|
                0 <= j < tree_inorder(n.left).len() ==> lt_spec(
                    #[trigger] tree_inorder(n.left)[j],
                    n.val,
                )
            &&& forall|j: int|
                0 <= j < tree_inorder(n.right).len() ==> n.val.le_spec(
                    #[trigger] tree_inorder(n.right)[j],
                )
        },
    }
}

/// The tree produced by inserting `value` into `node`: strictly smaller keys
/// descend to the left, equal or larger keys to the right, and a fresh leaf
/// replaces the first empty slot on the way down.
pub open spec fn tree_insert<T: TotalPreorder>(
    node: Option<Box<BinaryTreeNode<T>>>,
    value: T,
) -> Option<Box<BinaryTreeNode<T>>>
    decreases node,
{
    match node {
        None => Some(
            Box::new(BinaryTreeNode { left: None, right: None, val: value }),
        ),
        Some(n) => if lt_spec(value, n.val) {
            Some(
                Box::new(
                    BinaryTreeNode {
                        left: tree_insert(n.left, value),
                        right: n.right,
                        val: n.val,
                    },
                ),
            )
        } else {
            Some(
                Box::new(
                    BinaryTreeNode {
                        left: n.left,
                        right: tree_insert(n.right, value),
                        val: n.val,
                    },
                ),
            )
        },
    }
}

/// The tree built by inserting the elements of `s` one at a time, in order,
/// into an empty tree.
pub open spec fn tree_from_seq<T: TotalPreorder>(s: Seq<T>) -> Option<Box<BinaryTreeNode<T>>>
    decreases s.len(),
{
    if s.len() == 0 {
        None
    } else {
        tree_insert(tree_from_seq(s.drop_last()), s.last())
    }
}

/// The elements of `s` appear in non-decreasing order.
pub open spec fn sorted_le<T: TotalPreorder>(s: Seq<T>) -> bool {
    forall|i: int, j: int| #![trigger s[i], s[j]] 0 <= i < j < s.len() ==> s[i].le_spec(s[j])
}

/// An element of a sequence whose multiset is another sequence's multiset
/// plus one occurrence of `v` is either an element of that other sequence or
/// `v` itself.
proof fn lemma_elem_of_inserted<T>(s: Seq<T>, m: Seq<T>, v: T, x: T)
    requires
        s.to_multiset() == m.to_multiset().insert(v),
        s.contains(x),
    ensures
        m.contains(x) || x == v,
{
    broadcast use vstd::seq_lib::group_to_multiset_ensures;
    broadcast use vstd::multiset::group_multiset_axioms;

    if x != v {
        assert(s.to_multiset().count(x) > 0);
        assert(Multiset::singleton(v).count(x) == 0);
        assert(m.to_multiset().count(x) > 0);
    }
}

/// Inserting into a well-formed tree keeps it well-formed and adds exactly
/// one occurrence of the new key to the in-order key multiset.
proof fn lemma_tree_insert_props<T: TotalPreorder>(
    node: Option<Box<BinaryTreeNode<T>>>,
    value: T,
)
    requires
        tree_wf(node),
    ensures
        tree_wf(tree_insert(node, value)),
        tree_inorder(tree_insert(node, value)).to_multiset() == tree_inorder(
            node,
        ).to_multiset().insert(value),
    decreases node,
{
    broadcast use vstd::seq_lib::group_to_multiset_ensures;
    broadcast use vstd::multiset::group_multiset_axioms;

    match node {
        None => {
            let t = tree_insert(node, value);
            assert(tree_inorder(t) =~= seq![value]);
            assert(tree_inorder(node) =~= Seq::<T>::empty());
            assert(seq![value] =~= Seq::<T>::empty().push(value));
            assert(tree_inorder(t).to_multiset() =~= tree_inorder(
                node,
            ).to_multiset().insert(value));
        },
        Some(n) => {
            let mid = seq![n.val];
            let left = tree_inorder(n.left);
            let right = tree_inorder(n.right);
            if lt_spec(value, n.val) {
                lemma_tree_insert_props(n.left, value);
                let left2 = tree_inorder(tree_insert(n.left, value));
                let t = tree_insert(node, value);
                assert(tree_inorder(t) =~= left2 + mid + right);
                assert(tree_inorder(node) =~= left + mid + right);
                vstd::seq_lib::lemma_multiset_commutative(left2, mid);
                vstd::seq_lib::lemma_multiset_commutative(left2 + mid, right);
                vstd::seq_lib::lemma_multiset_commutative(left, mid);
                vstd::seq_lib::lemma_multiset_commutative(left + mid, right);
                assert(tree_inorder(t).to_multiset() =~= tree_inorder(
                    node,
                ).to_multiset().insert(value));
                assert forall|j: int| 0 <= j < left2.len() implies lt_spec(
                    #[trigger] left2[j],
                    n.val,
                ) by {
                    assert(left2.contains(left2[j]));
                    lemma_elem_of_inserted(left2, left, value, left2[j]);
                    if left2[j] != value {
                        let k = choose|k: int| 0 <= k < left.len() && left[k] == left2[j];
                        assert(lt_spec(left[k], n.val));
                    }
                }
                assert(tree_wf(t));
            } else {
                lemma_tree_insert_props(n.right, value);
                let right2 = tree_inorder(tree_insert(n.right, value));
                let t = tree_insert(node, value);
                assert(tree_inorder(t) =~= left + mid + right2);
                assert(tree_inorder(node) =~= left + mid + right);
                vstd::seq_lib::lemma_multiset_commutative(left, mid);
                vstd::seq_lib::lemma_multiset_commutative(left + mid, right2);
                vstd::seq_lib::lemma_multiset_commutative(left + mid, right);
                assert(tree_inorder(t).to_multiset() =~= tree_inorder(
                    node,
                ).to_multiset().insert(value));
                assert forall|j: int| 0 <= j < right2.len() implies n.val.le_spec(
                    #[trigger] right2[j],
                ) by {
                    assert(right2.contains(right2[j]));
                    lemma_elem_of_inserted(right2, right, value, right2[j]);
                    if right2[j] != value {
                        let k = choose|k: int| 0 <= k < right.len() && right[k] == right2[j];
                        assert(n.val.le_spec(right[k]));
                    } else {
                        T::lemma_le_total(n.val, value);
                    }
                }
                assert(tree_wf(t));
            }
        },
    }
}

/// The in-order traversal of a well-formed tree is sorted.
pub proof fn lemma_tree_wf_sorted<T: TotalPreorder>(node: Option<Box<BinaryTreeNode<T>>>)
    requires
        tree_wf(node),
    ensures
        sorted_le(tree_inorder(node)),
    decreases node,
{
    match node {
        None => {
        },
        Some(n) => {
            lemma_tree_wf_sorted(n.left);
            lemma_tree_wf_sorted(n.right);
            let left = tree_inorder(n.left);
            let mid = seq![n.val];
            let right = tree_inorder(n.right);
            let s = tree_inorder(node);
            assert(s =~= left + mid + right);
            let ll = left.len() as int;
            assert forall|i: int, j: int|
                #![trigger s[i], s[j]]
                0 <= i < j < s.len() implies s[i].le_spec(s[j]) by {
                if i < ll {
                    assert(s[i] == left[i]);
                    assert(lt_spec(left[i], n.val));
                    T::lemma_le_total(left[i], n.val);
                }
                if j < ll {
                    assert(s[j] == left[j]);
                } else if j == ll {
                    assert(s[j] == n.val);
                } else {
                    assert(s[j] == right[j - ll - 1]);
                    assert(n.val.le_spec(right[j - ll - 1]));
                }
                if j < ll {
                    // both inside the sorted left part
                } else if i < ll && j == ll {
                    // left element against the node key
                } else if i < ll {
                    // left element, node key, right element
                    T::lemma_le_trans(left[i], n.val, right[j - ll - 1]);
                } else if i == ll {
                    // node key against a right element
                } else {
                    // both inside the sorted right part
                    assert(s[i] == right[i - ll - 1]);
                }
            }
        },
    }
}

/// Building a tree from any sequence yields a well-formed tree holding
/// exactly the multiset of the sequence's elements.
pub proof fn lemma_tree_from_seq_props<T: TotalPreorder>(s: Seq<T>)
    ensures
        tree_wf(tree_from_seq(s)),
        tree_inorder(tree_from_seq(s)).to_multiset() == s.to_multiset(),
    decreases s.len(),
{
    broadcast use vstd::seq_lib::group_to_multiset_ensures;

    if s.len() == 0 {
        assert(tree_inorder(tree_from_seq(s)) =~= Seq::<T>::empty());
        assert(s =~= Seq::<T>::empty());
        assert(tree_inorder(tree_from_seq(s)).to_multiset() =~= s.to_multiset());
    } else {
        lemma_tree_from_seq_props(s.drop_last());
        lemma_tree_insert_props(tree_from_seq(s.drop_last()), s.last());
        assert(s =~= s.drop_last().push(s.last()));
    }
}

impl<T: TotalPreorder + Copy> BinaryTreeNode<T> {
    /// A leaf holding `value`.
    pub fn new(value: T) -> (r: BinaryTreeNode<T>)
        ensures
            r.left is None,
            r.right is None,
            r.val == value,
    {
        BinaryTreeNode { left: None, right: None, val: value }
    }

    /// Collects the keys of `node` into a vector, visiting each node in the
    /// order selected by `sort`.
    pub fn get_node_tree(node: &Option<Box<BinaryTreeNode<T>>>, sort: SortOrder) -> (r: Vec<T>)
        ensures
            r@ == tree_traversal(*node, sort),
        decreases node,
    {
        let mut nodes: Vec<T> = Vec::new();
        match node {
            None => {
                assert(nodes@ =~= tree_traversal(*node, sort));
                nodes
            },
            Some(n) => {
                match sort {
                    SortOrder::Inorder => {
                        let mut left = Self::get_node_tree(&n.left, sort);
                        nodes.append(&mut left);
                        nodes.push(n.val);
                        let mut right = Self::get_node_tree(&n.right, sort);
                        nodes.append(&mut right);
                        assert(nodes@ =~= tree_inorder(*node));
                    },
                    SortOrder::Preorder => {
                        nodes.push(n.val);
                        let mut left = Self::get_node_tree(&n.left, sort);
                        nodes.append(&mut left);
                        let mut right = Self::get_node_tree(&n.right, sort);
                        nodes.append(&mut right);
                        assert(nodes@ =~= tree_preorder(*node));
                    },
                    SortOrder::Postorder => {
                        let mut left = Self::get_node_tree(&n.left, sort);
                        nodes.append(&mut left);
                        let mut right = Self::get_node_tree(&n.right, sort);
                        nodes.append(&mut right);
                        nodes.push(n.val);
                        assert(nodes@ =~= tree_postorder(*node));
                    },
                }
                nodes
            },
        }
    }
}

/// An unbalanced binary search tree, built by repeated insertion.
pub struct BinarySearchTree<T> {
    root: Option<Box<BinaryTreeNode<T>>>,
}

impl<T: TotalPreorder + Copy> BinarySearchTree<T> {
    /// The root of the tree, for specification purposes.
    pub closed spec fn spec_root(self) -> Option<Box<BinaryTreeNode<T>>> {
        self.root
    }

    /// Builds a tree by inserting the elements of `values` in order into an
    /// empty tree. The result is well-formed, holds exactly the elements of
    /// `values`, and lists them in non-decreasing order in-order.
    pub fn new(values: &Vec<T>) -> (tree: BinarySearchTree<T>)
        ensures
            tree.spec_root() == tree_from_seq(values@),
            tree_wf(tree.spec_root()),
            tree_inorder(tree.spec_root()).to_multiset() == values@.to_multiset(),
            sorted_le(tree_inorder(tree.spec_root())),
    {
        let mut root: Option<Box<BinaryTreeNode<T>>> = None;
        let mut i: usize = 0;
        while i < values.len()
            invariant
                i <= values@.len(),
                root == tree_from_seq(values@.take(i as int)),
            decreases values@.len() - i,
        {
            root = Self::insert(root, values[i]);
            proof {
                let taken = values@.take(i + 1 as int);
                assert(taken.drop_last() =~= values@.take(i as int));
                assert(taken.last() == values@[i as int]);
            }
            i = i + 1;
        }
        proof {
            assert(values@.take(values@.len() as int) =~= values@);
            lemma_tree_from_seq_props(values@);
            lemma_tree_wf_sorted(tree_from_seq(values@));
        }
        BinarySearchTree { root }
    }

    /// Inserts `value` into the subtree `node`, descending left when the new
    /// key is strictly smaller than the node's key and right otherwise, and
    /// returns the new subtree.
    fn insert(node: Option<Box<BinaryTreeNode<T>>>, value: T) -> (r: Option<
        Box<BinaryTreeNode<T>>,
    >)
        ensures
            r == tree_insert(node, value),
        decreases node,
    {
        match node {
            None => Some(Box::new(BinaryTreeNode::new(value))),
            Some(n) => {
                let mut inner = *n;
                if inner.val.le(&value) {
                    inner.right = Self::insert(inner.right, value);
                } else {
                    inner.left = Self::insert(inner.left, value);
                }
                Some(Box::new(inner))
            },
        }
    }

    /// The keys of the tree in the order selected by `sort`.
    pub fn traverse(&self, sort: SortOrder) -> (r: Vec<T>)
        ensures
            r@ == tree_traversal(self.spec_root(), sort),
    {
        BinaryTreeNode::get_node_tree(&self.root, sort)
    }
}

} // verus!
