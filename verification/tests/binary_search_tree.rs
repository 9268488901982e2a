use datastructs::binary_search_tree::BinarySearchTree;
use datastructs::binary_search_tree::SortOrder;

#[test]
fn traverse_inorder() {
    let v = vec![3, 2, 5, 1, 4];
    let tree = BinarySearchTree::new(&v);
    assert_eq!(tree.traverse(SortOrder::Inorder), vec![1, 2, 3, 4, 5])
}

#[test]
fn traverse_preorder() {
    let v = vec![3, 2, 5, 1, 4];
    let tree = BinarySearchTree::new(&v);
    assert_eq!(tree.traverse(SortOrder::Preorder), vec![3, 2, 1, 5, 4])
}

#[test]
fn traverse_postorder() {
    let v = vec![3, 2, 5, 1, 4];
    let tree = BinarySearchTree::new(&v);
    assert_eq!(tree.traverse(SortOrder::Postorder), vec![1, 2, 4, 5, 3])
}

#[test]
fn binary_search_tree_traverse_inorder() {
    let v = vec![3, 2, 5, 1, 4];
    let tree = BinarySearchTree::new(&v);
    assert_eq!(tree.traverse(SortOrder::Inorder), vec![1, 2, 3, 4, 5])
}

#[test]
fn binary_search_tree_traverse_preorder() {
    let v = vec![3, 2, 5, 1, 4];
    let tree = BinarySearchTree::new(&v);
    assert_eq!(tree.traverse(SortOrder::Preorder), vec![3, 2, 1, 5, 4])
}

#[test]
fn binary_search_tree_traverse_postorder() {
    let v = vec![3, 2, 5, 1, 4];
    let tree = BinarySearchTree::new(&v);
    assert_eq!(tree.traverse(SortOrder::Postorder), vec![1, 2, 4, 5, 3])
}

#[test]
fn empty_tree_traversals() {
    let v: Vec<i32> = vec![];
    let tree = BinarySearchTree::new(&v);
    assert_eq!(tree.traverse(SortOrder::Inorder), Vec::<i32>::new());
    assert_eq!(tree.traverse(SortOrder::Preorder), Vec::<i32>::new());
    assert_eq!(tree.traverse(SortOrder::Postorder), Vec::<i32>::new());
}

#[test]
fn duplicate_keys_go_right() {
    let v = vec![2, 2, 1, 2];
    let tree = BinarySearchTree::new(&v);
    assert_eq!(tree.traverse(SortOrder::Inorder), vec![1, 2, 2, 2]);
    assert_eq!(tree.traverse(SortOrder::Preorder), vec![2, 1, 2, 2]);
}

#[test]
fn inorder_is_sorted() {
    let v = vec![7, -3, 12, 0, 7, -3, 99, 5];
    let tree = BinarySearchTree::new(&v);
    let out = tree.traverse(SortOrder::Inorder);
    assert_eq!(out.len(), v.len());
    for w in out.windows(2) {
        assert!(w[0] <= w[1]);
    }
    let mut sorted = v.clone();
    sorted.sort();
    assert_eq!(out, sorted);
}
