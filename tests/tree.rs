use huffman::{add_element, add_tree, get_size, is_next_in_order, BinTree, Side};

#[test]
fn new_tree_has_one_node() {
    let t = BinTree::new(7);
    assert_eq!(t.val, 7);
    assert!(t.left.is_none() && t.right.is_none());
    assert_eq!(get_size(&t), 1);
    let b = BinTree::as_ref(3);
    assert_eq!(b.val, 3);
    assert_eq!(get_size(&b), 1);
}

#[test]
fn elements_and_subtrees_attach_on_their_side() {
    let mut root = BinTree::new(0);
    add_element(&mut root, 4, Side::Right);
    add_element(&mut root, 5, Side::Left);
    assert_eq!(root.right.as_ref().unwrap().val, 4);
    assert_eq!(root.left.as_ref().unwrap().val, 5);
    assert_eq!(get_size(&root), 3);
    let mut top = BinTree::new(2);
    add_tree(&mut top, root, Side::Left);
    assert_eq!(get_size(&top), 4);
    assert_eq!(top.left.as_ref().unwrap().val, 0);
    assert!(top.right.is_none());
}

#[test]
fn attaching_replaces_the_old_subtree() {
    let mut root = BinTree::new(1);
    add_element(&mut root, 2, Side::Left);
    add_element(&mut root, 3, Side::Left);
    assert_eq!(root.left.as_ref().unwrap().val, 3);
    assert_eq!(get_size(&root), 2);
}

#[test]
fn next_in_order_needs_a_right_child_or_a_pending_ancestor() {
    let mut t = BinTree::new(1);
    assert!(!is_next_in_order(&t, true));
    assert!(is_next_in_order(&t, false));
    add_element(&mut t, 2, Side::Left);
    assert!(!is_next_in_order(&t, true));
    add_element(&mut t, 3, Side::Right);
    assert!(is_next_in_order(&t, true));
}
