//! A binary tree whose nodes own their children.
use vstd::prelude::*;

verus! {

/// A node of a binary tree: a value and up to two owned subtrees.
#[derive(Debug, PartialEq, Eq)]
pub struct BinTree<T> {
    pub val: T,
    pub left: Option<Box<BinTree<T>>>,
    pub right: Option<Box<BinTree<T>>>,
}

/// Which child slot of a node.
#[derive(Clone, Copy, Debug, PartialEq, Eq)]
pub enum Side {
    Left,
    Right,
}

impl<T> BinTree<T> {
    /// Number of nodes in the tree.
    pub open spec fn size(self) -> nat
        decreases self,
    {
        1 + match self.left {
            Some(l) => l.size(),
            None => 0,
        } + match self.right {
            Some(r) => r.size(),
            None => 0,
        }
    }

    /// The one-node tree holding `val`.
    pub open spec fn leaf_of(val: T) -> BinTree<T> {
        BinTree { val, left: None, right: None }
    }

    /// A tree of one node holding `val`.
    pub fn new(val: T) -> (r: BinTree<T>)
        ensures
            r.val == val,
            r.left is None,
            r.right is None,
    {
        BinTree { val, left: None, right: None }
    }

    /// A boxed tree of one node holding `val`, ready to be attached below
    /// another node.
    pub fn as_ref(val: T) -> (r: Box<BinTree<T>>)
        ensures
            r.val == val,
            r.left is None,
            r.right is None,
    {
        Box::new(BinTree::new(val))
    }
}

/// Attaches `child` below `tree` on the given side, replacing whatever
/// subtree stood there.
pub fn add_tree<T>(tree: &mut BinTree<T>, child: BinTree<T>, side: Side)
    ensures
        final(tree).val == old(tree).val,
        side is Left ==> final(tree).left == Some(Box::new(child)) && final(tree).right
            == old(tree).right,
        side is Right ==> final(tree).right == Some(Box::new(child)) && final(tree).left
            == old(tree).left,
{
    match side {
        Side::Left => {
            tree.left = Some(Box::new(child));
        },
        Side::Right => {
            tree.right = Some(Box::new(child));
        },
    }
}

/// Attaches a new one-node tree holding `val` below `tree` on the given side.
pub fn add_element<T>(tree: &mut BinTree<T>, val: T, side: Side)
    ensures
        final(tree).val == old(tree).val,
        side is Left ==> final(tree).left == Some(Box::new(BinTree::<T>::leaf_of(val)))
            && final(tree).right == old(tree).right,
        side is Right ==> final(tree).right == Some(Box::new(BinTree::<T>::leaf_of(val)))
            && final(tree).left == old(tree).left,
{
    add_tree(tree, BinTree::new(val), side)
}

/// Whether an in-order walk that stands at `tree`, with a stack of pending
/// ancestors that is empty or not, has a node left to visit.
pub fn is_next_in_order<T>(tree: &BinTree<T>, is_stack_empty: bool) -> (r: bool)
    ensures
        r == (tree.right is Some || !is_stack_empty),
{
    tree.right.is_some() || !is_stack_empty
}

/// Number of nodes in the tree.
pub fn get_size<T>(tree: &BinTree<T>) -> (r: u64)
    requires
        tree.size() <= u64::MAX,
    ensures
        r == tree.size(),
    decreases tree,
{
    let left: u64 = match &tree.left {
        Some(l) => get_size(l),
        None => 0,
    };
    let right: u64 = match &tree.right {
        Some(r) => get_size(r),
        None => 0,
    };
    left + right + 1
}

} // verus!
