use charcoal::binary_tree::{MakeFullBranchError, NodeRef};
use charcoal::traversal::algorithms::{recursively_remove, recursively_remove_with, RecursiveRemovalWith};
use charcoal::traversal::{Traversable, TraversableMut, VisitorDirection, VisitorMut};
use charcoal::{BinaryTree, NodeValue, TryRemoveBranchError, TryRemoveChildrenError, TryRemoveLeafError};

#[test]
fn basic() {
    let mut tree: BinaryTree<u64> = BinaryTree::new(1987_u64);
    tree.root_mut().make_branch(83, Some(87)).unwrap();

    let left_child_val = tree.root().left_child().as_ref().map(NodeRef::value);
    let right_child_val = tree.root().right_child().as_ref().map(NodeRef::value);
    assert_eq!(left_child_val, Some(NodeValue::Leaf(&83)));
    assert_eq!(right_child_val, Some(NodeValue::Leaf(&87)));
}

#[test]
fn new_tree_is_a_single_leaf() {
    let tree: BinaryTree<u64> = BinaryTree::new(5);
    let root = tree.root();
    assert!(root.is_root());
    assert!(root.is_leaf());
    assert!(!root.is_branch());
    assert_eq!(root.value(), NodeValue::Leaf(&5));
    assert!(root.parent().is_none());
    assert!(root.left_child().is_none());
    assert_eq!(root.is_left_child(), None);
    assert_eq!(tree.num_children_of(&0), 0);
}

#[test]
fn make_branch_on_branch_gives_children_back() {
    let mut tree: BinaryTree<u64> = BinaryTree::new(1);
    tree.root_mut().make_branch(2, Some(3)).unwrap();
    let err = tree.root_mut().make_branch(4, Some(5)).unwrap_err();
    assert_eq!(err.packed_children, vec![4, 5]);
    let err = tree.root_mut().make_branch(6, None).unwrap_err();
    assert_eq!(err.packed_children, vec![6]);
    // The tree is unchanged.
    assert_eq!(tree.num_children_of(&0), 2);
}

#[test]
fn make_branch_with_converts_payload() {
    let mut tree: BinaryTree<String, u64> = BinaryTree::new(7);
    tree.root_mut().make_branch_with(1, None, |x| format!("was {}", x)).unwrap();
    assert_eq!(tree.root().value(), NodeValue::Branch(&"was 7".to_string()));
    assert!(!tree.root().is_full_branch());
    assert!(tree.root().right_child().is_none());
    assert_eq!(tree.root().left_child().unwrap().value(), NodeValue::Leaf(&1));
}

#[test]
fn remove_leaf_errors() {
    let mut tree: BinaryTree<u64> = BinaryTree::new(1);
    assert_eq!(tree.root_mut().try_remove_leaf(), Err(TryRemoveLeafError::WasRootNode));
    tree.root_mut().make_branch(2, Some(3)).unwrap();
    assert_eq!(tree.root_mut().try_remove_leaf(), Err(TryRemoveLeafError::WasBranchNode));
}

#[test]
fn removing_left_child_shifts_right_child() {
    let mut tree: BinaryTree<u64> = BinaryTree::new(1);
    tree.root_mut().make_branch(2, Some(3)).unwrap();
    let mut root = tree.root_mut();
    let left = root.left_child_mut().unwrap();
    assert_eq!(left.try_remove_leaf(), Ok(2));
    let root = tree.root();
    assert!(root.is_branch());
    assert!(!root.is_full_branch());
    assert_eq!(root.left_child().unwrap().value(), NodeValue::Leaf(&3));
    assert_eq!(root.left_child().unwrap().is_left_child(), Some(true));
}

#[test]
fn removing_last_child_turns_parent_into_leaf() {
    let mut tree: BinaryTree<u64> = BinaryTree::new(10);
    tree.root_mut().make_branch(20, None).unwrap();
    let mut root = tree.root_mut();
    let left = root.left_child_mut().unwrap();
    assert_eq!(left.try_remove_leaf_with(|b| b + 1), Ok(20));
    assert!(tree.root().is_leaf());
    assert_eq!(tree.root().value(), NodeValue::Leaf(&11));
}

#[test]
fn right_child_is_the_right_one() {
    let mut tree: BinaryTree<u64> = BinaryTree::new(0);
    tree.root_mut().make_branch(1, Some(2)).unwrap();
    let mut root = tree.root_mut();
    let right = root.right_child_mut().unwrap();
    assert_eq!(right.value(), NodeValue::Leaf(&2));
    assert_eq!(right.is_right_child(), Some(true));
    assert_eq!(right.is_left_child(), Some(false));
    assert_eq!(tree.root().children().map(|(l, r)| (*l.raw_key() != *r.raw_key())), Some(true));
}

#[test]
fn make_full_branch_cases() {
    let mut tree: BinaryTree<u64> = BinaryTree::new(0);
    assert_eq!(
        tree.root_mut().make_full_branch(9),
        Err(MakeFullBranchError::WasLeafNode { right_child: 9 })
    );
    tree.root_mut().make_branch(1, None).unwrap();
    assert_eq!(tree.root_mut().make_full_branch(2), Ok(()));
    assert!(tree.root().is_full_branch());
    assert_eq!(tree.root().right_child().unwrap().value(), NodeValue::Leaf(&2));
    let err = tree.root_mut().make_full_branch(3).unwrap_err();
    assert_eq!(err, MakeFullBranchError::WasFullBranch { right_child: 3 });
    assert_eq!(err.right_child(), 3);
}

#[test]
fn remove_branch_cases() {
    let mut tree: BinaryTree<u64> = BinaryTree::new(0);
    tree.root_mut().make_branch(1, Some(2)).unwrap();
    assert_eq!(tree.root_mut().try_remove_branch(), Err(TryRemoveBranchError::WasRootNode));
    {
        let mut root = tree.root_mut();
        let left = root.left_child_mut().unwrap();
        assert_eq!(left.try_remove_branch(), Err(TryRemoveBranchError::WasLeafNode));
    }
    {
        let mut root = tree.root_mut();
        let mut left = root.left_child_mut().unwrap();
        left.make_branch(3, Some(4)).unwrap();
    }
    {
        let mut root = tree.root_mut();
        let mut left = root.left_child_mut().unwrap();
        let mut grandchild = left.right_child_mut().unwrap();
        grandchild.make_branch(5, None).unwrap();
    }
    {
        let mut root = tree.root_mut();
        let left = root.left_child_mut().unwrap();
        assert_eq!(left.try_remove_branch(), Err(TryRemoveBranchError::HadBranchChild(1)));
    }
    {
        let mut root = tree.root_mut();
        let mut left = root.left_child_mut().unwrap();
        let grandchild = left.right_child_mut().unwrap();
        assert_eq!(grandchild.try_remove_branch(), Ok((4, 5, None)));
    }
    {
        let mut root = tree.root_mut();
        let left = root.left_child_mut().unwrap();
        assert_eq!(left.try_remove_branch(), Ok((1, 3, None)));
    }
    let root = tree.root();
    assert!(!root.is_full_branch());
    assert_eq!(root.left_child().unwrap().value(), NodeValue::Leaf(&2));
}

#[test]
fn remove_children_cases() {
    let mut tree: BinaryTree<u64> = BinaryTree::new(0);
    assert_eq!(tree.root_mut().try_remove_children(), Err(TryRemoveChildrenError::WasLeafNode));
    tree.root_mut().make_branch(1, Some(2)).unwrap();
    {
        let mut root = tree.root_mut();
        let mut left = root.left_child_mut().unwrap();
        left.make_branch(3, None).unwrap();
    }
    assert_eq!(
        tree.root_mut().try_remove_children(),
        Err(TryRemoveChildrenError::HadBranchChild(0))
    );
    {
        let mut root = tree.root_mut();
        let mut left = root.left_child_mut().unwrap();
        assert_eq!(left.try_remove_children_with(|b| b * 100), Ok((3, None)));
        assert_eq!(left.value(), NodeValue::Leaf(&100));
    }
    assert_eq!(tree.root_mut().try_remove_children(), Ok((100, Some(2))));
    assert!(tree.root().is_leaf());
    assert_eq!(tree.root().value(), NodeValue::Leaf(&0));
}

#[test]
fn recursive_removal_of_subtree() {
    let mut tree: BinaryTree<u64> = BinaryTree::new(0);
    tree.root_mut().make_branch(1, Some(2)).unwrap();
    {
        let mut root = tree.root_mut();
        let mut left = root.left_child_mut().unwrap();
        left.make_branch(3, Some(4)).unwrap();
        let mut grandchild = left.left_child_mut().unwrap();
        grandchild.make_branch(5, Some(6)).unwrap();
    }
    let removed = {
        let mut root = tree.root_mut();
        let left = root.left_child_mut().unwrap();
        left.recursively_remove()
    };
    assert_eq!(removed, NodeValue::Branch(1));
    let root = tree.root();
    assert!(!root.is_full_branch());
    assert_eq!(root.left_child().unwrap().value(), NodeValue::Leaf(&2));
    assert_eq!(tree.parent_of(&1), Some(0));
    assert_eq!(tree.num_children_of(&1), 0);
    assert_eq!(tree.nth_child_of(&0, 1), None);
}

#[test]
fn recursive_removal_converts_parent() {
    let mut tree: BinaryTree<u64> = BinaryTree::new(0);
    tree.root_mut().make_branch(1, None).unwrap();
    {
        let mut root = tree.root_mut();
        let mut left = root.left_child_mut().unwrap();
        left.make_branch(2, None).unwrap();
    }
    // Node 1 is removed together with its only child, a leaf; the root is left without children
    // and becomes a leaf holding 0 + 10.
    assert_eq!(recursively_remove_with(&mut tree, 1, |b: u64| b + 10), NodeValue::Branch(1));
    assert!(tree.root().is_leaf());
    assert_eq!(tree.root().value(), NodeValue::Leaf(&10));
}

#[test]
fn recursive_removal_returns_converted_pivot() {
    let mut tree: BinaryTree<u64> = BinaryTree::new(0);
    tree.root_mut().make_branch(1, None).unwrap();
    {
        let mut root = tree.root_mut();
        let mut left = root.left_child_mut().unwrap();
        left.make_branch(2, None).unwrap();
        let mut grandchild = left.left_child_mut().unwrap();
        grandchild.make_branch(3, None).unwrap();
    }
    // Node 2 goes first with its leaf, turning node 1 into a leaf holding 1 + 10, which is then
    // removed in turn, turning the root into a leaf holding 0 + 10.
    assert_eq!(recursively_remove_with(&mut tree, 1, |b: u64| b + 10), NodeValue::Leaf(11));
    assert!(tree.root().is_leaf());
    assert_eq!(tree.root().value(), NodeValue::Leaf(&10));
}

#[test]
fn recursive_removal_of_leaf() {
    let mut tree: BinaryTree<u64> = BinaryTree::new(0);
    tree.root_mut().make_branch(1, Some(2)).unwrap();
    assert_eq!(recursively_remove(&mut tree, 2), NodeValue::Leaf(2));
    assert_eq!(tree.num_children_of(&0), 1);
    assert_eq!(tree.nth_child_of(&0, 0), Some(1));
}

#[test]
fn traversable_view_of_tree() {
    let mut tree: BinaryTree<u64> = BinaryTree::new(0);
    tree.root_mut().make_branch(1, Some(2)).unwrap();
    assert_eq!(tree.cursor_to_root(), 0);
    assert_eq!(tree.num_children_of(&0), 2);
    assert_eq!(tree.nth_child_of(&0, 0), Some(1));
    assert_eq!(tree.nth_child_of(&0, 1), Some(2));
    assert_eq!(tree.nth_child_of(&0, 2), None);
    assert_eq!(tree.parent_of(&2), Some(0));
    assert_eq!(tree.value_of(&0), NodeValue::Branch(&0));
    if let NodeValue::Leaf(x) = tree.value_mut_of(&1) {
        *x = 11;
    }
    assert_eq!(tree.value_of(&1), NodeValue::Leaf(&11));
    assert_eq!(tree.try_remove_leaf(&2, |b| b), Ok(2));
    assert_eq!(tree.try_remove_children(&0, |b| b + 1), Ok(vec![11]));
    assert_eq!(tree.value_of(&0), NodeValue::Leaf(&1));
    assert!(<BinaryTree<u64> as TraversableMut>::can_remove_individual_children_exec());
}

#[test]
fn removal_visitor_stops_on_a_leaf_pivot() {
    let mut t: BinaryTree<u32> = BinaryTree::new(1);
    t.root_mut().make_branch(2, Some(3)).unwrap();
    let k2 = t.root().left_child().unwrap().into_raw_key();
    let mut v = RecursiveRemovalWith::<BinaryTree<u32>, _>::new(k2, |b: u32| b);
    let d = v.visit_mut(&mut t, Ok(k2));
    assert_eq!(d, VisitorDirection::Stop(NodeValue::Leaf(2)));
    assert_eq!(t.root().value(), NodeValue::Branch(&1));
    assert!(!t.root().is_full_branch());
    assert_eq!(t.root().left_child().unwrap().value(), NodeValue::Leaf(&3));
}

#[test]
fn removal_visitor_goes_down_then_removes() {
    let mut t: BinaryTree<u32> = BinaryTree::new(1);
    t.root_mut().make_branch(2, Some(3)).unwrap();
    t.root_mut().left_child_mut().unwrap().make_branch(4, Some(5)).unwrap();
    t.root_mut().left_child_mut().unwrap().left_child_mut().unwrap().make_branch(6, None).unwrap();
    let k2 = t.root().left_child().unwrap().into_raw_key();
    let k4 = t.root().left_child().unwrap().left_child().unwrap().into_raw_key();
    let mut v = RecursiveRemovalWith::<BinaryTree<u32>, _>::new(k2, |b: u32| b);
    // The pivot has a branch child: nothing is removed and the visit goes down to it.
    let n = t.num_children_of(&k2);
    assert_eq!(v.visit_mut(&mut t, Ok(k2)), VisitorDirection::Child(0));
    assert_eq!(t.num_children_of(&k2), n);
    // Node 4 only has leaf children: it goes with them and the visit climbs to the pivot.
    assert_eq!(v.visit_mut(&mut t, Ok(k4)), VisitorDirection::SetTo(k2));
    assert_eq!(t.value_of(&k2), NodeValue::Branch(&2));
    assert_eq!(t.num_children_of(&k2), 1);
    assert_eq!(t.value_of(&t.nth_child_of(&k2, 0).unwrap()), NodeValue::Leaf(&5));
    // The pivot now only has a leaf child: it goes with it and the visit stops.
    assert_eq!(v.visit_mut(&mut t, Ok(k2)), VisitorDirection::Stop(NodeValue::Branch(2)));
    assert_eq!(t.root().value(), NodeValue::Branch(&1));
    assert!(!t.root().is_full_branch());
    assert_eq!(t.root().left_child().unwrap().value(), NodeValue::Leaf(&3));
}

#[test]
fn removal_renumbers_later_keys() {
    let mut t: BinaryTree<u32> = BinaryTree::new(1);
    t.root_mut().make_branch(2, Some(3)).unwrap();
    let k2 = t.root().left_child().unwrap().into_raw_key();
    let k3 = t.root().right_child().unwrap().into_raw_key();
    assert!(k2 < k3);
    assert_eq!(t.root_mut().left_child_mut().unwrap().try_remove_leaf(), Ok(2));
    // The node after the removed one moved down into its key.
    assert_eq!(NodeRef::new_raw(&t, k2).unwrap().value(), NodeValue::Leaf(&3));
    assert!(NodeRef::new_raw(&t, k3).is_none());
}
