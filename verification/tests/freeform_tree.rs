use charcoal::freeform_tree::{FreeformTree, NodeRef, TryPushError};
use charcoal::traversal::algorithms::recursively_remove;
use charcoal::traversal::{Traversable, TraversableMut, VisitorDirection};
use charcoal::{NodeValue, TryRemoveBranchError, TryRemoveChildrenError, TryRemoveLeafError};

fn children_of(node: NodeRef<'_, i32>) -> Vec<i32> {
    let mut out = Vec::new();
    if let Some(mut it) = node.children() {
        while let Some(child) = it.next() {
            out.push(*child.value().into_inner());
        }
    }
    out
}

fn children_keys_of(node: NodeRef<'_, i32>) -> Vec<usize> {
    let mut out = Vec::new();
    if let Some(mut it) = node.children_keys() {
        while let Some(key) = it.next() {
            out.push(key);
        }
    }
    out
}

#[test]
fn freeform_module_example() {
    let mut tree = FreeformTree::<i32>::new(451);
    let root = tree.root();
    assert!(root.is_leaf());
    let mut root = tree.root_mut();
    *(root.value_mut().into_inner()) = 120;
    let my_numbers = [2014, 1987, 1983];
    root.make_branch(my_numbers.to_vec()).unwrap();
    let root = root.downgrade();
    assert_eq!(root.value().into_inner(), &120);
    let children = {
        let mut children_ref_iter = root.children().unwrap();
        let mut get_val = || {
            let x: NodeRef<'_, _, _> = children_ref_iter.next().unwrap();
            *x.value().into_inner()
        };
        [get_val(), get_val(), get_val()]
    };
    assert_eq!(children, my_numbers);
}

#[test]
fn freeform_new_is_a_leaf() {
    let tree = FreeformTree::<i32>::new(87);
    assert!(tree.root().is_leaf());
    assert!(tree.root().is_root());
}

#[test]
fn freeform_with_capacity_then_branch() {
    let mut tree = FreeformTree::<&str>::with_capacity(5, "Variable Names");
    assert!(tree.root().is_leaf());
    tree.root_mut().make_branch(vec!["Foo", "Bar", "Baz", "Quux"]).unwrap();
    assert!(tree.root().is_branch());
    assert_eq!(tree.root().first_child().unwrap().value(), NodeValue::Leaf(&"Foo"));
    assert_eq!(tree.root().last_child().unwrap().value(), NodeValue::Leaf(&"Quux"));
}

#[test]
fn freeform_root_value() {
    let tree = FreeformTree::<&str>::new("Root");
    assert_eq!(*tree.root().value().into_inner(), "Root");
}

#[test]
fn freeform_root_value_mut() {
    let mut tree = FreeformTree::<&str>::new("Root");
    let mut root_mut = tree.root_mut();
    *(root_mut.value_mut().into_inner()) = "The Source of the Beer";
    assert_eq!(*tree.root().value().into_inner(), "The Source of the Beer");
}

#[test]
fn freeform_make_branch_on_branch_gives_children_back() {
    let mut tree = FreeformTree::<i32>::new(0);
    tree.root_mut().make_branch(vec![1, 2]).unwrap();
    let err = tree.root_mut().make_branch(vec![3, 4, 5]).unwrap_err();
    assert_eq!(err.packed_children, vec![3, 4, 5]);
    assert_eq!(children_of(tree.root()), vec![1, 2]);
}

#[test]
fn freeform_make_branch_without_children_keeps_leaf() {
    let mut tree = FreeformTree::<i32>::new(0);
    tree.root_mut().make_branch(Vec::new()).unwrap();
    assert!(tree.root().is_leaf());
}

#[test]
fn freeform_make_branch_with_converts_payload() {
    let mut tree = FreeformTree::<String, i32>::new(5);
    tree.root_mut().make_branch_with(vec![1, 2], |x| format!("was {}", x)).unwrap();
    assert_eq!(tree.root().value(), NodeValue::Branch(&"was 5".to_string()));
}

#[test]
fn freeform_push_back_and_front_keep_order() {
    let mut tree = FreeformTree::<i32>::new(0);
    tree.root_mut().make_branch(vec![2, 3]).unwrap();
    tree.root_mut().try_push_back(4).unwrap();
    tree.root_mut().try_push_front(1).unwrap();
    assert_eq!(children_of(tree.root()), vec![1, 2, 3, 4]);
    let last = tree.root().last_child().unwrap();
    assert_eq!(*last.value().into_inner(), 4);
    assert_eq!(*last.prev_sibling().unwrap().value().into_inner(), 3);
    assert!(last.next_sibling().is_none());
    let first = tree.root().first_child().unwrap();
    assert!(first.prev_sibling().is_none());
    assert_eq!(*first.parent().unwrap().value().into_inner(), 0);
}

#[test]
fn freeform_push_on_leaf_fails() {
    let mut tree = FreeformTree::<i32>::new(0);
    let err: TryPushError<i32> = tree.root_mut().try_push_back(7).unwrap_err();
    assert_eq!(err.child_payload, 7);
    let err = tree.root_mut().try_push_front(8).unwrap_err();
    assert_eq!(err.child_payload, 8);
    assert!(tree.root().is_leaf());
}

#[test]
fn freeform_siblings_from_a_node() {
    let mut tree = FreeformTree::<i32>::new(0);
    tree.root_mut().make_branch(vec![1, 2, 3]).unwrap();
    let second = tree.root().first_child().unwrap().next_sibling().unwrap();
    let mut siblings = second.siblings();
    assert_eq!(*siblings.next().unwrap().value().into_inner(), 2);
    assert_eq!(*siblings.next().unwrap().value().into_inner(), 3);
    assert!(siblings.next().is_none());
    assert!(siblings.next().is_none());
}

#[test]
fn freeform_remove_middle_leaf() {
    let mut tree = FreeformTree::<i32>::new(0);
    tree.root_mut().make_branch(vec![1, 2, 3]).unwrap();
    let second = tree.root_mut().first_child_mut().unwrap().into_raw_key() + 1;
    let node = charcoal::freeform_tree::NodeRefMut::new_raw(&mut tree, second).unwrap();
    assert_eq!(node.try_remove_leaf(), Ok(2));
    assert_eq!(children_of(tree.root()), vec![1, 3]);
    let first = tree.root().first_child().unwrap();
    assert_eq!(*first.next_sibling().unwrap().value().into_inner(), 3);
}

#[test]
fn freeform_remove_first_and_last_leaves() {
    let mut tree = FreeformTree::<i32>::new(0);
    tree.root_mut().make_branch(vec![1, 2, 3]).unwrap();
    let first = tree.root().first_child().unwrap().into_raw_key();
    let node = charcoal::freeform_tree::NodeRefMut::new_raw(&mut tree, first).unwrap();
    assert_eq!(node.try_remove_leaf(), Ok(1));
    assert_eq!(children_of(tree.root()), vec![2, 3]);
    let last = tree.root().last_child().unwrap().into_raw_key();
    let node = charcoal::freeform_tree::NodeRefMut::new_raw(&mut tree, last).unwrap();
    assert_eq!(node.try_remove_leaf(), Ok(3));
    assert_eq!(children_of(tree.root()), vec![2]);
}

#[test]
fn freeform_remove_only_leaf_converts_parent() {
    let mut tree = FreeformTree::<String, i32>::new(10);
    tree.root_mut().make_branch_with(vec![1], |x| x.to_string()).unwrap();
    let child = tree.root().first_child().unwrap().into_raw_key();
    let node = charcoal::freeform_tree::NodeRefMut::new_raw(&mut tree, child).unwrap();
    assert_eq!(node.try_remove_leaf_with(|s| s.len() as i32 * 100), Ok(1));
    assert!(tree.root().is_leaf());
    assert_eq!(tree.root().value(), NodeValue::Leaf(&200));
}

#[test]
fn freeform_remove_leaf_errors() {
    let mut tree = FreeformTree::<i32>::new(0);
    assert_eq!(tree.root_mut().try_remove_leaf(), Err(TryRemoveLeafError::WasRootNode));
    tree.root_mut().make_branch(vec![1]).unwrap();
    assert_eq!(tree.root_mut().try_remove_leaf(), Err(TryRemoveLeafError::WasBranchNode));
}

#[test]
fn freeform_remove_children_in_order() {
    let mut tree = FreeformTree::<i32>::new(0);
    tree.root_mut().make_branch(vec![5, 6, 7]).unwrap();
    tree.root_mut().try_push_front(4).unwrap();
    assert_eq!(tree.root_mut().try_remove_children(), Ok(vec![4, 5, 6, 7]));
    assert!(tree.root().is_leaf());
    assert_eq!(*tree.root().value().into_inner(), 0);
    assert_eq!(tree.num_children_of(&0), 0);
}

#[test]
fn freeform_remove_children_errors() {
    let mut tree = FreeformTree::<i32>::new(0);
    assert_eq!(tree.root_mut().try_remove_children(), Err(TryRemoveChildrenError::WasLeafNode));
    tree.root_mut().make_branch(vec![1, 2, 3]).unwrap();
    let mut third = tree.root_mut().last_child_mut().unwrap().into_raw_key();
    charcoal::freeform_tree::NodeRefMut::new_raw(&mut tree, third).unwrap().make_branch(vec![9]).unwrap();
    assert_eq!(tree.root_mut().try_remove_children(), Err(TryRemoveChildrenError::HadBranchChild(2)));
    third = tree.root().last_child().unwrap().into_raw_key();
    assert_eq!(children_of(tree.root()), vec![1, 2, 3]);
    assert_eq!(tree.num_children_of(&third), 1);
}

#[test]
fn freeform_remove_branch_with_its_leaves() {
    let mut tree = FreeformTree::<i32>::new(0);
    tree.root_mut().make_branch(vec![1, 2]).unwrap();
    let first = tree.root().first_child().unwrap().into_raw_key();
    charcoal::freeform_tree::NodeRefMut::new_raw(&mut tree, first).unwrap().make_branch(vec![10, 11, 12]).unwrap();
    let node = charcoal::freeform_tree::NodeRefMut::new_raw(&mut tree, first).unwrap();
    assert_eq!(node.try_remove_branch(), Ok((1, vec![10, 11, 12])));
    assert_eq!(children_of(tree.root()), vec![2]);
    assert!(NodeRef::new_raw(&tree, 1).is_some());
    assert!(NodeRef::new_raw(&tree, 2).is_none());
}

#[test]
fn freeform_remove_only_branch_converts_parent() {
    let mut tree = FreeformTree::<i32>::new(0);
    tree.root_mut().make_branch(vec![1]).unwrap();
    let first = tree.root().first_child().unwrap().into_raw_key();
    charcoal::freeform_tree::NodeRefMut::new_raw(&mut tree, first).unwrap().make_branch(vec![10]).unwrap();
    let node = charcoal::freeform_tree::NodeRefMut::new_raw(&mut tree, first).unwrap();
    assert_eq!(node.try_remove_branch(), Ok((1, vec![10])));
    assert!(tree.root().is_leaf());
    assert_eq!(*tree.root().value().into_inner(), 0);
}

#[test]
fn freeform_remove_branch_errors() {
    let mut tree = FreeformTree::<i32>::new(0);
    tree.root_mut().make_branch(vec![1, 2]).unwrap();
    assert_eq!(tree.root_mut().try_remove_branch(), Err(TryRemoveBranchError::WasRootNode));
    let second = tree.root().last_child().unwrap().into_raw_key();
    let node = charcoal::freeform_tree::NodeRefMut::new_raw(&mut tree, second).unwrap();
    assert_eq!(node.try_remove_branch(), Err(TryRemoveBranchError::WasLeafNode));
    let first = tree.root().first_child().unwrap().into_raw_key();
    charcoal::freeform_tree::NodeRefMut::new_raw(&mut tree, first).unwrap().make_branch(vec![3, 4]).unwrap();
    let four = tree.root().first_child().unwrap().last_child().unwrap().into_raw_key();
    charcoal::freeform_tree::NodeRefMut::new_raw(&mut tree, four).unwrap().make_branch(vec![5]).unwrap();
    let node = charcoal::freeform_tree::NodeRefMut::new_raw(&mut tree, first).unwrap();
    assert_eq!(node.try_remove_branch(), Err(TryRemoveBranchError::HadBranchChild(1)));
}

#[test]
fn freeform_recursive_removal() {
    let mut tree = FreeformTree::<i32>::new(0);
    tree.root_mut().make_branch(vec![1, 2]).unwrap();
    let first = tree.root().first_child().unwrap().into_raw_key();
    charcoal::freeform_tree::NodeRefMut::new_raw(&mut tree, first).unwrap().make_branch(vec![3, 4]).unwrap();
    let four = tree.root().first_child().unwrap().last_child().unwrap().into_raw_key();
    charcoal::freeform_tree::NodeRefMut::new_raw(&mut tree, four).unwrap().make_branch(vec![5, 6]).unwrap();
    let node = charcoal::freeform_tree::NodeRefMut::new_raw(&mut tree, first).unwrap();
    assert_eq!(node.recursively_remove(), NodeValue::Branch(1));
    assert_eq!(children_of(tree.root()), vec![2]);
    assert!(NodeRef::new_raw(&tree, 1).is_some());
    assert!(NodeRef::new_raw(&tree, 2).is_none());
}

#[test]
fn freeform_recursive_removal_of_only_child_keeps_parent_payload() {
    let mut tree = FreeformTree::<i32>::new(0);
    tree.root_mut().make_branch(vec![1]).unwrap();
    let first = tree.root().first_child().unwrap().into_raw_key();
    charcoal::freeform_tree::NodeRefMut::new_raw(&mut tree, first).unwrap().make_branch(vec![3]).unwrap();
    assert_eq!(recursively_remove(&mut tree, first), NodeValue::Branch(1));
    assert!(tree.root().is_leaf());
    assert_eq!(*tree.root().value().into_inner(), 0);
}

#[test]
fn freeform_traversal_directions() {
    let mut tree = FreeformTree::<i32>::new(0);
    tree.root_mut().make_branch(vec![1, 2, 3]).unwrap();
    let keys = children_keys_of(tree.root());
    assert_eq!(keys.len(), 3);
    assert_eq!(tree.advance_cursor::<()>(0, VisitorDirection::Child(1)), Ok(keys[1]));
    assert!(tree.advance_cursor::<()>(0, VisitorDirection::Child(3)).is_err());
    assert_eq!(tree.advance_cursor::<()>(keys[0], VisitorDirection::NextSibling), Ok(keys[1]));
    assert!(tree.advance_cursor::<()>(keys[2], VisitorDirection::NextSibling).is_err());
    assert_eq!(tree.advance_cursor::<()>(keys[2], VisitorDirection::Parent), Ok(0));
    assert!(tree.advance_cursor::<()>(0, VisitorDirection::Parent).is_err());
    assert_eq!(tree.num_children_of(&0), 3);
    assert_eq!(tree.nth_child_of(&0, 2), Some(keys[2]));
    assert_eq!(tree.nth_child_of(&0, 3), None);
    assert_eq!(tree.parent_of(&keys[0]), Some(0));
    assert_eq!(tree.value_of(&keys[2]), NodeValue::Leaf(&3));
}

#[test]
fn freeform_traversable_mut_removals() {
    let mut tree = FreeformTree::<i32>::new(0);
    tree.root_mut().make_branch(vec![1, 2]).unwrap();
    let keys = children_keys_of(tree.root());
    assert_eq!(tree.try_remove_leaf(&keys[1], |x| x), Ok(2));
    assert_eq!(tree.try_remove_children(&0, |x| x + 100), Ok(vec![1]));
    assert_eq!(tree.value_of(&0), NodeValue::Leaf(&100));
    if let NodeValue::Leaf(x) = tree.value_mut_of(&0) {
        *x = 7;
    }
    assert_eq!(*tree.root().value().into_inner(), 7);
}
