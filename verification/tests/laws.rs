use charcoal::storage::ListStorage;
use charcoal::traversal::{Traversable, VisitorDirection};
use charcoal::{BinaryTree, FreeformTree, NodeValue, Octree, Quadtree};

#[test]
fn law_binary_make_branch_then_remove_children() {
    let mut tree = BinaryTree::<i32>::new(1);
    tree.root_mut().make_branch(2, Some(3)).unwrap();
    assert_eq!(tree.root_mut().try_remove_children(), Ok((2, Some(3))));
    assert!(tree.root().is_leaf());
    assert_eq!(*tree.root().value().into_inner(), 1);
    assert_eq!(tree.num_children_of(&0), 0);
    assert!(charcoal::binary_tree::NodeRef::new_raw(&tree, 1).is_none());

    tree.root_mut().make_branch(4, None).unwrap();
    assert_eq!(tree.root_mut().try_remove_children(), Ok((4, None)));
    assert!(charcoal::binary_tree::NodeRef::new_raw(&tree, 1).is_none());
}

#[test]
fn law_octree_make_branch_then_remove_children() {
    let mut tree = Octree::<i32>::new(0);
    let children = [1, 2, 3, 4, 5, 6, 7, 8];
    tree.root_mut().make_branch(children).unwrap();
    assert_eq!(tree.root_mut().try_remove_children(), Ok(children));
    assert!(tree.root().is_leaf());
    assert_eq!(*tree.root().value().into_inner(), 0);
    assert_eq!(tree.num_children_of(&0), 0);
}

#[test]
fn law_quadtree_make_branch_then_remove_children() {
    let mut tree = Quadtree::<&str>::new("root");
    tree.root_mut().make_branch(["a", "b", "c", "d"]).unwrap();
    assert_eq!(tree.root_mut().try_remove_children(), Ok(["a", "b", "c", "d"]));
    assert!(tree.root().is_leaf());
    assert_eq!(*tree.root().value().into_inner(), "root");
}

#[test]
fn law_freeform_make_branch_then_remove_children() {
    let mut tree = FreeformTree::<i32>::new(9);
    tree.root_mut().make_branch(vec![1, 2, 3]).unwrap();
    assert_eq!(tree.root_mut().try_remove_children(), Ok(vec![1, 2, 3]));
    assert!(tree.root().is_leaf());
    assert_eq!(*tree.root().value().into_inner(), 9);
    assert!(charcoal::freeform_tree::NodeRef::new_raw(&tree, 1).is_none());
}

#[test]
fn law_freeform_push_back_then_remove() {
    let mut tree = FreeformTree::<i32>::new(0);
    tree.root_mut().make_branch(vec![1, 2]).unwrap();
    tree.root_mut().try_push_back(3).unwrap();
    let last = tree.root().last_child().unwrap().into_raw_key();
    assert_eq!(last, 3);
    let node = charcoal::freeform_tree::NodeRefMut::new_raw(&mut tree, last).unwrap();
    assert_eq!(node.try_remove_leaf(), Ok(3));
    assert_eq!(tree.num_children_of(&0), 2);
    assert_eq!(tree.nth_child_of(&0, 0), Some(1));
    assert_eq!(tree.nth_child_of(&0, 1), Some(2));
    assert!(charcoal::freeform_tree::NodeRef::new_raw(&tree, 3).is_none());
}

#[test]
fn law_child_then_parent_and_next_sibling() {
    let mut tree = FreeformTree::<i32>::new(0);
    tree.root_mut().make_branch(vec![10, 20, 30]).unwrap();
    tree.root_mut().try_push_front(5).unwrap();
    for i in 0..4u32 {
        let child = tree.advance_cursor::<()>(0, VisitorDirection::Child(i)).unwrap();
        assert_eq!(tree.advance_cursor::<()>(child, VisitorDirection::Parent), Ok(0));
        let next = tree.advance_cursor::<()>(child, VisitorDirection::NextSibling);
        if i < 3 {
            assert_eq!(next, tree.advance_cursor::<()>(0, VisitorDirection::Child(i + 1)));
        } else {
            assert!(next.is_err());
        }
    }
    let first = tree.advance_cursor::<()>(0, VisitorDirection::Child(0)).unwrap();
    assert_eq!(tree.value_of(&first), NodeValue::Leaf(&5));
}

#[test]
fn law_list_storage_insert_then_remove() {
    let mut v: Vec<i32> = vec![1, 2, 3];
    ListStorage::insert(&mut v, 1, 9);
    assert_eq!(v, vec![1, 9, 2, 3]);
    assert_eq!(ListStorage::remove(&mut v, 1), 9);
    assert_eq!(v, vec![1, 2, 3]);
    let key = ListStorage::add(&mut v, 4);
    assert_eq!(key, 3);
    assert_eq!(ListStorage::remove(&mut v, key), 4);
    assert_eq!(v, vec![1, 2, 3]);
}
