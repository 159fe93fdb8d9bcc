use charcoal::traversal::algorithms::{recursively_remove, recursively_remove_with};
use charcoal::traversal::{Traversable, TraversableMut, VisitorDirection};
use charcoal::util::ArrayMap;
use charcoal::{NodeValue, Octree, Quadtree, TryRemoveBranchError, TryRemoveChildrenError, TryRemoveLeafError};

#[test]
fn quadtree_new_is_a_leaf() {
    let tree = Quadtree::<i32>::new(87);
    assert!(tree.root().is_leaf());
    assert!(tree.root().is_root());
    assert_eq!(tree.root().child_index(), None);
}

#[test]
fn quadtree_with_capacity_then_branch() {
    let mut tree = Quadtree::<&str>::with_capacity(5, "Variable Names");
    assert!(tree.root().is_leaf());
    tree.root_mut().make_branch(["Foo", "Bar", "Baz", "Quux"]).unwrap();
    assert!(tree.root().is_branch());
    let children = tree.root().children().unwrap();
    assert_eq!(children[0].value(), NodeValue::Leaf(&"Foo"));
    assert_eq!(children[3].value(), NodeValue::Leaf(&"Quux"));
    assert_eq!(children[2].child_index(), Some(2));
}

#[test]
fn quadtree_root_value() {
    let tree = Quadtree::<&str>::new("Root");
    assert_eq!(*tree.root().value().into_inner(), "Root");
}

#[test]
fn quadtree_root_value_mut() {
    let mut tree = Quadtree::<&str>::new("Root");
    let mut root_mut = tree.root_mut();
    *(root_mut.value_mut().into_inner()) = "The Source of the Beer";
    assert_eq!(*tree.root().value().into_inner(), "The Source of the Beer");
}

#[test]
fn octree_make_branch_twice_gives_children_back() {
    let mut tree = Octree::<u32>::new(0);
    tree.root_mut().make_branch([1, 2, 3, 4, 5, 6, 7, 8]).unwrap();
    let err = tree.root_mut().make_branch([9, 10, 11, 12, 13, 14, 15, 16]).unwrap_err();
    assert_eq!(err.packed_children.0, [9, 10, 11, 12, 13, 14, 15, 16]);
    assert_eq!(err.packed_children.into_inner()[7], 16);
}

#[test]
fn octree_make_branch_with_converts() {
    let mut tree = Octree::<String, u32>::new(7);
    tree.root_mut().make_branch_with([0; 8], |x| format!("{}", x)).unwrap();
    assert_eq!(tree.root().value(), NodeValue::Branch(&"7".to_string()));
    assert_eq!(tree.root().nth_child(5).unwrap().value(), NodeValue::Leaf(&0));
}

#[test]
fn quadtree_remove_children_cases() {
    let mut tree = Quadtree::<u32>::new(0);
    assert_eq!(tree.root_mut().try_remove_children(), Err(TryRemoveChildrenError::WasLeafNode));
    tree.root_mut().make_branch([1, 2, 3, 4]).unwrap();
    {
        let mut root = tree.root_mut();
        let mut third = root.nth_child_mut(2).unwrap();
        third.make_branch([5, 6, 7, 8]).unwrap();
    }
    assert_eq!(
        tree.root_mut().try_remove_children(),
        Err(TryRemoveChildrenError::HadBranchChild(2))
    );
    {
        let mut root = tree.root_mut();
        let mut third = root.nth_child_mut(2).unwrap();
        assert_eq!(third.try_remove_children_with(|b| b + 100), Ok([5, 6, 7, 8]));
        assert_eq!(third.value(), NodeValue::Leaf(&103));
    }
    assert_eq!(tree.root_mut().try_remove_children(), Ok([1, 2, 103, 4]));
    assert!(tree.root().is_leaf());
    assert_eq!(tree.root().value(), NodeValue::Leaf(&0));
}

#[test]
fn quadtree_recursive_removal_turns_parent_into_leaf() {
    let mut tree = Quadtree::<u32>::new(0);
    tree.root_mut().make_branch([1, 2, 3, 4]).unwrap();
    {
        let mut root = tree.root_mut();
        let mut second = root.nth_child_mut(1).unwrap();
        second.make_branch([5, 6, 7, 8]).unwrap();
    }
    // Removing the first child removes all the children of the root, which becomes a leaf.
    assert_eq!(recursively_remove(&mut tree, 1), NodeValue::Leaf(1));
    assert!(tree.root().is_leaf());
    assert_eq!(tree.num_children_of(&0), 0);
}

#[test]
fn quadtree_recursive_removal_of_branch_returns_converted_payload() {
    let mut tree = Quadtree::<u32>::new(0);
    tree.root_mut().make_branch([1, 2, 3, 4]).unwrap();
    {
        let mut root = tree.root_mut();
        let mut second = root.nth_child_mut(1).unwrap();
        second.make_branch([5, 6, 7, 8]).unwrap();
    }
    // Node 2 loses its children first and becomes a leaf holding 2 * 10; then the root loses
    // all its children and becomes a leaf holding 0 * 10.
    let removed = {
        let mut root = tree.root_mut();
        let second = root.nth_child_mut(1).unwrap();
        second.recursively_remove_with(|b: u32| b * 10)
    };
    assert_eq!(removed, NodeValue::Leaf(20));
    assert_eq!(tree.root().value(), NodeValue::Leaf(&0));
}

#[test]
fn quadtree_recursive_removal_with_closure() {
    let mut tree = Quadtree::<u32>::new(5);
    tree.root_mut().make_branch([1, 2, 3, 4]).unwrap();
    assert_eq!(recursively_remove_with(&mut tree, 3, |b: u32| b + 1), NodeValue::Leaf(3));
    assert_eq!(tree.root().value(), NodeValue::Leaf(&6));
}

#[test]
fn full_trees_cannot_remove_individual_children() {
    let mut tree = Octree::<u32>::new(0);
    tree.root_mut().make_branch([1, 2, 3, 4, 5, 6, 7, 8]).unwrap();
    assert!(!<Octree<u32> as TraversableMut>::can_remove_individual_children_exec());
    assert_eq!(tree.try_remove_leaf(&1, |b| b), Err(TryRemoveLeafError::CannotRemoveIndividualChildren));
    assert_eq!(
        tree.try_remove_branch(&0, |b| b).map(|x| x.0),
        Err(TryRemoveBranchError::CannotRemoveIndividualChildren)
    );
    assert_eq!(tree.try_remove_children(&0, |b| b), Ok(vec![1, 2, 3, 4, 5, 6, 7, 8]));
}

#[test]
fn octree_traversal_moves() {
    let mut tree = Octree::<u32>::new(0);
    tree.root_mut().make_branch([1, 2, 3, 4, 5, 6, 7, 8]).unwrap();
    assert_eq!(tree.advance_cursor::<()>(0, VisitorDirection::Child(3)), Ok(4));
    assert_eq!(tree.advance_cursor::<()>(4, VisitorDirection::NextSibling), Ok(5));
    assert!(tree.advance_cursor::<()>(8, VisitorDirection::NextSibling).is_err());
    assert_eq!(tree.advance_cursor::<()>(4, VisitorDirection::Parent), Ok(0));
    assert!(tree.advance_cursor::<()>(0, VisitorDirection::Parent).is_err());
    assert!(tree.advance_cursor::<()>(0, VisitorDirection::Child(8)).is_err());
    assert_eq!(tree.nth_child_of(&0, 7), Some(8));
    assert_eq!(tree.parent_of(&8), Some(0));
}

#[test]
fn array_map_keeps_order() {
    assert_eq!([1, 2, 3, 4].array_map(|x: i32| x * 2), [2, 4, 6, 8]);
    assert_eq!([1, 2, 3, 4, 5, 6, 7, 8].array_map_by_ref(|x: &i32| *x + 1), [2, 3, 4, 5, 6, 7, 8, 9]);
}

#[test]
fn octree_packed_children_iterate_both_ways() {
    let packed: charcoal::octree::PackedChildren<i32> = charcoal::full_tree::PackedChildren([1, 2, 3, 4, 5, 6, 7, 8]);
    let mut it = packed.into_iter();
    assert_eq!(it.len(), 8);
    assert_eq!(it.next(), Some(1));
    assert_eq!(it.next_back(), Some(8));
    assert_eq!(it.len(), 6);
    let mut rest = Vec::new();
    while let Some(x) = it.next() {
        rest.push(x);
    }
    assert_eq!(rest, vec![2, 3, 4, 5, 6, 7]);
    assert_eq!(it.next(), None);
    assert_eq!(it.next_back(), None);
}

#[test]
fn packed_children_from_array() {
    let packed: charcoal::full_tree::PackedChildren<i32, 4> = [5, 6, 7, 8].into();
    assert_eq!(packed.into_inner(), [5, 6, 7, 8]);
}
