use charcoal::{TryRemoveLeafError, TryRemoveBranchError, TryRemoveChildrenError, MakeBranchError};
use charcoal::binary_tree::MakeFullBranchError;
use charcoal::freeform_tree::TryPushError;
use charcoal::traversal::CursorDirectionError;

#[test]
fn leaf_removal_errors_describe_themselves() {
    assert_eq!(TryRemoveLeafError::WasRootNode.to_string(), "cannot remove the root node of a tree");
    assert_eq!(TryRemoveLeafError::WasBranchNode.to_string(), "cannot remove branch nodes without recursion");
    assert_eq!(
        TryRemoveLeafError::CannotRemoveIndividualChildren.to_string(),
        "removing individual children is not available for the tree"
    );
}

#[test]
fn branch_removal_errors_describe_themselves() {
    assert_eq!(TryRemoveBranchError::WasRootNode.to_string(), "cannot remove the root node of a tree");
    assert_eq!(TryRemoveBranchError::WasLeafNode.to_string(), "expected a branch node, found leaf");
    assert_eq!(
        TryRemoveBranchError::HadBranchChild(0).to_string(),
        "node had a branch child (index 0), which cannot be removed without recursion"
    );
    assert_eq!(
        TryRemoveBranchError::HadBranchChild(4_294_967_295).to_string(),
        "node had a branch child (index 4294967295), which cannot be removed without recursion"
    );
    assert_eq!(
        TryRemoveBranchError::CannotRemoveIndividualChildren.to_string(),
        "removing individual children is not available for the tree"
    );
}

#[test]
fn children_removal_errors_describe_themselves() {
    assert_eq!(TryRemoveChildrenError::WasLeafNode.to_string(), "expected a branch node, found leaf");
    assert_eq!(
        TryRemoveChildrenError::HadBranchChild(107).to_string(),
        "node had a branch child (index 107), which cannot be removed without recursion"
    );
    assert_eq!(
        TryRemoveChildrenError::HadBranchChild(10).to_string(),
        "node had a branch child (index 10), which cannot be removed without recursion"
    );
}

#[test]
fn other_errors_describe_themselves() {
    let e: MakeBranchError<u8, Vec<u8>> = MakeBranchError::new(vec![1, 2]);
    assert_eq!(e.to_string(), "the node already was a branch");
    assert_eq!(
        MakeFullBranchError::WasLeafNode { right_child: 1 }.to_string(),
        "the node was a leaf, not a partial branch"
    );
    assert_eq!(
        MakeFullBranchError::WasFullBranch { right_child: 1 }.to_string(),
        "the node already was a full branch"
    );
    assert_eq!(
        TryPushError { child_payload: 3 }.to_string(),
        "try_push_back or try_push_front was attempted at a leaf node"
    );
    assert_eq!(
        CursorDirectionError { previous_state: 5usize }.to_string(),
        "cannot move cursor in the specified direction"
    );
}
