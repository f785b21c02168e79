use design_kit::tree::TreeNode;

#[test]
fn new_node_is_a_leaf() {
    let n = TreeNode::new(5);
    assert_eq!(n.val, 5);
    assert!(n.left.is_none());
    assert!(n.right.is_none());
}
