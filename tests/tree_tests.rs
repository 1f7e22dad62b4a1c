use miner::simpletree::{Parenting, TreeNode};

#[derive(PartialEq, Default, Debug)]
struct Data {
    val: u32,
    parent_id: [u8; 1],
}

impl Data {
    fn new(val: u32, parent_id: [u8; 1]) -> Self {
        Data { val, parent_id }
    }
}

impl Parenting for Data {
    // The library states its contracts over this; it is never run.
    fn parent_of(&self, _id: vstd::seq::Seq<u8>) -> bool {
        unreachable!()
    }

    fn is_parent(&self, parent_id: &[u8]) -> bool {
        self.val as u8 == parent_id[0]
    }
}

#[test]
fn test_tree_operations() {
    let mut root = TreeNode::new(Data::new(42, [0]));
    root.insert(Data::new(2, [42]));
    root.insert(Data::new(3, [42]));
    root.children_mut()[0].insert(Data::new(4, [2]));
    root.children_mut()[0].insert(Data::new(5, [2]));
    root.children_mut()[1].insert(Data::new(6, [3]));

    assert_eq!(
        root.look_for_parent(&[3]).unwrap().value(),
        &Data::new(3, [42])
    );

    root.remove(&Data::new(2, [42]));
    assert_eq!(root.children().len(), 1);
    assert_eq!(root.children()[0].value(), &Data::new(3, [42]));
}

#[test]
fn test_deepest_leafs() {
    let mut root = TreeNode::new(Data::new(1, [0]));
    root.insert(Data::new(2, [1]));
    root.insert(Data::new(3, [1]));

    root.children_mut()[0].insert(Data::new(4, [2]));
    root.children_mut()[0].children_mut()[0].insert(Data::new(5, [4]));

    root.children_mut()[1].insert(Data::new(6, [3]));
    root.children_mut()[1].children_mut()[0].insert(Data::new(7, [6]));

    let deepest = root.deepest_leafs();

    let expected_values = vec![Data::new(5, [4]), Data::new(7, [6])];

    assert_eq!(deepest.len(), 2);
    assert!(deepest.iter().any(|n| *n.value() == expected_values[0]));
    assert!(deepest.iter().any(|n| *n.value() == expected_values[1]));
}

#[test]
fn look_for_parent_is_depth_first_preorder() {
    // two nodes answer to id 9; the one met first in pre-order wins
    let mut root = TreeNode::new(Data::new(1, [0]));
    root.insert(Data::new(2, [1]));
    root.insert(Data::new(9, [1]));
    root.children_mut()[0].insert(Data::new(9, [2]));
    let found = root.look_for_parent(&[9]).unwrap();
    assert_eq!(found.value(), &Data::new(9, [2]));
    assert!(root.look_for_parent(&[77]).is_none());
    assert_eq!(root.look_for_parent(&[1]).unwrap().value(), &Data::new(1, [0]));
}

#[test]
fn look_for_parent_gives_a_node_to_grow() {
    let mut root = TreeNode::new(Data::new(1, [0]));
    root.insert(Data::new(2, [1]));
    root.look_for_parent(&[2]).unwrap().insert(Data::new(3, [2]));
    assert_eq!(root.children()[0].children().len(), 1);
    assert_eq!(root.children()[0].children()[0].value(), &Data::new(3, [2]));
}

#[test]
fn deepest_leafs_of_single_node_is_itself() {
    let root = TreeNode::new(Data::new(1, [0]));
    let deepest = root.deepest_leafs();
    assert_eq!(deepest.len(), 1);
    assert_eq!(deepest[0].value(), &Data::new(1, [0]));
}

#[test]
fn deepest_leafs_keep_depth_first_order() {
    let mut root = TreeNode::new(Data::new(1, [0]));
    root.insert(Data::new(2, [1]));
    root.insert(Data::new(3, [1]));
    root.insert(Data::new(4, [1]));
    root.children_mut()[2].insert(Data::new(5, [4]));
    root.children_mut()[0].insert(Data::new(6, [2]));
    let deepest = root.deepest_leafs();
    assert_eq!(deepest.len(), 2);
    assert_eq!(deepest[0].value(), &Data::new(6, [2]));
    assert_eq!(deepest[1].value(), &Data::new(5, [4]));
}

#[test]
fn remove_strips_matching_nodes_at_any_depth() {
    let mut root = TreeNode::new(Data::new(1, [0]));
    root.insert(Data::new(2, [1]));
    root.insert(Data::new(3, [1]));
    root.children_mut()[1].insert(Data::new(2, [1]));
    root.children_mut()[1].insert(Data::new(4, [3]));
    root.remove(&Data::new(2, [1]));
    assert_eq!(root.children().len(), 1);
    assert_eq!(root.children()[0].value(), &Data::new(3, [1]));
    assert_eq!(root.children()[0].children().len(), 1);
    assert_eq!(root.children()[0].children()[0].value(), &Data::new(4, [3]));
    // the root itself is never removed
    root.remove(&Data::new(1, [0]));
    assert_eq!(root.value(), &Data::new(1, [0]));
}
