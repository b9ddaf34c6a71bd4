use accesskit_consumer::{NodeData, NodeId, NodeState, ParentAndIndex, Role, Tree};
use std::sync::Arc;

fn plain(id: u64, parent: Option<u64>) -> NodeState {
    NodeState {
        data: NodeData { id: NodeId(id), role: Role::Group, ignored: false, invisible: false },
        parent_and_index: parent.map(|p| ParentAndIndex(NodeId(p), 0)),
    }
}

#[test]
fn new_accepts_a_consistent_tree() {
    let states = vec![plain(1, None), plain(2, Some(1)), plain(3, Some(1)), plain(4, Some(3))];
    let tree = Tree::new(states.clone(), NodeId(1), Some(NodeId(4))).unwrap();
    assert_eq!(tree.focus(), Some(NodeId(4)));
    let tree = Arc::new(tree);
    let reader = tree.read();
    for state in states {
        let node = reader.node_by_id(state.data.id).unwrap();
        assert_eq!(*node.state, state);
    }
}

#[test]
fn new_accepts_a_single_root() {
    let tree = Tree::new(vec![plain(10, None)], NodeId(10), None).unwrap();
    assert_eq!(tree.focus(), None);
}

#[test]
fn new_accepts_states_in_any_order() {
    let states = vec![plain(3, Some(2)), plain(1, None), plain(2, Some(1))];
    assert!(Tree::new(states, NodeId(1), None).is_some());
}

#[test]
fn new_rejects_no_states() {
    assert!(Tree::new(vec![], NodeId(1), None).is_none());
}

#[test]
fn new_rejects_a_repeated_identifier() {
    let states = vec![plain(1, None), plain(2, Some(1)), plain(2, Some(1))];
    assert!(Tree::new(states, NodeId(1), None).is_none());
}

#[test]
fn new_rejects_a_missing_root() {
    let states = vec![plain(1, None), plain(2, Some(1))];
    assert!(Tree::new(states, NodeId(5), None).is_none());
}

#[test]
fn new_rejects_a_root_with_a_parent() {
    let states = vec![plain(1, None), plain(2, Some(1))];
    assert!(Tree::new(states, NodeId(2), None).is_none());
}

#[test]
fn new_rejects_focus_on_a_missing_node() {
    let states = vec![plain(1, None), plain(2, Some(1))];
    assert!(Tree::new(states.clone(), NodeId(1), Some(NodeId(3))).is_none());
    assert!(Tree::new(states, NodeId(1), Some(NodeId(2))).is_some());
}

#[test]
fn new_rejects_a_dangling_parent() {
    let states = vec![plain(1, None), plain(2, Some(9))];
    assert!(Tree::new(states, NodeId(1), None).is_none());
}

#[test]
fn new_rejects_a_cycle() {
    let states = vec![plain(1, None), plain(2, Some(3)), plain(3, Some(2))];
    assert!(Tree::new(states, NodeId(1), None).is_none());
    let own_parent = vec![plain(1, None), plain(2, Some(2))];
    assert!(Tree::new(own_parent, NodeId(1), None).is_none());
}

#[test]
fn new_rejects_a_second_top_node() {
    let states = vec![plain(1, None), plain(2, None), plain(3, Some(2))];
    assert!(Tree::new(states, NodeId(1), None).is_none());
}

#[test]
fn new_accepts_a_chain_as_long_as_the_tree() {
    let mut states = Vec::new();
    for id in (2..=64u64).rev() {
        states.push(plain(id, Some(id - 1)));
    }
    states.push(plain(1, None));
    assert!(Tree::new(states, NodeId(1), None).is_some());
}

#[test]
fn root_and_focus_are_as_given() {
    let states = vec![plain(8, Some(5)), plain(5, None)];
    let tree = Tree::new(states, NodeId(5), Some(NodeId(8))).unwrap();
    assert_eq!(tree.root(), NodeId(5));
    assert_eq!(tree.focus(), Some(NodeId(8)));
    let tree = Arc::new(tree);
    let reader = tree.read();
    let root = reader.node_by_id(tree.root()).unwrap();
    assert!(root.parent().is_none());
    assert!(!root.is_focused());
    assert!(reader.node_by_id(NodeId(8)).unwrap().is_focused());
}
