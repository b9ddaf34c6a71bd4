use accesskit_consumer::{Node, NodeData, NodeId, NodeState, ParentAndIndex, Role, Tree};
use std::sync::Arc;

fn state(id: u64, role: Role, ignored: bool, invisible: bool, parent: Option<u64>) -> NodeState {
    NodeState {
        data: NodeData { id: NodeId(id), role, ignored, invisible },
        parent_and_index: parent.map(|p| ParentAndIndex(NodeId(p), 0)),
    }
}

const R: u64 = 1;
const C1: u64 = 2;
const C2: u64 = 3;

/// Root R, its child C1 with the presentation role, and C2 below C1.
fn layout_tree(focus: Option<u64>) -> Arc<Tree> {
    let states = vec![
        state(R, Role::Window, false, false, None),
        state(C1, Role::Presentation, false, false, Some(R)),
        state(C2, Role::Button, false, false, Some(C1)),
    ];
    Arc::new(Tree::new(states, NodeId(R), focus.map(NodeId)).unwrap())
}

fn id_of(node: Option<Node<'_>>) -> Option<NodeId> {
    node.map(|n| n.id())
}

#[test]
fn unignored_parent_skips_presentation_node() {
    let tree = layout_tree(None);
    let reader = tree.read();
    let c2 = reader.node_by_id(NodeId(C2)).unwrap();
    assert_eq!(id_of(c2.unignored_parent()), Some(NodeId(R)));
    assert_eq!(id_of(c2.parent()), Some(NodeId(C1)));
    let c1 = reader.node_by_id(NodeId(C1)).unwrap();
    assert!(c1.is_ignored());
    assert!(!c2.is_ignored());
    assert!(!c2.is_invisible_or_ignored());
}

#[test]
fn focus_overrides_presentation_role() {
    let tree = layout_tree(Some(C1));
    let reader = tree.read();
    let c1 = reader.node_by_id(NodeId(C1)).unwrap();
    assert!(c1.is_focused());
    assert!(c1.is_ignored());
    assert!(!c1.is_invisible_or_ignored());
    let c2 = reader.node_by_id(NodeId(C2)).unwrap();
    assert!(!c2.is_focused());
    // Focus does not change what the walk passes over.
    assert_eq!(id_of(c2.unignored_parent()), Some(NodeId(R)));
}

#[test]
fn unfocused_presentation_node_is_hidden() {
    let tree = layout_tree(None);
    let reader = tree.read();
    let c1 = reader.node_by_id(NodeId(C1)).unwrap();
    assert!(!c1.is_focused());
    assert!(c1.is_invisible_or_ignored());
}

#[test]
fn focused_node_is_never_hidden_whatever_its_flags() {
    for (ignored, invisible, role) in [
        (true, true, Role::Presentation),
        (true, false, Role::Button),
        (false, true, Role::Button),
        (false, false, Role::Presentation),
        (false, false, Role::Button),
    ] {
        let states = vec![
            state(1, Role::Window, false, false, None),
            state(2, role, ignored, invisible, Some(1)),
        ];
        let tree = Arc::new(Tree::new(states, NodeId(1), Some(NodeId(2))).unwrap());
        let reader = tree.read();
        let node = reader.node_by_id(NodeId(2)).unwrap();
        assert!(node.is_focused());
        assert!(!node.is_invisible_or_ignored());
    }
}

#[test]
fn hidden_is_invisible_or_ignored_and_not_focused() {
    for ignored in [false, true] {
        for invisible in [false, true] {
            for presentation in [false, true] {
                for focused in [false, true] {
                    let role = if presentation { Role::Presentation } else { Role::Group };
                    let states = vec![
                        state(1, Role::Window, false, false, None),
                        state(2, role, ignored, invisible, Some(1)),
                    ];
                    let focus = if focused { Some(NodeId(2)) } else { Some(NodeId(1)) };
                    let tree = Arc::new(Tree::new(states, NodeId(1), focus).unwrap());
                    let reader = tree.read();
                    let node = reader.node_by_id(NodeId(2)).unwrap();
                    assert_eq!(node.is_invisible(), invisible);
                    assert_eq!(node.is_focused(), focused);
                    assert_eq!(node.is_ignored(), ignored || presentation);
                    assert_eq!(
                        node.is_invisible_or_ignored(),
                        (invisible || ignored || presentation) && !focused
                    );
                }
            }
        }
    }
}

#[test]
fn presentation_role_is_ignored_whatever_the_flag() {
    for ignored in [false, true] {
        let states = vec![
            state(1, Role::Window, false, false, None),
            state(2, Role::Presentation, ignored, false, Some(1)),
        ];
        let tree = Arc::new(Tree::new(states, NodeId(1), None).unwrap());
        let reader = tree.read();
        assert!(reader.node_by_id(NodeId(2)).unwrap().is_ignored());
    }
}

#[test]
fn ignored_flag_alone_makes_a_node_ignored() {
    let states = vec![
        state(1, Role::Window, false, false, None),
        state(2, Role::Button, true, false, Some(1)),
        state(3, Role::Button, false, true, Some(1)),
    ];
    let tree = Arc::new(Tree::new(states, NodeId(1), None).unwrap());
    let reader = tree.read();
    assert!(reader.node_by_id(NodeId(2)).unwrap().is_ignored());
    // Invisible is not ignored.
    let invisible = reader.node_by_id(NodeId(3)).unwrap();
    assert!(!invisible.is_ignored());
    assert!(invisible.is_invisible());
    assert!(invisible.is_invisible_or_ignored());
}

#[test]
fn unignored_parent_is_none_when_every_ancestor_is_ignored() {
    let states = vec![
        state(1, Role::Presentation, false, false, None),
        state(2, Role::Group, true, false, Some(1)),
        state(3, Role::Presentation, true, false, Some(2)),
        state(4, Role::Button, false, false, Some(3)),
    ];
    let tree = Arc::new(Tree::new(states, NodeId(1), None).unwrap());
    let reader = tree.read();
    for id in [1, 2, 3, 4] {
        let node = reader.node_by_id(NodeId(id)).unwrap();
        assert!(node.unignored_parent().is_none());
    }
}

#[test]
fn unignored_parent_is_the_parent_when_it_is_not_ignored() {
    let states = vec![
        state(1, Role::Window, false, false, None),
        state(2, Role::Group, false, true, Some(1)),
        state(3, Role::Button, true, false, Some(2)),
    ];
    let tree = Arc::new(Tree::new(states, NodeId(1), None).unwrap());
    let reader = tree.read();
    // An invisible parent is not passed over, and the start's own flag plays no part.
    let node = reader.node_by_id(NodeId(3)).unwrap();
    assert_eq!(id_of(node.unignored_parent()), Some(NodeId(2)));
    let parent = reader.node_by_id(NodeId(2)).unwrap();
    assert_eq!(id_of(parent.unignored_parent()), Some(NodeId(1)));
}

#[test]
fn unignored_parent_is_a_strict_ancestor_that_is_not_ignored() {
    // 1 <- 2 (ignored) <- 3 <- 4 (presentation) <- 5 (ignored) <- 6
    let states = vec![
        state(6, Role::StaticText, false, false, Some(5)),
        state(5, Role::Group, true, false, Some(4)),
        state(4, Role::Presentation, false, false, Some(3)),
        state(3, Role::List, false, false, Some(2)),
        state(2, Role::Group, true, false, Some(1)),
        state(1, Role::Window, false, false, None),
    ];
    let tree = Arc::new(Tree::new(states, NodeId(1), None).unwrap());
    let reader = tree.read();
    let expected = [(6, Some(3)), (5, Some(3)), (4, Some(3)), (3, Some(1)), (2, Some(1)), (1, None)];
    for (id, wanted) in expected {
        let node = reader.node_by_id(NodeId(id)).unwrap();
        let found = node.unignored_parent();
        assert_eq!(id_of(node.unignored_parent()), wanted.map(NodeId));
        if let Some(found) = found {
            assert!(!found.is_ignored());
            assert_ne!(found.id(), node.id());
            // Walking the parents from the start reaches what was found.
            let mut above = node.parent();
            let mut met = false;
            while let Some(p) = above {
                if p.id() == found.id() {
                    met = true;
                    break;
                }
                assert!(p.is_ignored());
                above = p.parent();
            }
            assert!(met);
        }
    }
}

#[test]
fn unignored_parent_of_root_is_none() {
    let tree = layout_tree(None);
    let reader = tree.read();
    let root = reader.node_by_id(NodeId(R)).unwrap();
    assert!(root.parent().is_none());
    assert!(root.unignored_parent().is_none());
}

#[test]
fn parent_follows_the_link() {
    let tree = layout_tree(None);
    let reader = tree.read();
    let c2 = reader.node_by_id(NodeId(C2)).unwrap();
    let c1 = c2.parent().unwrap();
    assert_eq!(c1.id(), NodeId(C1));
    assert_eq!(c1.role(), Role::Presentation);
    let r = c1.parent().unwrap();
    assert_eq!(r.id(), NodeId(R));
    assert!(r.parent().is_none());
}

#[test]
fn getters_project_the_record() {
    let record = NodeData { id: NodeId(7), role: Role::CheckBox, ignored: true, invisible: true };
    let states = vec![
        state(1, Role::Window, false, false, None),
        NodeState { data: record, parent_and_index: Some(ParentAndIndex(NodeId(1), 4)) },
    ];
    let tree = Arc::new(Tree::new(states, NodeId(1), None).unwrap());
    let reader = tree.read();
    let node = reader.node_by_id(NodeId(7)).unwrap();
    assert_eq!(*node.data(), record);
    assert_eq!(node.id(), NodeId(7));
    assert_eq!(node.role(), Role::CheckBox);
    assert!(node.is_invisible());
    assert!(node.is_ignored());
    assert_eq!(node.state.parent_and_index, Some(ParentAndIndex(NodeId(1), 4)));
}

#[test]
fn node_by_id_is_none_for_an_unknown_identifier() {
    let tree = layout_tree(None);
    let reader = tree.read();
    assert!(reader.node_by_id(NodeId(99)).is_none());
    assert!(reader.node_by_id(NodeId(0)).is_none());
    assert!(reader.node_by_id(NodeId(C2)).is_some());
}

#[test]
fn long_chain_of_ignored_nodes_is_walked_to_the_top() {
    let depth: u64 = 5000;
    let mut states = vec![state(1, Role::Window, false, false, None)];
    for id in 2..=depth {
        states.push(state(id, Role::Group, true, false, Some(id - 1)));
    }
    let tree = Arc::new(Tree::new(states, NodeId(1), None).unwrap());
    let reader = tree.read();
    let leaf = reader.node_by_id(NodeId(depth)).unwrap();
    assert_eq!(id_of(leaf.unignored_parent()), Some(NodeId(1)));
}
