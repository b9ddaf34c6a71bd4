//! The tree snapshot and the view through which its nodes are read.

use vstd::prelude::*;
use std::collections::HashMap;
use std::sync::Arc;
use crate::data::{NodeData, NodeId};
use crate::model::{distinct_ids, index_by_id, lemma_index_by_id, snapshot_of, TreeView};
use crate::node::Node;

verus! {

/// Where a node hangs in the tree: its parent's identifier and its position
/// among that parent's children.
#[derive(Clone, Copy, Debug, PartialEq, Eq, Structural)]
pub struct ParentAndIndex(pub NodeId, pub usize);

/// A node's record together with its link to its parent; the root has no
/// such link.
#[derive(Clone, Copy, Debug, PartialEq, Eq, Structural)]
pub struct NodeState {
    pub data: NodeData,
    pub parent_and_index: Option<ParentAndIndex>,
}

impl NodeState {
    /// The identifier of the parent, if there is one.
    pub open spec fn parent_id(self) -> Option<NodeId> {
        match self.parent_and_index {
            Some(link) => Some(link.0),
            None => None,
        }
    }
}

/// One immutable snapshot of the whole tree. Every value of this type is
/// consistent in the sense of [`TreeView::wf`].
pub struct Tree {
    nodes: HashMap<u64, NodeState>,
    root: NodeId,
    focus: Option<NodeId>,
}

impl View for Tree {
    type V = TreeView;

    closed spec fn view(&self) -> TreeView {
        TreeView { nodes: by_identifier(self.nodes@), root: self.root, focus: self.focus }
    }
}

/// The table's states, each under the identifier whose number it is filed
/// under.
spec fn by_identifier(table: Map<u64, NodeState>) -> Map<NodeId, NodeState> {
    Map::new(|id: NodeId| table.contains_key(id.0), |id: NodeId| table[id.0])
}

/// The table holds under each identifier's number what `nodes` holds under
/// the identifier, and nothing else.
spec fn mirrors(table: Map<u64, NodeState>, nodes: Map<NodeId, NodeState>) -> bool {
    forall|id: NodeId|
        #![trigger nodes.contains_key(id)]
        #![trigger table.contains_key(id.0)]
        table.contains_key(id.0) == nodes.contains_key(id) && (nodes.contains_key(id) ==> table[id.0]
            == nodes[id])
}

/// Files the states under the numbers of their identifiers; `None` where two
/// states bear one identifier.
fn index_states(states: &Vec<NodeState>) -> (table: Option<HashMap<u64, NodeState>>)
    ensures
        match table {
            Some(table) => distinct_ids(states@) && mirrors(table@, index_by_id(states@)),
            None => !distinct_ids(states@),
        },
{
    let mut table: HashMap<u64, NodeState> = HashMap::new();
    let mut filed: usize = 0;
    while filed < states.len()
        invariant
            filed <= states.len(),
            distinct_ids(states@.take(filed as int)),
            mirrors(table@, index_by_id(states@.take(filed as int))),
        decreases states.len() - filed,
    {
        let state = states[filed];
        let ghost before = states@.take(filed as int);
        let ghost after = states@.take(filed + 1);
        proof {
            lemma_index_by_id(before);
            assert(after.drop_last() =~= before);
            assert(after.last() == state);
        }
        if table.contains_key(&state.data.id.0) {
            proof {
                assert(index_by_id(before).contains_key(state.data.id));
                let earlier = choose|i: int|
                    0 <= i < before.len() && (#[trigger] before[i]).data.id == state.data.id;
                assert(states@[earlier].data.id == states@[filed as int].data.id);
            }
            return None;
        }
        table.insert(state.data.id.0, state);
        proof {
            assert forall|i: int, j: int| 0 <= i < j < after.len() implies (#[trigger] after[i]).data.id
                != (#[trigger] after[j]).data.id by {
                if j < filed {
                    assert(before[i].data.id != before[j].data.id);
                } else {
                    assert(before[i].data.id == after[i].data.id);
                }
            }
        }
        filed += 1;
    }
    proof {
        assert(states@.take(filed as int) =~= states@);
    }
    Some(table)
}

/// Follows the parent links from `start` and says whether they lead to
/// `root`. A chain that leaves the table, ends at another node, or has as
/// many links as the table has room for does not.
fn reaches_root(
    table: &HashMap<u64, NodeState>,
    start: NodeId,
    root: NodeId,
    limit: usize,
    Ghost(tree): Ghost<TreeView>,
) -> (reached: bool)
    requires
        mirrors(table@, tree.nodes),
        tree.nodes.dom().finite(),
        tree.nodes.dom().len() <= limit,
        tree.root == root,
        tree.parent_id(root) is None,
        tree.contains(start),
    ensures
        reached == tree.rooted(start),
{
    let mut current = start;
    let mut links: usize = 0;
    while links < limit
        invariant
            links <= limit,
            mirrors(table@, tree.nodes),
            tree.root == root,
            tree.parent_id(root) is None,
            tree.ancestor(start, links as nat) == Some(current),
            forall|k: nat| k < links ==> #[trigger] tree.ancestor(start, k) != Some(root),
        decreases limit - links,
    {
        if current == root {
            return true;
        }
        proof {
            tree.lemma_ancestor_contained(start, links as nat);
            tree.lemma_ancestor_next(start, links as nat);
            // Once the chain has ended, it has ended for every greater height.
            assert forall|k: nat|
                k > links && tree.ancestor(start, (links + 1) as nat) is None implies (#[trigger] tree.ancestor(
                start,
                k,
            )) is None by {
                tree.lemma_ancestor_compose(start, (links + 1) as nat, (k - links - 1) as nat);
            }
        }
        match table.get(&current.0) {
            Some(state) => {
                match state.parent_and_index {
                    Some(ParentAndIndex(parent, _)) => {
                        if !table.contains_key(&parent.0) {
                            return false;
                        }
                        current = parent;
                        links += 1;
                    },
                    None => {
                        return false;
                    },
                }
            },
            None => {
                return false;
            },
        }
    }
    proof {
        if tree.rooted(start) {
            tree.lemma_depth_bound(start, tree.depth(start));
        }
    }
    false
}

impl Tree {
    /// Holds of every snapshot there is.
    #[verifier::type_invariant]
    pub open spec fn consistent(&self) -> bool {
        self@.wf()
    }

    /// The snapshot made of `states`, with the given root and focus.
    ///
    /// There is one exactly when no two states bear the same identifier and
    /// the snapshot they make is consistent: the root is among them and has
    /// no parent, focus (if set) is on one of them, and from each of them the
    /// parent links lead to the root.
    pub fn new(states: Vec<NodeState>, root: NodeId, focus: Option<NodeId>) -> (built: Option<Tree>)
        ensures
            built is Some <==> distinct_ids(states@) && snapshot_of(states@, root, focus).wf(),
            built matches Some(tree) ==> tree@ == snapshot_of(states@, root, focus),
            built matches Some(tree) ==> forall|i: int|
                0 <= i < states.len() ==> tree@.lookup((#[trigger] states[i]).data.id) == Some(
                    states[i],
                ),
    {
        let ghost tree = snapshot_of(states@, root, focus);
        proof {
            lemma_index_by_id(states@);
        }
        let table = match index_states(&states) {
            Some(table) => table,
            None => {
                return None;
            },
        };
        match table.get(&root.0) {
            Some(state) => {
                if state.parent_and_index.is_some() {
                    return None;
                }
            },
            None => {
                return None;
            },
        }
        if let Some(focused) = focus {
            if !table.contains_key(&focused.0) {
                return None;
            }
        }
        let mut walked: usize = 0;
        while walked < states.len()
            invariant
                walked <= states.len(),
                tree == snapshot_of(states@, root, focus),
                mirrors(table@, tree.nodes),
                tree.nodes.dom().finite(),
                tree.nodes.dom().len() <= states.len(),
                tree.parent_id(root) is None,
                forall|i: int| 0 <= i < states.len() ==> tree.contains((#[trigger] states[i]).data.id),
                forall|i: int| 0 <= i < walked ==> tree.rooted((#[trigger] states[i]).data.id),
            decreases states.len() - walked,
        {
            if !reaches_root(&table, states[walked].data.id, root, states.len(), Ghost(tree)) {
                return None;
            }
            walked += 1;
        }
        proof {
            assert forall|id: NodeId| #[trigger] tree.contains(id) implies tree.rooted(id) by {
                let i = choose|i: int| 0 <= i < states.len() && (#[trigger] states[i]).data.id == id;
                assert(tree.rooted(states[i].data.id));
            }
            assert(tree.wf());
        }
        proof {
            assert(by_identifier(table@) =~= tree.nodes);
        }
        Some(Tree { nodes: table, root, focus })
    }

    /// The identifier of the root.
    pub fn root(&self) -> (root: NodeId)
        ensures
            root == self@.root,
    {
        self.root
    }

    /// The node that holds focus, if any.
    pub fn focus(&self) -> (focus: Option<NodeId>)
        ensures
            focus == self@.focus,
    {
        self.focus
    }

    /// A reader over this snapshot.
    pub fn read<'a>(self: &'a Arc<Tree>) -> (reader: Reader<'a>)
        ensures
            reader.tree == self,
            reader@.wf(),
    {
        proof {
            use_type_invariant(&**self);
        }
        Reader { tree: self }
    }
}

/// A view bound to one snapshot, through which identifiers resolve to nodes.
pub struct Reader<'a> {
    pub tree: &'a Arc<Tree>,
}

impl<'a> View for Reader<'a> {
    type V = TreeView;

    open spec fn view(&self) -> TreeView {
        self.tree@
    }
}

impl<'a> Reader<'a> {
    /// The node with identifier `id`, if the snapshot holds one.
    pub fn node_by_id(&self, id: NodeId) -> (found: Option<Node<'_>>)
        ensures
            match found {
                Some(node) => self@.contains(id) && node.tree_reader == self && *node.state
                    == self@.nodes[id] && node.wf(),
                None => !self@.contains(id),
            },
    {
        proof {
            use_type_invariant(&**self.tree);
        }
        match self.tree.nodes.get(&id.0) {
            Some(state) => {
                assert(self@.contains(id));
                Some(Node { tree_reader: self, state })
            },
            None => None,
        }
    }
}

} // verus!
