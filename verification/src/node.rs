//! Nodes of a snapshot, and handles to them that outlive it.

use vstd::prelude::*;
use std::sync::Arc;
use crate::data::{NodeData, NodeId, Role};
use crate::model::{resolution, TreeView};
use crate::tree::{NodeState, ParentAndIndex, Reader, Tree};
use crate::weak_tree::{downgrade_tree, upgrade_tree, WeakTree};

verus! {

/// A node of a snapshot: a borrow of its state and of the reader it was
/// found through.
pub struct Node<'a> {
    pub tree_reader: &'a Reader<'a>,
    pub state: &'a NodeState,
}

impl<'a> Node<'a> {
    /// The snapshot this node belongs to.
    pub open spec fn tree(&self) -> TreeView {
        self.tree_reader@
    }

    /// The identifier in this node's record.
    pub open spec fn spec_id(&self) -> NodeId {
        self.state.data.id
    }

    /// The node is what its snapshot holds under its identifier.
    pub open spec fn wf(&self) -> bool {
        &&& self.tree().wf()
        &&& self.tree().contains(self.spec_id())
        &&& self.tree().nodes[self.spec_id()] == *self.state
    }

    /// Focus is on this node.
    pub open spec fn spec_is_focused(&self) -> bool {
        self.tree().focus == Some(self.spec_id())
    }

    /// Ignored by flag or by role.
    pub open spec fn spec_is_ignored(&self) -> bool {
        self.state.data.spec_is_ignored()
    }

    /// Hidden from assistive technology: invisible or ignored, and not the
    /// node that holds focus.
    pub open spec fn spec_is_invisible_or_ignored(&self) -> bool {
        (self.state.data.invisible || self.spec_is_ignored()) && !self.spec_is_focused()
    }

    /// The node that this node's parent link names, seen through the same
    /// reader.
    pub open spec fn spec_parent(&self) -> Option<Node<'a>> {
        match self.state.parent_id() {
            Some(p) => Some(node_in(self.tree_reader, p)),
            None => None,
        }
    }

    /// The nearest strict ancestor that is not ignored, seen through the same
    /// reader.
    pub open spec fn spec_unignored_parent(&self) -> Option<Node<'a>> {
        match self.tree().unignored_parent_id(self.spec_id()) {
            Some(p) => Some(node_in(self.tree_reader, p)),
            None => None,
        }
    }

    /// The record of this node.
    pub fn data(&self) -> (data: &NodeData)
        ensures
            *data == self.state.data,
    {
        &self.state.data
    }

    /// The identifier of this node.
    pub fn id(&self) -> (id: NodeId)
        ensures
            id == self.spec_id(),
    {
        self.data().id
    }

    /// The role of this node.
    pub fn role(&self) -> (role: Role)
        ensures
            role == self.state.data.role,
    {
        self.data().role
    }

    /// Whether this node is flagged as not shown on screen.
    pub fn is_invisible(&self) -> (invisible: bool)
        ensures
            invisible == self.state.data.invisible,
    {
        self.data().invisible
    }

    /// Whether this node is the one that holds focus in its snapshot.
    pub fn is_focused(&self) -> (focused: bool)
        ensures
            focused == self.spec_is_focused(),
    {
        match self.tree_reader.tree.focus() {
            Some(focus) => focus == self.id(),
            None => false,
        }
    }

    /// Whether this node is left out of the accessible tree: by its flag, or
    /// by the presentation role whatever the flag says.
    pub fn is_ignored(&self) -> (ignored: bool)
        ensures
            ignored == self.spec_is_ignored(),
            self.state.data.role == Role::Presentation ==> ignored,
    {
        self.data().ignored || self.role() == Role::Presentation
    }

    /// Whether this node is hidden from assistive technology. The node that
    /// holds focus never is, whatever its flags and role.
    pub fn is_invisible_or_ignored(&self) -> (hidden: bool)
        ensures
            hidden == self.spec_is_invisible_or_ignored(),
            self.spec_is_focused() ==> !hidden,
    {
        (self.is_invisible() || self.is_ignored()) && !self.is_focused()
    }

    /// The parent of this node; the root has none.
    pub fn parent(&self) -> (parent: Option<Node<'a>>)
        requires
            self.wf(),
        ensures
            parent == self.spec_parent(),
            parent matches Some(p) ==> p.wf(),
    {
        match self.state.parent_and_index {
            Some(ParentAndIndex(parent, _)) => {
                proof {
                    self.tree().lemma_parent_depth(self.spec_id());
                }
                self.tree_reader.node_by_id(parent)
            },
            None => None,
        }
    }

    /// The nearest ancestor that is not ignored: the walk goes up from the
    /// parent and passes over ignored nodes only. There is none where every
    /// node up to and including the root is ignored.
    pub fn unignored_parent(&self) -> (found: Option<Node<'a>>)
        requires
            self.wf(),
        ensures
            found == self.spec_unignored_parent(),
            found matches Some(p) ==> p.wf() && !p.spec_is_ignored() && self.tree().is_strict_ancestor(
                p.spec_id(),
                self.spec_id(),
            ),
            (forall|a: NodeId|
                self.tree().is_strict_ancestor(a, self.spec_id()) ==> self.tree().is_ignored(a))
                ==> found is None,
    {
        let ghost tree = self.tree();
        let ghost start = self.spec_id();
        let ghost mut height: nat = 1;
        let mut current = self.parent();
        proof {
            tree.lemma_ancestor_next(start, 0);
            if self.state.parent_id() is Some {
                tree.lemma_parent_depth(start);
            }
            tree.lemma_unignored_parent_is_unignored_ancestor(start);
            if forall|a: NodeId| tree.is_strict_ancestor(a, start) ==> tree.is_ignored(a) {
                tree.lemma_unignored_parent_none(start);
            }
        }
        loop
            invariant
                self.wf(),
                tree == self.tree(),
                start == self.spec_id(),
                height >= 1,
                forall|j: nat|
                    1 <= j < height ==> ((#[trigger] tree.ancestor(start, j)) matches Some(b)
                        && tree.is_ignored(b)),
                match current {
                    Some(node) => node.wf() && node.tree_reader == self.tree_reader
                        && tree.ancestor(start, height) == Some(node.spec_id()),
                    None => tree.ancestor(start, height) is None,
                },
            decreases
                match current {
                    Some(node) => tree.depth(node.spec_id()) + 1,
                    None => 0,
                },
        {
            match current {
                None => {
                    proof {
                        assert forall|k: nat| !tree.first_unignored_at(start, k) by {
                            if k >= height {
                                tree.lemma_ancestor_compose(start, height, (k - height) as nat);
                            }
                        }
                    }
                    return None;
                },
                Some(node) => {
                    if !node.is_ignored() {
                        proof {
                            tree.lemma_unignored_parent_found(start, height);
                        }
                        return Some(node);
                    }
                    proof {
                        tree.lemma_ancestor_next(start, height);
                        if node.state.parent_id() is Some {
                            tree.lemma_parent_depth(node.spec_id());
                        }
                        height = height + 1;
                    }
                    current = node.parent();
                },
            }
        }
    }

    /// A handle to this node that holds no share in the snapshot.
    pub fn downgrade(&self) -> (weak: WeakNode)
        ensures
            weak.id == self.spec_id(),
    {
        WeakNode { tree: downgrade_tree(self.tree_reader.tree), id: self.id() }
    }
}

/// A handle to a node, made of a weak reference to a snapshot and the node's
/// identifier. It can be kept for any length of time and never keeps a
/// snapshot alive.
pub struct WeakNode {
    pub tree: WeakTree,
    pub id: NodeId,
}

impl Clone for WeakNode {
    /// Another handle to the same node.
    fn clone(&self) -> (copy: Self)
        ensures
            copy.id == self.id,
    {
        WeakNode { tree: self.tree.clone(), id: self.id }
    }
}

/// The snapshot that `current` shares, as a mathematical value.
pub open spec fn current_view(current: Option<&Arc<Tree>>) -> Option<TreeView> {
    match current {
        Some(tree) => Some(tree@),
        None => None,
    }
}

/// The node that `reader` finds under `id`.
pub open spec fn node_in<'a>(reader: &'a Reader<'a>, id: NodeId) -> Node<'a> {
    Node { tree_reader: reader, state: &reader@.nodes[id] }
}

/// The node that a fresh reader on `tree` finds under `id`.
pub open spec fn node_of<'a>(tree: &'a Arc<Tree>, id: NodeId) -> Node<'a> {
    node_in(&Reader { tree }, id)
}

/// Looks `id` up in `current` and applies `f` to the node found.
///
/// The result is `None` when there is no snapshot or when the snapshot does
/// not hold `id`. Otherwise it is what `f` returns for the node that
/// `current` holds under `id`: the node as it is in this snapshot, whatever
/// an earlier snapshot held under the same identifier.
pub fn resolve<F, T>(current: Option<&Arc<Tree>>, id: NodeId, f: F) -> (resolved: Option<T>) where
    for <'a>F: FnOnce(&Node<'a>) -> T,

    requires
        resolution(current_view(current), id) is Some ==> call_requires(
            f,
            (&node_of(current.unwrap(), id),),
        ),
    ensures
        resolution(current_view(current), id) is None ==> resolved is None,
        resolution(current_view(current), id) is Some ==> (resolved matches Some(value)
            && call_ensures(f, (&node_of(current.unwrap(), id),), value)),
{
    match current {
        Some(tree) => {
            let reader = tree.read();
            match reader.node_by_id(id) {
                Some(node) => Some(f(&node)),
                None => None,
            }
        },
        None => None,
    }
}

impl WeakNode {
    /// Resolves the handle against the snapshot it refers to, if that still
    /// exists, and applies `f` to the node found there.
    ///
    /// Whether the snapshot still exists is not for this function to decide.
    /// When it does not, or holds no node with this identifier, the result is
    /// `None`; see [`resolve`], which does the rest for every outcome.
    pub fn map<F, T>(&self, f: F) -> (resolved: Option<T>) where
        for <'a>F: FnOnce(&Node<'a>) -> T,

        requires
            forall|node: Node|
                node.wf() && node.spec_id() == self.id ==> #[trigger] call_requires(f, (&node,)),
        ensures
            resolved matches Some(value) ==> exists|node: Node|
                node.wf() && node.spec_id() == self.id && #[trigger] call_ensures(
                    f,
                    (&node,),
                    value,
                ),
    {
        let upgraded = upgrade_tree(&self.tree);
        match upgraded {
            Some(tree) => {
                proof {
                    use_type_invariant(&*tree);
                    if tree@.contains(self.id) {
                        lemma_node_of_wf(&tree, self.id);
                    }
                }
                resolve(Some(&tree), self.id, f)
            },
            None => None,
        }
    }
}

/// The node that a consistent snapshot holds under one of its identifiers is
/// well formed and bears that identifier.
pub proof fn lemma_node_of_wf(tree: &Arc<Tree>, id: NodeId)
    requires
        tree@.wf(),
        tree@.contains(id),
    ensures
        node_of(tree, id).wf(),
        node_of(tree, id).spec_id() == id,
{
}

} // verus!
