//! The mathematical model of a tree snapshot, and what follows from its
//! consistency.

use vstd::prelude::*;
use vstd::relations::injective_on;
use vstd::set_lib::{lemma_int_range, lemma_len_subset, lemma_map_size, set_int_range};
use crate::data::NodeId;
use crate::tree::NodeState;

verus! {

/// A tree snapshot as a mathematical value: the nodes by identifier, the
/// root, and the node that holds focus, if any.
pub struct TreeView {
    pub nodes: Map<NodeId, NodeState>,
    pub root: NodeId,
    pub focus: Option<NodeId>,
}

impl TreeView {
    /// The snapshot holds a node under `id`.
    pub open spec fn contains(self, id: NodeId) -> bool {
        self.nodes.contains_key(id)
    }

    /// The state stored under `id`, if any.
    pub open spec fn lookup(self, id: NodeId) -> Option<NodeState> {
        if self.contains(id) {
            Some(self.nodes[id])
        } else {
            None
        }
    }

    /// The parent of `id`, as its state names it.
    pub open spec fn parent_id(self, id: NodeId) -> Option<NodeId> {
        self.nodes[id].parent_id()
    }

    /// The node under `id` is left out of the accessible tree.
    pub open spec fn is_ignored(self, id: NodeId) -> bool {
        self.nodes[id].data.spec_is_ignored()
    }

    /// The node reached from `id` by following `k` parent links: `id` itself
    /// for `k == 0`. There is none where the chain is shorter than `k` or
    /// leaves the tree.
    pub open spec fn ancestor(self, id: NodeId, k: nat) -> Option<NodeId>
        decreases k,
    {
        if !self.contains(id) {
            None
        } else if k == 0 {
            Some(id)
        } else {
            match self.parent_id(id) {
                Some(p) => self.ancestor(p, (k - 1) as nat),
                None => None,
            }
        }
    }

    /// The parent chain of `id` ends at the root.
    pub open spec fn rooted(self, id: NodeId) -> bool {
        exists|k: nat| self.ancestor(id, k) == Some(self.root)
    }

    /// The number of parent links between `id` and the root.
    pub open spec fn depth(self, id: NodeId) -> nat {
        choose|k: nat| self.ancestor(id, k) == Some(self.root)
    }

    /// `a` is reached from `id` by one or more parent links.
    pub open spec fn is_strict_ancestor(self, a: NodeId, id: NodeId) -> bool {
        exists|k: nat| k >= 1 && self.ancestor(id, k) == Some(a)
    }

    /// Consistency of a snapshot: finitely many nodes, each stored under its
    /// own identifier; a root without a parent; focus, if set, on a node of
    /// the tree; and every node's parent chain ends at the root, so the
    /// chains are finite, free of cycles, and never leave the tree.
    pub open spec fn wf(self) -> bool {
        &&& self.nodes.dom().finite()
        &&& forall|id: NodeId| #[trigger] self.contains(id) ==> self.nodes[id].data.id == id
        &&& self.contains(self.root)
        &&& self.parent_id(self.root) is None
        &&& self.focus matches Some(f) ==> self.contains(f)
        &&& forall|id: NodeId| #[trigger] self.contains(id) ==> self.rooted(id)
    }

    /// `k` links above `id`, and no nearer, stands a node that is not
    /// ignored.
    pub open spec fn first_unignored_at(self, id: NodeId, k: nat) -> bool {
        &&& k >= 1
        &&& self.ancestor(id, k) matches Some(a) && !self.is_ignored(a)
        &&& forall|j: nat|
            1 <= j < k ==> ((#[trigger] self.ancestor(id, j)) matches Some(b) && self.is_ignored(b))
    }

    /// The nearest strict ancestor of `id` that is not ignored, if there is
    /// one.
    pub open spec fn unignored_parent_id(self, id: NodeId) -> Option<NodeId> {
        if exists|k: nat| self.first_unignored_at(id, k) {
            self.ancestor(id, choose|k: nat| self.first_unignored_at(id, k))
        } else {
            None
        }
    }

    /// Following `a` links and then `b` more is following `a + b` links.
    pub proof fn lemma_ancestor_compose(self, id: NodeId, a: nat, b: nat)
        ensures
            self.ancestor(id, a + b) == match self.ancestor(id, a) {
                Some(m) => self.ancestor(m, b),
                None => None,
            },
        decreases a,
    {
        if self.contains(id) && a > 0 {
            if let Some(p) = self.parent_id(id) {
                self.lemma_ancestor_compose(p, (a - 1) as nat, b);
                assert((a + b - 1) as nat == (a - 1) as nat + b);
            }
        }
    }

    /// Every ancestor is a node of the tree.
    pub proof fn lemma_ancestor_contained(self, id: NodeId, k: nat)
        ensures
            self.ancestor(id, k) matches Some(a) ==> self.contains(a) && self.contains(id),
        decreases k,
    {
        if self.contains(id) && k > 0 {
            if let Some(p) = self.parent_id(id) {
                self.lemma_ancestor_contained(p, (k - 1) as nat);
            }
        }
    }

    /// One more link from the `k`-th ancestor gives the `k + 1`-th.
    pub proof fn lemma_ancestor_next(self, id: NodeId, k: nat)
        ensures
            self.ancestor(id, k + 1) == match self.ancestor(id, k) {
                Some(m) => match self.parent_id(m) {
                    Some(p) => if self.contains(p) { Some(p) } else { None },
                    None => None,
                },
                None => None,
            },
    {
        self.lemma_ancestor_compose(id, k, 1);
        if let Some(m) = self.ancestor(id, k) {
            self.lemma_ancestor_contained(id, k);
            reveal_with_fuel(TreeView::ancestor, 2);
        }
    }

    /// Nothing lies above a root without a parent.
    pub proof fn lemma_root_is_top(self, k: nat)
        requires
            self.parent_id(self.root) is None,
            k >= 1,
        ensures
            self.ancestor(self.root, k) is None,
    {
    }

    /// Where the root has no parent, it is reached from a node after one
    /// number of links only.
    pub proof fn lemma_root_reached_once(self, id: NodeId, j: nat, k: nat)
        requires
            self.parent_id(self.root) is None,
            self.ancestor(id, j) == Some(self.root),
            self.ancestor(id, k) == Some(self.root),
        ensures
            j == k,
    {
        if j < k {
            self.lemma_ancestor_compose(id, j, (k - j) as nat);
            self.lemma_root_is_top((k - j) as nat);
        } else if k < j {
            self.lemma_ancestor_compose(id, k, (j - k) as nat);
            self.lemma_root_is_top((j - k) as nat);
        }
    }

    /// The depth of a node is the one number of links after which its chain
    /// reaches the root.
    pub proof fn lemma_depth_unique(self, id: NodeId, k: nat)
        requires
            self.parent_id(self.root) is None,
            self.ancestor(id, k) == Some(self.root),
        ensures
            self.depth(id) == k,
    {
        self.lemma_root_reached_once(id, self.depth(id), k);
    }

    /// A chain that ends at a root without a parent passes through no node
    /// twice, so it has fewer links than the tree has nodes.
    pub proof fn lemma_depth_bound(self, id: NodeId, k: nat)
        requires
            self.nodes.dom().finite(),
            self.parent_id(self.root) is None,
            self.ancestor(id, k) == Some(self.root),
        ensures
            k < self.nodes.dom().len(),
    {
        let heights = set_int_range(0, k as int + 1);
        let at = |i: int| self.ancestor(id, i as nat).unwrap();
        let chain = heights.map(at);
        lemma_int_range(0, k as int + 1);
        assert forall|i: int| heights.contains(i) implies (#[trigger] self.ancestor(id, i as nat))
            is Some && self.ancestor(at(i), (k - i) as nat) == Some(self.root) by {
            self.lemma_ancestor_compose(id, i as nat, (k - i) as nat);
        }
        assert(injective_on(at, heights)) by {
            assert forall|i: int, j: int|
                heights.contains(i) && heights.contains(j) && #[trigger] at(i) == #[trigger] at(
                    j,
                ) implies i == j by {
                assert(self.ancestor(id, i as nat) is Some);
                assert(self.ancestor(id, j as nat) is Some);
                self.lemma_root_reached_once(at(i), (k - i) as nat, (k - j) as nat);
            }
        }
        lemma_map_size(heights, chain, at);
        assert(chain.subset_of(self.nodes.dom())) by {
            assert forall|a: NodeId| chain.contains(a) implies self.nodes.dom().contains(a) by {
                let i = choose|i: int| heights.contains(i) && at(i) == a;
                assert(self.ancestor(id, i as nat) is Some);
                self.lemma_ancestor_contained(id, i as nat);
            }
        }
        lemma_len_subset(chain, self.nodes.dom());
    }

    /// In a consistent tree the parent of a node is a node of the tree, one
    /// link nearer to the root.
    pub proof fn lemma_parent_depth(self, id: NodeId)
        requires
            self.wf(),
            self.contains(id),
            self.parent_id(id) is Some,
        ensures
            self.contains(self.parent_id(id).unwrap()),
            self.depth(self.parent_id(id).unwrap()) + 1 == self.depth(id),
    {
        let p = self.parent_id(id).unwrap();
        let d = self.depth(id);
        assert(self.rooted(id));
        assert(self.ancestor(id, d) == Some(self.root));
        assert(d > 0);
        assert(self.ancestor(p, (d - 1) as nat) == Some(self.root));
        self.lemma_ancestor_contained(p, (d - 1) as nat);
        self.lemma_depth_unique(p, (d - 1) as nat);
    }

    /// The nearest unignored ancestor is the one found at the first height
    /// where an unignored node stands.
    pub proof fn lemma_unignored_parent_found(self, id: NodeId, k: nat)
        requires
            self.first_unignored_at(id, k),
        ensures
            self.unignored_parent_id(id) == self.ancestor(id, k),
    {
        let c = choose|c: nat| self.first_unignored_at(id, c);
        if c < k {
            assert(self.ancestor(id, c) is Some);
        } else if k < c {
            assert(self.ancestor(id, k) is Some);
        }
    }

    /// What `unignored_parent_id` names is a node of the tree, not ignored,
    /// and strictly above `id`.
    pub proof fn lemma_unignored_parent_is_unignored_ancestor(self, id: NodeId)
        ensures
            self.unignored_parent_id(id) matches Some(p) ==> self.contains(p) && !self.is_ignored(p)
                && self.is_strict_ancestor(p, id),
    {
        if exists|k: nat| self.first_unignored_at(id, k) {
            let k = choose|k: nat| self.first_unignored_at(id, k);
            self.lemma_ancestor_contained(id, k);
        }
    }

    /// Where every node strictly above `id` is ignored, there is no
    /// unignored parent.
    pub proof fn lemma_unignored_parent_none(self, id: NodeId)
        requires
            forall|a: NodeId| self.is_strict_ancestor(a, id) ==> self.is_ignored(a),
        ensures
            self.unignored_parent_id(id) is None,
    {
        assert forall|k: nat| !self.first_unignored_at(id, k) by {
            if self.first_unignored_at(id, k) {
                assert(self.is_strict_ancestor(self.ancestor(id, k).unwrap(), id));
            }
        }
    }
}

/// The states of `states` by identifier. Where two bear one identifier the
/// later one stands.
pub open spec fn index_by_id(states: Seq<NodeState>) -> Map<NodeId, NodeState>
    decreases states.len(),
{
    if states.len() == 0 {
        Map::empty()
    } else {
        index_by_id(states.drop_last()).insert(states.last().data.id, states.last())
    }
}

/// No two of `states` bear the same identifier.
pub open spec fn distinct_ids(states: Seq<NodeState>) -> bool {
    forall|i: int, j: int|
        0 <= i < j < states.len() ==> (#[trigger] states[i]).data.id != (#[trigger] states[j]).data.id
}

/// The snapshot made of `states`, with the given root and focus.
pub open spec fn snapshot_of(states: Seq<NodeState>, root: NodeId, focus: Option<NodeId>) -> TreeView {
    TreeView { nodes: index_by_id(states), root, focus }
}

/// What `index_by_id` holds: finitely many states, no more than were given,
/// each under its own identifier; exactly the identifiers given; and, where
/// these are distinct, every state given.
pub proof fn lemma_index_by_id(states: Seq<NodeState>)
    ensures
        index_by_id(states).dom().finite(),
        index_by_id(states).dom().len() <= states.len(),
        forall|id: NodeId| #[trigger]
            index_by_id(states).contains_key(id) <==> exists|i: int|
                0 <= i < states.len() && (#[trigger] states[i]).data.id == id,
        forall|id: NodeId| #[trigger]
            index_by_id(states).contains_key(id) ==> index_by_id(states)[id].data.id == id,
        distinct_ids(states) ==> forall|i: int|
            0 <= i < states.len() ==> index_by_id(states)[(#[trigger] states[i]).data.id]
                == states[i],
    decreases states.len(),
{
    if states.len() > 0 {
        let front = states.drop_last();
        let last = states.last();
        lemma_index_by_id(front);
        assert forall|id: NodeId| #[trigger]
            index_by_id(states).contains_key(id) implies exists|i: int|
            0 <= i < states.len() && (#[trigger] states[i]).data.id == id by {
            if id == last.data.id {
                assert(states[states.len() - 1].data.id == id);
            } else {
                let i = choose|i: int| 0 <= i < front.len() && (#[trigger] front[i]).data.id == id;
                assert(states[i].data.id == id);
            }
        }
        assert forall|id: NodeId|
            (exists|i: int|
                0 <= i < states.len() && (#[trigger] states[i]).data.id == id) implies #[trigger]
            index_by_id(states).contains_key(id) by {
            let i = choose|i: int| 0 <= i < states.len() && (#[trigger] states[i]).data.id == id;
            if i < front.len() {
                assert(front[i].data.id == id);
            }
        }
        if distinct_ids(states) {
            assert(distinct_ids(front)) by {
                assert forall|i: int, j: int| 0 <= i < j < front.len() implies (#[trigger] front[i]).data.id
                    != (#[trigger] front[j]).data.id by {
                    assert(states[i].data.id != states[j].data.id);
                }
            }
            assert forall|i: int| 0 <= i < states.len() implies index_by_id(
                states,
            )[(#[trigger] states[i]).data.id] == states[i] by {
                if i < front.len() {
                    assert(front[i] == states[i]);
                    assert(states[i].data.id != states[states.len() - 1].data.id);
                }
            }
        }
    }
}

/// What a stored identifier resolves to against the snapshot that is current
/// when it is looked up: the state that this snapshot holds under `id`.
/// It resolves to nothing when no snapshot is left, or when the current one
/// does not hold `id`.
pub open spec fn resolution(current: Option<TreeView>, id: NodeId) -> Option<NodeState> {
    match current {
        Some(tree) => tree.lookup(id),
        None => None,
    }
}

/// An identifier taken from a node of `earlier` resolves to nothing once no
/// snapshot is left, and to nothing against a later snapshot that no longer
/// holds it.
pub proof fn lemma_removed_node_resolves_to_nothing(earlier: TreeView, later: TreeView, id: NodeId)
    requires
        earlier.wf(),
        later.wf(),
        earlier.contains(id),
        !later.contains(id),
    ensures
        resolution(None, id) is None,
        resolution(Some(later), id) is None,
{
}

/// An identifier taken from a node of `earlier` that `later` still holds
/// resolves against `later`, and to the state that `later` holds under it,
/// whatever `earlier` held.
pub proof fn lemma_kept_node_resolves_to_current_state(
    earlier: TreeView,
    later: TreeView,
    id: NodeId,
)
    requires
        earlier.wf(),
        later.wf(),
        earlier.contains(id),
        later.contains(id),
    ensures
        resolution(Some(later), id) == Some(later.nodes[id]),
        resolution(Some(later), id).unwrap().data.id == id,
{
}

} // verus!
