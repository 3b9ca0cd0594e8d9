//! What the engine asks of the tree that the host owns.

use vstd::prelude::*;
use crate::node::Node;

verus! {

/// The name of a node in the host's tree.
pub type NodeId = usize;

/// The answers of an adapter, as mathematical functions of the node ids.
pub struct TreeModel {
    /// The children of a node, in layout order; empty for a leaf or an unknown id.
    pub children: spec_fn(NodeId) -> Seq<NodeId>,
    /// The parent of a node; `None` for a root.
    pub parent: spec_fn(NodeId) -> Option<NodeId>,
    /// The distance of a node from its root.
    pub height: spec_fn(NodeId) -> Option<u16>,
    /// The current sizing rules of a node; `None` once the node is gone.
    pub node: spec_fn(NodeId) -> Option<Node>,
    /// Whether an id still names a live node.
    pub valid: spec_fn(NodeId) -> bool,
    /// The nearest node above both of two nodes.
    pub common_parent: spec_fn(NodeId, NodeId) -> Option<NodeId>,
}

impl TreeModel {
    pub open spec fn children_of(self, id: NodeId) -> Seq<NodeId> {
        (self.children)(id)
    }

    pub open spec fn parent_of(self, id: NodeId) -> Option<NodeId> {
        (self.parent)(id)
    }

    pub open spec fn height_of(self, id: NodeId) -> Option<u16> {
        (self.height)(id)
    }

    pub open spec fn node_of(self, id: NodeId) -> Option<Node> {
        (self.node)(id)
    }

    pub open spec fn is_valid(self, id: NodeId) -> bool {
        (self.valid)(id)
    }

    pub open spec fn closest_common_parent(self, a: NodeId, b: NodeId) -> Option<NodeId> {
        (self.common_parent)(a, b)
    }

    /// The sizing rules of each of `children`, in the same order.
    pub open spec fn nodes_of(self, children: Seq<NodeId>) -> Seq<Option<Node>> {
        Seq::new(children.len(), |i: int| self.node_of(children[i]))
    }

    /// Whether `ancestor` is `id` itself or is met within `steps` steps from
    /// `id` along the parent links.
    pub open spec fn ancestor_within(self, ancestor: NodeId, id: NodeId, steps: nat) -> bool
        decreases steps,
    {
        id == ancestor || (steps > 0 && match self.parent_of(id) {
            Some(p) => self.ancestor_within(ancestor, p, (steps - 1) as nat),
            None => false,
        })
    }

    /// Whether `ancestor` is `id` itself or lies above it.
    pub open spec fn covers(self, ancestor: NodeId, id: NodeId) -> bool {
        exists|steps: nat| self.ancestor_within(ancestor, id, steps)
    }

    /// Every child names the node that lists it as its parent.
    pub open spec fn links_agree(self) -> bool {
        forall|id: NodeId, i: int|
            0 <= i < self.children_of(id).len() ==> self.parent_of(
                #[trigger] self.children_of(id)[i],
            ) == Some(id)
    }

    /// The parent of a live node is live.
    pub open spec fn live_upward(self) -> bool {
        forall|id: NodeId|
            self.is_valid(id) ==> match #[trigger] self.parent_of(id) {
                Some(p) => self.is_valid(p),
                None => true,
            }
    }

    /// Any two live nodes have a live node above both of them, and
    /// `closest_common_parent` names one.
    pub open spec fn common_parents_cover(self) -> bool {
        forall|a: NodeId, b: NodeId|
            self.is_valid(a) && self.is_valid(b) ==> match #[trigger] self.closest_common_parent(
                a,
                b,
            ) {
                Some(c) => self.is_valid(c) && self.covers(c, a) && self.covers(c, b),
                None => false,
            }
    }

    /// A single tree of live nodes whose links agree.
    pub open spec fn well_formed(self) -> bool {
        self.links_agree() && self.live_upward() && self.common_parents_cover()
    }

    /// Every node that has a parent lies one level below it.
    pub open spec fn heights_follow_parents(self) -> bool {
        forall|id: NodeId|
            match #[trigger] self.parent_of(id) {
                Some(p) => match (self.height_of(p), self.height_of(id)) {
                    (Some(above), Some(below)) => below == above + 1,
                    _ => false,
                },
                None => true,
            }
    }

    /// No node lists a child twice.
    pub open spec fn children_distinct(self) -> bool {
        forall|id: NodeId, i: int, j: int|
            0 <= i < j < self.children_of(id).len() ==> #[trigger] self.children_of(id)[i]
                != #[trigger] self.children_of(id)[j]
    }

    /// A tree in the strict sense: the links agree, every level is one below
    /// the one above, and no child is listed twice. Such a tree has no cycle,
    /// and a pass meets each of its nodes once.
    pub open spec fn is_proper(self) -> bool {
        self.links_agree() && self.heights_follow_parents() && self.children_distinct()
    }

    /// Whether `ancestor` lies above `id` and is not `id` itself.
    pub open spec fn strictly_covers(self, ancestor: NodeId, id: NodeId) -> bool {
        ancestor != id && self.covers(ancestor, id)
    }

    /// Going up by one more step reaches what fewer steps reach.
    pub proof fn lemma_ancestor_within_more(self, ancestor: NodeId, id: NodeId, steps: nat, more: nat)
        requires
            self.ancestor_within(ancestor, id, steps),
            steps <= more,
        ensures
            self.ancestor_within(ancestor, id, more),
        decreases steps,
    {
        if id != ancestor {
            self.lemma_ancestor_within_more(
                ancestor,
                self.parent_of(id).unwrap(),
                (steps - 1) as nat,
                (more - 1) as nat,
            );
        }
    }

    /// A node's ancestor within `n` steps, whose own ancestor within `m` steps is
    /// `top`, has `top` within `n + m` steps.
    pub proof fn lemma_ancestor_within_chain(
        self,
        top: NodeId,
        middle: NodeId,
        id: NodeId,
        n: nat,
        m: nat,
    )
        requires
            self.ancestor_within(middle, id, n),
            self.ancestor_within(top, middle, m),
        ensures
            self.ancestor_within(top, id, n + m),
        decreases n,
    {
        if id == middle {
            self.lemma_ancestor_within_more(top, id, m, n + m);
        } else {
            self.lemma_ancestor_within_chain(
                top,
                middle,
                self.parent_of(id).unwrap(),
                (n - 1) as nat,
                m,
            );
        }
    }

    /// Where levels follow the parents, a node above another lies at a
    /// smaller height.
    pub proof fn lemma_ancestor_is_higher(self, ancestor: NodeId, id: NodeId, steps: nat)
        requires
            self.heights_follow_parents(),
            self.ancestor_within(ancestor, id, steps),
            ancestor != id,
        ensures
            match (self.height_of(ancestor), self.height_of(id)) {
                (Some(above), Some(below)) => above < below,
                _ => false,
            },
        decreases steps,
    {
        let p = self.parent_of(id).unwrap();
        if p != ancestor {
            self.lemma_ancestor_is_higher(ancestor, p, (steps - 1) as nat);
        }
    }

    /// Where levels follow the parents, two nodes that cover each other are
    /// one node.
    pub proof fn lemma_covers_one_way(self, a: NodeId, b: NodeId)
        requires
            self.heights_follow_parents(),
            self.covers(a, b),
            self.covers(b, a),
        ensures
            a == b,
    {
        if a != b {
            let n = choose|n: nat| self.ancestor_within(a, b, n);
            let m = choose|m: nat| self.ancestor_within(b, a, m);
            self.lemma_ancestor_is_higher(a, b, n);
            self.lemma_ancestor_is_higher(b, a, m);
        }
    }

    /// Two nodes above the same node lie in one line: one covers the other.
    pub proof fn lemma_ancestors_in_line_within(
        self,
        a: NodeId,
        b: NodeId,
        id: NodeId,
        n: nat,
        m: nat,
    )
        requires
            self.ancestor_within(a, id, n),
            self.ancestor_within(b, id, m),
        ensures
            self.covers(a, b) || self.covers(b, a),
        decreases n,
    {
        if id == a {
            assert(self.ancestor_within(b, a, m));
        } else if id == b {
            assert(self.ancestor_within(a, b, n));
        } else {
            self.lemma_ancestors_in_line_within(
                a,
                b,
                self.parent_of(id).unwrap(),
                (n - 1) as nat,
                (m - 1) as nat,
            );
        }
    }

    /// Two nodes above the same node lie in one line: one covers the other.
    pub proof fn lemma_ancestors_in_line(self, a: NodeId, b: NodeId, id: NodeId)
        requires
            self.covers(a, id),
            self.covers(b, id),
        ensures
            self.covers(a, b) || self.covers(b, a),
    {
        let n = choose|n: nat| self.ancestor_within(a, id, n);
        let m = choose|m: nat| self.ancestor_within(b, id, m);
        self.lemma_ancestors_in_line_within(a, b, id, n, m);
    }

    /// What lies above a node and is not the node lies above its parent.
    pub proof fn lemma_strict_ancestor_covers_parent(self, ancestor: NodeId, id: NodeId)
        requires
            self.strictly_covers(ancestor, id),
        ensures
            match self.parent_of(id) {
                Some(p) => self.covers(ancestor, p),
                None => false,
            },
    {
        let n = choose|n: nat| self.ancestor_within(ancestor, id, n);
        assert(self.ancestor_within(ancestor, self.parent_of(id).unwrap(), (n - 1) as nat));
    }

    /// In a proper tree, two different children of one node cover nothing in
    /// common.
    pub proof fn lemma_siblings_apart(self, owner: NodeId, i: int, j: int, id: NodeId)
        requires
            self.is_proper(),
            0 <= i < self.children_of(owner).len(),
            0 <= j < self.children_of(owner).len(),
            i != j,
            self.covers(self.children_of(owner)[i], id),
        ensures
            !self.covers(self.children_of(owner)[j], id),
    {
        let a = self.children_of(owner)[i];
        let b = self.children_of(owner)[j];
        assert(self.parent_of(a) == Some(owner));
        assert(self.parent_of(b) == Some(owner));
        assert(a != b) by {
            if i < j {
                assert(self.children_of(owner)[i] != self.children_of(owner)[j]);
            } else {
                assert(self.children_of(owner)[j] != self.children_of(owner)[i]);
            }
        }
        if self.covers(b, id) {
            self.lemma_ancestors_in_line(a, b, id);
            self.lemma_covers_self(a);
            self.lemma_covers_self(b);
            self.lemma_parent_covers(owner, a, a);
            self.lemma_parent_covers(owner, b, b);
            if self.covers(a, b) {
                self.lemma_strict_ancestor_covers_parent(a, b);
                self.lemma_covers_one_way(a, owner);
            } else {
                self.lemma_strict_ancestor_covers_parent(b, a);
                self.lemma_covers_one_way(b, owner);
            }
            assert(false);
        }
    }

    /// Every node covers itself.
    pub proof fn lemma_covers_self(self, id: NodeId)
        ensures
            self.covers(id, id),
    {
        assert(self.ancestor_within(id, id, 0));
    }

    /// `covers` is transitive.
    pub proof fn lemma_covers_chain(self, top: NodeId, middle: NodeId, id: NodeId)
        requires
            self.covers(top, middle),
            self.covers(middle, id),
        ensures
            self.covers(top, id),
    {
        let n = choose|n: nat| self.ancestor_within(middle, id, n);
        let m = choose|m: nat| self.ancestor_within(top, middle, m);
        self.lemma_ancestor_within_chain(top, middle, id, n, m);
    }

    /// The parent of a node covers what the node covers.
    pub proof fn lemma_parent_covers(self, parent: NodeId, child: NodeId, id: NodeId)
        requires
            self.parent_of(child) == Some(parent),
            self.covers(child, id),
        ensures
            self.covers(parent, id),
    {
        assert(self.ancestor_within(parent, parent, 0));
        assert(self.ancestor_within(parent, child, 1));
        self.lemma_covers_chain(parent, child, id);
    }
}

/// The tree that the host owns, as the engine sees it.
///
/// The engine never changes the tree and keeps no reference into it: every
/// question goes through these methods. Within one layout pass the answers
/// must not change, which is what the contracts below say: each method returns
/// what `tree()` holds and leaves `tree()` as it was.
pub trait DOMAdapter {
    /// The answers of this adapter as mathematical functions. An adapter that
    /// is verified says here what it answers; left as it is, the model is some
    /// tree of which nothing is known.
    open spec fn tree(&self) -> TreeModel {
        arbitrary()
    }

    /// The children of a node in layout order; empty if it has none or is unknown.
    fn children_of(&mut self, node_id: &NodeId) -> (children: Vec<NodeId>)
        ensures
            final(self).tree() == old(self).tree(),
            children@ == old(self).tree().children_of(*node_id),
    ;

    /// The parent of a node; `None` for a root.
    fn parent_of(&self, node_id: &NodeId) -> (parent: Option<NodeId>)
        ensures
            parent == self.tree().parent_of(*node_id),
    ;

    /// The distance of a node from its root.
    fn height(&self, node_id: &NodeId) -> (height: Option<u16>)
        ensures
            height == self.tree().height_of(*node_id),
    ;

    /// The current sizing rules of a node; `None` if the node is gone.
    fn get_node(&self, node_id: &NodeId) -> (node: Option<Node>)
        ensures
            node == self.tree().node_of(*node_id),
    ;

    /// Whether the id still names a live node.
    fn is_node_valid(&mut self, node_id: &NodeId) -> (valid: bool)
        ensures
            final(self).tree() == old(self).tree(),
            valid == old(self).tree().is_valid(*node_id),
    ;

    /// The nearest node above both of two nodes.
    fn closest_common_parent(&self, node_id_a: &NodeId, node_id_b: &NodeId) -> (parent: Option<
        NodeId,
    >)
        ensures
            parent == self.tree().closest_common_parent(*node_id_a, *node_id_b),
    ;
}

} // verus!
