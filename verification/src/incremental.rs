//! Why a pass from the scope of a change is as good as a pass from the root.
//!
//! The lemmas of this module compare the layout of one tree with that of a
//! second tree of the same shape whose rules differ in places. They lead to
//! the statement that the engine rests on: after one node has changed, the
//! pass that starts at its scope leaves the cache as a pass over the whole
//! tree would.

use vstd::prelude::*;
use crate::custom_measurer::MeasureRules;
use crate::dom_adapter::{NodeId, TreeModel};
use crate::geometry::Area;
use crate::measure::{
    advance, child_available, content_area, fill_plan, layout_node, lemma_area_without_inner,
    lemma_layout_records_root, lemma_layout_stays_below, place_children, proposed_area, FillPlan,
    NodeAreas, Placement, MAX_DEPTH,
};
use crate::node::Node;
use crate::torin::{
    fold_dirty, lemma_fold_dirty_covers, lemma_scope_root_any_steps, lemma_scope_root_covers,
    lemma_scope_root_shape, scope_root, EngineState,
};

verus! {

/// Whether two trees agree on all that a pass of `depth` levels looks at
/// below `id`: the children of every node it meets, and their rules.
pub open spec fn agree_below(tree: TreeModel, other: TreeModel, id: NodeId, depth: nat) -> bool
    decreases depth,
{
    depth == 0 || (tree.children_of(id) == other.children_of(id) && forall|i: int|
        0 <= i < tree.children_of(id).len() ==> tree.node_of(#[trigger] tree.children_of(id)[i])
            == other.node_of(tree.children_of(id)[i]) && agree_below(
            tree,
            other,
            tree.children_of(id)[i],
            (depth - 1) as nat,
        ))
}

/// A node measured against the same areas, below which nothing has changed,
/// gets the same layout: measuring it again can be skipped.
pub proof fn lemma_same_below_same_layout(
    tree: TreeModel,
    other: TreeModel,
    rules: MeasureRules,
    id: NodeId,
    node: Node,
    parent: Area,
    available: Area,
    depth: nat,
)
    requires
        agree_below(tree, other, id, depth),
    ensures
        layout_node(tree, rules, id, node, parent, available, depth) == layout_node(
            other,
            rules,
            id,
            node,
            parent,
            available,
            depth,
        ),
    decreases depth, 0nat,
{
    if depth > 0 {
        let proposed = proposed_area(node, parent, available);
        let measured = rules(id, node, proposed, parent, available);
        let area = match measured {
            Some(a) => a,
            None => proposed,
        };
        let content = content_area(node, area, measured is Some);
        let children = tree.children_of(id);
        assert(tree.nodes_of(children) =~= other.nodes_of(children));
        lemma_same_below_same_placement(
            tree,
            other,
            rules,
            id,
            node,
            content,
            fill_plan(tree.nodes_of(children), node, content.size.main_axis(node.direction)),
            0,
            Placement::start(),
            (depth - 1) as nat,
        );
    }
}

/// The children of a node below which nothing has changed are placed alike.
proof fn lemma_same_below_same_placement(
    tree: TreeModel,
    other: TreeModel,
    rules: MeasureRules,
    owner: NodeId,
    node: Node,
    content: Area,
    plan: FillPlan,
    i: int,
    acc: Placement,
    depth: nat,
)
    requires
        agree_below(tree, other, owner, depth + 1),
        0 <= i,
    ensures
        place_children(tree, rules, tree.children_of(owner), node, content, plan, i, acc, depth)
            == place_children(
            other,
            rules,
            tree.children_of(owner),
            node,
            content,
            plan,
            i,
            acc,
            depth,
        ),
    decreases depth, tree.children_of(owner).len() - i + 1,
{
    let children = tree.children_of(owner);
    if i < children.len() {
        let id = children[i];
        assert(tree.node_of(id) == other.node_of(id));
        assert(agree_below(tree, other, id, depth));
        match tree.node_of(id) {
            None => {
                lemma_same_below_same_placement(
                    tree,
                    other,
                    rules,
                    owner,
                    node,
                    content,
                    plan,
                    i + 1,
                    acc,
                    depth,
                );
            },
            Some(child) => {
                let available = child_available(node, content, plan, child, acc);
                lemma_same_below_same_layout(
                    tree,
                    other,
                    rules,
                    id,
                    child,
                    content,
                    available,
                    depth,
                );
                let measured = layout_node(tree, rules, id, child, content, available, depth);
                lemma_same_below_same_placement(
                    tree,
                    other,
                    rules,
                    owner,
                    node,
                    content,
                    plan,
                    i + 1,
                    advance(node, child, acc, measured),
                    depth,
                );
            },
        }
    }
}

/// Whether `depth` levels reach every node that can lie below `id`.
pub open spec fn deep_enough(tree: TreeModel, id: NodeId, depth: nat) -> bool {
    match tree.height_of(id) {
        Some(height) => height + depth >= MAX_DEPTH,
        None => true,
    }
}

/// Where the links agree and levels follow the parents, a pass that may
/// descend far enough gives the same layout however much further it may.
pub proof fn lemma_depth_beyond_need(
    tree: TreeModel,
    rules: MeasureRules,
    id: NodeId,
    node: Node,
    parent: Area,
    available: Area,
    depth: nat,
    other_depth: nat,
)
    requires
        tree.links_agree(),
        tree.heights_follow_parents(),
        deep_enough(tree, id, depth),
        deep_enough(tree, id, other_depth),
    ensures
        layout_node(tree, rules, id, node, parent, available, depth) == layout_node(
            tree,
            rules,
            id,
            node,
            parent,
            available,
            other_depth,
        ),
    decreases depth, 0nat,
{
    let proposed = proposed_area(node, parent, available);
    let measured = rules(id, node, proposed, parent, available);
    let area = match measured {
        Some(a) => a,
        None => proposed,
    };
    let content = content_area(node, area, measured is Some);
    let children = tree.children_of(id);
    let plan = fill_plan(tree.nodes_of(children), node, content.size.main_axis(node.direction));
    if children.len() > 0 {
        assert(tree.parent_of(tree.children_of(id)[0]) == Some(id));
        assert(depth > 0 && other_depth > 0);
        lemma_depth_beyond_need_placement(
            tree,
            rules,
            id,
            node,
            content,
            plan,
            0,
            Placement::start(),
            (depth - 1) as nat,
            (other_depth - 1) as nat,
        );
    }
}

/// The children of a node are placed alike by two passes that may both
/// descend far enough.
proof fn lemma_depth_beyond_need_placement(
    tree: TreeModel,
    rules: MeasureRules,
    owner: NodeId,
    node: Node,
    content: Area,
    plan: FillPlan,
    i: int,
    acc: Placement,
    depth: nat,
    other_depth: nat,
)
    requires
        tree.links_agree(),
        tree.heights_follow_parents(),
        0 <= i,
        deep_enough(tree, owner, depth + 1),
        deep_enough(tree, owner, other_depth + 1),
    ensures
        place_children(tree, rules, tree.children_of(owner), node, content, plan, i, acc, depth)
            == place_children(
            tree,
            rules,
            tree.children_of(owner),
            node,
            content,
            plan,
            i,
            acc,
            other_depth,
        ),
    decreases depth, tree.children_of(owner).len() - i + 1,
{
    let children = tree.children_of(owner);
    if i < children.len() {
        let id = children[i];
        assert(tree.parent_of(tree.children_of(owner)[i]) == Some(owner));
        match tree.node_of(id) {
            None => {
                lemma_depth_beyond_need_placement(
                    tree,
                    rules,
                    owner,
                    node,
                    content,
                    plan,
                    i + 1,
                    acc,
                    depth,
                    other_depth,
                );
            },
            Some(child) => {
                let available = child_available(node, content, plan, child, acc);
                lemma_depth_beyond_need(
                    tree,
                    rules,
                    id,
                    child,
                    content,
                    available,
                    depth,
                    other_depth,
                );
                let measured = layout_node(tree, rules, id, child, content, available, depth);
                lemma_depth_beyond_need_placement(
                    tree,
                    rules,
                    owner,
                    node,
                    content,
                    plan,
                    i + 1,
                    advance(node, child, acc, measured),
                    depth,
                    other_depth,
                );
            },
        }
    }
}

/// Whether the area of `id` is out of reach of the changes between two trees,
/// looking `depth` levels down: its rules are the same in both, and either it
/// is not sized by its children or each of its children is out of reach too.
pub open spec fn steady(tree: TreeModel, other: TreeModel, id: NodeId, depth: nat) -> bool
    decreases depth,
{
    tree.node_of(id) == other.node_of(id) && match tree.node_of(id) {
        None => true,
        Some(node) => !node.depends_on_inner() || depth == 0 || (tree.children_of(id)
            == other.children_of(id) && forall|i: int|
            0 <= i < tree.children_of(id).len() ==> steady(
                tree,
                other,
                #[trigger] tree.children_of(id)[i],
                (depth - 1) as nat,
            )),
    }
}

/// Whether two placements stand alike but for the entries.
pub open spec fn alike(one: Placement, other: Placement) -> bool {
    &&& one.placed == other.placed
    &&& one.filled == other.filled
    &&& one.extent == other.extent
    &&& one.cross == other.cross
}

/// A node whose area is out of reach of the changes gets the same area in both
/// trees, measured against the same areas.
pub proof fn lemma_steady_keeps_area(
    tree: TreeModel,
    other: TreeModel,
    rules: MeasureRules,
    id: NodeId,
    node: Node,
    parent: Area,
    available: Area,
    depth: nat,
)
    requires
        steady(tree, other, id, depth),
        tree.node_of(id) == Some(node),
    ensures
        layout_node(tree, rules, id, node, parent, available, depth).area == layout_node(
            other,
            rules,
            id,
            node,
            parent,
            available,
            depth,
        ).area,
    decreases depth, 0nat,
{
    if !node.depends_on_inner() {
        lemma_area_without_inner(tree, other, rules, id, node, parent, available, depth, depth);
    } else if depth > 0 {
        let proposed = proposed_area(node, parent, available);
        let measured = rules(id, node, proposed, parent, available);
        let area = match measured {
            Some(a) => a,
            None => proposed,
        };
        let content = content_area(node, area, measured is Some);
        let children = tree.children_of(id);
        assert(tree.nodes_of(children) =~= other.nodes_of(children)) by {
            assert forall|i: int| 0 <= i < children.len() implies tree.node_of(children[i])
                == other.node_of(children[i]) by {
                assert(steady(tree, other, tree.children_of(id)[i], (depth - 1) as nat));
            }
        }
        lemma_steady_keeps_placement(
            tree,
            other,
            rules,
            id,
            node,
            content,
            fill_plan(tree.nodes_of(children), node, content.size.main_axis(node.direction)),
            0,
            Placement::start(),
            Placement::start(),
            (depth - 1) as nat,
        );
    }
}

/// Children whose areas are out of reach of the changes take up the same
/// space in both trees.
proof fn lemma_steady_keeps_placement(
    tree: TreeModel,
    other: TreeModel,
    rules: MeasureRules,
    owner: NodeId,
    node: Node,
    content: Area,
    plan: FillPlan,
    i: int,
    acc: Placement,
    other_acc: Placement,
    depth: nat,
)
    requires
        0 <= i,
        alike(acc, other_acc),
        forall|k: int|
            0 <= k < tree.children_of(owner).len() ==> steady(
                tree,
                other,
                #[trigger] tree.children_of(owner)[k],
                depth,
            ),
    ensures
        alike(
            place_children(tree, rules, tree.children_of(owner), node, content, plan, i, acc, depth),
            place_children(
                other,
                rules,
                tree.children_of(owner),
                node,
                content,
                plan,
                i,
                other_acc,
                depth,
            ),
        ),
    decreases depth, tree.children_of(owner).len() - i + 1,
{
    let children = tree.children_of(owner);
    if i < children.len() {
        let id = children[i];
        assert(steady(tree, other, tree.children_of(owner)[i], depth));
        match tree.node_of(id) {
            None => {
                lemma_steady_keeps_placement(
                    tree,
                    other,
                    rules,
                    owner,
                    node,
                    content,
                    plan,
                    i + 1,
                    acc,
                    other_acc,
                    depth,
                );
            },
            Some(child) => {
                let available = child_available(node, content, plan, child, acc);
                assert(available == child_available(node, content, plan, child, other_acc));
                lemma_steady_keeps_area(tree, other, rules, id, child, content, available, depth);
                lemma_steady_keeps_placement(
                    tree,
                    other,
                    rules,
                    owner,
                    node,
                    content,
                    plan,
                    i + 1,
                    advance(
                        node,
                        child,
                        acc,
                        layout_node(tree, rules, id, child, content, available, depth),
                    ),
                    advance(
                        node,
                        child,
                        other_acc,
                        layout_node(other, rules, id, child, content, available, depth),
                    ),
                    depth,
                );
            },
        }
    }
}

/// Whether `big` holds every entry of `small`.
pub open spec fn holds_all(big: Map<NodeId, NodeAreas>, small: Map<NodeId, NodeAreas>) -> bool {
    forall|id: NodeId| #[trigger]
        small.contains_key(id) ==> big.contains_key(id) && big[id] == small[id]
}

/// A tree before and after a change of rules that stays below one node, the
/// scope.
pub struct Change {
    /// The tree as it was when the cache was filled.
    pub before: TreeModel,
    /// The tree as it is now.
    pub after: TreeModel,
    /// The answers of the measurer, then and now.
    pub rules: MeasureRules,
    /// The node below which all changes lie.
    pub scope: NodeId,
}

impl Change {
    /// The two trees have the same nodes at the same places.
    pub open spec fn same_shape(self) -> bool {
        &&& self.after.children == self.before.children
        &&& self.after.parent == self.before.parent
        &&& self.after.height == self.before.height
    }

    /// The tree is a proper one and keeps its shape; rules differ only at
    /// nodes that lie below the scope, not at the scope; and the area of the
    /// scope is out of reach of the changes.
    pub open spec fn contained(self) -> bool {
        &&& self.before.is_proper()
        &&& self.same_shape()
        &&& forall|id: NodeId|
            self.before.node_of(id) == #[trigger] self.after.node_of(id)
                || self.before.strictly_covers(self.scope, id)
        &&& self.before.node_of(self.scope) is Some
        &&& forall|depth: nat| #[trigger] steady(self.before, self.after, self.scope, depth)
    }

    /// The rules of the scope.
    pub open spec fn scope_node(self) -> Node {
        self.before.node_of(self.scope).unwrap()
    }

    /// What measuring the scope again records, against what `entry` holds.
    pub open spec fn remeasured(self, entry: NodeAreas, depth: nat) -> Map<NodeId, NodeAreas> {
        layout_node(
            self.after,
            self.rules,
            self.scope,
            self.scope_node(),
            entry.parent,
            entry.available,
            depth,
        ).entries
    }

    /// Whether `id` lies neither above nor below the scope, nor is it.
    pub open spec fn apart(self, id: NodeId) -> bool {
        !self.before.covers(self.scope, id) && !self.before.covers(id, self.scope)
    }
}

/// Two trees with the same parents have the same nodes above each node.
proof fn lemma_same_parents_same_cover(
    tree: TreeModel,
    other: TreeModel,
    ancestor: NodeId,
    id: NodeId,
    steps: nat,
)
    requires
        tree.parent == other.parent,
        tree.ancestor_within(ancestor, id, steps),
    ensures
        other.ancestor_within(ancestor, id, steps),
        other.covers(ancestor, id),
    decreases steps,
{
    if id != ancestor {
        lemma_same_parents_same_cover(
            tree,
            other,
            ancestor,
            tree.parent_of(id).unwrap(),
            (steps - 1) as nat,
        );
    }
}

/// Nothing has changed below a node that lies apart from the scope.
proof fn lemma_apart_agrees_below(change: Change, id: NodeId, depth: nat)
    requires
        change.contained(),
        change.apart(id),
    ensures
        agree_below(change.before, change.after, id, depth),
    decreases depth,
{
    let tree = change.before;
    if depth > 0 {
        assert(change.after.children_of(id) == tree.children_of(id));
        assert forall|i: int| 0 <= i < tree.children_of(id).len() implies tree.node_of(
            #[trigger] tree.children_of(id)[i],
        ) == change.after.node_of(tree.children_of(id)[i]) && agree_below(
            tree,
            change.after,
            tree.children_of(id)[i],
            (depth - 1) as nat,
        ) by {
            let child = tree.children_of(id)[i];
            assert(tree.parent_of(child) == Some(id));
            lemma_child_of_apart_is_apart(change, id, child);
            tree.lemma_covers_self(child);
            lemma_apart_agrees_below(change, child, (depth - 1) as nat);
        }
    }
}

/// A child of a node that lies apart from the scope lies apart from it, and
/// its rules have not changed.
proof fn lemma_child_of_apart_is_apart(change: Change, id: NodeId, child: NodeId)
    requires
        change.contained(),
        change.apart(id),
        change.before.parent_of(child) == Some(id),
    ensures
        change.apart(child),
        change.before.node_of(child) == change.after.node_of(child),
{
    let tree = change.before;
    if tree.covers(change.scope, child) {
        if change.scope == child {
            tree.lemma_covers_self(child);
            tree.lemma_parent_covers(id, child, child);
        } else {
            tree.lemma_strict_ancestor_covers_parent(change.scope, child);
        }
        assert(false);
    }
    if tree.covers(child, change.scope) {
        tree.lemma_parent_covers(id, child, change.scope);
        assert(false);
    }
}

/// Placing the children from the `i`-th on records for `id` what was recorded
/// before, where none of them covers `id`.
proof fn lemma_rest_leaves(
    tree: TreeModel,
    rules: MeasureRules,
    owner: NodeId,
    node: Node,
    content: Area,
    plan: FillPlan,
    i: int,
    acc: Placement,
    depth: nat,
    id: NodeId,
)
    requires
        tree.links_agree(),
        0 <= i,
        forall|k: int|
            i <= k < tree.children_of(owner).len() ==> !tree.covers(
                #[trigger] tree.children_of(owner)[k],
                id,
            ),
    ensures
        ({
            let placed = place_children(
                tree,
                rules,
                tree.children_of(owner),
                node,
                content,
                plan,
                i,
                acc,
                depth,
            );
            &&& placed.entries.contains_key(id) == acc.entries.contains_key(id)
            &&& acc.entries.contains_key(id) ==> placed.entries[id] == acc.entries[id]
        }),
    decreases tree.children_of(owner).len() - i,
{
    let children = tree.children_of(owner);
    if i < children.len() {
        assert(!tree.covers(tree.children_of(owner)[i], id));
        match tree.node_of(children[i]) {
            None => {
                lemma_rest_leaves(tree, rules, owner, node, content, plan, i + 1, acc, depth, id);
            },
            Some(child) => {
                let available = child_available(node, content, plan, child, acc);
                let measured = layout_node(
                    tree,
                    rules,
                    children[i],
                    child,
                    content,
                    available,
                    depth,
                );
                if measured.entries.contains_key(id) {
                    lemma_layout_stays_below(
                        tree,
                        rules,
                        children[i],
                        child,
                        content,
                        available,
                        depth,
                        id,
                    );
                }
                lemma_rest_leaves(
                    tree,
                    rules,
                    owner,
                    node,
                    content,
                    plan,
                    i + 1,
                    advance(node, child, acc, measured),
                    depth,
                    id,
                );
            },
        }
    }
}

/// Once the child that covers the scope has been placed, the children after
/// it are placed alike in both trees, and what they record does not touch
/// what was measured below the scope.
proof fn lemma_placement_after_scope(
    change: Change,
    owner: NodeId,
    node: Node,
    content: Area,
    plan: FillPlan,
    i: int,
    acc: Placement,
    changed_acc: Placement,
    extra: Map<NodeId, NodeAreas>,
    depth: nat,
)
    requires
        change.contained(),
        0 <= i,
        alike(acc, changed_acc),
        holds_all(acc.entries.union_prefer_right(extra), changed_acc.entries),
        forall|id: NodeId| #[trigger] extra.contains_key(id) ==> change.before.covers(change.scope, id),
        forall|k: int|
            i <= k < change.before.children_of(owner).len() ==> change.apart(
                #[trigger] change.before.children_of(owner)[k],
            ),
    ensures
        ({
            let placed = place_children(
                change.before,
                change.rules,
                change.before.children_of(owner),
                node,
                content,
                plan,
                i,
                acc,
                depth,
            );
            let changed = place_children(
                change.after,
                change.rules,
                change.before.children_of(owner),
                node,
                content,
                plan,
                i,
                changed_acc,
                depth,
            );
            &&& alike(placed, changed)
            &&& holds_all(placed.entries.union_prefer_right(extra), changed.entries)
        }),
    decreases change.before.children_of(owner).len() - i,
{
    let tree = change.before;
    let children = tree.children_of(owner);
    if i < children.len() {
        let id = children[i];
        assert(change.apart(tree.children_of(owner)[i]));
        assert(tree.node_of(id) == change.after.node_of(id)) by {
            if tree.strictly_covers(change.scope, id) {
                assert(false);
            }
        }
        match tree.node_of(id) {
            None => {
                lemma_placement_after_scope(
                    change,
                    owner,
                    node,
                    content,
                    plan,
                    i + 1,
                    acc,
                    changed_acc,
                    extra,
                    depth,
                );
            },
            Some(child) => {
                let available = child_available(node, content, plan, child, acc);
                assert(available == child_available(node, content, plan, child, changed_acc));
                lemma_apart_agrees_below(change, id, depth);
                lemma_same_below_same_layout(
                    tree,
                    change.after,
                    change.rules,
                    id,
                    child,
                    content,
                    available,
                    depth,
                );
                let measured = layout_node(
                    tree,
                    change.rules,
                    id,
                    child,
                    content,
                    available,
                    depth,
                );
                let next = advance(node, child, acc, measured);
                let changed_next = advance(node, child, changed_acc, measured);
                assert forall|other: NodeId| #[trigger]
                    changed_next.entries.contains_key(other) implies next.entries.union_prefer_right(
                    extra,
                ).contains_key(other) && next.entries.union_prefer_right(extra)[other]
                    == changed_next.entries[other] by {
                    if measured.entries.contains_key(other) {
                        lemma_layout_stays_below(
                            tree,
                            change.rules,
                            id,
                            child,
                            content,
                            available,
                            depth,
                            other,
                        );
                        if extra.contains_key(other) {
                            tree.lemma_ancestors_in_line(id, change.scope, other);
                            assert(false);
                        }
                    } else {
                        assert(changed_acc.entries.contains_key(other));
                        assert(acc.entries.union_prefer_right(extra).contains_key(other));
                    }
                }
                lemma_placement_after_scope(
                    change,
                    owner,
                    node,
                    content,
                    plan,
                    i + 1,
                    next,
                    changed_next,
                    extra,
                    depth,
                );
            },
        }
    }
}

/// A tree of the same shape as a proper tree is a proper tree.
proof fn lemma_same_shape_is_proper(change: Change)
    requires
        change.before.is_proper(),
        change.same_shape(),
    ensures
        change.after.is_proper(),
{
    let tree = change.before;
    let other = change.after;
    assert forall|id: NodeId, i: int| 0 <= i < other.children_of(id).len() implies other.parent_of(
        #[trigger] other.children_of(id)[i],
    ) == Some(id) by {
        assert(tree.parent_of(tree.children_of(id)[i]) == Some(id));
    }
    assert forall|id: NodeId| true implies match #[trigger] other.parent_of(id) {
        Some(p) => match (other.height_of(p), other.height_of(id)) {
            (Some(above), Some(below)) => below == above + 1,
            _ => false,
        },
        None => true,
    } by {
        assert(tree.parent_of(id) == other.parent_of(id));
    }
    assert forall|id: NodeId, i: int, j: int|
        0 <= i < j < other.children_of(id).len() implies #[trigger] other.children_of(id)[i]
        != #[trigger] other.children_of(id)[j] by {
        assert(tree.children_of(id)[i] != tree.children_of(id)[j]);
    }
}

/// What is measured below the scope lies below the scope in the tree as it
/// was.
proof fn lemma_remeasured_stays_below(change: Change, entry: NodeAreas, depth: nat, id: NodeId)
    requires
        change.contained(),
        change.remeasured(entry, depth).contains_key(id),
    ensures
        change.before.covers(change.scope, id),
{
    lemma_same_shape_is_proper(change);
    lemma_layout_stays_below(
        change.after,
        change.rules,
        change.scope,
        change.scope_node(),
        entry.parent,
        entry.available,
        depth,
        id,
    );
    lemma_same_parents_same_cover(change.after, change.before, change.scope, id, depth);
}

/// A child of a node that lies above the scope either covers the scope or
/// lies apart from it; and its rules have not changed.
proof fn lemma_child_above_scope(change: Change, owner: NodeId, child: NodeId)
    requires
        change.contained(),
        change.before.strictly_covers(owner, change.scope),
        change.before.parent_of(child) == Some(owner),
    ensures
        change.before.covers(child, change.scope) || change.apart(child),
        change.before.node_of(child) == change.after.node_of(child),
{
    let tree = change.before;
    if tree.strictly_covers(change.scope, child) {
        tree.lemma_strict_ancestor_covers_parent(change.scope, child);
        tree.lemma_covers_one_way(change.scope, owner);
        assert(false);
    }
}

/// In a tree that has changed only below the scope, a node that covers the
/// scope and is measured against the same areas keeps its area, and the pass
/// over the changed tree records what the pass over the tree as it was
/// records, but for what measuring the scope again records.
pub proof fn lemma_layout_with_change(
    change: Change,
    id: NodeId,
    node: Node,
    parent: Area,
    available: Area,
    depth: nat,
    scope_depth: nat,
)
    requires
        change.contained(),
        change.before.covers(id, change.scope),
        id == change.scope ==> node == change.scope_node(),
        layout_node(
            change.before,
            change.rules,
            id,
            node,
            parent,
            available,
            depth,
        ).entries.contains_key(change.scope),
        deep_enough(change.before, id, depth),
        deep_enough(change.before, change.scope, scope_depth),
    ensures
        ({
            let was = layout_node(change.before, change.rules, id, node, parent, available, depth);
            let is = layout_node(change.after, change.rules, id, node, parent, available, depth);
            &&& is.area == was.area
            &&& holds_all(
                was.entries.union_prefer_right(
                    change.remeasured(was.entries[change.scope], scope_depth),
                ),
                is.entries,
            )
        }),
    decreases depth, 0nat,
{
    let tree = change.before;
    let was = layout_node(tree, change.rules, id, node, parent, available, depth);
    let is = layout_node(change.after, change.rules, id, node, parent, available, depth);
    lemma_layout_records_root(tree, change.rules, id, node, parent, available, depth);
    if id == change.scope {
        assert(steady(tree, change.after, id, depth));
        lemma_steady_keeps_area(
            tree,
            change.after,
            change.rules,
            id,
            node,
            parent,
            available,
            depth,
        );
        lemma_same_shape_is_proper(change);
        lemma_depth_beyond_need(
            change.after,
            change.rules,
            id,
            node,
            parent,
            available,
            depth,
            scope_depth,
        );
    } else {
        let proposed = proposed_area(node, parent, available);
        let measured = (change.rules)(id, node, proposed, parent, available);
        let area = match measured {
            Some(a) => a,
            None => proposed,
        };
        let content = content_area(node, area, measured is Some);
        let children = tree.children_of(id);
        assert(depth > 0);
        assert(tree.nodes_of(children) =~= change.after.nodes_of(children)) by {
            assert forall|i: int| 0 <= i < children.len() implies tree.node_of(children[i])
                == change.after.node_of(children[i]) by {
                assert(tree.parent_of(tree.children_of(id)[i]) == Some(id));
                lemma_child_above_scope(change, id, children[i]);
            }
        }
        let plan = fill_plan(tree.nodes_of(children), node, content.size.main_axis(node.direction));
        lemma_placement_with_change(
            change,
            id,
            node,
            content,
            plan,
            0,
            Placement::start(),
            (depth - 1) as nat,
            scope_depth,
        );
        let kids = place_children(
            tree,
            change.rules,
            children,
            node,
            content,
            plan,
            0,
            Placement::start(),
            (depth - 1) as nat,
        );
        let changed_kids = place_children(
            change.after,
            change.rules,
            children,
            node,
            content,
            plan,
            0,
            Placement::start(),
            (depth - 1) as nat,
        );
        let extra = change.remeasured(was.entries[change.scope], scope_depth);
        assert(was.entries[change.scope] == kids.entries[change.scope]);
        assert forall|other: NodeId| #[trigger] is.entries.contains_key(other) implies was.entries.union_prefer_right(
            extra,
        ).contains_key(other) && was.entries.union_prefer_right(extra)[other]
            == is.entries[other] by {
            if other == id {
                if extra.contains_key(id) {
                    lemma_remeasured_stays_below(
                        change,
                        was.entries[change.scope],
                        scope_depth,
                        id,
                    );
                    tree.lemma_covers_one_way(id, change.scope);
                }
            } else {
                assert(changed_kids.entries.contains_key(other));
                assert(kids.entries.union_prefer_right(extra).contains_key(other));
            }
        }
    }
}

/// The children of a node above the scope, from the `i`-th on, where the
/// scope has not been met yet: they are placed alike in both trees, and the
/// pass over the changed tree records what the pass over the tree as it was
/// records, but for what measuring the scope again records.
proof fn lemma_placement_with_change(
    change: Change,
    owner: NodeId,
    node: Node,
    content: Area,
    plan: FillPlan,
    i: int,
    acc: Placement,
    depth: nat,
    scope_depth: nat,
)
    requires
        change.contained(),
        change.before.strictly_covers(owner, change.scope),
        0 <= i,
        place_children(
            change.before,
            change.rules,
            change.before.children_of(owner),
            node,
            content,
            plan,
            i,
            acc,
            depth,
        ).entries.contains_key(change.scope),
        !acc.entries.contains_key(change.scope),
        forall|id: NodeId, k: int|
            #[trigger] acc.entries.contains_key(id) && i <= k < change.before.children_of(
                owner,
            ).len() ==> !change.before.covers(#[trigger] change.before.children_of(owner)[k], id),
        deep_enough(change.before, owner, depth + 1),
        deep_enough(change.before, change.scope, scope_depth),
    ensures
        ({
            let placed = place_children(
                change.before,
                change.rules,
                change.before.children_of(owner),
                node,
                content,
                plan,
                i,
                acc,
                depth,
            );
            let changed = place_children(
                change.after,
                change.rules,
                change.before.children_of(owner),
                node,
                content,
                plan,
                i,
                acc,
                depth,
            );
            &&& alike(placed, changed)
            &&& holds_all(
                placed.entries.union_prefer_right(
                    change.remeasured(placed.entries[change.scope], scope_depth),
                ),
                changed.entries,
            )
        }),
    decreases depth, change.before.children_of(owner).len() - i + 1,
{
    let tree = change.before;
    let children = tree.children_of(owner);
    let scope = change.scope;
    if i < children.len() {
        let id = children[i];
        assert(tree.parent_of(tree.children_of(owner)[i]) == Some(owner));
        lemma_child_above_scope(change, owner, id);
        match tree.node_of(id) {
            None => {
                lemma_placement_with_change(
                    change,
                    owner,
                    node,
                    content,
                    plan,
                    i + 1,
                    acc,
                    depth,
                    scope_depth,
                );
            },
            Some(child) => {
                let available = child_available(node, content, plan, child, acc);
                let measured = layout_node(
                    tree,
                    change.rules,
                    id,
                    child,
                    content,
                    available,
                    depth,
                );
                let next = advance(node, child, acc, measured);
                if tree.covers(id, scope) {
                    // This child holds the scope: no later one does.
                    assert forall|k: int| i + 1 <= k < children.len() implies change.apart(
                        #[trigger] tree.children_of(owner)[k],
                    ) by {
                        tree.lemma_siblings_apart(owner, i, k, scope);
                        assert(tree.parent_of(tree.children_of(owner)[k]) == Some(owner));
                        lemma_child_above_scope(change, owner, children[k]);
                    }
                    lemma_rest_leaves(
                        tree,
                        change.rules,
                        owner,
                        node,
                        content,
                        plan,
                        i + 1,
                        next,
                        depth,
                        scope,
                    );
                    assert(measured.entries.contains_key(scope));
                    lemma_layout_with_change(
                        change,
                        id,
                        child,
                        content,
                        available,
                        depth,
                        scope_depth,
                    );
                    let changed_measured = layout_node(
                        change.after,
                        change.rules,
                        id,
                        child,
                        content,
                        available,
                        depth,
                    );
                    let changed_next = advance(node, child, acc, changed_measured);
                    let extra = change.remeasured(measured.entries[scope], scope_depth);
                    assert forall|other: NodeId| #[trigger] extra.contains_key(other) implies tree.covers(
                        scope,
                        other,
                    ) by {
                        lemma_remeasured_stays_below(
                            change,
                            measured.entries[scope],
                            scope_depth,
                            other,
                        );
                    }
                    assert forall|other: NodeId| #[trigger]
                        changed_next.entries.contains_key(other) implies next.entries.union_prefer_right(
                        extra,
                    ).contains_key(other) && next.entries.union_prefer_right(extra)[other]
                        == changed_next.entries[other] by {
                        if changed_measured.entries.contains_key(other) {
                            assert(measured.entries.union_prefer_right(extra).contains_key(other));
                        } else {
                            assert(acc.entries.contains_key(other));
                            assert(!tree.covers(tree.children_of(owner)[i], other));
                            if measured.entries.contains_key(other) {
                                lemma_layout_stays_below(
                                    tree,
                                    change.rules,
                                    id,
                                    child,
                                    content,
                                    available,
                                    depth,
                                    other,
                                );
                            }
                            if extra.contains_key(other) {
                                tree.lemma_covers_chain(id, scope, other);
                            }
                        }
                    }
                    lemma_placement_after_scope(
                        change,
                        owner,
                        node,
                        content,
                        plan,
                        i + 1,
                        next,
                        changed_next,
                        extra,
                        depth,
                    );
                } else {
                    // This child lies apart from the scope: nothing below it has changed.
                    lemma_apart_agrees_below(change, id, depth);
                    lemma_same_below_same_layout(
                        tree,
                        change.after,
                        change.rules,
                        id,
                        child,
                        content,
                        available,
                        depth,
                    );
                    if measured.entries.contains_key(scope) {
                        lemma_layout_stays_below(
                            tree,
                            change.rules,
                            id,
                            child,
                            content,
                            available,
                            depth,
                            scope,
                        );
                    }
                    assert forall|other: NodeId, k: int|
                        #[trigger] next.entries.contains_key(other) && i + 1 <= k < children.len()
                        implies !tree.covers(#[trigger] tree.children_of(owner)[k], other) by {
                        if measured.entries.contains_key(other) {
                            lemma_layout_stays_below(
                                tree,
                                change.rules,
                                id,
                                child,
                                content,
                                available,
                                depth,
                                other,
                            );
                            tree.lemma_siblings_apart(owner, i, k, other);
                        } else {
                            assert(acc.entries.contains_key(other));
                        }
                    }
                    lemma_placement_with_change(
                        change,
                        owner,
                        node,
                        content,
                        plan,
                        i + 1,
                        next,
                        depth,
                        scope_depth,
                    );
                }
            },
        }
    }
}

/// What has been recorded stays recorded while the children are placed.
proof fn lemma_placement_keeps(
    tree: TreeModel,
    rules: MeasureRules,
    children: Seq<NodeId>,
    node: Node,
    content: Area,
    plan: FillPlan,
    i: int,
    acc: Placement,
    depth: nat,
    id: NodeId,
)
    requires
        0 <= i,
        acc.entries.contains_key(id),
    ensures
        place_children(tree, rules, children, node, content, plan, i, acc, depth).entries.contains_key(
            id,
        ),
    decreases children.len() - i,
{
    if i < children.len() {
        match tree.node_of(children[i]) {
            None => {
                lemma_placement_keeps(
                    tree,
                    rules,
                    children,
                    node,
                    content,
                    plan,
                    i + 1,
                    acc,
                    depth,
                    id,
                );
            },
            Some(child) => {
                let measured = layout_node(
                    tree,
                    rules,
                    children[i],
                    child,
                    content,
                    child_available(node, content, plan, child, acc),
                    depth,
                );
                lemma_placement_keeps(
                    tree,
                    rules,
                    children,
                    node,
                    content,
                    plan,
                    i + 1,
                    advance(node, child, acc, measured),
                    depth,
                    id,
                );
            },
        }
    }
}

/// In a tree whose links agree, every node that a pass records, but for the
/// one it starts at, has rules, and a parent with rules that the pass records
/// too.
pub proof fn lemma_recorded_has_parent(
    tree: TreeModel,
    rules: MeasureRules,
    id: NodeId,
    node: Node,
    parent: Area,
    available: Area,
    depth: nat,
    other: NodeId,
)
    requires
        tree.links_agree(),
        tree.node_of(id) is Some,
        other != id,
        layout_node(tree, rules, id, node, parent, available, depth).entries.contains_key(other),
    ensures
        tree.node_of(other) is Some,
        match tree.parent_of(other) {
            Some(p) => tree.node_of(p) is Some && layout_node(
                tree,
                rules,
                id,
                node,
                parent,
                available,
                depth,
            ).entries.contains_key(p),
            None => false,
        },
    decreases depth, 0nat,
{
    let proposed = proposed_area(node, parent, available);
    let measured = rules(id, node, proposed, parent, available);
    let area = match measured {
        Some(a) => a,
        None => proposed,
    };
    let content = content_area(node, area, measured is Some);
    let children = tree.children_of(id);
    lemma_placed_has_parent(
        tree,
        rules,
        id,
        node,
        content,
        fill_plan(tree.nodes_of(children), node, content.size.main_axis(node.direction)),
        0,
        Placement::start(),
        (depth - 1) as nat,
        other,
    );
}

/// In a tree whose links agree, every node that the placing of the children of
/// a node with rules records has a parent with rules: that node, or one that
/// is recorded too.
proof fn lemma_placed_has_parent(
    tree: TreeModel,
    rules: MeasureRules,
    owner: NodeId,
    node: Node,
    content: Area,
    plan: FillPlan,
    i: int,
    acc: Placement,
    depth: nat,
    other: NodeId,
)
    requires
        tree.links_agree(),
        tree.node_of(owner) is Some,
        0 <= i,
        place_children(
            tree,
            rules,
            tree.children_of(owner),
            node,
            content,
            plan,
            i,
            acc,
            depth,
        ).entries.contains_key(other),
    ensures
        acc.entries.contains_key(other) || tree.node_of(other) is Some && match tree.parent_of(
            other,
        ) {
            Some(p) => tree.node_of(p) is Some && (p == owner || place_children(
                tree,
                rules,
                tree.children_of(owner),
                node,
                content,
                plan,
                i,
                acc,
                depth,
            ).entries.contains_key(p)),
            None => false,
        },
    decreases depth, tree.children_of(owner).len() - i + 1,
{
    let children = tree.children_of(owner);
    if i < children.len() {
        let id = children[i];
        assert(tree.parent_of(tree.children_of(owner)[i]) == Some(owner));
        match tree.node_of(id) {
            None => {
                lemma_placed_has_parent(
                    tree,
                    rules,
                    owner,
                    node,
                    content,
                    plan,
                    i + 1,
                    acc,
                    depth,
                    other,
                );
            },
            Some(child) => {
                let available = child_available(node, content, plan, child, acc);
                let measured = layout_node(tree, rules, id, child, content, available, depth);
                let next = advance(node, child, acc, measured);
                lemma_placed_has_parent(
                    tree,
                    rules,
                    owner,
                    node,
                    content,
                    plan,
                    i + 1,
                    next,
                    depth,
                    other,
                );
                if measured.entries.contains_key(other) && other != id {
                    lemma_recorded_has_parent(
                        tree,
                        rules,
                        id,
                        child,
                        content,
                        available,
                        depth,
                        other,
                    );
                    lemma_placement_keeps(
                        tree,
                        rules,
                        children,
                        node,
                        content,
                        plan,
                        i + 1,
                        next,
                        depth,
                        tree.parent_of(other).unwrap(),
                    );
                }
            },
        }
    }
}

/// What a pass over the whole tree records: the layout from `root` against
/// `area`, or nothing where the root has no rules.
pub open spec fn full_pass(tree: TreeModel, rules: MeasureRules, root: NodeId, area: Area) -> Map<
    NodeId,
    NodeAreas,
> {
    match tree.node_of(root) {
        Some(node) => layout_node(tree, rules, root, node, area, area, MAX_DEPTH as nat).entries,
        None => Map::empty(),
    }
}

/// A new engine that measures a tree records a pass over the whole tree.
pub proof fn lemma_first_pass_is_full(
    tree: TreeModel,
    rules: MeasureRules,
    root: NodeId,
    area: Area,
)
    ensures
        EngineState::empty().measured(tree, rules, root, area).results == full_pass(
            tree,
            rules,
            root,
            area,
        ),
{
    let fresh = EngineState::empty();
    assert(fresh.pass_start(tree, root) == root);
    assert(fresh.measured(tree, rules, root, area).results =~= full_pass(tree, rules, root, area));
}

/// Where the root has no parent, every node above a node that a pass over the
/// whole tree has recorded is recorded too.
pub proof fn lemma_recorded_ancestor(
    tree: TreeModel,
    rules: MeasureRules,
    root: NodeId,
    area: Area,
    ancestor: NodeId,
    id: NodeId,
    steps: nat,
)
    requires
        tree.links_agree(),
        tree.parent_of(root) is None,
        tree.ancestor_within(ancestor, id, steps),
        full_pass(tree, rules, root, area).contains_key(id),
    ensures
        full_pass(tree, rules, root, area).contains_key(ancestor),
    decreases steps,
{
    if id != ancestor {
        lemma_recorded_has_parent(
            tree,
            rules,
            root,
            tree.node_of(root).unwrap(),
            area,
            area,
            MAX_DEPTH as nat,
            id,
        );
        lemma_recorded_ancestor(
            tree,
            rules,
            root,
            area,
            ancestor,
            tree.parent_of(id).unwrap(),
            (steps - 1) as nat,
        );
    }
}

/// Where the root has no parent, the scope of a node that a pass over the
/// whole tree has recorded is recorded too, whatever rules have changed since.
pub proof fn lemma_scope_of_recorded_is_recorded(
    before: TreeModel,
    after: TreeModel,
    rules: MeasureRules,
    root: NodeId,
    area: Area,
    id: NodeId,
    steps: nat,
)
    requires
        before.links_agree(),
        before.parent_of(root) is None,
        after.parent == before.parent,
        full_pass(before, rules, root, area).contains_key(id),
    ensures
        full_pass(before, rules, root, area).contains_key(scope_root(after, id, steps)),
{
    lemma_scope_root_covers(after, id, steps);
    let scope = scope_root(after, id, steps);
    let n = choose|n: nat| after.ancestor_within(scope, id, n);
    lemma_same_parents_same_cover(after, before, scope, id, n);
    lemma_recorded_ancestor(before, rules, root, area, scope, id, n);
}

/// A pass from a scope whose area is out of reach of the changes completes
/// the cache: where the cache held what a pass over the whole tree as it was
/// records, the cache with what is measured below the scope holds what a pass
/// over the whole tree as it is records.
pub proof fn lemma_pass_from_steady_scope(
    change: Change,
    results: Map<NodeId, NodeAreas>,
    root: NodeId,
    area: Area,
)
    requires
        change.contained(),
        change.scope != root,
        full_pass(change.before, change.rules, root, area).contains_key(change.scope),
        holds_all(results, full_pass(change.before, change.rules, root, area)),
    ensures
        holds_all(
            results.union_prefer_right(
                change.remeasured(results[change.scope], MAX_DEPTH as nat),
            ),
            full_pass(change.after, change.rules, root, area),
        ),
{
    let before = change.before;
    let scope = change.scope;
    let first = before.node_of(root).unwrap();
    let was = layout_node(before, change.rules, root, first, area, area, MAX_DEPTH as nat);
    lemma_layout_stays_below(
        before,
        change.rules,
        root,
        first,
        area,
        area,
        MAX_DEPTH as nat,
        scope,
    );
    if before.strictly_covers(scope, root) {
        before.lemma_covers_one_way(scope, root);
    }
    assert(before.node_of(root) == change.after.node_of(root));
    lemma_layout_with_change(change, root, first, area, area, MAX_DEPTH as nat, MAX_DEPTH as nat);
    let extra = change.remeasured(was.entries[scope], MAX_DEPTH as nat);
    let is = full_pass(change.after, change.rules, root, area);
    assert forall|id: NodeId| #[trigger] is.contains_key(id) implies results.union_prefer_right(
        extra,
    ).contains_key(id) && results.union_prefer_right(extra)[id] == is[id] by {
        assert(was.entries.union_prefer_right(extra).contains_key(id));
        if !extra.contains_key(id) {
            assert(was.entries.contains_key(id));
        }
    }
}

/// After one node has changed its rules in a proper tree, the pass that the
/// engine makes leaves the cache as a pass over the whole tree would.
///
/// The cache holds what a pass over the whole tree as it was records, from a
/// root without a parent, and nothing is invalidated. The rules of one live
/// node that was measured change, the host invalidates it, and the engine
/// measures again. Then the cache holds what a pass over the whole tree as it
/// is records.
pub proof fn lemma_pass_after_change_is_complete(
    state: EngineState,
    before: TreeModel,
    after: TreeModel,
    rules: MeasureRules,
    root: NodeId,
    area: Area,
    changed: NodeId,
)
    requires
        before.is_proper(),
        before.parent_of(root) is None,
        after.children == before.children,
        after.parent == before.parent,
        after.height == before.height,
        forall|id: NodeId| id != changed ==> before.node_of(id) == #[trigger] after.node_of(id),
        after.is_valid(changed),
        full_pass(before, rules, root, area).contains_key(changed),
        holds_all(state.results, full_pass(before, rules, root, area)),
        state.dirty.len() == 0,
    ensures
        holds_all(
            state.invalidated(changed).measured(after, rules, root, area).results,
            full_pass(after, rules, root, area),
        ),
{
    let marked = state.invalidated(changed);
    let partial = marked.measured(after, rules, root, area);
    let scope = scope_root(after, changed, MAX_DEPTH as nat);
    assert(marked.dirty =~= seq![changed]);
    assert(fold_dirty(after, marked.dirty, 1, Some(scope)) == Some(scope));
    assert(fold_dirty(after, marked.dirty, 0, None) == Some(scope));
    let start = marked.pass_start(after, root);
    if start != root {
        assert(start == scope);
        let change = Change { before, after, rules, scope };
        lemma_same_shape_is_proper(change);
        let first = before.node_of(root).unwrap();
        lemma_scope_of_recorded_is_recorded(
            before,
            after,
            rules,
            root,
            area,
            changed,
            MAX_DEPTH as nat,
        );
        lemma_recorded_has_parent(before, rules, root, first, area, area, MAX_DEPTH as nat, scope);
        let above = before.parent_of(scope).unwrap();
        before.lemma_covers_self(scope);
        before.lemma_parent_covers(above, scope, scope);
        lemma_scope_root_shape(after, changed, MAX_DEPTH as nat);
        lemma_scope_root_covers(after, changed, MAX_DEPTH as nat);
        let steps = choose|steps: nat| after.ancestor_within(scope, changed, steps);
        lemma_same_parents_same_cover(after, before, scope, changed, steps);
        if above == changed {
            before.lemma_covers_one_way(scope, above);
        }
        assert(scope != changed);
        assert(before.strictly_covers(scope, changed));
        assert(change.contained());
        lemma_pass_from_steady_scope(change, state.results, root, area);
        assert(partial.results =~= state.results.union_prefer_right(
            change.remeasured(state.results[scope], MAX_DEPTH as nat),
        ));
    }
}

/// Where no rules have changed, the area of every node is out of reach of the
/// changes, and nothing has changed below any node.
proof fn lemma_unchanged_is_steady(tree: TreeModel, other: TreeModel, id: NodeId, depth: nat)
    requires
        tree.children == other.children,
        forall|any: NodeId| tree.node_of(any) == #[trigger] other.node_of(any),
    ensures
        steady(tree, other, id, depth),
        agree_below(tree, other, id, depth),
    decreases depth,
{
    if depth > 0 {
        assert(tree.children_of(id) == other.children_of(id));
        assert forall|i: int| 0 <= i < tree.children_of(id).len() implies steady(
            tree,
            other,
            #[trigger] tree.children_of(id)[i],
            (depth - 1) as nat,
        ) && agree_below(tree, other, tree.children_of(id)[i], (depth - 1) as nat) by {
            lemma_unchanged_is_steady(tree, other, tree.children_of(id)[i], (depth - 1) as nat);
        }
    }
}

/// A fold that yields a start has met a live node.
proof fn lemma_fold_some_has_live(tree: TreeModel, dirty: Seq<NodeId>, i: int) -> (k: int)
    requires
        0 <= i,
        fold_dirty(tree, dirty, i, None) is Some,
    ensures
        i <= k < dirty.len(),
        tree.is_valid(dirty[k]),
    decreases dirty.len() - i,
{
    if tree.is_valid(dirty[i]) {
        i
    } else {
        lemma_fold_some_has_live(tree, dirty, i + 1)
    }
}

/// A tree before and after the rules of several nodes have changed, the nodes
/// that the host has invalidated, and the start that the engine has chosen.
pub struct Changes {
    /// The tree as it was when the cache was filled.
    pub before: TreeModel,
    /// The tree as it is now.
    pub after: TreeModel,
    /// The invalidated nodes.
    pub dirty: Seq<NodeId>,
    /// The chosen start.
    pub start: NodeId,
}

impl Changes {
    /// The tree is a proper one, keeps its shape and is a single tree of live
    /// nodes; no node has come or gone; every node whose rules have changed is
    /// live and was invalidated; and the start is the one that covers the
    /// invalidated nodes.
    pub open spec fn admissible(self) -> bool {
        &&& self.before.is_proper()
        &&& self.after.children == self.before.children
        &&& self.after.parent == self.before.parent
        &&& self.after.height == self.before.height
        &&& self.after.live_upward()
        &&& self.after.common_parents_cover()
        &&& forall|id: NodeId|
            (self.before.node_of(id) is Some) == (#[trigger] self.after.node_of(id) is Some)
        &&& forall|id: NodeId|
            self.before.node_of(id) == #[trigger] self.after.node_of(id) || (self.dirty.contains(id)
                && self.after.is_valid(id))
        &&& fold_dirty(self.after, self.dirty, 0, None) == Some(self.start)
    }

    /// The scope of a node in the tree as it is.
    pub open spec fn scope_of(self, id: NodeId) -> NodeId {
        scope_root(self.after, id, MAX_DEPTH as nat)
    }
}

/// The tree as it is, is a proper tree too.
proof fn lemma_changes_keep_proper(changes: Changes)
    requires
        changes.admissible(),
    ensures
        changes.after.is_proper(),
{
    lemma_same_shape_is_proper(
        Change {
            before: changes.before,
            after: changes.after,
            rules: |id: NodeId, node: Node, area: Area, parent: Area, available: Area| None::<Area>,
            scope: changes.start,
        },
    );
}

/// The chosen start covers the scope of every live invalidated node.
pub proof fn lemma_start_covers_scope(changes: Changes, id: NodeId)
    requires
        changes.admissible(),
        changes.dirty.contains(id),
        changes.after.is_valid(id),
    ensures
        changes.before.covers(changes.start, changes.scope_of(id)),
{
    let k = choose|k: int| 0 <= k < changes.dirty.len() && changes.dirty[k] == id;
    lemma_fold_dirty_covers(changes.after, changes.dirty, 0, None, k);
    let steps = choose|steps: nat|
        changes.after.ancestor_within(changes.start, changes.scope_of(id), steps);
    lemma_same_parents_same_cover(
        changes.after,
        changes.before,
        changes.start,
        changes.scope_of(id),
        steps,
    );
}

/// A node whose scope lies above the chosen start has an area out of reach of
/// the changes: its own rules cannot have changed, nor those of its children
/// if it is sized by them, and so on below.
pub proof fn lemma_chain_is_steady(changes: Changes, id: NodeId, depth: nat)
    requires
        changes.admissible(),
        changes.before.strictly_covers(changes.scope_of(id), changes.start),
    ensures
        steady(changes.before, changes.after, id, depth),
    decreases depth,
{
    let before = changes.before;
    let after = changes.after;
    if before.node_of(id) != after.node_of(id) {
        lemma_start_covers_scope(changes, id);
        before.lemma_covers_one_way(changes.start, changes.scope_of(id));
        assert(false);
    }
    match before.node_of(id) {
        None => {},
        Some(node) => {
            if node.depends_on_inner() && depth > 0 {
                lemma_changes_keep_proper(changes);
                assert(before.children_of(id) == after.children_of(id));
                assert forall|i: int| 0 <= i < before.children_of(id).len() implies steady(
                    before,
                    after,
                    #[trigger] before.children_of(id)[i],
                    (depth - 1) as nat,
                ) by {
                    let child = before.children_of(id)[i];
                    assert(before.parent_of(child) == Some(id));
                    assert(after.parent_of(child) == Some(id));
                    assert(after.height_of(child).unwrap() == after.height_of(id).unwrap() + 1);
                    lemma_scope_root_any_steps(
                        after,
                        id,
                        (MAX_DEPTH - 1) as nat,
                        MAX_DEPTH as nat,
                    );
                    assert(changes.scope_of(child) == changes.scope_of(id));
                    lemma_chain_is_steady(changes, child, (depth - 1) as nat);
                }
            }
        },
    }
}

/// The scope of a node that has a parent with rules lies above the node.
proof fn lemma_scope_lies_above(tree: TreeModel, id: NodeId)
    requires
        tree.heights_follow_parents(),
        match tree.parent_of(id) {
            Some(p) => tree.node_of(p) is Some,
            None => false,
        },
    ensures
        tree.strictly_covers(scope_root(tree, id, MAX_DEPTH as nat), id),
{
    lemma_scope_root_shape(tree, id, MAX_DEPTH as nat);
    lemma_scope_root_covers(tree, id, MAX_DEPTH as nat);
}

/// After the rules of any number of nodes have changed in a proper tree, the
/// pass that the engine makes leaves the cache as a pass over the whole tree
/// would.
///
/// The cache holds what a pass over the whole tree as it was records, from a
/// root without a parent. Rules change, but no node comes or goes; the host
/// has invalidated every node whose rules changed; and every live invalidated
/// node had been measured. Then, after the engine has measured again, the
/// cache holds what a pass over the whole tree as it is records.
pub proof fn lemma_pass_after_changes_is_complete(
    state: EngineState,
    before: TreeModel,
    after: TreeModel,
    rules: MeasureRules,
    root: NodeId,
    area: Area,
)
    requires
        before.is_proper(),
        before.parent_of(root) is None,
        after.children == before.children,
        after.parent == before.parent,
        after.height == before.height,
        after.live_upward(),
        after.common_parents_cover(),
        forall|id: NodeId| (before.node_of(id) is Some) == (#[trigger] after.node_of(id) is Some),
        forall|id: NodeId|
            before.node_of(id) == #[trigger] after.node_of(id) || (state.dirty.contains(id)
                && after.is_valid(id)),
        forall|i: int|
            0 <= i < state.dirty.len() && after.is_valid(state.dirty[i]) ==> full_pass(
                before,
                rules,
                root,
                area,
            ).contains_key(#[trigger] state.dirty[i]),
        holds_all(state.results, full_pass(before, rules, root, area)),
    ensures
        holds_all(
            state.measured(after, rules, root, area).results,
            full_pass(after, rules, root, area),
        ),
{
    let partial = state.measured(after, rules, root, area);
    let start = state.pass_start(after, root);
    let was = full_pass(before, rules, root, area);
    let is = full_pass(after, rules, root, area);
    let change = Change { before, after, rules, scope: start };
    lemma_same_shape_is_proper(change);
    if start != root {
        match fold_dirty(after, state.dirty, 0, None) {
            None => {
                // No live node was invalidated: no rules have changed.
                assert forall|id: NodeId| before.node_of(id) == #[trigger] after.node_of(id) by {
                    if state.dirty.contains(id) && after.is_valid(id) {
                        let k = choose|k: int| 0 <= k < state.dirty.len() && state.dirty[k] == id;
                        lemma_fold_dirty_covers(after, state.dirty, 0, None, k);
                    }
                }
                lemma_unchanged_is_steady(before, after, root, MAX_DEPTH as nat);
                if before.node_of(root) is Some {
                    lemma_same_below_same_layout(
                        before,
                        after,
                        rules,
                        root,
                        before.node_of(root).unwrap(),
                        area,
                        area,
                        MAX_DEPTH as nat,
                    );
                }
                assert(is == was);
                if was.contains_key(start) {
                    if start != root {
                        lemma_recorded_has_parent(
                            before,
                            rules,
                            root,
                            before.node_of(root).unwrap(),
                            area,
                            area,
                            MAX_DEPTH as nat,
                            start,
                        );
                    }
                    assert forall|depth: nat| #[trigger]
                        steady(before, after, start, depth) by {
                        lemma_unchanged_is_steady(before, after, start, depth);
                    }
                    assert(change.contained());
                    lemma_pass_from_steady_scope(change, state.results, root, area);
                    assert(partial.results =~= state.results.union_prefer_right(
                        change.remeasured(state.results[start], MAX_DEPTH as nat),
                    ));
                } else {
                    assert forall|id: NodeId| #[trigger]
                        is.contains_key(id) implies partial.results.contains_key(id)
                        && partial.results[id] == is[id] by {
                        match after.node_of(start) {
                            Some(node) => {
                                let again = layout_node(
                                    after,
                                    rules,
                                    start,
                                    node,
                                    state.pass_parent(after, root, area),
                                    state.pass_available(after, root, area),
                                    MAX_DEPTH as nat,
                                );
                                if again.entries.contains_key(id) {
                                    lemma_layout_stays_below(
                                        after,
                                        rules,
                                        start,
                                        node,
                                        state.pass_parent(after, root, area),
                                        state.pass_available(after, root, area),
                                        MAX_DEPTH as nat,
                                        id,
                                    );
                                    lemma_same_parents_same_cover(
                                        after,
                                        before,
                                        start,
                                        id,
                                        MAX_DEPTH as nat,
                                    );
                                    lemma_recorded_ancestor(
                                        before,
                                        rules,
                                        root,
                                        area,
                                        start,
                                        id,
                                        MAX_DEPTH as nat,
                                    );
                                }
                            },
                            None => {},
                        }
                    }
                }
            },
            Some(chosen) => {
                assert(start == chosen);
                let changes = Changes { before, after, dirty: state.dirty, start };
                assert(changes.admissible());
                // The start was measured: it lies above the scope of a node that was.
                let k = lemma_fold_some_has_live(after, state.dirty, 0);
                let live = state.dirty[k];
                lemma_scope_of_recorded_is_recorded(
                    before,
                    after,
                    rules,
                    root,
                    area,
                    live,
                    MAX_DEPTH as nat,
                );
                lemma_start_covers_scope(changes, live);
                let reach = choose|reach: nat|
                    before.ancestor_within(start, changes.scope_of(live), reach);
                lemma_recorded_ancestor(
                    before,
                    rules,
                    root,
                    area,
                    start,
                    changes.scope_of(live),
                    reach,
                );
                let first = before.node_of(root).unwrap();
                lemma_recorded_has_parent(
                    before,
                    rules,
                    root,
                    first,
                    area,
                    area,
                    MAX_DEPTH as nat,
                    start,
                );
                // The scope of the start lies above it, so its area is out of reach.
                lemma_scope_lies_above(after, start);
                let above = scope_root(after, start, MAX_DEPTH as nat);
                let up = choose|up: nat| after.ancestor_within(above, start, up);
                lemma_same_parents_same_cover(after, before, above, start, up);
                assert forall|depth: nat| #[trigger] steady(before, after, start, depth) by {
                    lemma_chain_is_steady(changes, start, depth);
                }
                // Every node whose rules have changed lies below the start.
                assert forall|id: NodeId|
                    before.node_of(id) == #[trigger] after.node_of(id) || before.strictly_covers(
                        start,
                        id,
                    ) by {
                    if before.node_of(id) != after.node_of(id) {
                        let j = choose|j: int| 0 <= j < state.dirty.len() && state.dirty[j] == id;
                        assert(was.contains_key(state.dirty[j]));
                        lemma_start_covers_scope(changes, id);
                        let scope = changes.scope_of(id);
                        if id == root {
                            lemma_scope_root_covers(after, id, MAX_DEPTH as nat);
                            assert(scope == root);
                            let n = choose|n: nat| before.ancestor_within(start, root, n);
                            assert(false);
                        }
                        lemma_recorded_has_parent(
                            before,
                            rules,
                            root,
                            first,
                            area,
                            area,
                            MAX_DEPTH as nat,
                            id,
                        );
                        lemma_scope_lies_above(after, id);
                        let n = choose|n: nat| after.ancestor_within(scope, id, n);
                        lemma_same_parents_same_cover(after, before, scope, id, n);
                        before.lemma_covers_chain(start, scope, id);
                        if start == id {
                            before.lemma_covers_one_way(scope, id);
                        }
                    }
                }
                assert(change.contained());
                lemma_pass_from_steady_scope(change, state.results, root, area);
                assert(partial.results =~= state.results.union_prefer_right(
                    change.remeasured(state.results[start], MAX_DEPTH as nat),
                ));
            },
        }
    } else {
        assert forall|id: NodeId| #[trigger] is.contains_key(id) implies partial.results.contains_key(
            id,
        ) && partial.results[id] == is[id] by {}
    }
}

} // verus!
