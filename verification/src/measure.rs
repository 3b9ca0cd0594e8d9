//! The measurement algorithm: one descent that sizes a node, places its
//! children one after the other, and records every area it computes.

use std::collections::HashMap;
use vstd::prelude::*;
use crate::custom_measurer::{consult, rules_of, LayoutMeasurer, MeasureRules};
use crate::direction::DirectionMode;
use crate::dom_adapter::{DOMAdapter, NodeId, TreeModel};
use crate::geometry::{
    at_least_zero, floor_zero, larger, max_of, minus, plus, saturate, Area, Length, Point2D, Rect,
    Size2D, UNBOUNDED,
};
use crate::node::Node;
use crate::size::{percent_of, Size};

verus! {

/// How many levels below its root a pass descends. No tree whose heights fit
/// the adapter's `u16` is deeper.
pub const MAX_DEPTH: usize = 65535;

/// What the cache keeps of a node: its area, and what that area was computed
/// against.
#[derive(Clone, Copy, Debug, PartialEq, Eq, Structural)]
pub struct NodeAreas {
    /// The area of the node.
    pub area: Area,
    /// The content area of the parent, against which percentages resolve.
    pub parent: Area,
    /// The area that the parent handed to the node.
    pub available: Area,
}

/// The outcome of measuring one subtree: the area of its root, and an entry
/// for every node that was measured.
pub struct Layout {
    pub area: Area,
    pub entries: Map<NodeId, NodeAreas>,
}

/// How the main axis of a node is shared among its children.
#[derive(Clone, Copy, Debug, PartialEq, Eq, Structural)]
pub struct FillPlan {
    /// What the children with a fixed extent and the spacing leave over.
    pub remaining: i32,
    /// How many children fill.
    pub fills: usize,
}

/// Where the placing of a node's children stands.
pub struct Placement {
    /// How many children have been placed.
    pub placed: nat,
    /// How many of them fill along the main axis.
    pub filled: nat,
    /// The extent of the placed children along the main axis, spacing included.
    pub extent: i32,
    /// The largest extent of a placed child along the cross axis.
    pub cross: i32,
    /// The entries of the placed children's subtrees.
    pub entries: Map<NodeId, NodeAreas>,
}

impl Placement {
    /// Nothing placed yet.
    pub open spec fn start() -> Placement {
        Placement { placed: 0, filled: 0, extent: 0, cross: 0, entries: Map::empty() }
    }
}

/// The area of a node as its rules give it before its children are looked at:
/// it starts where the available area starts.
pub open spec fn proposed_area(node: Node, parent: Area, available: Area) -> Area {
    Rect {
        origin: available.origin,
        size: Size2D {
            width: node.width.resolved(
                parent.size.width as int,
                available.size.width as int,
            ) as i32,
            height: node.height.resolved(
                parent.size.height as int,
                available.size.height as int,
            ) as i32,
        },
    }
}

/// The area inside `area` that the children of `node` are laid out in: the
/// padding is taken off, and an axis that is sized by the children is unbounded.
/// An area that the host measured (`overridden`) is bounded on both axes.
pub open spec fn content_area(node: Node, area: Area, overridden: bool) -> Area {
    Rect {
        origin: Point2D {
            x: saturate(area.origin.x + at_least_zero(node.padding.left as int)) as i32,
            y: saturate(area.origin.y + at_least_zero(node.padding.top as int)) as i32,
        },
        size: Size2D {
            width: if node.width.inner() && !overridden {
                UNBOUNDED
            } else {
                at_least_zero(saturate(area.size.width - node.padding.horizontal())) as i32
            },
            height: if node.height.inner() && !overridden {
                UNBOUNDED
            } else {
                at_least_zero(saturate(area.size.height - node.padding.vertical())) as i32
            },
        },
    }
}

/// The sum of the extents of the first `upto` children along the main axis,
/// counting only those whose rule is fixed.
pub open spec fn fixed_extent(
    nodes: Seq<Option<Node>>,
    direction: DirectionMode,
    main_len: int,
    upto: int,
) -> int
    decreases upto,
{
    if upto <= 0 {
        0
    } else {
        fixed_extent(nodes, direction, main_len, upto - 1) + match nodes[upto - 1] {
            Some(child) => if child.main_rule(direction).fixed() {
                child.main_rule(direction).resolved(main_len, 0)
            } else {
                0
            },
            None => 0,
        }
    }
}

/// How many of the first `upto` children fill along the main axis.
pub open spec fn fill_count(nodes: Seq<Option<Node>>, direction: DirectionMode, upto: int) -> int
    decreases upto,
{
    if upto <= 0 {
        0
    } else {
        fill_count(nodes, direction, upto - 1) + match nodes[upto - 1] {
            Some(child) => if child.main_rule(direction).fills() {
                1int
            } else {
                0int
            },
            None => 0int,
        }
    }
}

/// How many of the first `upto` children are still there.
pub open spec fn present_count(nodes: Seq<Option<Node>>, upto: int) -> int
    decreases upto,
{
    if upto <= 0 {
        0
    } else {
        present_count(nodes, upto - 1) + if nodes[upto - 1] is Some {
            1int
        } else {
            0int
        }
    }
}

/// The plan for the children of `node`, whose content extends by `main_len`
/// along its main axis: what is left once the fixed children and the spacing
/// between all children are taken off, never less than zero.
pub open spec fn fill_plan(nodes: Seq<Option<Node>>, node: Node, main_len: int) -> FillPlan {
    let n = nodes.len() as int;
    let gaps = at_least_zero(node.spacing.0 as int) * at_least_zero(present_count(nodes, n) - 1);
    FillPlan {
        remaining: at_least_zero(
            saturate(main_len - fixed_extent(nodes, node.direction, main_len, n) - gaps),
        ) as i32,
        fills: fill_count(nodes, node.direction, n) as usize,
    }
}

/// The share of the `k`-th filling child: an equal part of what remains, and
/// one pixel more for the first children while the division leaves a rest.
pub open spec fn fill_share(plan: FillPlan, k: int) -> int {
    if plan.fills == 0 {
        0
    } else {
        let remaining = at_least_zero(plan.remaining as int);
        remaining / (plan.fills as int) + if k < remaining % (plan.fills as int) {
            1int
        } else {
            0int
        }
    }
}

/// How far from the start of the content the next child begins.
pub open spec fn child_offset(node: Node, acc: Placement) -> int {
    if acc.placed == 0 {
        0
    } else {
        saturate(acc.extent + at_least_zero(node.spacing.0 as int))
    }
}

/// The area handed to the next child `child` of `node`: it starts after the
/// children placed so far; along the main axis a filling child gets its
/// share and any other child what is left of the content; along the cross axis
/// every child gets the whole content.
pub open spec fn child_available(
    node: Node,
    content: Area,
    plan: FillPlan,
    child: Node,
    acc: Placement,
) -> Area {
    let direction = node.direction;
    let offset = child_offset(node, acc);
    Rect::on_axes(
        direction,
        saturate(content.origin.main_axis(direction) + offset) as i32,
        content.origin.cross_axis(direction) as i32,
        if child.main_rule(direction).fills() {
            fill_share(plan, acc.filled as int) as i32
        } else {
            at_least_zero(saturate(content.size.main_axis(direction) - offset)) as i32
        },
        content.size.cross_axis(direction) as i32,
    )
}

/// The placement after the next child, `child`, has been placed and its
/// subtree measured to `measured`.
pub open spec fn advance(node: Node, child: Node, acc: Placement, measured: Layout) -> Placement {
    let direction = node.direction;
    Placement {
        placed: acc.placed + 1,
        filled: if child.main_rule(direction).fills() {
            acc.filled + 1
        } else {
            acc.filled
        },
        extent: saturate(
            child_offset(node, acc) + at_least_zero(measured.area.size.main_axis(direction)),
        ) as i32,
        cross: larger(
            acc.cross as int,
            at_least_zero(measured.area.size.cross_axis(direction)),
        ) as i32,
        entries: acc.entries.union_prefer_right(measured.entries),
    }
}

/// The final area of `node`, whose children extend by `extent` along its main
/// axis and by `cross` along the other: on an axis sized by the children,
/// their extent plus the padding; elsewhere what `area` holds. An area that
/// the host measured stays as it is.
pub open spec fn settled_area(
    node: Node,
    area: Area,
    overridden: bool,
    extent: i32,
    cross: i32,
) -> Area {
    if overridden {
        area
    } else {
        let inner = Size2D::on_axes(node.direction, extent, cross);
        Rect {
            origin: area.origin,
            size: Size2D {
                width: if node.width.inner() {
                    saturate(inner.width + node.padding.horizontal()) as i32
                } else {
                    area.size.width
                },
                height: if node.height.inner() {
                    saturate(inner.height + node.padding.vertical()) as i32
                } else {
                    area.size.height
                },
            },
        }
    }
}

/// The layout of the subtree of `id`, whose rules are `node`, against the
/// content area `parent` of its parent and the area `available` handed to it,
/// descending at most `depth` levels.
///
/// The node's area is first proposed from its rules. The measurer may replace
/// it. The children are then placed in order inside the content of that area,
/// each measured before the next is placed. Last, the axes sized by the
/// children are settled and the node's entry is recorded.
pub open spec fn layout_node(
    tree: TreeModel,
    rules: MeasureRules,
    id: NodeId,
    node: Node,
    parent: Area,
    available: Area,
    depth: nat,
) -> Layout
    decreases depth, 0nat,
{
    let proposed = proposed_area(node, parent, available);
    let measured = rules(id, node, proposed, parent, available);
    let overridden = measured is Some;
    let area = match measured {
        Some(a) => a,
        None => proposed,
    };
    let content = content_area(node, area, overridden);
    let kids = if depth == 0 {
        Placement::start()
    } else {
        let children = tree.children_of(id);
        place_children(
            tree,
            rules,
            children,
            node,
            content,
            fill_plan(tree.nodes_of(children), node, content.size.main_axis(node.direction)),
            0,
            Placement::start(),
            (depth - 1) as nat,
        )
    };
    let settled = settled_area(node, area, overridden, kids.extent, kids.cross);
    Layout {
        area: settled,
        entries: kids.entries.insert(id, NodeAreas { area: settled, parent, available }),
    }
}

/// The placement of the children from the `i`-th on, starting from `acc`. A
/// child whose node is gone is passed over.
pub open spec fn place_children(
    tree: TreeModel,
    rules: MeasureRules,
    children: Seq<NodeId>,
    node: Node,
    content: Area,
    plan: FillPlan,
    i: int,
    acc: Placement,
    depth: nat,
) -> Placement
    decreases depth, children.len() - i + 1,
{
    if i < 0 || i >= children.len() {
        acc
    } else {
        match tree.node_of(children[i]) {
            None => place_children(tree, rules, children, node, content, plan, i + 1, acc, depth),
            Some(child) => {
                let measured = layout_node(
                    tree,
                    rules,
                    children[i],
                    child,
                    content,
                    child_available(node, content, plan, child, acc),
                    depth,
                );
                place_children(
                    tree,
                    rules,
                    children,
                    node,
                    content,
                    plan,
                    i + 1,
                    advance(node, child, acc, measured),
                    depth,
                )
            },
        }
    }
}

/// The subtree's own root is always recorded, with what it was measured
/// against.
pub proof fn lemma_layout_records_root(
    tree: TreeModel,
    rules: MeasureRules,
    id: NodeId,
    node: Node,
    parent: Area,
    available: Area,
    depth: nat,
)
    ensures
        ({
            let layout = layout_node(tree, rules, id, node, parent, available, depth);
            &&& layout.entries.contains_key(id)
            &&& layout.entries[id] == NodeAreas { area: layout.area, parent, available }
        }),
{
}

/// In a tree whose links agree, a pass records nothing but the node it starts
/// at and nodes below it.
pub proof fn lemma_layout_stays_below(
    tree: TreeModel,
    rules: MeasureRules,
    id: NodeId,
    node: Node,
    parent: Area,
    available: Area,
    depth: nat,
    other: NodeId,
)
    requires
        tree.links_agree(),
        layout_node(tree, rules, id, node, parent, available, depth).entries.contains_key(other),
    ensures
        tree.ancestor_within(id, other, depth),
        tree.covers(id, other),
    decreases depth, 0nat,
{
    if other != id {
        let proposed = proposed_area(node, parent, available);
        let measured = rules(id, node, proposed, parent, available);
        let area = match measured {
            Some(a) => a,
            None => proposed,
        };
        let content = content_area(node, area, measured is Some);
        let children = tree.children_of(id);
        lemma_placement_stays_below(
            tree,
            rules,
            id,
            children,
            node,
            content,
            fill_plan(tree.nodes_of(children), node, content.size.main_axis(node.direction)),
            0,
            Placement::start(),
            (depth - 1) as nat,
            other,
        );
    }
}

/// In a tree whose links agree, placing the children of `owner` records
/// nothing but nodes below `owner`.
proof fn lemma_placement_stays_below(
    tree: TreeModel,
    rules: MeasureRules,
    owner: NodeId,
    children: Seq<NodeId>,
    node: Node,
    content: Area,
    plan: FillPlan,
    i: int,
    acc: Placement,
    depth: nat,
    other: NodeId,
)
    requires
        tree.links_agree(),
        children == tree.children_of(owner),
        0 <= i,
        place_children(
            tree,
            rules,
            children,
            node,
            content,
            plan,
            i,
            acc,
            depth,
        ).entries.contains_key(other),
    ensures
        acc.entries.contains_key(other) || tree.ancestor_within(owner, other, depth + 1),
    decreases depth, children.len() - i + 1,
{
    if i < children.len() {
        match tree.node_of(children[i]) {
            None => {
                lemma_placement_stays_below(
                    tree,
                    rules,
                    owner,
                    children,
                    node,
                    content,
                    plan,
                    i + 1,
                    acc,
                    depth,
                    other,
                );
            },
            Some(child) => {
                let available = child_available(node, content, plan, child, acc);
                let measured = layout_node(
                    tree,
                    rules,
                    children[i],
                    child,
                    content,
                    available,
                    depth,
                );
                let next = advance(node, child, acc, measured);
                lemma_placement_stays_below(
                    tree,
                    rules,
                    owner,
                    children,
                    node,
                    content,
                    plan,
                    i + 1,
                    next,
                    depth,
                    other,
                );
                if next.entries.contains_key(other) && !acc.entries.contains_key(other) {
                    assert(measured.entries.contains_key(other));
                    lemma_layout_stays_below(
                        tree,
                        rules,
                        children[i],
                        child,
                        content,
                        available,
                        depth,
                        other,
                    );
                    assert(tree.parent_of(tree.children_of(owner)[i]) == Some(owner));
                    assert(tree.ancestor_within(owner, owner, 0));
                    assert(tree.ancestor_within(owner, children[i], 1));
                    tree.lemma_ancestor_within_chain(owner, children[i], other, depth, 1);
                }
            },
        }
    }
}

/// The area of a node that is not sized by its children depends on its own
/// rules and on what it is measured against, not on anything below it: two
/// trees give it the same area.
pub proof fn lemma_area_without_inner(
    tree: TreeModel,
    other_tree: TreeModel,
    rules: MeasureRules,
    id: NodeId,
    node: Node,
    parent: Area,
    available: Area,
    depth: nat,
    other_depth: nat,
)
    requires
        !node.depends_on_inner(),
    ensures
        layout_node(tree, rules, id, node, parent, available, depth).area == layout_node(
            other_tree,
            rules,
            id,
            node,
            parent,
            available,
            other_depth,
        ).area,
{
}

/// A width given in hundredths of the parent is that part of the parent's
/// content, whatever the siblings are, unless the host measured the node.
pub proof fn lemma_percentage_width(
    tree: TreeModel,
    rules: MeasureRules,
    id: NodeId,
    node: Node,
    parent: Area,
    available: Area,
    depth: nat,
    percent: Length,
)
    requires
        node.width == Size::Percentage(percent),
        rules(id, node, proposed_area(node, parent, available), parent, available) is None,
    ensures
        layout_node(tree, rules, id, node, parent, available, depth).area.size.width == percent_of(
            parent.size.width as int,
            percent.0 as int,
        ),
{
}

/// A height given in hundredths of the parent is that part of the parent's
/// content, whatever the siblings are, unless the host measured the node.
pub proof fn lemma_percentage_height(
    tree: TreeModel,
    rules: MeasureRules,
    id: NodeId,
    node: Node,
    parent: Area,
    available: Area,
    depth: nat,
    percent: Length,
)
    requires
        node.height == Size::Percentage(percent),
        rules(id, node, proposed_area(node, parent, available), parent, available) is None,
    ensures
        layout_node(tree, rules, id, node, parent, available, depth).area.size.height
            == percent_of(parent.size.height as int, percent.0 as int),
{
}

/// The shares of the first `upto` filling children together.
pub open spec fn shares_total(plan: FillPlan, upto: int) -> int
    decreases upto,
{
    if upto <= 0 {
        0
    } else {
        shares_total(plan, upto - 1) + fill_share(plan, upto - 1)
    }
}

/// The shares of the first `upto` filling children: so many equal parts, and
/// one pixel of the rest for each of them while it lasts.
proof fn lemma_shares_total(plan: FillPlan, upto: int)
    requires
        plan.fills > 0,
        0 <= upto,
    ensures
        ({
            let remaining = at_least_zero(plan.remaining as int);
            let rest = remaining % (plan.fills as int);
            shares_total(plan, upto) == upto * (remaining / (plan.fills as int)) + if upto < rest {
                upto
            } else {
                rest
            }
        }),
    decreases upto,
{
    let remaining = at_least_zero(plan.remaining as int);
    let fills = plan.fills as int;
    let part = remaining / fills;
    assert(0 <= remaining % fills < fills) by (nonlinear_arith)
        requires
            fills > 0,
            remaining >= 0,
    ;
    if upto > 0 {
        lemma_shares_total(plan, upto - 1);
        assert(upto * part == (upto - 1) * part + part) by (nonlinear_arith);
    } else {
        assert(upto * part == 0) by (nonlinear_arith)
            requires
                upto == 0,
        ;
    }
}

/// The filling children share all that remains: their shares add up to it,
/// and no two shares differ by more than one pixel.
pub proof fn lemma_fill_shares_use_what_remains(plan: FillPlan)
    requires
        plan.fills > 0,
    ensures
        shares_total(plan, plan.fills as int) == at_least_zero(plan.remaining as int),
        forall|k: int|
            0 <= k < plan.fills ==> {
                let part = at_least_zero(plan.remaining as int) / (plan.fills as int);
                part <= #[trigger] fill_share(plan, k) <= part + 1
            },
        forall|j: int, k: int|
            0 <= j <= k < plan.fills ==> #[trigger] fill_share(plan, j) >= #[trigger] fill_share(
                plan,
                k,
            ),
{
    lemma_shares_total(plan, plan.fills as int);
    let remaining = at_least_zero(plan.remaining as int);
    let fills = plan.fills as int;
    assert(remaining == fills * (remaining / fills) + remaining % fills && 0 <= remaining % fills
        < fills) by (nonlinear_arith)
        requires
            fills > 0,
            remaining >= 0,
    ;
    assert(fills * (remaining / fills) == (remaining / fills) * fills) by (nonlinear_arith);
}

/// A child that fills along the main axis of its parent is proposed exactly
/// its share of it, which is never more than what remains.
pub proof fn lemma_filling_child_gets_its_share(
    node: Node,
    content: Area,
    plan: FillPlan,
    child: Node,
    acc: Placement,
)
    requires
        child.main_rule(node.direction).fills(),
    ensures
        0 <= fill_share(plan, acc.filled as int) <= at_least_zero(plan.remaining as int),
        proposed_area(
            child,
            content,
            child_available(node, content, plan, child, acc),
        ).size.main_axis(node.direction) == fill_share(plan, acc.filled as int),
{
    if plan.fills > 0 {
        let remaining = at_least_zero(plan.remaining as int);
        let fills = plan.fills as int;
        let k = acc.filled as int;
        assert(0 <= remaining / fills && remaining / fills + if k < remaining % fills {
            1int
        } else {
            0int
        } <= remaining) by (nonlinear_arith)
            requires
                fills >= 1,
                remaining >= 0,
                k >= 0,
        ;
    }
}

/// Proposes the area of a node from its rules.
pub fn propose(node: &Node, parent: &Area, available: &Area) -> (proposed: Area)
    ensures
        proposed == proposed_area(*node, *parent, *available),
{
    Rect {
        origin: available.origin,
        size: Size2D {
            width: node.width.eval(parent.size.width, available.size.width),
            height: node.height.eval(parent.size.height, available.size.height),
        },
    }
}

/// The area in which the children of `node` are laid out.
pub fn content_of(node: &Node, area: &Area, overridden: bool) -> (content: Area)
    ensures
        content == content_area(*node, *area, overridden),
{
    let width: i32 = if node.width.is_inner() && !overridden {
        UNBOUNDED
    } else {
        floor_zero(minus(area.size.width, node.padding.horizontal_sum()))
    };
    let height: i32 = if node.height.is_inner() && !overridden {
        UNBOUNDED
    } else {
        floor_zero(minus(area.size.height, node.padding.vertical_sum()))
    };
    Rect {
        origin: Point2D {
            x: plus(area.origin.x, floor_zero(node.padding.left)),
            y: plus(area.origin.y, floor_zero(node.padding.top)),
        },
        size: Size2D { width, height },
    }
}

/// Settles the axes of `area` that are sized by the children.
pub fn settle(node: &Node, area: &Area, overridden: bool, extent: i32, cross: i32) -> (settled:
    Area)
    ensures
        settled == settled_area(*node, *area, overridden, extent, cross),
{
    if overridden {
        *area
    } else {
        let inner = Size2D::from_axes(&node.direction, extent, cross);
        let width: i32 = if node.width.is_inner() {
            plus(inner.width, node.padding.horizontal_sum())
        } else {
            area.size.width
        };
        let height: i32 = if node.height.is_inner() {
            plus(inner.height, node.padding.vertical_sum())
        } else {
            area.size.height
        };
        Rect { origin: area.origin, size: Size2D { width, height } }
    }
}

/// Fetches the rules of every child and plans the sharing of the main axis.
pub fn survey_children<D: DOMAdapter>(
    adapter: &D,
    children: &Vec<NodeId>,
    node: &Node,
    main_len: i32,
) -> (survey: (Vec<Option<Node>>, FillPlan))
    ensures
        survey.0@ == adapter.tree().nodes_of(children@),
        survey.1 == fill_plan(survey.0@, *node, main_len as int),
{
    let direction = node.direction;
    let ghost all = adapter.tree().nodes_of(children@);
    let mut nodes: Vec<Option<Node>> = Vec::new();
    let mut fixed: i128 = 0;
    let mut fills: usize = 0;
    let mut present: usize = 0;
    let mut i: usize = 0;
    while i < children.len()
        invariant
            i <= children.len(),
            all == adapter.tree().nodes_of(children@),
            nodes@.len() == i,
            forall|j: int| 0 <= j < i ==> nodes@[j] == all[j],
            fixed == fixed_extent(all, direction, main_len as int, i as int),
            0 <= fixed <= i * 2147483647,
            fills == fill_count(all, direction, i as int),
            fills <= i,
            present == present_count(all, i as int),
            present <= i,
        decreases children.len() - i,
    {
        let child = adapter.get_node(&children[i]);
        match child {
            Some(c) => {
                present = present + 1;
                let rule = c.main_rule_of(&direction);
                if rule.is_fixed() {
                    fixed = fixed + rule.eval(main_len, 0) as i128;
                } else if rule.is_fill() {
                    fills = fills + 1;
                }
            },
            None => {},
        }
        nodes.push(child);
        i = i + 1;
    }
    assert(nodes@ =~= all);
    let spacing: i128 = floor_zero(node.spacing.0) as i128;
    let between: i128 = if present > 0 {
        (present - 1) as i128
    } else {
        0
    };
    assert(0 <= spacing * between <= 2147483647 * 18446744073709551615) by (nonlinear_arith)
        requires
            0 <= spacing <= 2147483647,
            0 <= between <= 18446744073709551615,
    ;
    let total: i128 = main_len as i128 - fixed - spacing * between;
    let remaining: i32 = if total < 0 {
        0
    } else {
        total as i32
    };
    (nodes, FillPlan { remaining, fills })
}

/// The share of the `k`-th filling child.
pub fn share_of(plan: &FillPlan, k: usize) -> (share: i32)
    ensures
        share == fill_share(*plan, k as int),
{
    if plan.fills == 0 {
        return 0;
    }
    let remaining: u64 = floor_zero(plan.remaining) as u64;
    let fills: u64 = plan.fills as u64;
    let base: u64 = remaining / fills;
    let rest: u64 = remaining % fills;
    let extra: u64 = if (k as u64) < rest {
        1
    } else {
        0
    };
    assert(base + extra <= remaining) by (nonlinear_arith)
        requires
            fills >= 1,
            base == remaining / fills,
            rest == remaining % fills,
            extra <= 1,
            extra == 1 ==> rest >= 1,
    ;
    (base + extra) as i32
}

/// Measures the subtree of `node_id` and records every area in `results`.
///
/// `node` holds the rules of `node_id`, `parent` the content area of its
/// parent and `available` the area handed to it. The pass descends at most
/// `depth` levels. The adapter and the measurer answer as before the call.
pub fn measure_node<D: DOMAdapter, M: LayoutMeasurer>(
    node_id: NodeId,
    node: &Node,
    results: &mut HashMap<NodeId, NodeAreas>,
    parent: &Area,
    available: &Area,
    measurer: &mut Option<M>,
    adapter: &mut D,
    depth: usize,
) -> (area: Area)
    ensures
        final(adapter).tree() == old(adapter).tree(),
        rules_of(*final(measurer)) == rules_of(*old(measurer)),
        area == layout_node(
            old(adapter).tree(),
            rules_of(*old(measurer)),
            node_id,
            *node,
            *parent,
            *available,
            depth as nat,
        ).area,
        final(results)@ == old(results)@.union_prefer_right(
            layout_node(
                old(adapter).tree(),
                rules_of(*old(measurer)),
                node_id,
                *node,
                *parent,
                *available,
                depth as nat,
            ).entries,
        ),
    decreases depth, 0nat,
{
    let ghost before = results@;
    let proposed = propose(node, parent, available);
    let measured = consult(measurer, node_id, node, &proposed, parent, available);
    let (area, overridden) = match measured {
        Some(a) => (a, true),
        None => (proposed, false),
    };
    let content = content_of(node, &area, overridden);
    let (extent, cross) = if depth == 0 {
        assert(results@ =~= before.union_prefer_right(Placement::start().entries));
        (0i32, 0i32)
    } else {
        measure_children(node_id, node, results, &content, measurer, adapter, depth - 1)
    };
    let settled = settle(node, &area, overridden, extent, cross);
    let entry = NodeAreas { area: settled, parent: *parent, available: *available };
    results.insert(node_id, entry);
    proof {
        let layout = layout_node(
            old(adapter).tree(),
            rules_of(*old(measurer)),
            node_id,
            *node,
            *parent,
            *available,
            depth as nat,
        );
        assert(results@ =~= before.union_prefer_right(layout.entries));
    }
    settled
}

/// Places the children of `node_id` inside `content`, measuring each subtree
/// before the next child is placed. Returns the extent of the children along
/// the main axis and their largest extent along the cross axis.
pub fn measure_children<D: DOMAdapter, M: LayoutMeasurer>(
    node_id: NodeId,
    node: &Node,
    results: &mut HashMap<NodeId, NodeAreas>,
    content: &Area,
    measurer: &mut Option<M>,
    adapter: &mut D,
    depth: usize,
) -> (inner: (i32, i32))
    ensures
        final(adapter).tree() == old(adapter).tree(),
        rules_of(*final(measurer)) == rules_of(*old(measurer)),
        ({
            let tree = old(adapter).tree();
            let children = tree.children_of(node_id);
            let kids = place_children(
                tree,
                rules_of(*old(measurer)),
                children,
                *node,
                *content,
                fill_plan(tree.nodes_of(children), *node, content.size.main_axis(node.direction)),
                0,
                Placement::start(),
                depth as nat,
            );
            &&& inner.0 == kids.extent
            &&& inner.1 == kids.cross
            &&& final(results)@ == old(results)@.union_prefer_right(kids.entries)
        }),
    decreases depth, 1nat,
{
    let ghost before = results@;
    let ghost tree = adapter.tree();
    let ghost rules = rules_of(*measurer);
    let direction = node.direction;
    let children = adapter.children_of(&node_id);
    let (nodes, plan) = survey_children(adapter, &children, node, content.size.main_of(&direction));
    let ghost whole = place_children(
        tree,
        rules,
        children@,
        *node,
        *content,
        plan,
        0,
        Placement::start(),
        depth as nat,
    );
    let ghost mut acc = Placement::start();
    let mut placed: usize = 0;
    let mut filled: usize = 0;
    let mut extent: i32 = 0;
    let mut cross: i32 = 0;
    let mut i: usize = 0;
    assert(results@ =~= before.union_prefer_right(acc.entries));
    while i < children.len()
        invariant
            i <= children.len(),
            adapter.tree() == tree,
            rules_of(*measurer) == rules,
            nodes@ == tree.nodes_of(children@),
            direction == node.direction,
            acc.placed == placed,
            acc.filled == filled,
            acc.extent == extent,
            acc.cross == cross,
            placed <= i,
            filled <= i,
            results@ == before.union_prefer_right(acc.entries),
            place_children(
                tree,
                rules,
                children@,
                *node,
                *content,
                plan,
                i as int,
                acc,
                depth as nat,
            ) == whole,
        decreases children.len() - i,
    {
        assert(nodes@[i as int] == tree.node_of(children@[i as int]));
        match nodes[i] {
            None => {},
            Some(child) => {
                let offset: i32 = if placed == 0 {
                    0
                } else {
                    plus(extent, floor_zero(node.spacing.0))
                };
                let fills = child.main_rule_of(&direction).is_fill();
                let main_len: i32 = if fills {
                    share_of(&plan, filled)
                } else {
                    floor_zero(minus(content.size.main_of(&direction), offset))
                };
                let available = Rect::from_axes(
                    &direction,
                    plus(content.origin.main_of(&direction), offset),
                    content.origin.cross_of(&direction),
                    main_len,
                    content.size.cross_of(&direction),
                );
                assert(available == child_available(*node, *content, plan, child, acc));
                let ghost earlier = results@;
                let child_area = measure_node(
                    children[i],
                    &child,
                    results,
                    content,
                    &available,
                    measurer,
                    adapter,
                    depth,
                );
                proof {
                    let measured = layout_node(
                        tree,
                        rules,
                        children@[i as int],
                        child,
                        *content,
                        available,
                        depth as nat,
                    );
                    let next = advance(*node, child, acc, measured);
                    assert(results@ =~= before.union_prefer_right(next.entries));
                    acc = next;
                }
                extent = plus(offset, floor_zero(child_area.size.main_of(&direction)));
                cross = max_of(cross, floor_zero(child_area.size.cross_of(&direction)));
                placed = placed + 1;
                if fills {
                    filled = filled + 1;
                }
            },
        }
        i = i + 1;
    }
    (extent, cross)
}

} // verus!
