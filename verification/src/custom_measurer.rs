//! The hook by which a host measures nodes whose size the rules cannot give.

use vstd::prelude::*;
use crate::dom_adapter::NodeId;
use crate::geometry::Area;
use crate::node::Node;

verus! {

/// What a measurer answers, as a mathematical function of what it is asked:
/// the node's id, its rules, the proposed area, the parent's content area and
/// the area available to the node.
pub type MeasureRules = spec_fn(NodeId, Node, Area, Area, Area) -> Option<Area>;

/// A host's own measurement of single nodes, such as text.
///
/// The answer must depend on the arguments alone: `measure` returns what
/// `rules()` gives and leaves `rules()` as it was. Counters and caches that do
/// not change the answers are free to change.
pub trait LayoutMeasurer {
    /// The answers of this measurer as a mathematical function. A measurer
    /// that is verified says here what it answers; left as it is, the function
    /// is one of which nothing is known.
    open spec fn rules(&self) -> MeasureRules {
        arbitrary()
    }

    /// The area that the node takes, or `None` to leave it to the sizing rules.
    fn measure(
        &mut self,
        node_id: NodeId,
        node: &Node,
        area: &Area,
        parent_size: &Area,
        available_parent_area: &Area,
    ) -> (measured: Option<Area>)
        ensures
            final(self).rules() == old(self).rules(),
            measured == (old(self).rules())(
                node_id,
                *node,
                *area,
                *parent_size,
                *available_parent_area,
            ),
    ;
}

/// The rules of a measurer that leaves every node to its sizing rules.
pub open spec fn no_rules() -> MeasureRules {
    |node_id: NodeId, node: Node, area: Area, parent_size: Area, available: Area| None::<Area>
}

/// The rules in force when the measurer is optional.
pub open spec fn rules_of<M: LayoutMeasurer>(measurer: Option<M>) -> MeasureRules {
    match measurer {
        Some(m) => m.rules(),
        None => no_rules(),
    }
}

/// The measurer of a host that has nothing to measure itself.
pub struct NoMeasurer;

impl LayoutMeasurer for NoMeasurer {
    open spec fn rules(&self) -> MeasureRules {
        no_rules()
    }

    fn measure(
        &mut self,
        node_id: NodeId,
        node: &Node,
        area: &Area,
        parent_size: &Area,
        available_parent_area: &Area,
    ) -> (measured: Option<Area>) {
        None
    }
}

/// Asks the measurer, if there is one.
pub fn consult<M: LayoutMeasurer>(
    measurer: &mut Option<M>,
    node_id: NodeId,
    node: &Node,
    area: &Area,
    parent_size: &Area,
    available_parent_area: &Area,
) -> (measured: Option<Area>)
    ensures
        rules_of(*final(measurer)) == rules_of(*old(measurer)),
        measured == rules_of(*old(measurer))(
            node_id,
            *node,
            *area,
            *parent_size,
            *available_parent_area,
        ),
{
    match measurer {
        Some(m) => m.measure(node_id, node, area, parent_size, available_parent_area),
        None => None,
    }
}

} // verus!
