//! The layout intent of one tree entry.

use vstd::prelude::*;
use crate::direction::DirectionMode;
use crate::geometry::{Gaps, Length};
use crate::size::Size;

verus! {

/// The sizing rules of one node. The host owns it; the engine only reads it.
#[derive(Clone, Copy, Debug, PartialEq, Eq, Structural)]
pub struct Node {
    /// Rule for the horizontal extent.
    pub width: Size,
    /// Rule for the vertical extent.
    pub height: Size,
    /// Axis along which the children are stacked.
    pub direction: DirectionMode,
    /// Space kept free inside the node's area, around its children.
    pub padding: Gaps,
    /// Space between two consecutive children, along the main axis.
    pub spacing: Length,
}

impl Node {
    /// A node sized by its children, stacking them vertically, with no padding
    /// and no spacing.
    pub fn new() -> (r: Self)
        ensures
            r == (Node {
                width: Size::Inner,
                height: Size::Inner,
                direction: DirectionMode::Vertical,
                padding: Gaps { top: 0, right: 0, bottom: 0, left: 0 },
                spacing: Length(0),
            }),
    {
        Node {
            width: Size::Inner,
            height: Size::Inner,
            direction: DirectionMode::Vertical,
            padding: Gaps::all(0),
            spacing: Length(0),
        }
    }

    /// A node with the given rules, no padding and no spacing.
    pub fn from_size_and_direction(width: Size, height: Size, direction: DirectionMode) -> (r:
        Self)
        ensures
            r == (Node {
                width,
                height,
                direction,
                padding: Gaps { top: 0, right: 0, bottom: 0, left: 0 },
                spacing: Length(0),
            }),
    {
        Node { width, height, direction, padding: Gaps::all(0), spacing: Length(0) }
    }

    /// The same node with another padding.
    pub fn with_padding(self, padding: Gaps) -> (r: Self)
        ensures
            r == (Node { padding, ..self }),
    {
        Node { padding, ..self }
    }

    /// The same node with another spacing between its children.
    pub fn with_spacing(self, spacing: Length) -> (r: Self)
        ensures
            r == (Node { spacing, ..self }),
    {
        Node { spacing, ..self }
    }

    /// Whether the node's own extent depends on its children on some axis.
    pub open spec fn depends_on_inner(self) -> bool {
        self.width.inner() || self.height.inner()
    }

    /// Whether the node's own extent depends on its children on some axis.
    pub fn does_depend_on_inner(&self) -> (r: bool)
        ensures
            r == self.depends_on_inner(),
    {
        self.width.is_inner() || self.height.is_inner()
    }

    /// The rule along the main axis of `direction`.
    pub open spec fn main_rule(self, direction: DirectionMode) -> Size {
        if direction.horizontal() {
            self.width
        } else {
            self.height
        }
    }

    /// The rule along the main axis of `direction`.
    pub fn main_rule_of(&self, direction: &DirectionMode) -> (r: Size)
        ensures
            r == self.main_rule(*direction),
    {
        if direction.is_horizontal() {
            self.width
        } else {
            self.height
        }
    }
}

} // verus!
