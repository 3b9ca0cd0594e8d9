//! The axis along which a node stacks its children.

use vstd::prelude::*;

verus! {

/// Stacking direction of a node's children.
#[derive(Clone, Copy, Debug, PartialEq, Eq, Structural)]
pub enum DirectionMode {
    /// Children are placed one below the other: the main axis is the vertical one.
    Vertical,
    /// Children are placed side by side: the main axis is the horizontal one.
    Horizontal,
}

impl DirectionMode {
    /// Whether the main axis is the horizontal one.
    pub open spec fn horizontal(self) -> bool {
        self is Horizontal
    }

    /// Whether the main axis is the horizontal one.
    pub fn is_horizontal(&self) -> (r: bool)
        ensures
            r == self.horizontal(),
    {
        match self {
            DirectionMode::Horizontal => true,
            DirectionMode::Vertical => false,
        }
    }
}

} // verus!
