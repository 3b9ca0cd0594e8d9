//! The sizing rule of a node on one axis.

use vstd::prelude::*;
use crate::geometry::{at_least_zero, floor_zero, narrow, saturate, Length};

verus! {

/// How a node gets its extent on one axis.
#[derive(Clone, Copy, Debug, PartialEq, Eq, Structural)]
pub enum Size {
    /// The extent of the node's own children, laid out along its direction.
    Inner,
    /// The space that the parent hands to the node.
    Fill,
    /// As `Fill`: a share of what the siblings with a fixed extent leave over.
    FillMinimum,
    /// Hundredths of the extent of the parent's content.
    Percentage(Length),
    /// An absolute extent.
    Pixels(Length),
}

/// `percent` hundredths of `extent`, rounded down; negative inputs count as zero.
pub open spec fn percent_of(extent: int, percent: int) -> int {
    saturate(at_least_zero(extent) * at_least_zero(percent) / 100)
}

/// `percent` hundredths of `extent`, rounded down; negative inputs count as zero.
pub fn percentage_of(extent: i32, percent: i32) -> (r: i32)
    ensures
        r == percent_of(extent as int, percent as int),
{
    let e: i64 = floor_zero(extent) as i64;
    let p: i64 = floor_zero(percent) as i64;
    assert(0 <= e * p <= 2147483647 * 2147483647) by (nonlinear_arith)
        requires
            0 <= e <= 2147483647,
            0 <= p <= 2147483647,
    ;
    narrow(e * p / 100)
}

impl Size {
    /// Whether the extent comes from the node's children.
    pub open spec fn inner(self) -> bool {
        self is Inner
    }

    /// Whether the node takes the space that its parent hands to it.
    pub open spec fn fills(self) -> bool {
        self is Fill || self is FillMinimum
    }

    /// Whether the extent is known from the rule and the parent alone.
    pub open spec fn fixed(self) -> bool {
        self is Pixels || self is Percentage
    }

    /// The extent that the rule gives before any child is looked at, against a
    /// parent whose content extends by `parent` and an available space of
    /// `available`. A negative extent is clamped to zero; `Inner` starts at zero.
    pub open spec fn resolved(self, parent: int, available: int) -> int {
        match self {
            Size::Inner => 0,
            Size::Fill => at_least_zero(available),
            Size::FillMinimum => at_least_zero(available),
            Size::Percentage(percent) => percent_of(parent, percent.0 as int),
            Size::Pixels(length) => at_least_zero(length.0 as int),
        }
    }

    /// Whether the extent comes from the node's children.
    pub fn is_inner(&self) -> (r: bool)
        ensures
            r == self.inner(),
    {
        match self {
            Size::Inner => true,
            _ => false,
        }
    }

    /// Whether the node takes the space that its parent hands to it.
    pub fn is_fill(&self) -> (r: bool)
        ensures
            r == self.fills(),
    {
        match self {
            Size::Fill => true,
            Size::FillMinimum => true,
            _ => false,
        }
    }

    /// Whether the extent is known from the rule and the parent alone.
    pub fn is_fixed(&self) -> (r: bool)
        ensures
            r == self.fixed(),
    {
        match self {
            Size::Pixels(_) => true,
            Size::Percentage(_) => true,
            _ => false,
        }
    }

    /// Resolves the rule against the parent's content extent and the space
    /// available to the node.
    pub fn eval(&self, parent: i32, available: i32) -> (r: i32)
        ensures
            r == self.resolved(parent as int, available as int),
            0 <= r,
    {
        match self {
            Size::Inner => 0,
            Size::Fill => floor_zero(available),
            Size::FillMinimum => floor_zero(available),
            Size::Percentage(percent) => {
                assert(at_least_zero(parent as int) * at_least_zero(percent.0 as int) / 100 >= 0)
                    by (nonlinear_arith);
                percentage_of(parent, percent.0)
            },
            Size::Pixels(length) => floor_zero(length.0),
        }
    }
}

} // verus!
