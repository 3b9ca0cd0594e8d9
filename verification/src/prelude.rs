//! Everything a host needs, in one import.

pub use crate::custom_measurer::{LayoutMeasurer, NoMeasurer};
pub use crate::direction::DirectionMode;
pub use crate::dom_adapter::{DOMAdapter, NodeId};
pub use crate::geometry::{Area, Gaps, Length, Point2D, Rect, Size2D};
pub use crate::measure::NodeAreas;
pub use crate::node::Node;
pub use crate::size::Size;
pub use crate::torin::Torin;
