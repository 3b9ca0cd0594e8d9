//! An incremental layout engine.
//!
//! A host owns a tree of nodes, each carrying sizing rules. The engine computes
//! the rectangle of every node, keeps the results in a cache keyed by node id,
//! and after a change measures again only below the closest node that covers
//! every invalidated one.
//!
//! Lengths are whole pixels held in `i32`; sums saturate and negative extents
//! count as zero, so every tree has a layout. The tree is reached through
//! [`dom_adapter::DOMAdapter`], single nodes may be measured by the host
//! through [`custom_measurer::LayoutMeasurer`], and [`torin::Torin`] is the
//! engine. What a pass computes is written down in [`measure`]; that a pass
//! from below leaves the cache as a pass from the root would is shown in
//! [`incremental`].

pub mod direction;
pub mod geometry;
pub mod size;
pub mod node;
pub mod dom_adapter;
pub mod custom_measurer;
pub mod measure;
pub mod torin;
pub mod arena;
pub mod incremental;
pub mod scroll_bar;
pub mod prelude;
