//! The projection of the commits between trunk and the working copy.

pub mod builder;

pub use builder::{build_change_graph, build_segments_from_changes};
