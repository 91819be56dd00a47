//! A verified core for declarative terminal user interfaces.
//!
//! A node tree of rows, columns, overlays and leaf widgets is compiled once
//! per render pass into a deferred render plan; regions are partitioned among
//! children by size constraints; and every leaf widget gets a deterministic
//! identity, so a cache can hand the same widget instance back to every later
//! pass that reaches the same place in the tree.

pub mod cache;
pub mod compile;
pub mod components;
pub mod constraint;
pub mod geometry;
pub mod identity;
pub mod node;
pub mod render;
pub mod split;
pub mod util;
