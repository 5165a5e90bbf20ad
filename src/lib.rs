//! Hierarchical size aggregation and paint-order layout for a flat set of
//! file records: rebuilds the folder tree, totals every folder, measures each
//! node against a selectable root, and lists the nodes level by level.
pub mod data;
pub mod index;
pub mod laws;
pub mod node;
pub mod palette;
pub mod record;
pub mod tree;
