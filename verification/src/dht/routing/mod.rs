//! The routing table: nodes, their status, and the buckets that hold them.
pub mod node;
pub mod bucket;
pub mod table;
