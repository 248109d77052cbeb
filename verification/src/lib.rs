//! A differential tree synchronizer: given flat listings of a source and a
//! destination file tree, it computes the exact sequence of actions (copy,
//! create directory, delete, set modification time) that makes the
//! destination match the source under a configurable policy.

pub mod engine;
pub mod laws;
pub mod model;
pub mod partition;
pub mod plan;
pub mod paths;
