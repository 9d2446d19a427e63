//! A small single-user task tracker: an ordered list of tasks addressed by
//! 1-based position, a line-oriented text format for persistence, and
//! JSON/YAML export.

pub mod codec;
pub mod export;
pub mod store;
pub mod task;
