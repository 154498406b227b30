//! Edit distance between strings, from scratch and incrementally.
pub mod base;
pub mod incremental;
