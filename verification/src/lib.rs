//! Disk-usage tree model and proportional icicle layout.
//!
//! The library has three parts that feed one another in one direction:
//! a level-order directory walker, an aggregator that keeps running subtree
//! sizes while entries arrive, and a layout engine that turns byte counts into
//! whole-unit horizontal partitions with hue bands.

pub mod debug;
pub mod fs;
pub mod ui;
