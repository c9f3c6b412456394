//! A tree-style disk usage viewer: the size formatting, the size tree with its
//! statistics, and the tree renderer.

pub mod format;
pub mod entry;
pub mod scan;
pub mod paint;
pub mod display;
pub mod cli;
