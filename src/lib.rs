//! An in-memory folder/file tree rebuilt from the flat chunk list of a
//! hash-addressed game archive.

pub mod error;
pub mod item;
pub mod order;
pub mod outside;
pub mod path;
pub mod tree;
pub mod utils;
