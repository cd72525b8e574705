//! The search tree, colours in fixed point, and the small containers and
//! rules beside them.

pub mod buffer;
pub mod color;
pub mod draws;
pub mod hex;
pub mod rounding_util;
pub mod tree_build;
pub mod tree_model;
pub mod vptree;
