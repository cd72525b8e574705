//! The decisions of the widgets, apart from what they draw.

pub mod three_strip;
