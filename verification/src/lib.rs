//! The core of a colour picker, with contracts that Verus proves.
//!
//! - [`util::vptree`] holds the vantage-point tree: exact nearest-neighbour
//!   search over any type with a whole-number metric. [`util::tree_model`]
//!   says what a tree is and what a query finds in it, [`util::tree_build`]
//!   how a tree grows out of its points, [`util::draws`] where the draws
//!   come from that decide its shape.
//! - [`util::color`] holds colours in fixed point with their metric, their
//!   hexadecimal codes, and the search for the nearest named colour.
//! - [`util::buffer`] is the bounded queue of messages, [`state`] the state
//!   that the messages change.
//! - [`util::rounding_util`] and [`widgets`] hold the rules by which the
//!   widgets round corners, colour tiles and close a pop-up.

pub mod state;
pub mod util;
pub mod widgets;
