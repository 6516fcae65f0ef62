//! Verified core of a personal time-tracking visualizer.
//!
//! The crate interprets an append-only activity log, aggregates it into a
//! three-level tree of durations, scores the result against a budget of
//! ideal proportions and lays out the data behind the four views: table,
//! sankey, timeline and band. Texts are byte strings throughout; numbers
//! are integers, and what the views show as a ratio is kept as an exact
//! fraction.
//!
//! - [`parse`] reads the log and clips it to a window; [`band`] states what
//!   holds of every window.
//! - [`tree_node`] is the aggregation tree; [`tree_laws`] states what holds
//!   of it.
//! - [`ideals`] reads the budget.
//! - [`score`] scores a tree against a budget; [`score_laws`] and
//!   [`growth`] state how the score reacts to more time.
//! - [`table`], [`tree`], [`timeline`] and [`render`] lay out the views;
//!   [`tree_order`] states the order in which labels appear.
//! - [`text`], [`order`], [`sums`], [`util`], [`color`] and [`clock`] are
//!   what the others are built from.

pub mod band;
pub mod clock;
pub mod color;
pub mod growth;
pub mod ideals;
pub mod order;
pub mod parse;
pub mod render;
pub mod score;
pub mod score_laws;
pub mod sums;
pub mod table;
pub mod text;
pub mod timeline;
pub mod tree;
pub mod tree_laws;
pub mod tree_node;
pub mod tree_order;
pub mod util;
