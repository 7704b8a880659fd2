//! A small rendering pipeline: a document tree and a style sheet go in,
//! a tree of positioned and sized boxes comes out.
//!
//! All sizes are whole numbers of layout units; the style-sheet reader
//! turns one CSS pixel into [`style::css::UNITS_PER_PX`] of them.

pub mod text;
pub mod str_map;
pub mod dom;
pub mod dom_fmt;
pub mod parsing;
pub mod style;
pub mod box_model;
