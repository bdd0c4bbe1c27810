//! Rendering of full-text search results over a tree of exam papers.
//!
//! The search tool prints one line per match, `path|page|excerpt`. This crate
//! checks that shape, rewrites the lines into annotated markup, bolds the
//! query term and shortens the displayed paths. Results are stated over the
//! character sequence of the input; the boundaries handed out and taken in
//! are offsets in bytes within its UTF-8 form.

pub mod classify;
pub mod display;
pub mod error;
pub mod page;
pub mod query;
pub mod records;
pub mod render;
pub mod replace;
pub mod text;
