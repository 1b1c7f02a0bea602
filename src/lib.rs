//! Word and group bounding boxes of a laid-out document.
//!
//! A document is a tree of positioned frames. Each text run is split into
//! words, punctuation and whitespace tokens, with a box from the font metrics
//! and the glyph advances. Nested groups and tagged regions get an aggregate
//! token: their children's labels joined and their boxes united.
//! All lengths are integers in millionths of a point.

pub mod geometry;
pub mod document;
pub mod tokenize;
pub mod walk;
pub mod extract;
pub mod laws;

