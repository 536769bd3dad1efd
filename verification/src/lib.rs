//! Glob-style path matching over a trie of compiled pattern components.
//!
//! Patterns such as `./src/*/mod*.rs` are compiled once into a [`PathMatch`];
//! candidate paths are then tested for a full match or for being an ancestor
//! of something that could match, and the greatest depth of a match bounds
//! how far a directory walk has to descend.
//!
//! * [`tokenizer`] splits a string into path components,
//! * [`normalize`] brings the components of a candidate path into normal form,
//! * [`pattern`] compiles the components of a pattern into matchers,
//! * [`acceptance`] says which paths a compiled pattern accepts,
//! * [`trie`] merges compiled patterns into one tree and searches it,
//! * [`matcher`] holds the matcher and its builder,
//! * [`laws`] states what holds of matching in general,
//! * [`platform_properties`] describes the path syntax of the known platforms.

pub mod acceptance;
pub mod component;
pub mod laws;
pub mod matcher;
pub mod normalize;
pub mod order;
pub mod pattern;
pub mod platform_properties;
pub mod text;
pub mod tokenizer;
pub mod trie;

pub use matcher::{PathMatch, PathMatchBuilder};
pub use pattern::Error;
