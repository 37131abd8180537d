//! A parser, in-memory tree model, and serializer for brace-delimited,
//! line-oriented device-tree source text, together with a small reader for
//! boot-menu configuration records.

pub mod text;
pub mod tree;
pub mod index;
pub mod render;
pub mod parse;
pub mod extlinux;
pub mod laws;
