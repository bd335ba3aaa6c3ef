//! Word-level alignment of the two sides of a diff hunk.

pub mod block;
pub mod block_maker;
pub mod frame;
pub mod framer;
pub mod handling;
pub mod hunk;
pub mod line_differ;
pub mod line_marks;
pub mod pair;
pub mod part;
pub mod reindent;
pub mod render;
pub mod select;
pub mod shift;
pub mod single;
pub mod style;
pub mod style_opts;
pub mod text;
pub mod tokeniser;
pub mod whitespace;
pub mod whole;
pub mod word_differ;
pub mod word_spec;
