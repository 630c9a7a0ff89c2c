//! The current stages: tokens, expansion, normalization, typing and
//! reduction.

pub mod ast;
pub mod expander;
pub mod listing;
pub mod normalize;
pub mod reducer;
pub mod tokenizer;
pub mod typer;
