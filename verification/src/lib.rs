//! A small compiler front end for a graph language: a tokenizer, parsers
//! for the language's points and expressions, expanders that resolve
//! labels through nested environments, and a reducer that lays a tree out
//! as a flat sequence of code points.

pub mod compiler;
pub mod env;
pub mod garbage;
