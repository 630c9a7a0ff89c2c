//! The earlier stages the language went through: three parsers, three
//! expanders and a reducer, each with the tree it reads, and the token
//! cursor the parsers share.

pub mod expand1;
pub mod expand2;
pub mod expander3;
pub mod parser1;
pub mod parser2;
pub mod parser3;
pub mod reducer1;
pub mod scan;
pub mod syntax;
