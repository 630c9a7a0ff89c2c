//! A first reducer, with the number and character formats that points
//! would be laid out in. It refuses every tree: reduction was not written
//! yet.
use super::parser3::Ast;
use crate::env::Env;
use vstd::prelude::*;

verus! {

/// The bindings of a graph: its own, and those of the graph it stands in.
pub struct Scope<'a> {
    pub parent: Option<&'a Env<(u64, Ast)>>,
    pub this: Env<(u64, Ast)>,
}

pub struct Parse<'a> {
    ast: &'a Ast,
    map: Scope<'a>,
}

/// How the bytes of a number are formatted.
#[derive(Debug, Clone)]
pub enum Number {
    Integer,
    Decimal,
    Boolean,
    I8,
    I16,
    I32,
    I64,
    I128,
    U8,
    U16,
    U32,
    U64,
    U128,
    F32,
    F64,
    F128,
}

/// The width of a character.
#[derive(Debug, Clone)]
pub enum Char {
    /// UTF-8, restricted to characters of 8 bits
    C8,
    C16,
    /// full UTF-8
    C32,
}

/// The type of a point.
#[derive(Debug)]
pub enum Typ {
    Nothing,
    Number(Number),
    String(Char),
    Graph(Vec<Typ>),
}

/// A reduced graph; it holds nothing yet.
pub struct Graph {}

/// The message every reduction gives.
pub open spec fn refusal_text() -> Seq<char> {
    "hello there from reducer"@
}

impl<'a> Parse<'a> {
    fn program(&self) -> (r: Result<Graph, String>)
        ensures
            r matches Err(m) && m@ == refusal_text(),
    {
        match self.ast {
            Ast::Graph(_) => Err("hello there from reducer".to_string()),
            _ => Err("hello there from reducer".to_string()),
        }
    }
}

/// Reduces a parsed tree from an empty top-level map: every tree is
/// refused with the same message.
pub fn reducer(ast: &Ast) -> (r: Result<Graph, String>)
    ensures
        r matches Err(m) && m@ == refusal_text(),
{
    let parse = Parse { ast, map: Scope { parent: None, this: Env::new() } };
    parse.program()
}

} // verus!
