//! Typing of an expanded tree. For now it hands back a flat tree of one
//! empty point and the environments unchanged.
use super::ast::{Ast, AstView};
use super::expander::Maps;
use vstd::prelude::*;

verus! {

/// A flat tree: its points, addressed by index.
pub type Fast = Vec<Ast>;

/// The index of a point in a flat tree.
pub type AstIndex = usize;

/// Types `ast` in the environments `envs`: the flat tree holds one
/// empty point, and the environments come back as they were given.
pub fn typer(ast: &Ast, envs: Maps) -> (r: Result<(Fast, Maps), String>)
    ensures
        r matches Ok((fast, maps)) && fast@.len() == 1 && fast@[0]@ == AstView::Nothing && maps == envs,
{
    let fast: Fast = vec![Ast::Nothing];
    Ok((fast, envs))
}

} // verus!
