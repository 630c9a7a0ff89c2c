//! The token stream as the parsers see it: a cursor over token views,
//! and what looking at, and consuming, a token yields.
use crate::compiler::tokenizer::{Kind, Name, Token, TokenView};
use vstd::prelude::*;

verus! {

/// Why a parse stops short.
pub enum Fault {
    /// no token is left
    EndOfInput,
    /// the token does not have the expected name
    UnexpectedName(TokenView, Name),
    /// the token is not of the expected kind
    UnexpectedKind(TokenView, Kind),
    /// the token has none of the expected names
    UnexpectedNames(TokenView, Seq<Name>),
    /// the token is of none of the expected kinds
    UnexpectedKinds(TokenView, Seq<Kind>),
    /// the parse panics or never returns
    Abort,
}

/// The token `off` places after position `p`.
pub open spec fn tok_at(ts: Seq<TokenView>, p: nat, off: nat) -> Option<TokenView> {
    if p + off < ts.len() {
        Some(ts[(p + off) as int])
    } else {
        None
    }
}

pub open spec fn tok_is(ts: Seq<TokenView>, p: nat, off: nat, name: Name) -> bool {
    match tok_at(ts, p, off) {
        Some(t) => t.name == name,
        None => false,
    }
}

pub open spec fn tok_of(ts: Seq<TokenView>, p: nat, off: nat, kind: Kind) -> bool {
    match tok_at(ts, p, off) {
        Some(t) => t.kind == kind,
        None => false,
    }
}

pub open spec fn tok_any(ts: Seq<TokenView>, p: nat, off: nat, names: Seq<Name>) -> bool {
    exists|i: int| 0 <= i < names.len() && tok_is(ts, p, off, #[trigger] names[i])
}

pub open spec fn tok_any_of(ts: Seq<TokenView>, p: nat, off: nat, kinds: Seq<Kind>) -> bool {
    exists|i: int| 0 <= i < kinds.len() && tok_of(ts, p, off, #[trigger] kinds[i])
}

/// A token is there and its name is none of `stops`.
pub open spec fn tok_until(ts: Seq<TokenView>, p: nat, off: nat, stops: Seq<Name>) -> bool {
    match tok_at(ts, p, off) {
        Some(t) => !stops.contains(t.name),
        None => false,
    }
}

/// A token is there and its kind is none of `stops`.
pub open spec fn tok_until_of(ts: Seq<TokenView>, p: nat, off: nat, stops: Seq<Kind>) -> bool {
    match tok_at(ts, p, off) {
        Some(t) => !stops.contains(t.kind),
        None => false,
    }
}

/// The position after the statement separators at `p`.
pub open spec fn skip_stops(ts: Seq<TokenView>, p: nat) -> nat
    decreases ts.len() - p,
{
    if tok_of(ts, p, 0, Kind::Stop) {
        skip_stops(ts, p + 1)
    } else {
        p
    }
}

pub proof fn lemma_skip_stops(ts: Seq<TokenView>, p: nat)
    ensures
        skip_stops(ts, p) >= p,
        p <= ts.len() ==> skip_stops(ts, p) <= ts.len(),
    decreases ts.len() - p,
{
    if tok_of(ts, p, 0, Kind::Stop) {
        lemma_skip_stops(ts, p + 1);
    }
}

pub open spec fn spec_eat(ts: Seq<TokenView>, p: nat, name: Name) -> (nat, Result<TokenView, Fault>) {
    match tok_at(ts, p, 0) {
        Some(t) => (p + 1, if t.name == name {
            Ok(t)
        } else {
            Err(Fault::UnexpectedName(t, name))
        }),
        None => (p, Err(Fault::EndOfInput)),
    }
}

pub open spec fn spec_eat_of(ts: Seq<TokenView>, p: nat, kind: Kind) -> (nat, Result<TokenView, Fault>) {
    match tok_at(ts, p, 0) {
        Some(t) => (p + 1, if t.kind == kind {
            Ok(t)
        } else {
            Err(Fault::UnexpectedKind(t, kind))
        }),
        None => (p, Err(Fault::EndOfInput)),
    }
}

pub open spec fn spec_eats(ts: Seq<TokenView>, p: nat, names: Seq<Name>) -> (nat, Result<TokenView, Fault>) {
    match tok_at(ts, p, 0) {
        Some(t) => (p + 1, if tok_any(ts, p, 0, names) {
            Ok(t)
        } else {
            Err(Fault::UnexpectedNames(t, names))
        }),
        None => (p, Err(Fault::EndOfInput)),
    }
}

pub open spec fn spec_eats_of(ts: Seq<TokenView>, p: nat, kinds: Seq<Kind>) -> (
    nat,
    Result<TokenView, Fault>,
) {
    match tok_at(ts, p, 0) {
        Some(t) => (p + 1, if tok_any_of(ts, p, 0, kinds) {
            Ok(t)
        } else {
            Err(Fault::UnexpectedKinds(t, kinds))
        }),
        None => (p, Err(Fault::EndOfInput)),
    }
}

/// `p`, or `lo` where `p` is below it.
pub open spec fn clamp(lo: nat, p: nat) -> nat {
    if p >= lo {
        p
    } else {
        lo
    }
}

/// Tokens left from position `p` on.
pub open spec fn remaining(ts: Seq<TokenView>, p: nat) -> nat {
    if p < ts.len() {
        (ts.len() - p) as nat
    } else {
        0
    }
}

pub uninterp spec fn eat_text(text: Seq<char>, kind: Kind, name: Name, line: nat, expected: Name) -> Seq<char>;

pub uninterp spec fn eat_of_text(text: Seq<char>, kind: Kind, name: Name, line: nat, expected: Kind) -> Seq<char>;

/// Formats the token with the name it was expected to have.
#[verifier::external_body]
pub(crate) fn eat_message(t: &Token, expected: Name) -> (r: String)
    ensures
        r@ == eat_text(t.meta.text@, t.of.kind, t.of.name, t.meta.line as nat, expected),
{
    format!(
        "UnexpectedToken: {:?} of {:?}:{:?} on line {}\nExpected token of name: {:?}",
        t.meta.text, t.of.kind, t.of.name, t.meta.line, expected
    )
}

/// Formats the token with the kind it was expected to be of.
#[verifier::external_body]
pub(crate) fn eat_of_message(t: &Token, expected: Kind) -> (r: String)
    ensures
        r@ == eat_of_text(t.meta.text@, t.of.kind, t.of.name, t.meta.line as nat, expected),
{
    format!(
        "UnexpectedToken: {:?} of {:?}:{:?} on line {}\nExpected token of kind: {:?}",
        t.meta.text, t.of.kind, t.of.name, t.meta.line, expected
    )
}

} // verus!
