//! A recursive-descent parser whose points carry a label, a type, their
//! index in their graph and a value. Precedence, loosest first: `|`, `&`,
//! equality, relations, `+ -`, `* /`, `^`, ranges, prefix operators,
//! selection, application and primaries.
use super::scan::{
    clamp, eat_message, eat_of_message, eat_of_text, eat_text, lemma_skip_stops, remaining, skip_stops,
    spec_eat, spec_eat_of, spec_eats, tok_any, tok_at, tok_is, tok_of, tok_until, tok_until_of, Fault,
};
use crate::compiler::tokenizer::{tokens_view, Kind, Name, Token, TokenView};
use crate::env::Env;
use std::rc::Rc;
use vstd::prelude::*;

verus! {

#[derive(Debug)]
pub enum Ast {
    Nothing,
    Integer(String),
    Decimal(String),
    String(String),
    /// `{ .. }`
    Graph(Vec<Ast>),
    /// label, type, index, whether it is returned, and value
    Point(String, Typ, u16, bool, Box<Ast>),
    /// `graph { .. }`
    Apply(Box<Ast>, Box<Ast>),
    /// `1 + 2`
    Op2(Name, Box<Ast>, Box<Ast>),
    /// `- 10`
    Op1(Name, Box<Ast>),
    /// a label
    Ref(String),
}

/// An `Ast` as a mathematical value.
pub enum AstView {
    Nothing,
    Integer(Seq<char>),
    Decimal(Seq<char>),
    String(Seq<char>),
    Graph(Seq<AstView>),
    Point(Seq<char>, Typ, u16, bool, Box<AstView>),
    Apply(Box<AstView>, Box<AstView>),
    Op2(Name, Box<AstView>, Box<AstView>),
    Op1(Name, Box<AstView>),
    Ref(Seq<char>),
}

pub open spec fn ast_view(a: Ast) -> AstView
    decreases a,
{
    match a {
        Ast::Nothing => AstView::Nothing,
        Ast::Integer(x0) => AstView::Integer(x0@),
        Ast::Decimal(x0) => AstView::Decimal(x0@),
        Ast::String(x0) => AstView::String(x0@),
        Ast::Graph(x0) => AstView::Graph(asts_view(x0@)),
        Ast::Point(x0, x1, x2, x3, x4) => AstView::Point(x0@, x1, x2, x3, Box::new(ast_view(*x4))),
        Ast::Apply(x0, x1) => AstView::Apply(Box::new(ast_view(*x0)), Box::new(ast_view(*x1))),
        Ast::Op2(x0, x1, x2) => AstView::Op2(x0, Box::new(ast_view(*x1)), Box::new(ast_view(*x2))),
        Ast::Op1(x0, x1) => AstView::Op1(x0, Box::new(ast_view(*x1))),
        Ast::Ref(x0) => AstView::Ref(x0@),
    }
}

pub open spec fn asts_view(s: Seq<Ast>) -> Seq<AstView>
    decreases s,
{
    if s.len() == 0 {
        seq![]
    } else {
        seq![ast_view(s[0])] + asts_view(s.subrange(1, s.len() as int))
    }
}

impl View for Ast {
    type V = AstView;

    open spec fn view(&self) -> AstView {
        ast_view(*self)
    }
}

pub proof fn lemma_asts_view_len(s: Seq<Ast>)
    ensures
        asts_view(s).len() == s.len(),
    decreases s.len(),
{
    if s.len() > 0 {
        lemma_asts_view_len(s.subrange(1, s.len() as int));
    }
}

pub proof fn lemma_asts_view_index(s: Seq<Ast>, i: int)
    requires
        0 <= i < s.len(),
    ensures
        asts_view(s).len() == s.len(),
        asts_view(s)[i] == s[i]@,
    decreases s.len(),
{
    lemma_asts_view_len(s);
    if i > 0 {
        lemma_asts_view_index(s.subrange(1, s.len() as int), i - 1);
    }
}

/// Two sequences of trees with equal views elementwise have equal views.
pub proof fn lemma_asts_view_ext(s: Seq<Ast>, t: Seq<AstView>)
    requires
        s.len() == t.len(),
        forall|i: int| 0 <= i < s.len() ==> (#[trigger] s[i])@ == t[i],
    ensures
        asts_view(s) == t,
{
    lemma_asts_view_len(s);
    assert forall|i: int| 0 <= i < s.len() implies asts_view(s)[i] == t[i] by {
        lemma_asts_view_index(s, i);
    }
    assert(asts_view(s) =~= t);
}

pub proof fn lemma_asts_view_push(s: Seq<Ast>, a: Ast)
    ensures
        asts_view(s.push(a)) == asts_view(s).push(a@),
{
    let p = s.push(a);
    lemma_asts_view_len(s);
    assert forall|i: int| 0 <= i < p.len() implies (#[trigger] p[i])@ == asts_view(s).push(a@)[i] by {
        if i < s.len() {
            lemma_asts_view_index(s, i);
        }
    }
    lemma_asts_view_ext(p, asts_view(s).push(a@));
}

/// The bindings of a graph: its own, and those of the graph it stands in.
pub struct Scope<'a> {
    pub parent: Option<&'a Env<Rc<Box<Ast>>>>,
    pub this: Env<Rc<Box<Ast>>>,
}

/// How the bytes of a value are formatted.
#[derive(Debug, Clone, Copy)]
pub enum Format {
    Integer,
    Decimal,
    Boolean,
    I8,
    I16,
    I32,
    I64,
    I128,
    U8,
    U16,
    U32,
    U64,
    U128,
    F32,
    F64,
    F128,
    /// UTF-8, restricted to characters of 8 bits
    C8,
    C16,
    /// full UTF-8
    C32,
}

/// The type of a point.
#[derive(Debug)]
pub enum Typ {
    Number(Format),
    String(Format),
    /// not typed yet
    Thing,
    /// a graph packed into one array space
    Graph(Vec<Typ>),
    /// a packed array
    Array(Box<Typ>),
}

/// A parsed program, its bindings and its type.
pub struct Parse<'a> {
    pub ast: Ast,
    pub map: Scope<'a>,
    pub typ: Typ,
}

pub struct Tokens<'a> {
    cursor: usize,
    tokens: &'a Vec<Token>,
    /// set where the parse reaches a point at which it panics
    aborted: bool,
}

pub open spec fn render<T>(r: Result<T, Fault>) -> Result<T, Seq<char>> {
    match r {
        Ok(x) => Ok(x),
        Err(f) => Err(fault_text(f)),
    }
}

pub open spec fn token_result(r: Result<&Token, String>) -> Result<TokenView, Seq<char>> {
    match r {
        Ok(t) => Ok(t@),
        Err(m) => Err(m@),
    }
}

pub uninterp spec fn eats_line_text(text: Seq<char>, line: nat, name: Name) -> Seq<char>;

/// What the parser reports for a fault.
pub open spec fn fault_text(f: Fault) -> Seq<char> {
    match f {
        Fault::EndOfInput => "UnexpectedEndOfInput"@,
        Fault::UnexpectedName(t, n) => eat_text(t.text, t.kind, t.name, t.line, n),
        Fault::UnexpectedKind(t, k) => eat_of_text(t.text, t.kind, t.name, t.line, k),
        Fault::UnexpectedNames(t, _) => eats_line_text(t.text, t.line, t.name),
        Fault::UnexpectedKinds(t, _) => seq![],
        Fault::Abort => seq![],
    }
}

/// Formats the token's text, line and own name.
#[verifier::external_body]
pub(crate) fn eats_message(t: &Token, names: &[Name]) -> (r: String)
    ensures
        r@ == eats_line_text(t.meta.text@, t.meta.line as nat, t.of.name),
{
    format!("UnexpectedToken: {:?} on line {}\nExpected token of name: {:?}", t.meta.text, t.meta.line, t.of.name)
}

pub open spec fn ast_result(r: Result<Ast, String>) -> Result<AstView, Seq<char>> {
    match r {
        Ok(a) => Ok(a@),
        Err(m) => Err(m@),
    }
}

impl<'a> Tokens<'a> {
    spec fn toks(&self) -> Seq<TokenView> {
        tokens_view(self.tokens@)
    }

    spec fn pos(&self) -> nat {
        self.cursor as nat
    }

    spec fn wf(&self) -> bool {
        &&& self.cursor <= self.tokens@.len()
        &&& self.tokens@.len() <= usize::MAX
    }

    fn eat(&mut self, name: Name) -> (r: Result<&'a Token, String>)
        requires
            old(self).wf(),
        ensures
            final(self).wf(),
            final(self).tokens == old(self).tokens,
            final(self).aborted == old(self).aborted,
            final(self).pos() == spec_eat(old(self).toks(), old(self).pos(), name).0,
            token_result(r) == render(spec_eat(old(self).toks(), old(self).pos(), name).1),
    {
        match self.get(0) {
            Some(t) => {
                self.cursor = self.cursor + 1;
                if t.of.name == name {
                    Ok(t)
                } else {
                    Err(eat_message(t, name))
                }
            },
            None => Err("UnexpectedEndOfInput".to_owned()),
        }
    }

    fn eat_of(&mut self, kind: Kind) -> (r: Result<&'a Token, String>)
        requires
            old(self).wf(),
        ensures
            final(self).wf(),
            final(self).tokens == old(self).tokens,
            final(self).aborted == old(self).aborted,
            final(self).pos() == spec_eat_of(old(self).toks(), old(self).pos(), kind).0,
            token_result(r) == render(spec_eat_of(old(self).toks(), old(self).pos(), kind).1),
    {
        match self.get(0) {
            Some(t) => {
                self.cursor = self.cursor + 1;
                if t.of.kind == kind {
                    Ok(t)
                } else {
                    Err(eat_of_message(t, kind))
                }
            },
            None => Err("UnexpectedEndOfInput".to_owned()),
        }
    }

    fn eats(&mut self, names: &[Name]) -> (r: Result<&'a Token, String>)
        requires
            old(self).wf(),
        ensures
            final(self).wf(),
            final(self).tokens == old(self).tokens,
            final(self).aborted == old(self).aborted,
            final(self).pos() == spec_eats(old(self).toks(), old(self).pos(), names@).0,
            token_result(r) == render(spec_eats(old(self).toks(), old(self).pos(), names@).1),
    {
        match self.get(0) {
            Some(t) => {
                let ok = self.any(0, names);
                self.cursor = self.cursor + 1;
                if ok {
                    Ok(t)
                } else {
                    Err(eats_message(t, names))
                }
            },
            None => Err("UnexpectedEndOfInput".to_owned()),
        }
    }

    fn clear_stops(&mut self)
        requires
            old(self).wf(),
        ensures
            final(self).wf(),
            final(self).tokens == old(self).tokens,
            final(self).aborted == old(self).aborted,
            final(self).pos() == skip_stops(old(self).toks(), old(self).pos()),
    {
        while self.of(0, Kind::Stop)
            invariant
                self.wf(),
                self.tokens == old(self).tokens,
                self.aborted == old(self).aborted,
                skip_stops(self.toks(), self.pos()) == skip_stops(old(self).toks(), old(self).pos()),
            decreases self.tokens@.len() - self.cursor,
        {
            self.cursor = self.cursor + 1;
        }
    }

    fn get(&self, offset: usize) -> (r: Option<&'a Token>)
        requires
            self.wf(),
        ensures
            match r {
                Some(t) => tok_at(self.toks(), self.pos(), offset as nat) == Some(t@),
                None => tok_at(self.toks(), self.pos(), offset as nat) is None,
            },
    {
        let tokens: &'a Vec<Token> = self.tokens;
        if offset < tokens.len() - self.cursor {
            Some(&tokens[self.cursor + offset])
        } else {
            None
        }
    }

    fn is(&self, offset: usize, stop: Name) -> (r: bool)
        requires
            self.wf(),
        ensures
            r == tok_is(self.toks(), self.pos(), offset as nat, stop),
    {
        match self.get(offset) {
            Some(t) => t.of.name == stop,
            None => false,
        }
    }

    fn of(&self, offset: usize, stop: Kind) -> (r: bool)
        requires
            self.wf(),
        ensures
            r == tok_of(self.toks(), self.pos(), offset as nat, stop),
    {
        match self.get(offset) {
            Some(t) => t.of.kind == stop,
            None => false,
        }
    }

    fn any(&self, offset: usize, names: &[Name]) -> (r: bool)
        requires
            self.wf(),
        ensures
            r == tok_any(self.toks(), self.pos(), offset as nat, names@),
    {
        let mut i: usize = 0;
        while i < names.len()
            invariant
                self.wf(),
                i <= names@.len(),
                forall|j: int| 0 <= j < i ==> !tok_is(self.toks(), self.pos(), offset as nat, #[trigger] names@[j]),
            decreases names@.len() - i,
        {
            if self.is(offset, names[i]) {
                return true;
            }
            i = i + 1;
        }
        false
    }

    fn until(&self, offset: usize, stops: &[Name]) -> (r: bool)
        requires
            self.wf(),
        ensures
            r == tok_until(self.toks(), self.pos(), offset as nat, stops@),
    {
        match self.get(offset) {
            Some(t) => {
                let mut i: usize = 0;
                while i < stops.len()
                    invariant
                        self.wf(),
                        tok_at(self.toks(), self.pos(), offset as nat) == Some(t@),
                        i <= stops@.len(),
                        forall|j: int| 0 <= j < i ==> #[trigger] stops@[j] != t.of.name,
                    decreases stops@.len() - i,
                {
                    if t.of.name == stops[i] {
                        proof {
                            assert(stops@[i as int] == t.of.name);
                        }
                        return false;
                    }
                    i = i + 1;
                }
                true
            },
            None => false,
        }
    }

    fn until_of(&self, offset: usize, stops: &[Kind]) -> (r: bool)
        requires
            self.wf(),
        ensures
            r == tok_until_of(self.toks(), self.pos(), offset as nat, stops@),
    {
        match self.get(offset) {
            Some(t) => {
                let mut i: usize = 0;
                while i < stops.len()
                    invariant
                        self.wf(),
                        tok_at(self.toks(), self.pos(), offset as nat) == Some(t@),
                        i <= stops@.len(),
                        forall|j: int| 0 <= j < i ==> #[trigger] stops@[j] != t.of.kind,
                    decreases stops@.len() - i,
                {
                    if t.of.kind == stops[i] {
                        proof {
                            assert(stops@[i as int] == t.of.kind);
                        }
                        return false;
                    }
                    i = i + 1;
                }
                true
            },
            None => false,
        }
    }

}

// ---------------------------------------------------------------------
// The grammar, stated over token views

pub open spec fn point_view(label: Seq<char>, index: nat, graph: AstView) -> AstView {
    AstView::Point(label, Typ::Thing, index as u16, false, Box::new(graph))
}

pub open spec fn spec_reference(ts: Seq<TokenView>, p: nat) -> (nat, Result<AstView, Fault>) {
    let (p1, e) = spec_eat(ts, p, Name::Label);
    match e {
        Err(f) => (p1, Err(f)),
        Ok(t) => (p1, Ok(AstView::Ref(t.text))),
    }
}

pub open spec fn spec_string(ts: Seq<TokenView>, p: nat) -> (nat, Result<AstView, Fault>) {
    let (p1, e) = spec_eat_of(ts, p, Kind::String);
    match e {
        Err(f) => (p1, Err(f)),
        Ok(t) => (p1, Ok(AstView::String(t.text))),
    }
}

pub open spec fn spec_number(ts: Seq<TokenView>, p: nat) -> (nat, Result<AstView, Fault>) {
    let (p1, e) = spec_eat_of(ts, p, Kind::Number);
    match e {
        Err(f) => (p1, Err(f)),
        Ok(t) => (p1, if t.name == Name::Decimal {
            Ok(AstView::Decimal(t.text))
        } else if t.name == Name::Integer {
            Ok(AstView::Integer(t.text))
        } else {
            Err(Fault::Abort)
        }),
    }
}

pub open spec fn spec_literal(ts: Seq<TokenView>, p: nat) -> (nat, Result<AstView, Fault>) {
    if tok_of(ts, p, 0, Kind::String) {
        spec_string(ts, p)
    } else {
        spec_number(ts, p)
    }
}

pub open spec fn spec_program(ts: Seq<TokenView>, p: nat) -> (nat, Result<AstView, Fault>) {
    let (q, r) = spec_point_list(ts, p, seq![]);
    match r {
        Err(f) => (q, Err(f)),
        Ok(g) => (q, Ok(AstView::Point("Program"@, Typ::Thing, 0, false, Box::new(g)))),
    }
}

#[verifier::opaque]
pub open spec fn spec_point_list(ts: Seq<TokenView>, p: nat, stops: Seq<Name>) -> (nat, Result<AstView, Fault>)
    decreases remaining(ts, p), 42nat,
{
    let p0 = skip_stops(ts, p);
    proof {
        lemma_skip_stops(ts, p);
    }
    let (q, r) = spec_point_list_loop(ts, p0, stops, seq![], 0);
    (q, match r {
        Ok(points) => Ok(AstView::Graph(points)),
        Err(f) => Err(f),
    })
}

#[verifier::opaque]
pub open spec fn spec_point_list_loop(ts: Seq<TokenView>, p: nat, stops: Seq<Name>, acc: Seq<AstView>, index: nat) -> (nat, Result<Seq<AstView>, Fault>)
    decreases remaining(ts, p), 41nat,
{
    if tok_until(ts, p, 0, stops) {
        let (q, i1, r) = spec_point(ts, p, index);
        let p1 = clamp(p, q);
        match r {
            Err(f) => (p1, Err(f)),
            Ok(x) => {
                let p2 = skip_stops(ts, p1);
                if p2 > p {
                    spec_point_list_loop(ts, p2, stops, acc.push(x), i1)
                } else {
                    (p2, Err(Fault::Abort))
                }
            },
        }
    } else {
        (p, Ok(acc))
    }
}

/// A point: `label[ ..]: value`, `label;`, `label: value` or a bare value.
/// Each point takes the next index of its list; the eleventh panics.
#[verifier::opaque]
pub open spec fn spec_point(ts: Seq<TokenView>, p: nat, index: nat) -> (nat, nat, Result<AstView, Fault>)
    decreases remaining(ts, p), 40nat,
{
    let i1 = index + 1;
    if i1 > 10 {
        (p, i1, Err(Fault::Abort))
    } else if tok_is(ts, p, 0, Name::Label) && tok_any(ts, p, 1, seq![Name::SquarenLF, Name::Colon, Name::Semicolon]) {
        let (p1, e1) = spec_eat(ts, p, Name::Label);
        match e1 {
            Err(f) => (p1, i1, Err(f)),
            Ok(t) => if tok_is(ts, p1, 0, Name::SquarenLF) {
                let (p2, e2) = spec_eat(ts, p1, Name::SquarenLF);
                match e2 {
                    Err(f) => (p2, i1, Err(f)),
                    Ok(_) => if tok_is(ts, p2, 0, Name::Colon) {
                        let (p3, e3) = spec_eat(ts, p2, Name::Colon);
                        match e3 {
                            Err(f) => (p3, i1, Err(f)),
                            Ok(_) => {
                                let (q, r) = spec_or_exp(ts, p3);
                                let p4 = clamp(p3, q);
                                match r {
                                    Err(f) => (p4, i1, Err(f)),
                                    Ok(g) => (p4, i1, Ok(point_view(t.text, index, g))),
                                }
                            },
                        }
                    } else {
                        (p2, i1, Ok(point_view(t.text, index, AstView::Nothing)))
                    },
                }
            } else if tok_is(ts, p1, 0, Name::Semicolon) {
                let (p2, e2) = spec_eat(ts, p1, Name::Semicolon);
                match e2 {
                    Err(f) => (p2, i1, Err(f)),
                    Ok(_) => (p2, i1, Ok(point_view(t.text, index, AstView::Nothing))),
                }
            } else {
                let (p2, e2) = spec_eat(ts, p1, Name::Colon);
                match e2 {
                    Err(f) => (p2, i1, Err(f)),
                    Ok(_) => if tok_is(ts, p2, 0, Name::Label) && tok_any(ts, p2, 1, seq![Name::Colon, Name::Semicolon]) {
                        let (q, i2, r) = spec_point(ts, p2, i1);
                        let p3 = clamp(p2, q);
                        match r {
                            Err(f) => (p3, i2, Err(f)),
                            Ok(g) => (p3, i2, Ok(point_view(t.text, index, g))),
                        }
                    } else {
                        let (q, r) = spec_or_exp(ts, p2);
                        let p3 = clamp(p2, q);
                        match r {
                            Err(f) => (p3, i1, Err(f)),
                            Ok(g) => (p3, i1, Ok(point_view(t.text, index, g))),
                        }
                    },
                }
            },
        }
    } else {
        let (q, r) = spec_or_exp(ts, p);
        let p1 = clamp(p, q);
        match r {
            Err(f) => (p1, i1, Err(f)),
            Ok(g) => (p1, i1, Ok(point_view(seq![], index, g))),
        }
    }
}

#[verifier::opaque]
pub open spec fn spec_or_exp(ts: Seq<TokenView>, p: nat) -> (nat, Result<AstView, Fault>)
    decreases remaining(ts, p), 24nat,
{
    let (q, r) = spec_and_exp(ts, p);
    let p1 = clamp(p, q);
    match r {
        Err(f) => (p1, Err(f)),
        Ok(left) => spec_or_tail(ts, p1, left),
    }
}

#[verifier::opaque]
pub open spec fn spec_or_tail(ts: Seq<TokenView>, p: nat, left: AstView) -> (nat, Result<AstView, Fault>)
    decreases remaining(ts, p), 23nat,
{
    if tok_is(ts, p, 0, Name::Or) {
        let (p1, e) = spec_eat(ts, p, Name::Or);
        match e {
            Err(f) => (p1, Err(f)),
            Ok(t) => {
                let (q, r) = spec_and_exp(ts, p1);
                let p2 = clamp(p1, q);
                match r {
                    Err(f) => (p2, Err(f)),
                    Ok(right) => spec_or_tail(ts, p2, AstView::Op2(Name::Or, Box::new(left), Box::new(right))),
                }
            },
        }
    } else {
        (p, Ok(left))
    }
}

#[verifier::opaque]
pub open spec fn spec_and_exp(ts: Seq<TokenView>, p: nat) -> (nat, Result<AstView, Fault>)
    decreases remaining(ts, p), 22nat,
{
    let (q, r) = spec_equality_exp(ts, p);
    let p1 = clamp(p, q);
    match r {
        Err(f) => (p1, Err(f)),
        Ok(left) => spec_and_tail(ts, p1, left),
    }
}

#[verifier::opaque]
pub open spec fn spec_and_tail(ts: Seq<TokenView>, p: nat, left: AstView) -> (nat, Result<AstView, Fault>)
    decreases remaining(ts, p), 21nat,
{
    if tok_is(ts, p, 0, Name::And) {
        let (p1, e) = spec_eat(ts, p, Name::And);
        match e {
            Err(f) => (p1, Err(f)),
            Ok(t) => {
                let (q, r) = spec_equality_exp(ts, p1);
                let p2 = clamp(p1, q);
                match r {
                    Err(f) => (p2, Err(f)),
                    Ok(right) => spec_and_tail(ts, p2, AstView::Op2(Name::And, Box::new(left), Box::new(right))),
                }
            },
        }
    } else {
        (p, Ok(left))
    }
}

#[verifier::opaque]
pub open spec fn spec_equality_exp(ts: Seq<TokenView>, p: nat) -> (nat, Result<AstView, Fault>)
    decreases remaining(ts, p), 20nat,
{
    let (q, r) = spec_relation_exp(ts, p);
    let p1 = clamp(p, q);
    match r {
        Err(f) => (p1, Err(f)),
        Ok(left) => spec_equality_tail(ts, p1, left),
    }
}

#[verifier::opaque]
pub open spec fn spec_equality_tail(ts: Seq<TokenView>, p: nat, left: AstView) -> (nat, Result<AstView, Fault>)
    decreases remaining(ts, p), 19nat,
{
    if tok_any(ts, p, 0, seq![Name::Eq, Name::Ne]) {
        let (p1, e) = spec_eat_of(ts, p, Kind::Binary);
        match e {
            Err(f) => (p1, Err(f)),
            Ok(t) => {
                let (q, r) = spec_relation_exp(ts, p1);
                let p2 = clamp(p1, q);
                match r {
                    Err(f) => (p2, Err(f)),
                    Ok(right) => spec_equality_tail(ts, p2, AstView::Op2(t.name, Box::new(left), Box::new(right))),
                }
            },
        }
    } else {
        (p, Ok(left))
    }
}

#[verifier::opaque]
pub open spec fn spec_relation_exp(ts: Seq<TokenView>, p: nat) -> (nat, Result<AstView, Fault>)
    decreases remaining(ts, p), 18nat,
{
    let (q, r) = spec_additive_exp(ts, p);
    let p1 = clamp(p, q);
    match r {
        Err(f) => (p1, Err(f)),
        Ok(left) => spec_relation_tail(ts, p1, left),
    }
}

#[verifier::opaque]
pub open spec fn spec_relation_tail(ts: Seq<TokenView>, p: nat, left: AstView) -> (nat, Result<AstView, Fault>)
    decreases remaining(ts, p), 17nat,
{
    if tok_any(ts, p, 0, seq![Name::Gt, Name::Ge, Name::Lt, Name::Le]) {
        let (p1, e) = spec_eat_of(ts, p, Kind::Binary);
        match e {
            Err(f) => (p1, Err(f)),
            Ok(t) => {
                let (q, r) = spec_additive_exp(ts, p1);
                let p2 = clamp(p1, q);
                match r {
                    Err(f) => (p2, Err(f)),
                    Ok(right) => spec_relation_tail(ts, p2, AstView::Op2(t.name, Box::new(left), Box::new(right))),
                }
            },
        }
    } else {
        (p, Ok(left))
    }
}

#[verifier::opaque]
pub open spec fn spec_additive_exp(ts: Seq<TokenView>, p: nat) -> (nat, Result<AstView, Fault>)
    decreases remaining(ts, p), 16nat,
{
    let (q, r) = spec_multiplicative_exp(ts, p);
    let p1 = clamp(p, q);
    match r {
        Err(f) => (p1, Err(f)),
        Ok(left) => spec_additive_tail(ts, p1, left),
    }
}

#[verifier::opaque]
pub open spec fn spec_additive_tail(ts: Seq<TokenView>, p: nat, left: AstView) -> (nat, Result<AstView, Fault>)
    decreases remaining(ts, p), 15nat,
{
    if tok_any(ts, p, 0, seq![Name::Add, Name::Sub]) {
        let (p1, e) = spec_eat_of(ts, p, Kind::Binary);
        match e {
            Err(f) => (p1, Err(f)),
            Ok(t) => {
                let (q, r) = spec_multiplicative_exp(ts, p1);
                let p2 = clamp(p1, q);
                match r {
                    Err(f) => (p2, Err(f)),
                    Ok(right) => spec_additive_tail(ts, p2, AstView::Op2(t.name, Box::new(left), Box::new(right))),
                }
            },
        }
    } else {
        (p, Ok(left))
    }
}

#[verifier::opaque]
pub open spec fn spec_multiplicative_exp(ts: Seq<TokenView>, p: nat) -> (nat, Result<AstView, Fault>)
    decreases remaining(ts, p), 14nat,
{
    let (q, r) = spec_exponential_exp(ts, p);
    let p1 = clamp(p, q);
    match r {
        Err(f) => (p1, Err(f)),
        Ok(left) => spec_multiplicative_tail(ts, p1, left),
    }
}

#[verifier::opaque]
pub open spec fn spec_multiplicative_tail(ts: Seq<TokenView>, p: nat, left: AstView) -> (nat, Result<AstView, Fault>)
    decreases remaining(ts, p), 13nat,
{
    if tok_any(ts, p, 0, seq![Name::Mul, Name::Div]) {
        let (p1, e) = spec_eat_of(ts, p, Kind::Binary);
        match e {
            Err(f) => (p1, Err(Fault::Abort)),
            Ok(t) => {
                let (q, r) = spec_exponential_exp(ts, p1);
                let p2 = clamp(p1, q);
                match r {
                    Err(f) => (p2, Err(f)),
                    Ok(right) => spec_multiplicative_tail(ts, p2, AstView::Op2(t.name, Box::new(left), Box::new(right))),
                }
            },
        }
    } else {
        (p, Ok(left))
    }
}

#[verifier::opaque]
pub open spec fn spec_exponential_exp(ts: Seq<TokenView>, p: nat) -> (nat, Result<AstView, Fault>)
    decreases remaining(ts, p), 12nat,
{
    let (q, r) = spec_range_exp(ts, p);
    let p1 = clamp(p, q);
    match r {
        Err(f) => (p1, Err(f)),
        Ok(left) => spec_exponential_tail(ts, p1, left),
    }
}

#[verifier::opaque]
pub open spec fn spec_exponential_tail(ts: Seq<TokenView>, p: nat, left: AstView) -> (nat, Result<AstView, Fault>)
    decreases remaining(ts, p), 11nat,
{
    if tok_is(ts, p, 0, Name::Exp) {
        let (p1, e) = spec_eat(ts, p, Name::Exp);
        match e {
            Err(f) => (p1, Err(f)),
            Ok(t) => {
                let (q, r) = spec_range_exp(ts, p1);
                let p2 = clamp(p1, q);
                match r {
                    Err(f) => (p2, Err(f)),
                    Ok(right) => spec_exponential_tail(ts, p2, AstView::Op2(Name::Exp, Box::new(left), Box::new(right))),
                }
            },
        }
    } else {
        (p, Ok(left))
    }
}

#[verifier::opaque]
pub open spec fn spec_range_exp(ts: Seq<TokenView>, p: nat) -> (nat, Result<AstView, Fault>)
    decreases remaining(ts, p), 10nat,
{
    let (q, r) = spec_unary_exp(ts, p);
    let p1 = clamp(p, q);
    match r {
        Err(f) => (p1, Err(f)),
        Ok(left) => spec_range_tail(ts, p1, left),
    }
}

#[verifier::opaque]
pub open spec fn spec_range_tail(ts: Seq<TokenView>, p: nat, left: AstView) -> (nat, Result<AstView, Fault>)
    decreases remaining(ts, p), 9nat,
{
    if tok_is(ts, p, 0, Name::Range) {
        let (p1, e) = spec_eat(ts, p, Name::Range);
        match e {
            Err(f) => (p1, Err(f)),
            Ok(t) => {
                let (q, r) = spec_unary_exp(ts, p1);
                let p2 = clamp(p1, q);
                match r {
                    Err(f) => (p2, Err(f)),
                    Ok(right) => spec_range_tail(ts, p2, AstView::Op2(Name::Range, Box::new(left), Box::new(right))),
                }
            },
        }
    } else {
        (p, Ok(left))
    }
}

#[verifier::opaque]
pub open spec fn spec_select_exp(ts: Seq<TokenView>, p: nat) -> (nat, Result<AstView, Fault>)
    decreases remaining(ts, p), 6nat,
{
    let (q, r) = spec_apply(ts, p);
    let p1 = clamp(p, q);
    match r {
        Err(f) => (p1, Err(f)),
        Ok(left) => spec_select_tail(ts, p1, left),
    }
}

#[verifier::opaque]
pub open spec fn spec_select_tail(ts: Seq<TokenView>, p: nat, left: AstView) -> (nat, Result<AstView, Fault>)
    decreases remaining(ts, p), 5nat,
{
    if tok_is(ts, p, 0, Name::Select) {
        let (p1, e) = spec_eat(ts, p, Name::Select);
        match e {
            Err(f) => (p1, Err(f)),
            Ok(t) => {
                let (q, r) = spec_apply(ts, p1);
                let p2 = clamp(p1, q);
                match r {
                    Err(f) => (p2, Err(f)),
                    Ok(right) => spec_select_tail(ts, p2, AstView::Op2(Name::Select, Box::new(left), Box::new(right))),
                }
            },
        }
    } else {
        (p, Ok(left))
    }
}

#[verifier::opaque]
pub open spec fn spec_unary_exp(ts: Seq<TokenView>, p: nat) -> (nat, Result<AstView, Fault>)
    decreases remaining(ts, p), 8nat,
{
    if tok_any(ts, p, 0, seq![Name::Add, Name::Sub, Name::Not, Name::Range, Name::Colon, Name::Gt, Name::Lt, Name::Length]) {
        let (p1, e) = spec_eats(ts, p, seq![Name::Add, Name::Sub, Name::Not, Name::Range, Name::Colon, Name::Gt, Name::Lt, Name::Length]);
        match e {
            Err(f) => (p1, Err(f)),
            Ok(t) => {
                let (q, r) = spec_unary_exp(ts, p1);
                let p2 = clamp(p1, q);
                match r {
                    Err(f) => (p2, Err(f)),
                    Ok(x) => (p2, Ok(AstView::Op1(t.name, Box::new(x)))),
                }
            },
        }
    } else {
        spec_select_exp(ts, p)
    }
}

#[verifier::opaque]
pub open spec fn spec_apply(ts: Seq<TokenView>, p: nat) -> (nat, Result<AstView, Fault>)
    decreases remaining(ts, p), 4nat,
{
    let (q, r) = spec_primary(ts, p);
    let p1 = clamp(p, q);
    match r {
        Err(f) => (p1, Err(f)),
        Ok(left) => spec_apply_tail(ts, p1, left),
    }
}

#[verifier::opaque]
pub open spec fn spec_apply_tail(ts: Seq<TokenView>, p: nat, left: AstView) -> (nat, Result<AstView, Fault>)
    decreases remaining(ts, p), 3nat,
{
    if tok_any(ts, p, 0, seq![Name::BracketLF, Name::ParenLF]) {
        let (q, r) = spec_primary(ts, p);
        let p1 = clamp(p, q);
        match r {
            Err(f) => (p1, Err(f)),
            Ok(m) => if p1 > p {
                spec_apply_tail(ts, p1, AstView::Apply(Box::new(left), Box::new(m)))
            } else {
                (p1, Err(Fault::Abort))
            },
        }
    } else {
        (p, Ok(left))
    }
}

#[verifier::opaque]
pub open spec fn spec_primary(ts: Seq<TokenView>, p: nat) -> (nat, Result<AstView, Fault>)
    decreases remaining(ts, p), 2nat,
{
    if tok_is(ts, p, 0, Name::Label) {
        spec_reference(ts, p)
    } else if tok_of(ts, p, 0, Kind::Bracket) {
        spec_graph_exp(ts, p)
    } else if tok_of(ts, p, 0, Kind::Paren) {
        spec_paren_exp(ts, p)
    } else {
        spec_literal(ts, p)
    }
}

#[verifier::opaque]
pub open spec fn spec_graph_exp(ts: Seq<TokenView>, p: nat) -> (nat, Result<AstView, Fault>)
    decreases remaining(ts, p), 1nat,
{
    let (p1, e1) = spec_eat(ts, p, Name::BracketLF);
    match e1 {
        Err(f) => (p1, Err(f)),
        Ok(_) => {
            let (q, r) = spec_point_list(ts, p1, seq![Name::BracketRT]);
            let p2 = clamp(p1, q);
            if r == Err::<AstView, Fault>(Fault::Abort) {
                (p2, r)
            } else {
                let (p3, e3) = spec_eat(ts, p2, Name::BracketRT);
                match e3 {
                    Err(f) => (p3, Err(f)),
                    Ok(_) => (p3, r),
                }
            }
        },
    }
}

#[verifier::opaque]
pub open spec fn spec_paren_exp(ts: Seq<TokenView>, p: nat) -> (nat, Result<AstView, Fault>)
    decreases remaining(ts, p), 1nat,
{
    let (p1, e1) = spec_eat(ts, p, Name::ParenLF);
    match e1 {
        Err(f) => (p1, Err(f)),
        Ok(_) => {
            let (q, r) = spec_or_exp(ts, p1);
            let p2 = clamp(p1, q);
            if r == Err::<AstView, Fault>(Fault::Abort) {
                (p2, r)
            } else {
                let (p3, e3) = spec_eat(ts, p2, Name::ParenRT);
                match e3 {
                    Err(f) => (p3, Err(f)),
                    Ok(_) => (p3, r),
                }
            }
        },
    }
}

/// Parses `tokens` into the program point that holds their graph.
pub open spec fn spec_parser(ts: Seq<TokenView>) -> Result<AstView, Fault> {
    spec_program(ts, 0).1
}


/// Each point takes at least one index, and a point that parses leaves the
/// index at ten at most.
#[verifier::spinoff_prover]
proof fn lemma_point_index(ts: Seq<TokenView>, p: nat, index: nat)
    ensures
        spec_point(ts, p, index).1 >= index + 1,
        spec_point(ts, p, index).2 is Ok ==> spec_point(ts, p, index).1 <= 10,
    decreases remaining(ts, p),
{
    reveal_with_fuel(spec_point, 1);
    let i1 = index + 1;
    if i1 <= 10 && tok_is(ts, p, 0, Name::Label) && tok_any(ts, p, 1, seq![Name::SquarenLF, Name::Colon, Name::Semicolon]) {
        let (p1, e1) = spec_eat(ts, p, Name::Label);
        if e1 is Ok && !tok_is(ts, p1, 0, Name::SquarenLF) && !tok_is(ts, p1, 0, Name::Semicolon) {
            let (p2, e2) = spec_eat(ts, p1, Name::Colon);
            if e2 is Ok && tok_is(ts, p2, 0, Name::Label) && tok_any(ts, p2, 1, seq![Name::Colon, Name::Semicolon]) {
                lemma_point_index(ts, p2, i1);
            }
        }
    }
}

#[verifier::spinoff_prover]
proof fn lemma_point_list_loop_bound(ts: Seq<TokenView>, p: nat, stops: Seq<Name>, acc: Seq<AstView>, index: nat)
    requires
        acc.len() <= index,
        index <= 10,
    ensures
        spec_point_list_loop(ts, p, stops, acc, index).1 matches Ok(points) ==> points.len() <= 10,
    decreases remaining(ts, p),
{
    reveal_with_fuel(spec_point_list_loop, 1);
    if tok_until(ts, p, 0, stops) {
        let (q, i1, r) = spec_point(ts, p, index);
        lemma_point_index(ts, p, index);
        let p1 = clamp(p, q);
        if let Ok(x) = r {
            let p2 = skip_stops(ts, p1);
            if p2 > p {
                lemma_point_list_loop_bound(ts, p2, stops, acc.push(x), i1);
            }
        }
    }
}

/// A list of points that parses holds ten points at most: the eleventh
/// point of a list panics.
#[verifier::spinoff_prover]
pub proof fn lemma_point_list_at_most_ten(ts: Seq<TokenView>, p: nat, stops: Seq<Name>)
    ensures
        spec_point_list(ts, p, stops).1 matches Ok(g) ==> g matches AstView::Graph(points) && points.len() <= 10,
{
    reveal_with_fuel(spec_point_list, 1);
    lemma_point_list_loop_bound(ts, skip_stops(ts, p), stops, seq![], 0);
}

/// A parse that succeeds gives the program point: labelled `Program`, at
/// index 0, holding the graph of the top-level points.
#[verifier::spinoff_prover]
pub proof fn lemma_parser_gives_program(ts: Seq<TokenView>)
    ensures
        spec_parser(ts) matches Ok(a) ==> a matches AstView::Point(label, typ, index, ret, g) && label == "Program"@
            && typ == Typ::Thing && index == 0 && !ret && *g is Graph,
{
    reveal_with_fuel(spec_point_list, 1);
}

#[verifier::spinoff_prover]
proof fn lemma_point_list_loop_reads_all(ts: Seq<TokenView>, p: nat, stops: Seq<Name>, acc: Seq<AstView>, index: nat)
    requires
        stops.len() == 0,
    ensures
        spec_point_list_loop(ts, p, stops, acc, index).1 is Ok ==> spec_point_list_loop(ts, p, stops, acc, index).0
            >= ts.len(),
    decreases remaining(ts, p),
{
    reveal_with_fuel(spec_point_list_loop, 1);
    if tok_until(ts, p, 0, stops) {
        let (q, i1, r) = spec_point(ts, p, index);
        let p1 = clamp(p, q);
        if let Ok(x) = r {
            let p2 = skip_stops(ts, p1);
            if p2 > p {
                lemma_point_list_loop_reads_all(ts, p2, stops, acc.push(x), i1);
            }
        }
    } else {
        assert(stops.contains(tok_at(ts, p, 0)->0.name) ==> false);
    }
}

/// A parse that succeeds has read every token of the stream.
#[verifier::spinoff_prover]
pub proof fn lemma_parser_reads_all(ts: Seq<TokenView>)
    ensures
        spec_program(ts, 0).1 is Ok ==> spec_program(ts, 0).0 >= ts.len(),
{
    reveal_with_fuel(spec_point_list, 1);
    let stops: Seq<Name> = seq![];
    lemma_point_list_loop_reads_all(ts, skip_stops(ts, 0), stops, seq![], 0);
}

impl<'a> Tokens<'a> {
    #[verifier::spinoff_prover]
    fn reference(&mut self) -> (r: Result<Ast, String>)
        requires
            old(self).wf(),
            !old(self).aborted,
        ensures
            final(self).wf(),
            final(self).tokens == old(self).tokens,
            final(self).pos() >= old(self).pos(),
            r is Ok ==> final(self).pos() > old(self).pos(),
            final(self).aborted == (spec_reference(old(self).toks(), old(self).pos()).1 == Err::<AstView, Fault>(Fault::Abort)),
            final(self).aborted ==> r is Err,
            !final(self).aborted ==> final(self).pos() == spec_reference(old(self).toks(), old(self).pos()).0,
            !final(self).aborted ==> ast_result(r) == render(spec_reference(old(self).toks(), old(self).pos()).1),
    {
        let t = match self.eat(Name::Label) {
            Ok(t) => t,
            Err(m) => {
                return Err(m);
            },
        };
        Ok(Ast::Ref(t.meta.text.clone()))
    }
    #[verifier::spinoff_prover]
    fn literal(&mut self) -> (r: Result<Ast, String>)
        requires
            old(self).wf(),
            !old(self).aborted,
        ensures
            final(self).wf(),
            final(self).tokens == old(self).tokens,
            final(self).pos() >= old(self).pos(),
            r is Ok ==> final(self).pos() > old(self).pos(),
            final(self).aborted == (spec_literal(old(self).toks(), old(self).pos()).1 == Err::<AstView, Fault>(Fault::Abort)),
            final(self).aborted ==> r is Err,
            !final(self).aborted ==> final(self).pos() == spec_literal(old(self).toks(), old(self).pos()).0,
            !final(self).aborted ==> ast_result(r) == render(spec_literal(old(self).toks(), old(self).pos()).1),
    {
        if self.of(0, Kind::String) {
            self.string()
        } else {
            self.number()
        }
    }
    #[verifier::spinoff_prover]
    fn number(&mut self) -> (r: Result<Ast, String>)
        requires
            old(self).wf(),
            !old(self).aborted,
        ensures
            final(self).wf(),
            final(self).tokens == old(self).tokens,
            final(self).pos() >= old(self).pos(),
            r is Ok ==> final(self).pos() > old(self).pos(),
            final(self).aborted == (spec_number(old(self).toks(), old(self).pos()).1 == Err::<AstView, Fault>(Fault::Abort)),
            final(self).aborted ==> r is Err,
            !final(self).aborted ==> final(self).pos() == spec_number(old(self).toks(), old(self).pos()).0,
            !final(self).aborted ==> ast_result(r) == render(spec_number(old(self).toks(), old(self).pos()).1),
    {
        let t = match self.eat_of(Kind::Number) {
            Ok(t) => t,
            Err(m) => {
                return Err(m);
            },
        };
        let ast = match t.of.name {
            Name::Decimal => Ast::Decimal(t.meta.text.clone()),
            Name::Integer => Ast::Integer(t.meta.text.clone()),
            _ => {
                self.aborted = true;
                return Err(String::new());
            },
        };
        Ok(ast)
    }
    #[verifier::spinoff_prover]
    fn string(&mut self) -> (r: Result<Ast, String>)
        requires
            old(self).wf(),
            !old(self).aborted,
        ensures
            final(self).wf(),
            final(self).tokens == old(self).tokens,
            final(self).pos() >= old(self).pos(),
            r is Ok ==> final(self).pos() > old(self).pos(),
            final(self).aborted == (spec_string(old(self).toks(), old(self).pos()).1 == Err::<AstView, Fault>(Fault::Abort)),
            final(self).aborted ==> r is Err,
            !final(self).aborted ==> final(self).pos() == spec_string(old(self).toks(), old(self).pos()).0,
            !final(self).aborted ==> ast_result(r) == render(spec_string(old(self).toks(), old(self).pos()).1),
    {
        let t = match self.eat_of(Kind::String) {
            Ok(t) => t,
            Err(m) => {
                return Err(m);
            },
        };
        Ok(Ast::String(t.meta.text.clone()))
    }
    #[verifier::spinoff_prover]
    fn program(&mut self) -> (r: Result<Ast, String>)
        requires
            old(self).wf(),
            !old(self).aborted,
        ensures
            final(self).wf(),
            final(self).tokens == old(self).tokens,
            final(self).pos() >= old(self).pos(),
            final(self).aborted == (spec_program(old(self).toks(), old(self).pos()).1 == Err::<AstView, Fault>(Fault::Abort)),
            final(self).aborted ==> r is Err,
            !final(self).aborted ==> final(self).pos() == spec_program(old(self).toks(), old(self).pos()).0,
            !final(self).aborted ==> ast_result(r) == render(spec_program(old(self).toks(), old(self).pos()).1),
        decreases old(self).tokens@.len() - old(self).cursor, 43nat,
    {
        let stops: &[Name] = &[];
        proof {
            assert(stops@ =~= Seq::<Name>::empty());
        }
        let ast = match self.point_list(stops) {
            Ok(x) => x,
            Err(m) => {
                return Err(m);
            },
        };
        let name = "Program".to_string();
        Ok(Ast::Point(name, Typ::Thing, 0, false, Box::new(ast)))
    }
    #[verifier::spinoff_prover]
    fn point_list(&mut self, stops: &[Name]) -> (r: Result<Ast, String>)
        requires
            old(self).wf(),
            !old(self).aborted,
        ensures
            final(self).wf(),
            final(self).tokens == old(self).tokens,
            final(self).pos() >= old(self).pos(),
            final(self).aborted == (spec_point_list(old(self).toks(), old(self).pos(), stops@).1 == Err::<
                AstView,
                Fault,
            >(Fault::Abort)),
            final(self).aborted ==> r is Err,
            !final(self).aborted ==> final(self).pos() == spec_point_list(old(self).toks(), old(self).pos(), stops@).0,
            !final(self).aborted ==> ast_result(r) == render(spec_point_list(old(self).toks(), old(self).pos(), stops@).1),
        decreases old(self).tokens@.len() - old(self).cursor, 42nat,
    {
        proof {
            reveal_with_fuel(spec_point_list, 1);
            reveal_with_fuel(spec_point_list_loop, 1);
        }
        let ghost ts = self.toks();
        let ghost p0 = self.pos();
        let mut points: Vec<Ast> = Vec::new();
        proof {
            lemma_skip_stops(ts, p0);
            assert(asts_view(points@) =~= Seq::<AstView>::empty());
        }
        self.clear_stops();
        let ghost p_start = self.pos();
        let mut index: u16 = 0;
        while self.until(0, stops)
            invariant
                self.wf(),
                self.tokens == old(self).tokens,
                ts == old(self).toks(),
                p0 == old(self).pos(),
                self.pos() >= p0,
                index <= 10,
                spec_point_list(ts, p0, stops@) == ({
                    let (q, r) = spec_point_list_loop(ts, self.pos(), stops@, asts_view(points@), index as nat);
                    (q, match r {
                        Ok(ps) => Ok(AstView::Graph(ps)),
                        Err(f) => Err(f),
                    })
                }),
                !self.aborted,
            decreases self.tokens@.len() - self.cursor,
        {
            proof {
                reveal_with_fuel(spec_point_list_loop, 1);
            }
            let ghost p1 = self.pos();
            let x = match self.point(&mut index) {
                Ok(x) => x,
                Err(m) => {
                    return Err(m);
                },
            };
            proof {
                lemma_asts_view_push(points@, x);
                lemma_skip_stops(ts, self.pos());
            }
            points.push(x);
            self.clear_stops();
        }
        Ok(Ast::Graph(points))
    }

    /// Parses one point and gives it the index `*shared_index`, which then
    /// moves on by one. Taking the index past ten is where parsing panics:
    /// that stop is recorded in `aborted` (with an empty error) rather than
    /// ruled out by the precondition, because it can happen at any depth of
    /// the nested points and depends on the tokens still to come, which a
    /// caller cannot know beforehand. An index of ten on entry therefore
    /// aborts at once, exactly as `spec_point` says.
    #[verifier::spinoff_prover]
    fn point(&mut self, shared_index: &mut u16) -> (r: Result<Ast, String>)
        requires
            old(self).wf(),
            !old(self).aborted,
            *old(shared_index) <= 10,
        ensures
            final(self).wf(),
            final(self).tokens == old(self).tokens,
            final(self).pos() >= old(self).pos(),
            r is Ok ==> final(self).pos() > old(self).pos(),
            final(self).aborted == (spec_point(old(self).toks(), old(self).pos(), *old(shared_index) as nat).2
                == Err::<AstView, Fault>(Fault::Abort)),
            final(self).aborted ==> r is Err,
            !final(self).aborted ==> *final(shared_index) <= 10,
            !final(self).aborted ==> final(self).pos() == spec_point(old(self).toks(), old(self).pos(), *old(shared_index) as nat).0,
            !final(self).aborted ==> *final(shared_index) as nat == spec_point(old(self).toks(), old(self).pos(), *old(shared_index) as nat).1,
            !final(self).aborted ==> ast_result(r) == render(spec_point(old(self).toks(), old(self).pos(), *old(shared_index) as nat).2),
        decreases old(self).tokens@.len() - old(self).cursor, 40nat,
    {
        proof {
            reveal_with_fuel(spec_point, 1);
        }
        let index = *shared_index;
        *shared_index = *shared_index + 1;
        if *shared_index > 10 {
            self.aborted = true;
            return Err(String::new());
        }
        let space: Typ;
        let label: String;
        let graph: Ast;
        let marks: &[Name] = &[Name::SquarenLF, Name::Colon, Name::Semicolon];
        let ends: &[Name] = &[Name::Colon, Name::Semicolon];
        proof {
            assert(marks@ =~= seq![Name::SquarenLF, Name::Colon, Name::Semicolon]);
            assert(ends@ =~= seq![Name::Colon, Name::Semicolon]);
        }
        if self.is(0, Name::Label) && self.any(1, marks) {
            label = match self.eat(Name::Label) {
                Ok(t) => t.meta.text.clone(),
                Err(m) => {
                    return Err(m);
                },
            };
            if self.is(0, Name::SquarenLF) {
                space = match self.space() {
                    Ok(s) => s,
                    Err(m) => {
                        return Err(m);
                    },
                };
                graph = if self.is(0, Name::Colon) {
                    match self.eat(Name::Colon) {
                        Ok(_) => {},
                        Err(m) => {
                            return Err(m);
                        },
                    }
                    match self.or_exp() {
                        Ok(x) => x,
                        Err(m) => {
                            return Err(m);
                        },
                    }
                } else {
                    Ast::Nothing
                };
            } else if self.is(0, Name::Semicolon) {
                match self.eat(Name::Semicolon) {
                    Ok(_) => {},
                    Err(m) => {
                        return Err(m);
                    },
                }
                space = Typ::Thing;
                graph = Ast::Nothing;
            } else {
                space = Typ::Thing;
                match self.eat(Name::Colon) {
                    Ok(_) => {},
                    Err(m) => {
                        return Err(m);
                    },
                }
                graph = if self.is(0, Name::Label) && self.any(1, ends) {
                    match self.point(shared_index) {
                        Ok(x) => x,
                        Err(m) => {
                            return Err(m);
                        },
                    }
                } else {
                    match self.or_exp() {
                        Ok(x) => x,
                        Err(m) => {
                            return Err(m);
                        },
                    }
                };
            }
        } else {
            space = Typ::Thing;
            label = String::new();
            graph = match self.or_exp() {
                Ok(x) => x,
                Err(m) => {
                    return Err(m);
                },
            };
        }
        Ok(Ast::Point(label, space, index, false, Box::new(graph)))
    }

    fn space(&mut self) -> (r: Result<Typ, String>)
        requires
            old(self).wf(),
        ensures
            final(self).wf(),
            final(self).tokens == old(self).tokens,
            final(self).aborted == old(self).aborted,
            final(self).pos() == spec_eat(old(self).toks(), old(self).pos(), Name::SquarenLF).0,
            match r {
                Ok(t) => t == Typ::Thing && spec_eat(old(self).toks(), old(self).pos(), Name::SquarenLF).1 is Ok,
                Err(m) => spec_eat(old(self).toks(), old(self).pos(), Name::SquarenLF).1 matches Err(f) && m@ == fault_text(f),
            },
    {
        match self.eat(Name::SquarenLF) {
            Ok(_) => Ok(Typ::Thing),
            Err(m) => Err(m),
        }
    }

    #[verifier::spinoff_prover]
    fn or_exp(&mut self) -> (r: Result<Ast, String>)
        requires
            old(self).wf(),
            !old(self).aborted,
        ensures
            final(self).wf(),
            final(self).tokens == old(self).tokens,
            final(self).pos() >= old(self).pos(),
            r is Ok ==> final(self).pos() > old(self).pos(),
            final(self).aborted == (spec_or_exp(old(self).toks(), old(self).pos()).1 == Err::<AstView, Fault>(Fault::Abort)),
            final(self).aborted ==> r is Err,
            !final(self).aborted ==> final(self).pos() == spec_or_exp(old(self).toks(), old(self).pos()).0,
            !final(self).aborted ==> ast_result(r) == render(spec_or_exp(old(self).toks(), old(self).pos()).1),
        decreases old(self).tokens@.len() - old(self).cursor, 24nat,
    {
        proof {
            reveal_with_fuel(spec_or_exp, 1);
            reveal_with_fuel(spec_or_tail, 1);
        }
        let ghost ts = self.toks();
        let ghost p0 = self.pos();
        let first = match self.and_exp() {
            Ok(x) => x,
            Err(m) => {
                return Err(m);
            },
        };
        let mut left = first;
        while self.is(0, Name::Or)
            invariant
                self.wf(),
                self.tokens == old(self).tokens,
                ts == old(self).toks(),
                p0 == old(self).pos(),
                self.pos() > p0,
                !self.aborted,
                spec_or_exp(ts, p0) == spec_or_tail(ts, self.pos(), left@),
            decreases self.tokens@.len() - self.cursor,
        {
            proof {
                reveal_with_fuel(spec_or_tail, 1);
            }
            let t = match self.eat(Name::Or) {
                Ok(t) => t,
                Err(m) => {
                    return Err(m);
                },
            };
            let right = match self.and_exp() {
                Ok(x) => x,
                Err(m) => {
                    return Err(m);
                },
            };
            left = Ast::Op2(Name::Or, Box::new(left), Box::new(right));
        }
        Ok(left)
    }

    #[verifier::spinoff_prover]
    fn and_exp(&mut self) -> (r: Result<Ast, String>)
        requires
            old(self).wf(),
            !old(self).aborted,
        ensures
            final(self).wf(),
            final(self).tokens == old(self).tokens,
            final(self).pos() >= old(self).pos(),
            r is Ok ==> final(self).pos() > old(self).pos(),
            final(self).aborted == (spec_and_exp(old(self).toks(), old(self).pos()).1 == Err::<AstView, Fault>(Fault::Abort)),
            final(self).aborted ==> r is Err,
            !final(self).aborted ==> final(self).pos() == spec_and_exp(old(self).toks(), old(self).pos()).0,
            !final(self).aborted ==> ast_result(r) == render(spec_and_exp(old(self).toks(), old(self).pos()).1),
        decreases old(self).tokens@.len() - old(self).cursor, 22nat,
    {
        proof {
            reveal_with_fuel(spec_and_exp, 1);
            reveal_with_fuel(spec_and_tail, 1);
        }
        let ghost ts = self.toks();
        let ghost p0 = self.pos();
        let first = match self.equality_exp() {
            Ok(x) => x,
            Err(m) => {
                return Err(m);
            },
        };
        let mut left = first;
        while self.is(0, Name::And)
            invariant
                self.wf(),
                self.tokens == old(self).tokens,
                ts == old(self).toks(),
                p0 == old(self).pos(),
                self.pos() > p0,
                !self.aborted,
                spec_and_exp(ts, p0) == spec_and_tail(ts, self.pos(), left@),
            decreases self.tokens@.len() - self.cursor,
        {
            proof {
                reveal_with_fuel(spec_and_tail, 1);
            }
            let t = match self.eat(Name::And) {
                Ok(t) => t,
                Err(m) => {
                    return Err(m);
                },
            };
            let right = match self.equality_exp() {
                Ok(x) => x,
                Err(m) => {
                    return Err(m);
                },
            };
            left = Ast::Op2(Name::And, Box::new(left), Box::new(right));
        }
        Ok(left)
    }

    #[verifier::spinoff_prover]
    fn equality_exp(&mut self) -> (r: Result<Ast, String>)
        requires
            old(self).wf(),
            !old(self).aborted,
        ensures
            final(self).wf(),
            final(self).tokens == old(self).tokens,
            final(self).pos() >= old(self).pos(),
            r is Ok ==> final(self).pos() > old(self).pos(),
            final(self).aborted == (spec_equality_exp(old(self).toks(), old(self).pos()).1 == Err::<AstView, Fault>(Fault::Abort)),
            final(self).aborted ==> r is Err,
            !final(self).aborted ==> final(self).pos() == spec_equality_exp(old(self).toks(), old(self).pos()).0,
            !final(self).aborted ==> ast_result(r) == render(spec_equality_exp(old(self).toks(), old(self).pos()).1),
        decreases old(self).tokens@.len() - old(self).cursor, 20nat,
    {
        proof {
            reveal_with_fuel(spec_equality_exp, 1);
            reveal_with_fuel(spec_equality_tail, 1);
        }
        let ghost ts = self.toks();
        let ghost p0 = self.pos();
        let ops: &[Name] = &[Name::Eq, Name::Ne];
        proof {
            assert(ops@ =~= seq![Name::Eq, Name::Ne]);
        }
        let first = match self.relation_exp() {
            Ok(x) => x,
            Err(m) => {
                return Err(m);
            },
        };
        let mut left = first;
        while self.any(0, ops)
            invariant
                self.wf(),
                self.tokens == old(self).tokens,
                ts == old(self).toks(),
                p0 == old(self).pos(),
                ops@ == seq![Name::Eq, Name::Ne],
                self.pos() > p0,
                !self.aborted,
                spec_equality_exp(ts, p0) == spec_equality_tail(ts, self.pos(), left@),
            decreases self.tokens@.len() - self.cursor,
        {
            proof {
                reveal_with_fuel(spec_equality_tail, 1);
            }
            let t = match self.eat_of(Kind::Binary) {
                Ok(t) => t,
                Err(m) => {
                    return Err(m);
                },
            };
            let right = match self.relation_exp() {
                Ok(x) => x,
                Err(m) => {
                    return Err(m);
                },
            };
            left = Ast::Op2(t.of.name, Box::new(left), Box::new(right));
        }
        Ok(left)
    }

    #[verifier::spinoff_prover]
    fn relation_exp(&mut self) -> (r: Result<Ast, String>)
        requires
            old(self).wf(),
            !old(self).aborted,
        ensures
            final(self).wf(),
            final(self).tokens == old(self).tokens,
            final(self).pos() >= old(self).pos(),
            r is Ok ==> final(self).pos() > old(self).pos(),
            final(self).aborted == (spec_relation_exp(old(self).toks(), old(self).pos()).1 == Err::<AstView, Fault>(Fault::Abort)),
            final(self).aborted ==> r is Err,
            !final(self).aborted ==> final(self).pos() == spec_relation_exp(old(self).toks(), old(self).pos()).0,
            !final(self).aborted ==> ast_result(r) == render(spec_relation_exp(old(self).toks(), old(self).pos()).1),
        decreases old(self).tokens@.len() - old(self).cursor, 18nat,
    {
        proof {
            reveal_with_fuel(spec_relation_exp, 1);
            reveal_with_fuel(spec_relation_tail, 1);
        }
        let ghost ts = self.toks();
        let ghost p0 = self.pos();
        let ops: &[Name] = &[Name::Gt, Name::Ge, Name::Lt, Name::Le];
        proof {
            assert(ops@ =~= seq![Name::Gt, Name::Ge, Name::Lt, Name::Le]);
        }
        let first = match self.additive_exp() {
            Ok(x) => x,
            Err(m) => {
                return Err(m);
            },
        };
        let mut left = first;
        while self.any(0, ops)
            invariant
                self.wf(),
                self.tokens == old(self).tokens,
                ts == old(self).toks(),
                p0 == old(self).pos(),
                ops@ == seq![Name::Gt, Name::Ge, Name::Lt, Name::Le],
                self.pos() > p0,
                !self.aborted,
                spec_relation_exp(ts, p0) == spec_relation_tail(ts, self.pos(), left@),
            decreases self.tokens@.len() - self.cursor,
        {
            proof {
                reveal_with_fuel(spec_relation_tail, 1);
            }
            let t = match self.eat_of(Kind::Binary) {
                Ok(t) => t,
                Err(m) => {
                    return Err(m);
                },
            };
            let right = match self.additive_exp() {
                Ok(x) => x,
                Err(m) => {
                    return Err(m);
                },
            };
            left = Ast::Op2(t.of.name, Box::new(left), Box::new(right));
        }
        Ok(left)
    }

    #[verifier::spinoff_prover]
    fn additive_exp(&mut self) -> (r: Result<Ast, String>)
        requires
            old(self).wf(),
            !old(self).aborted,
        ensures
            final(self).wf(),
            final(self).tokens == old(self).tokens,
            final(self).pos() >= old(self).pos(),
            r is Ok ==> final(self).pos() > old(self).pos(),
            final(self).aborted == (spec_additive_exp(old(self).toks(), old(self).pos()).1 == Err::<AstView, Fault>(Fault::Abort)),
            final(self).aborted ==> r is Err,
            !final(self).aborted ==> final(self).pos() == spec_additive_exp(old(self).toks(), old(self).pos()).0,
            !final(self).aborted ==> ast_result(r) == render(spec_additive_exp(old(self).toks(), old(self).pos()).1),
        decreases old(self).tokens@.len() - old(self).cursor, 16nat,
    {
        proof {
            reveal_with_fuel(spec_additive_exp, 1);
            reveal_with_fuel(spec_additive_tail, 1);
        }
        let ghost ts = self.toks();
        let ghost p0 = self.pos();
        let ops: &[Name] = &[Name::Add, Name::Sub];
        proof {
            assert(ops@ =~= seq![Name::Add, Name::Sub]);
        }
        let first = match self.multiplicative_exp() {
            Ok(x) => x,
            Err(m) => {
                return Err(m);
            },
        };
        let mut left = first;
        while self.any(0, ops)
            invariant
                self.wf(),
                self.tokens == old(self).tokens,
                ts == old(self).toks(),
                p0 == old(self).pos(),
                ops@ == seq![Name::Add, Name::Sub],
                self.pos() > p0,
                !self.aborted,
                spec_additive_exp(ts, p0) == spec_additive_tail(ts, self.pos(), left@),
            decreases self.tokens@.len() - self.cursor,
        {
            proof {
                reveal_with_fuel(spec_additive_tail, 1);
            }
            let t = match self.eat_of(Kind::Binary) {
                Ok(t) => t,
                Err(m) => {
                    return Err(m);
                },
            };
            let right = match self.multiplicative_exp() {
                Ok(x) => x,
                Err(m) => {
                    return Err(m);
                },
            };
            left = Ast::Op2(t.of.name, Box::new(left), Box::new(right));
        }
        Ok(left)
    }

    #[verifier::spinoff_prover]
    fn multiplicative_exp(&mut self) -> (r: Result<Ast, String>)
        requires
            old(self).wf(),
            !old(self).aborted,
        ensures
            final(self).wf(),
            final(self).tokens == old(self).tokens,
            final(self).pos() >= old(self).pos(),
            r is Ok ==> final(self).pos() > old(self).pos(),
            final(self).aborted == (spec_multiplicative_exp(old(self).toks(), old(self).pos()).1 == Err::<AstView, Fault>(Fault::Abort)),
            final(self).aborted ==> r is Err,
            !final(self).aborted ==> final(self).pos() == spec_multiplicative_exp(old(self).toks(), old(self).pos()).0,
            !final(self).aborted ==> ast_result(r) == render(spec_multiplicative_exp(old(self).toks(), old(self).pos()).1),
        decreases old(self).tokens@.len() - old(self).cursor, 14nat,
    {
        proof {
            reveal_with_fuel(spec_multiplicative_exp, 1);
            reveal_with_fuel(spec_multiplicative_tail, 1);
        }
        let ghost ts = self.toks();
        let ghost p0 = self.pos();
        let ops: &[Name] = &[Name::Mul, Name::Div];
        proof {
            assert(ops@ =~= seq![Name::Mul, Name::Div]);
        }
        let first = match self.exponential_exp() {
            Ok(x) => x,
            Err(m) => {
                return Err(m);
            },
        };
        let mut left = first;
        while self.any(0, ops)
            invariant
                self.wf(),
                self.tokens == old(self).tokens,
                ts == old(self).toks(),
                p0 == old(self).pos(),
                ops@ == seq![Name::Mul, Name::Div],
                self.pos() > p0,
                !self.aborted,
                spec_multiplicative_exp(ts, p0) == spec_multiplicative_tail(ts, self.pos(), left@),
            decreases self.tokens@.len() - self.cursor,
        {
            proof {
                reveal_with_fuel(spec_multiplicative_tail, 1);
            }
            let t = match self.eat_of(Kind::Binary) {
                Ok(t) => t,
                Err(m) => {
                    self.aborted = true;
                    return Err(m);
                },
            };
            let right = match self.exponential_exp() {
                Ok(x) => x,
                Err(m) => {
                    return Err(m);
                },
            };
            left = Ast::Op2(t.of.name, Box::new(left), Box::new(right));
        }
        Ok(left)
    }

    #[verifier::spinoff_prover]
    fn exponential_exp(&mut self) -> (r: Result<Ast, String>)
        requires
            old(self).wf(),
            !old(self).aborted,
        ensures
            final(self).wf(),
            final(self).tokens == old(self).tokens,
            final(self).pos() >= old(self).pos(),
            r is Ok ==> final(self).pos() > old(self).pos(),
            final(self).aborted == (spec_exponential_exp(old(self).toks(), old(self).pos()).1 == Err::<AstView, Fault>(Fault::Abort)),
            final(self).aborted ==> r is Err,
            !final(self).aborted ==> final(self).pos() == spec_exponential_exp(old(self).toks(), old(self).pos()).0,
            !final(self).aborted ==> ast_result(r) == render(spec_exponential_exp(old(self).toks(), old(self).pos()).1),
        decreases old(self).tokens@.len() - old(self).cursor, 12nat,
    {
        proof {
            reveal_with_fuel(spec_exponential_exp, 1);
            reveal_with_fuel(spec_exponential_tail, 1);
        }
        let ghost ts = self.toks();
        let ghost p0 = self.pos();
        let first = match self.range_exp() {
            Ok(x) => x,
            Err(m) => {
                return Err(m);
            },
        };
        let mut left = first;
        while self.is(0, Name::Exp)
            invariant
                self.wf(),
                self.tokens == old(self).tokens,
                ts == old(self).toks(),
                p0 == old(self).pos(),
                self.pos() > p0,
                !self.aborted,
                spec_exponential_exp(ts, p0) == spec_exponential_tail(ts, self.pos(), left@),
            decreases self.tokens@.len() - self.cursor,
        {
            proof {
                reveal_with_fuel(spec_exponential_tail, 1);
            }
            let t = match self.eat(Name::Exp) {
                Ok(t) => t,
                Err(m) => {
                    return Err(m);
                },
            };
            let right = match self.range_exp() {
                Ok(x) => x,
                Err(m) => {
                    return Err(m);
                },
            };
            left = Ast::Op2(Name::Exp, Box::new(left), Box::new(right));
        }
        Ok(left)
    }

    #[verifier::spinoff_prover]
    fn range_exp(&mut self) -> (r: Result<Ast, String>)
        requires
            old(self).wf(),
            !old(self).aborted,
        ensures
            final(self).wf(),
            final(self).tokens == old(self).tokens,
            final(self).pos() >= old(self).pos(),
            r is Ok ==> final(self).pos() > old(self).pos(),
            final(self).aborted == (spec_range_exp(old(self).toks(), old(self).pos()).1 == Err::<AstView, Fault>(Fault::Abort)),
            final(self).aborted ==> r is Err,
            !final(self).aborted ==> final(self).pos() == spec_range_exp(old(self).toks(), old(self).pos()).0,
            !final(self).aborted ==> ast_result(r) == render(spec_range_exp(old(self).toks(), old(self).pos()).1),
        decreases old(self).tokens@.len() - old(self).cursor, 10nat,
    {
        proof {
            reveal_with_fuel(spec_range_exp, 1);
            reveal_with_fuel(spec_range_tail, 1);
        }
        let ghost ts = self.toks();
        let ghost p0 = self.pos();
        let first = match self.unary_exp() {
            Ok(x) => x,
            Err(m) => {
                return Err(m);
            },
        };
        let mut left = first;
        while self.is(0, Name::Range)
            invariant
                self.wf(),
                self.tokens == old(self).tokens,
                ts == old(self).toks(),
                p0 == old(self).pos(),
                self.pos() > p0,
                !self.aborted,
                spec_range_exp(ts, p0) == spec_range_tail(ts, self.pos(), left@),
            decreases self.tokens@.len() - self.cursor,
        {
            proof {
                reveal_with_fuel(spec_range_tail, 1);
            }
            let t = match self.eat(Name::Range) {
                Ok(t) => t,
                Err(m) => {
                    return Err(m);
                },
            };
            let right = match self.unary_exp() {
                Ok(x) => x,
                Err(m) => {
                    return Err(m);
                },
            };
            left = Ast::Op2(Name::Range, Box::new(left), Box::new(right));
        }
        Ok(left)
    }

    #[verifier::spinoff_prover]
    fn select_exp(&mut self) -> (r: Result<Ast, String>)
        requires
            old(self).wf(),
            !old(self).aborted,
        ensures
            final(self).wf(),
            final(self).tokens == old(self).tokens,
            final(self).pos() >= old(self).pos(),
            r is Ok ==> final(self).pos() > old(self).pos(),
            final(self).aborted == (spec_select_exp(old(self).toks(), old(self).pos()).1 == Err::<AstView, Fault>(Fault::Abort)),
            final(self).aborted ==> r is Err,
            !final(self).aborted ==> final(self).pos() == spec_select_exp(old(self).toks(), old(self).pos()).0,
            !final(self).aborted ==> ast_result(r) == render(spec_select_exp(old(self).toks(), old(self).pos()).1),
        decreases old(self).tokens@.len() - old(self).cursor, 6nat,
    {
        proof {
            reveal_with_fuel(spec_select_exp, 1);
            reveal_with_fuel(spec_select_tail, 1);
        }
        let ghost ts = self.toks();
        let ghost p0 = self.pos();
        let first = match self.apply() {
            Ok(x) => x,
            Err(m) => {
                return Err(m);
            },
        };
        let mut left = first;
        while self.is(0, Name::Select)
            invariant
                self.wf(),
                self.tokens == old(self).tokens,
                ts == old(self).toks(),
                p0 == old(self).pos(),
                self.pos() > p0,
                !self.aborted,
                spec_select_exp(ts, p0) == spec_select_tail(ts, self.pos(), left@),
            decreases self.tokens@.len() - self.cursor,
        {
            proof {
                reveal_with_fuel(spec_select_tail, 1);
            }
            let t = match self.eat(Name::Select) {
                Ok(t) => t,
                Err(m) => {
                    return Err(m);
                },
            };
            let right = match self.apply() {
                Ok(x) => x,
                Err(m) => {
                    return Err(m);
                },
            };
            left = Ast::Op2(Name::Select, Box::new(left), Box::new(right));
        }
        Ok(left)
    }

    #[verifier::spinoff_prover]
    fn unary_exp(&mut self) -> (r: Result<Ast, String>)
        requires
            old(self).wf(),
            !old(self).aborted,
        ensures
            final(self).wf(),
            final(self).tokens == old(self).tokens,
            final(self).pos() >= old(self).pos(),
            r is Ok ==> final(self).pos() > old(self).pos(),
            final(self).aborted == (spec_unary_exp(old(self).toks(), old(self).pos()).1 == Err::<AstView, Fault>(Fault::Abort)),
            final(self).aborted ==> r is Err,
            !final(self).aborted ==> final(self).pos() == spec_unary_exp(old(self).toks(), old(self).pos()).0,
            !final(self).aborted ==> ast_result(r) == render(spec_unary_exp(old(self).toks(), old(self).pos()).1),
        decreases old(self).tokens@.len() - old(self).cursor, 8nat,
    {
        proof {
            reveal_with_fuel(spec_unary_exp, 1);
        }
        let ops: &[Name] = &[Name::Add, Name::Sub, Name::Not, Name::Range, Name::Colon, Name::Gt, Name::Lt, Name::Length];
        proof {
            assert(ops@ =~= seq![Name::Add, Name::Sub, Name::Not, Name::Range, Name::Colon, Name::Gt, Name::Lt, Name::Length]);
        }
        if self.any(0, ops) {
            let operator = match self.eats(ops) {
                Ok(t) => t,
                Err(m) => {
                    return Err(m);
                },
            };
            let x = match self.unary_exp() {
                Ok(x) => x,
                Err(m) => {
                    return Err(m);
                },
            };
            Ok(Ast::Op1(operator.of.name, Box::new(x)))
        } else {
            self.select_exp()
        }
    }

    #[verifier::spinoff_prover]
    fn apply(&mut self) -> (r: Result<Ast, String>)
        requires
            old(self).wf(),
            !old(self).aborted,
        ensures
            final(self).wf(),
            final(self).tokens == old(self).tokens,
            final(self).pos() >= old(self).pos(),
            r is Ok ==> final(self).pos() > old(self).pos(),
            final(self).aborted == (spec_apply(old(self).toks(), old(self).pos()).1 == Err::<AstView, Fault>(Fault::Abort)),
            final(self).aborted ==> r is Err,
            !final(self).aborted ==> final(self).pos() == spec_apply(old(self).toks(), old(self).pos()).0,
            !final(self).aborted ==> ast_result(r) == render(spec_apply(old(self).toks(), old(self).pos()).1),
        decreases old(self).tokens@.len() - old(self).cursor, 4nat,
    {
        proof {
            reveal_with_fuel(spec_apply, 1);
            reveal_with_fuel(spec_apply_tail, 1);
        }
        let ghost ts = self.toks();
        let ghost p0 = self.pos();
        let opens: &[Name] = &[Name::BracketLF, Name::ParenLF];
        proof {
            assert(opens@ =~= seq![Name::BracketLF, Name::ParenLF]);
        }
        let first = match self.primary() {
            Ok(x) => x,
            Err(m) => {
                return Err(m);
            },
        };
        let mut left = first;
        while self.any(0, opens)
            invariant
                self.wf(),
                self.tokens == old(self).tokens,
                ts == old(self).toks(),
                p0 == old(self).pos(),
                opens@ == seq![Name::BracketLF, Name::ParenLF],
                self.pos() > p0,
                !self.aborted,
                spec_apply(ts, p0) == spec_apply_tail(ts, self.pos(), left@),
            decreases self.tokens@.len() - self.cursor,
        {
            proof {
                reveal_with_fuel(spec_apply_tail, 1);
            }
            let m = match self.primary() {
                Ok(x) => x,
                Err(m) => {
                    return Err(m);
                },
            };
            left = Ast::Apply(Box::new(left), Box::new(m));
        }
        Ok(left)
    }

    #[verifier::spinoff_prover]
    fn primary(&mut self) -> (r: Result<Ast, String>)
        requires
            old(self).wf(),
            !old(self).aborted,
        ensures
            final(self).wf(),
            final(self).tokens == old(self).tokens,
            final(self).pos() >= old(self).pos(),
            r is Ok ==> final(self).pos() > old(self).pos(),
            final(self).aborted == (spec_primary(old(self).toks(), old(self).pos()).1 == Err::<AstView, Fault>(Fault::Abort)),
            final(self).aborted ==> r is Err,
            !final(self).aborted ==> final(self).pos() == spec_primary(old(self).toks(), old(self).pos()).0,
            !final(self).aborted ==> ast_result(r) == render(spec_primary(old(self).toks(), old(self).pos()).1),
        decreases old(self).tokens@.len() - old(self).cursor, 2nat,
    {
        proof {
            reveal_with_fuel(spec_primary, 1);
        }
        if self.is(0, Name::Label) {
            self.reference()
        } else if self.of(0, Kind::Bracket) {
            self.graph_exp()
        } else if self.of(0, Kind::Paren) {
            self.paren_exp()
        } else {
            self.literal()
        }
    }

    #[verifier::spinoff_prover]
    fn graph_exp(&mut self) -> (r: Result<Ast, String>)
        requires
            old(self).wf(),
            !old(self).aborted,
        ensures
            final(self).wf(),
            final(self).tokens == old(self).tokens,
            final(self).pos() >= old(self).pos(),
            r is Ok ==> final(self).pos() > old(self).pos(),
            final(self).aborted == (spec_graph_exp(old(self).toks(), old(self).pos()).1 == Err::<AstView, Fault>(Fault::Abort)),
            final(self).aborted ==> r is Err,
            !final(self).aborted ==> final(self).pos() == spec_graph_exp(old(self).toks(), old(self).pos()).0,
            !final(self).aborted ==> ast_result(r) == render(spec_graph_exp(old(self).toks(), old(self).pos()).1),
        decreases old(self).tokens@.len() - old(self).cursor, 1nat,
    {
        proof {
            reveal_with_fuel(spec_graph_exp, 1);
        }
        match self.eat(Name::BracketLF) {
            Ok(_) => {},
            Err(m) => {
                return Err(m);
            },
        }
        let stops: &[Name] = &[Name::BracketRT];
        proof {
            assert(stops@ =~= seq![Name::BracketRT]);
        }
        let exp = self.point_list(stops);
        match self.eat(Name::BracketRT) {
            Ok(_) => {},
            Err(m) => {
                return Err(m);
            },
        }
        exp
    }

    #[verifier::spinoff_prover]
    fn paren_exp(&mut self) -> (r: Result<Ast, String>)
        requires
            old(self).wf(),
            !old(self).aborted,
        ensures
            final(self).wf(),
            final(self).tokens == old(self).tokens,
            final(self).pos() >= old(self).pos(),
            r is Ok ==> final(self).pos() > old(self).pos(),
            final(self).aborted == (spec_paren_exp(old(self).toks(), old(self).pos()).1 == Err::<AstView, Fault>(Fault::Abort)),
            final(self).aborted ==> r is Err,
            !final(self).aborted ==> final(self).pos() == spec_paren_exp(old(self).toks(), old(self).pos()).0,
            !final(self).aborted ==> ast_result(r) == render(spec_paren_exp(old(self).toks(), old(self).pos()).1),
        decreases old(self).tokens@.len() - old(self).cursor, 1nat,
    {
        proof {
            reveal_with_fuel(spec_paren_exp, 1);
        }
        match self.eat(Name::ParenLF) {
            Ok(_) => {},
            Err(m) => {
                return Err(m);
            },
        }
        let exp = self.or_exp();
        match self.eat(Name::ParenRT) {
            Ok(_) => {},
            Err(m) => {
                return Err(m);
            },
        }
        exp
    }
}

pub open spec fn parse_result(r: Result<Parse, String>) -> Result<AstView, Seq<char>> {
    match r {
        Ok(p) => Ok(p.ast@),
        Err(m) => Err(m@),
    }
}

/// Parses a token stream into a program point, with empty bindings and no
/// type yet. It panics where a list holds more than ten points, where a
/// number token is neither an integer nor a decimal, or where a `*` or `/`
/// is not a binary token; `requires` leaves those streams out.
#[verifier::spinoff_prover]
pub fn parser(tokens: &Vec<Token>) -> (r: Result<Parse, String>)
    requires
        spec_parser(tokens_view(tokens@)) != Err::<AstView, Fault>(Fault::Abort),
    ensures
        parse_result(r) == render(spec_parser(tokens_view(tokens@))),
        r matches Ok(p) ==> p.typ == Typ::Thing && p.map.parent is None && p.map.this@ == Map::<Seq<char>, Rc<Box<Ast>>>::empty(),
{
    proof {
        assert(tokens@.len() == tokens.len());
    }
    let mut cursor = Tokens { cursor: 0, tokens, aborted: false };
    let map = Scope { parent: None, this: Env::new() };
    let ast = match cursor.program() {
        Ok(a) => a,
        Err(m) => {
            return Err(m);
        },
    };
    Ok(Parse { ast, map, typ: Typ::Thing })
}

/// Parses a token stream as `parser` does, or gives `None` where `parser`
/// panics: where a list holds more than ten points, where a number token is
/// neither an integer nor a decimal, or where a `*` or `/` is not a binary
/// token.
#[verifier::spinoff_prover]
pub fn checked_parser(tokens: &Vec<Token>) -> (r: Option<Result<Parse, String>>)
    ensures
        r is None <==> spec_parser(tokens_view(tokens@)) == Err::<AstView, Fault>(Fault::Abort),
        r matches Some(x) ==> parse_result(x) == render(spec_parser(tokens_view(tokens@))),
{
    proof {
        assert(tokens@.len() == tokens.len());
    }
    let mut cursor = Tokens { cursor: 0, tokens, aborted: false };
    let map = Scope { parent: None, this: Env::new() };
    let r = cursor.program();
    if cursor.aborted {
        return None;
    }
    match r {
        Ok(ast) => Some(Ok(Parse { ast, map, typ: Typ::Thing })),
        Err(m) => Some(Err(m)),
    }
}

// ---------------------------------------------------------------------
// Laws of the binary operator levels


/// A number or string token reads as the literal of its own text: an
/// integer token as `Integer`, a decimal token as `Decimal`, a string token
/// as `String`, taking that one token.
pub proof fn lemma_literal_token(ts: Seq<TokenView>, p: nat)
    requires
        p < ts.len(),
    ensures
        ts[p as int].kind == Kind::Number && ts[p as int].name == Name::Integer ==> spec_literal(ts, p) == (
            p + 1,
            Ok::<AstView, Fault>(AstView::Integer(ts[p as int].text)),
        ),
        ts[p as int].kind == Kind::Number && ts[p as int].name == Name::Decimal ==> spec_literal(ts, p) == (
            p + 1,
            Ok::<AstView, Fault>(AstView::Decimal(ts[p as int].text)),
        ),
        ts[p as int].kind == Kind::String ==> spec_literal(ts, p) == (
            p + 1,
            Ok::<AstView, Fault>(AstView::String(ts[p as int].text)),
        ),
{
}

/// A prefix operator token (`+`, `-`, a not, a range, `:`, `>`, `<` or a length) before what the unary level reads, `x`,
/// parses to `Op1(op, x)`, `op` the name of that token.
#[verifier::spinoff_prover]
pub proof fn lemma_unary_prefix(ts: Seq<TokenView>, p: nat, q: nat, x: AstView)
    requires
        p < ts.len(),
        seq![Name::Add, Name::Sub, Name::Not, Name::Range, Name::Colon, Name::Gt, Name::Lt, Name::Length].contains(ts[p as int].name),
        spec_unary_exp(ts, p + 1) == (q, Ok::<AstView, Fault>(x)),
        p + 1 <= q,
    ensures
        spec_unary_exp(ts, p) == (q, Ok::<AstView, Fault>(AstView::Op1(ts[p as int].name, Box::new(x)))),
{
    reveal_with_fuel(spec_unary_exp, 1);
    let names = seq![Name::Add, Name::Sub, Name::Not, Name::Range, Name::Colon, Name::Gt, Name::Lt, Name::Length];
    let k = choose|k: int| 0 <= k < names.len() && names[k] == ts[p as int].name;
    assert(tok_is(ts, p, 0, names[k]));
}
/// At the `or_exp` level, `x op y` with `op` `Or` (an operator
/// token, read where the level looks for one) parses to `Op2(op, x, y)`:
/// the name of the operator token read, and the operands in source order,
/// `x` and `y` being what the next level reads before and after it.
#[verifier::spinoff_prover]
pub proof fn lemma_or_exp_binary(ts: Seq<TokenView>, p: nat, p1: nat, p2: nat, x: AstView, y: AstView)
    requires
        spec_and_exp(ts, p) == (p1, Ok::<AstView, Fault>(x)),
        p <= p1,
        tok_is(ts, p1, 0, Name::Or),
        spec_and_exp(ts, p1 + 1) == (p2, Ok::<AstView, Fault>(y)),
        p1 + 1 <= p2,
        !(tok_is(ts, p2, 0, Name::Or)),
    ensures
        spec_or_exp(ts, p) == (p2, Ok::<AstView, Fault>(AstView::Op2(ts[p1 as int].name, Box::new(x), Box::new(y)))),
{
    reveal_with_fuel(spec_or_exp, 1);
    reveal_with_fuel(spec_or_tail, 1);
    let o = AstView::Op2(ts[p1 as int].name, Box::new(x), Box::new(y));
    assert(spec_or_tail(ts, p2, o) == (p2, Ok::<AstView, Fault>(o)));
    assert(spec_or_tail(ts, p1, x) == spec_or_tail(ts, p2, o));
}

/// At the `or_exp` level, `x op1 y op2 z` groups to the left:
/// `Op2(op2, Op2(op1, x, y), z)`.
#[verifier::spinoff_prover]
pub proof fn lemma_or_exp_chain(
    ts: Seq<TokenView>,
    p: nat,
    p1: nat,
    p2: nat,
    p3: nat,
    x: AstView,
    y: AstView,
    z: AstView,
)
    requires
        spec_and_exp(ts, p) == (p1, Ok::<AstView, Fault>(x)),
        p <= p1,
        tok_is(ts, p1, 0, Name::Or),
        spec_and_exp(ts, p1 + 1) == (p2, Ok::<AstView, Fault>(y)),
        p1 + 1 <= p2,
        tok_is(ts, p2, 0, Name::Or),
        spec_and_exp(ts, p2 + 1) == (p3, Ok::<AstView, Fault>(z)),
        p2 + 1 <= p3,
        !(tok_is(ts, p3, 0, Name::Or)),
    ensures
        spec_or_exp(ts, p) == (p3, Ok::<AstView, Fault>(AstView::Op2(
            ts[p2 as int].name,
            Box::new(AstView::Op2(ts[p1 as int].name, Box::new(x), Box::new(y))),
            Box::new(z),
        ))),
{
    reveal_with_fuel(spec_or_exp, 1);
    reveal_with_fuel(spec_or_tail, 1);
    let o1 = AstView::Op2(ts[p1 as int].name, Box::new(x), Box::new(y));
    let o2 = AstView::Op2(ts[p2 as int].name, Box::new(o1), Box::new(z));
    assert(spec_or_tail(ts, p3, o2) == (p3, Ok::<AstView, Fault>(o2)));
    assert(spec_or_tail(ts, p2, o1) == spec_or_tail(ts, p3, o2));
    assert(spec_or_tail(ts, p1, x) == spec_or_tail(ts, p2, o1));
}

/// At the `and_exp` level, `x op y` with `op` `And` (an operator
/// token, read where the level looks for one) parses to `Op2(op, x, y)`:
/// the name of the operator token read, and the operands in source order,
/// `x` and `y` being what the next level reads before and after it.
#[verifier::spinoff_prover]
pub proof fn lemma_and_exp_binary(ts: Seq<TokenView>, p: nat, p1: nat, p2: nat, x: AstView, y: AstView)
    requires
        spec_equality_exp(ts, p) == (p1, Ok::<AstView, Fault>(x)),
        p <= p1,
        tok_is(ts, p1, 0, Name::And),
        spec_equality_exp(ts, p1 + 1) == (p2, Ok::<AstView, Fault>(y)),
        p1 + 1 <= p2,
        !(tok_is(ts, p2, 0, Name::And)),
    ensures
        spec_and_exp(ts, p) == (p2, Ok::<AstView, Fault>(AstView::Op2(ts[p1 as int].name, Box::new(x), Box::new(y)))),
{
    reveal_with_fuel(spec_and_exp, 1);
    reveal_with_fuel(spec_and_tail, 1);
    let o = AstView::Op2(ts[p1 as int].name, Box::new(x), Box::new(y));
    assert(spec_and_tail(ts, p2, o) == (p2, Ok::<AstView, Fault>(o)));
    assert(spec_and_tail(ts, p1, x) == spec_and_tail(ts, p2, o));
}

/// At the `and_exp` level, `x op1 y op2 z` groups to the left:
/// `Op2(op2, Op2(op1, x, y), z)`.
#[verifier::spinoff_prover]
pub proof fn lemma_and_exp_chain(
    ts: Seq<TokenView>,
    p: nat,
    p1: nat,
    p2: nat,
    p3: nat,
    x: AstView,
    y: AstView,
    z: AstView,
)
    requires
        spec_equality_exp(ts, p) == (p1, Ok::<AstView, Fault>(x)),
        p <= p1,
        tok_is(ts, p1, 0, Name::And),
        spec_equality_exp(ts, p1 + 1) == (p2, Ok::<AstView, Fault>(y)),
        p1 + 1 <= p2,
        tok_is(ts, p2, 0, Name::And),
        spec_equality_exp(ts, p2 + 1) == (p3, Ok::<AstView, Fault>(z)),
        p2 + 1 <= p3,
        !(tok_is(ts, p3, 0, Name::And)),
    ensures
        spec_and_exp(ts, p) == (p3, Ok::<AstView, Fault>(AstView::Op2(
            ts[p2 as int].name,
            Box::new(AstView::Op2(ts[p1 as int].name, Box::new(x), Box::new(y))),
            Box::new(z),
        ))),
{
    reveal_with_fuel(spec_and_exp, 1);
    reveal_with_fuel(spec_and_tail, 1);
    let o1 = AstView::Op2(ts[p1 as int].name, Box::new(x), Box::new(y));
    let o2 = AstView::Op2(ts[p2 as int].name, Box::new(o1), Box::new(z));
    assert(spec_and_tail(ts, p3, o2) == (p3, Ok::<AstView, Fault>(o2)));
    assert(spec_and_tail(ts, p2, o1) == spec_and_tail(ts, p3, o2));
    assert(spec_and_tail(ts, p1, x) == spec_and_tail(ts, p2, o1));
}

/// At the `equality_exp` level, `x op y` with `op` one of `Eq`, `Ne` (an operator
/// token, read where the level looks for one) parses to `Op2(op, x, y)`:
/// the name of the operator token read, and the operands in source order,
/// `x` and `y` being what the next level reads before and after it.
#[verifier::spinoff_prover]
pub proof fn lemma_equality_exp_binary(ts: Seq<TokenView>, p: nat, p1: nat, p2: nat, x: AstView, y: AstView)
    requires
        spec_relation_exp(ts, p) == (p1, Ok::<AstView, Fault>(x)),
        p <= p1,
        tok_any(ts, p1, 0, seq![Name::Eq, Name::Ne]),
        ts[p1 as int].kind == Kind::Binary,
        spec_relation_exp(ts, p1 + 1) == (p2, Ok::<AstView, Fault>(y)),
        p1 + 1 <= p2,
        !(tok_any(ts, p2, 0, seq![Name::Eq, Name::Ne])),
    ensures
        spec_equality_exp(ts, p) == (p2, Ok::<AstView, Fault>(AstView::Op2(ts[p1 as int].name, Box::new(x), Box::new(y)))),
{
    reveal_with_fuel(spec_equality_exp, 1);
    reveal_with_fuel(spec_equality_tail, 1);
    let o = AstView::Op2(ts[p1 as int].name, Box::new(x), Box::new(y));
    assert(spec_equality_tail(ts, p2, o) == (p2, Ok::<AstView, Fault>(o)));
    assert(spec_equality_tail(ts, p1, x) == spec_equality_tail(ts, p2, o));
}

/// At the `equality_exp` level, `x op1 y op2 z` groups to the left:
/// `Op2(op2, Op2(op1, x, y), z)`.
#[verifier::spinoff_prover]
pub proof fn lemma_equality_exp_chain(
    ts: Seq<TokenView>,
    p: nat,
    p1: nat,
    p2: nat,
    p3: nat,
    x: AstView,
    y: AstView,
    z: AstView,
)
    requires
        spec_relation_exp(ts, p) == (p1, Ok::<AstView, Fault>(x)),
        p <= p1,
        tok_any(ts, p1, 0, seq![Name::Eq, Name::Ne]),
        ts[p1 as int].kind == Kind::Binary,
        spec_relation_exp(ts, p1 + 1) == (p2, Ok::<AstView, Fault>(y)),
        p1 + 1 <= p2,
        tok_any(ts, p2, 0, seq![Name::Eq, Name::Ne]),
        ts[p2 as int].kind == Kind::Binary,
        spec_relation_exp(ts, p2 + 1) == (p3, Ok::<AstView, Fault>(z)),
        p2 + 1 <= p3,
        !(tok_any(ts, p3, 0, seq![Name::Eq, Name::Ne])),
    ensures
        spec_equality_exp(ts, p) == (p3, Ok::<AstView, Fault>(AstView::Op2(
            ts[p2 as int].name,
            Box::new(AstView::Op2(ts[p1 as int].name, Box::new(x), Box::new(y))),
            Box::new(z),
        ))),
{
    reveal_with_fuel(spec_equality_exp, 1);
    reveal_with_fuel(spec_equality_tail, 1);
    let o1 = AstView::Op2(ts[p1 as int].name, Box::new(x), Box::new(y));
    let o2 = AstView::Op2(ts[p2 as int].name, Box::new(o1), Box::new(z));
    assert(spec_equality_tail(ts, p3, o2) == (p3, Ok::<AstView, Fault>(o2)));
    assert(spec_equality_tail(ts, p2, o1) == spec_equality_tail(ts, p3, o2));
    assert(spec_equality_tail(ts, p1, x) == spec_equality_tail(ts, p2, o1));
}

/// At the `relation_exp` level, `x op y` with `op` one of `Gt`, `Ge`, `Lt`, `Le` (an operator
/// token, read where the level looks for one) parses to `Op2(op, x, y)`:
/// the name of the operator token read, and the operands in source order,
/// `x` and `y` being what the next level reads before and after it.
#[verifier::spinoff_prover]
pub proof fn lemma_relation_exp_binary(ts: Seq<TokenView>, p: nat, p1: nat, p2: nat, x: AstView, y: AstView)
    requires
        spec_additive_exp(ts, p) == (p1, Ok::<AstView, Fault>(x)),
        p <= p1,
        tok_any(ts, p1, 0, seq![Name::Gt, Name::Ge, Name::Lt, Name::Le]),
        ts[p1 as int].kind == Kind::Binary,
        spec_additive_exp(ts, p1 + 1) == (p2, Ok::<AstView, Fault>(y)),
        p1 + 1 <= p2,
        !(tok_any(ts, p2, 0, seq![Name::Gt, Name::Ge, Name::Lt, Name::Le])),
    ensures
        spec_relation_exp(ts, p) == (p2, Ok::<AstView, Fault>(AstView::Op2(ts[p1 as int].name, Box::new(x), Box::new(y)))),
{
    reveal_with_fuel(spec_relation_exp, 1);
    reveal_with_fuel(spec_relation_tail, 1);
    let o = AstView::Op2(ts[p1 as int].name, Box::new(x), Box::new(y));
    assert(spec_relation_tail(ts, p2, o) == (p2, Ok::<AstView, Fault>(o)));
    assert(spec_relation_tail(ts, p1, x) == spec_relation_tail(ts, p2, o));
}

/// At the `relation_exp` level, `x op1 y op2 z` groups to the left:
/// `Op2(op2, Op2(op1, x, y), z)`.
#[verifier::spinoff_prover]
pub proof fn lemma_relation_exp_chain(
    ts: Seq<TokenView>,
    p: nat,
    p1: nat,
    p2: nat,
    p3: nat,
    x: AstView,
    y: AstView,
    z: AstView,
)
    requires
        spec_additive_exp(ts, p) == (p1, Ok::<AstView, Fault>(x)),
        p <= p1,
        tok_any(ts, p1, 0, seq![Name::Gt, Name::Ge, Name::Lt, Name::Le]),
        ts[p1 as int].kind == Kind::Binary,
        spec_additive_exp(ts, p1 + 1) == (p2, Ok::<AstView, Fault>(y)),
        p1 + 1 <= p2,
        tok_any(ts, p2, 0, seq![Name::Gt, Name::Ge, Name::Lt, Name::Le]),
        ts[p2 as int].kind == Kind::Binary,
        spec_additive_exp(ts, p2 + 1) == (p3, Ok::<AstView, Fault>(z)),
        p2 + 1 <= p3,
        !(tok_any(ts, p3, 0, seq![Name::Gt, Name::Ge, Name::Lt, Name::Le])),
    ensures
        spec_relation_exp(ts, p) == (p3, Ok::<AstView, Fault>(AstView::Op2(
            ts[p2 as int].name,
            Box::new(AstView::Op2(ts[p1 as int].name, Box::new(x), Box::new(y))),
            Box::new(z),
        ))),
{
    reveal_with_fuel(spec_relation_exp, 1);
    reveal_with_fuel(spec_relation_tail, 1);
    let o1 = AstView::Op2(ts[p1 as int].name, Box::new(x), Box::new(y));
    let o2 = AstView::Op2(ts[p2 as int].name, Box::new(o1), Box::new(z));
    assert(spec_relation_tail(ts, p3, o2) == (p3, Ok::<AstView, Fault>(o2)));
    assert(spec_relation_tail(ts, p2, o1) == spec_relation_tail(ts, p3, o2));
    assert(spec_relation_tail(ts, p1, x) == spec_relation_tail(ts, p2, o1));
}

/// At the `additive_exp` level, `x op y` with `op` one of `Add`, `Sub` (an operator
/// token, read where the level looks for one) parses to `Op2(op, x, y)`:
/// the name of the operator token read, and the operands in source order,
/// `x` and `y` being what the next level reads before and after it.
#[verifier::spinoff_prover]
pub proof fn lemma_additive_exp_binary(ts: Seq<TokenView>, p: nat, p1: nat, p2: nat, x: AstView, y: AstView)
    requires
        spec_multiplicative_exp(ts, p) == (p1, Ok::<AstView, Fault>(x)),
        p <= p1,
        tok_any(ts, p1, 0, seq![Name::Add, Name::Sub]),
        ts[p1 as int].kind == Kind::Binary,
        spec_multiplicative_exp(ts, p1 + 1) == (p2, Ok::<AstView, Fault>(y)),
        p1 + 1 <= p2,
        !(tok_any(ts, p2, 0, seq![Name::Add, Name::Sub])),
    ensures
        spec_additive_exp(ts, p) == (p2, Ok::<AstView, Fault>(AstView::Op2(ts[p1 as int].name, Box::new(x), Box::new(y)))),
{
    reveal_with_fuel(spec_additive_exp, 1);
    reveal_with_fuel(spec_additive_tail, 1);
    let o = AstView::Op2(ts[p1 as int].name, Box::new(x), Box::new(y));
    assert(spec_additive_tail(ts, p2, o) == (p2, Ok::<AstView, Fault>(o)));
    assert(spec_additive_tail(ts, p1, x) == spec_additive_tail(ts, p2, o));
}

/// At the `additive_exp` level, `x op1 y op2 z` groups to the left:
/// `Op2(op2, Op2(op1, x, y), z)`.
#[verifier::spinoff_prover]
pub proof fn lemma_additive_exp_chain(
    ts: Seq<TokenView>,
    p: nat,
    p1: nat,
    p2: nat,
    p3: nat,
    x: AstView,
    y: AstView,
    z: AstView,
)
    requires
        spec_multiplicative_exp(ts, p) == (p1, Ok::<AstView, Fault>(x)),
        p <= p1,
        tok_any(ts, p1, 0, seq![Name::Add, Name::Sub]),
        ts[p1 as int].kind == Kind::Binary,
        spec_multiplicative_exp(ts, p1 + 1) == (p2, Ok::<AstView, Fault>(y)),
        p1 + 1 <= p2,
        tok_any(ts, p2, 0, seq![Name::Add, Name::Sub]),
        ts[p2 as int].kind == Kind::Binary,
        spec_multiplicative_exp(ts, p2 + 1) == (p3, Ok::<AstView, Fault>(z)),
        p2 + 1 <= p3,
        !(tok_any(ts, p3, 0, seq![Name::Add, Name::Sub])),
    ensures
        spec_additive_exp(ts, p) == (p3, Ok::<AstView, Fault>(AstView::Op2(
            ts[p2 as int].name,
            Box::new(AstView::Op2(ts[p1 as int].name, Box::new(x), Box::new(y))),
            Box::new(z),
        ))),
{
    reveal_with_fuel(spec_additive_exp, 1);
    reveal_with_fuel(spec_additive_tail, 1);
    let o1 = AstView::Op2(ts[p1 as int].name, Box::new(x), Box::new(y));
    let o2 = AstView::Op2(ts[p2 as int].name, Box::new(o1), Box::new(z));
    assert(spec_additive_tail(ts, p3, o2) == (p3, Ok::<AstView, Fault>(o2)));
    assert(spec_additive_tail(ts, p2, o1) == spec_additive_tail(ts, p3, o2));
    assert(spec_additive_tail(ts, p1, x) == spec_additive_tail(ts, p2, o1));
}

/// At the `multiplicative_exp` level, `x op y` with `op` one of `Mul`, `Div` (an operator
/// token, read where the level looks for one) parses to `Op2(op, x, y)`:
/// the name of the operator token read, and the operands in source order,
/// `x` and `y` being what the next level reads before and after it.
#[verifier::spinoff_prover]
pub proof fn lemma_multiplicative_exp_binary(ts: Seq<TokenView>, p: nat, p1: nat, p2: nat, x: AstView, y: AstView)
    requires
        spec_exponential_exp(ts, p) == (p1, Ok::<AstView, Fault>(x)),
        p <= p1,
        tok_any(ts, p1, 0, seq![Name::Mul, Name::Div]),
        ts[p1 as int].kind == Kind::Binary,
        spec_exponential_exp(ts, p1 + 1) == (p2, Ok::<AstView, Fault>(y)),
        p1 + 1 <= p2,
        !(tok_any(ts, p2, 0, seq![Name::Mul, Name::Div])),
    ensures
        spec_multiplicative_exp(ts, p) == (p2, Ok::<AstView, Fault>(AstView::Op2(ts[p1 as int].name, Box::new(x), Box::new(y)))),
{
    reveal_with_fuel(spec_multiplicative_exp, 1);
    reveal_with_fuel(spec_multiplicative_tail, 1);
    let o = AstView::Op2(ts[p1 as int].name, Box::new(x), Box::new(y));
    assert(spec_multiplicative_tail(ts, p2, o) == (p2, Ok::<AstView, Fault>(o)));
    assert(spec_multiplicative_tail(ts, p1, x) == spec_multiplicative_tail(ts, p2, o));
}

/// At the `multiplicative_exp` level, `x op1 y op2 z` groups to the left:
/// `Op2(op2, Op2(op1, x, y), z)`.
#[verifier::spinoff_prover]
pub proof fn lemma_multiplicative_exp_chain(
    ts: Seq<TokenView>,
    p: nat,
    p1: nat,
    p2: nat,
    p3: nat,
    x: AstView,
    y: AstView,
    z: AstView,
)
    requires
        spec_exponential_exp(ts, p) == (p1, Ok::<AstView, Fault>(x)),
        p <= p1,
        tok_any(ts, p1, 0, seq![Name::Mul, Name::Div]),
        ts[p1 as int].kind == Kind::Binary,
        spec_exponential_exp(ts, p1 + 1) == (p2, Ok::<AstView, Fault>(y)),
        p1 + 1 <= p2,
        tok_any(ts, p2, 0, seq![Name::Mul, Name::Div]),
        ts[p2 as int].kind == Kind::Binary,
        spec_exponential_exp(ts, p2 + 1) == (p3, Ok::<AstView, Fault>(z)),
        p2 + 1 <= p3,
        !(tok_any(ts, p3, 0, seq![Name::Mul, Name::Div])),
    ensures
        spec_multiplicative_exp(ts, p) == (p3, Ok::<AstView, Fault>(AstView::Op2(
            ts[p2 as int].name,
            Box::new(AstView::Op2(ts[p1 as int].name, Box::new(x), Box::new(y))),
            Box::new(z),
        ))),
{
    reveal_with_fuel(spec_multiplicative_exp, 1);
    reveal_with_fuel(spec_multiplicative_tail, 1);
    let o1 = AstView::Op2(ts[p1 as int].name, Box::new(x), Box::new(y));
    let o2 = AstView::Op2(ts[p2 as int].name, Box::new(o1), Box::new(z));
    assert(spec_multiplicative_tail(ts, p3, o2) == (p3, Ok::<AstView, Fault>(o2)));
    assert(spec_multiplicative_tail(ts, p2, o1) == spec_multiplicative_tail(ts, p3, o2));
    assert(spec_multiplicative_tail(ts, p1, x) == spec_multiplicative_tail(ts, p2, o1));
}

/// At the `exponential_exp` level, `x op y` with `op` `Exp` (an operator
/// token, read where the level looks for one) parses to `Op2(op, x, y)`:
/// the name of the operator token read, and the operands in source order,
/// `x` and `y` being what the next level reads before and after it.
#[verifier::spinoff_prover]
pub proof fn lemma_exponential_exp_binary(ts: Seq<TokenView>, p: nat, p1: nat, p2: nat, x: AstView, y: AstView)
    requires
        spec_range_exp(ts, p) == (p1, Ok::<AstView, Fault>(x)),
        p <= p1,
        tok_is(ts, p1, 0, Name::Exp),
        spec_range_exp(ts, p1 + 1) == (p2, Ok::<AstView, Fault>(y)),
        p1 + 1 <= p2,
        !(tok_is(ts, p2, 0, Name::Exp)),
    ensures
        spec_exponential_exp(ts, p) == (p2, Ok::<AstView, Fault>(AstView::Op2(ts[p1 as int].name, Box::new(x), Box::new(y)))),
{
    reveal_with_fuel(spec_exponential_exp, 1);
    reveal_with_fuel(spec_exponential_tail, 1);
    let o = AstView::Op2(ts[p1 as int].name, Box::new(x), Box::new(y));
    assert(spec_exponential_tail(ts, p2, o) == (p2, Ok::<AstView, Fault>(o)));
    assert(spec_exponential_tail(ts, p1, x) == spec_exponential_tail(ts, p2, o));
}

/// At the `exponential_exp` level, `x op1 y op2 z` groups to the left:
/// `Op2(op2, Op2(op1, x, y), z)`.
#[verifier::spinoff_prover]
pub proof fn lemma_exponential_exp_chain(
    ts: Seq<TokenView>,
    p: nat,
    p1: nat,
    p2: nat,
    p3: nat,
    x: AstView,
    y: AstView,
    z: AstView,
)
    requires
        spec_range_exp(ts, p) == (p1, Ok::<AstView, Fault>(x)),
        p <= p1,
        tok_is(ts, p1, 0, Name::Exp),
        spec_range_exp(ts, p1 + 1) == (p2, Ok::<AstView, Fault>(y)),
        p1 + 1 <= p2,
        tok_is(ts, p2, 0, Name::Exp),
        spec_range_exp(ts, p2 + 1) == (p3, Ok::<AstView, Fault>(z)),
        p2 + 1 <= p3,
        !(tok_is(ts, p3, 0, Name::Exp)),
    ensures
        spec_exponential_exp(ts, p) == (p3, Ok::<AstView, Fault>(AstView::Op2(
            ts[p2 as int].name,
            Box::new(AstView::Op2(ts[p1 as int].name, Box::new(x), Box::new(y))),
            Box::new(z),
        ))),
{
    reveal_with_fuel(spec_exponential_exp, 1);
    reveal_with_fuel(spec_exponential_tail, 1);
    let o1 = AstView::Op2(ts[p1 as int].name, Box::new(x), Box::new(y));
    let o2 = AstView::Op2(ts[p2 as int].name, Box::new(o1), Box::new(z));
    assert(spec_exponential_tail(ts, p3, o2) == (p3, Ok::<AstView, Fault>(o2)));
    assert(spec_exponential_tail(ts, p2, o1) == spec_exponential_tail(ts, p3, o2));
    assert(spec_exponential_tail(ts, p1, x) == spec_exponential_tail(ts, p2, o1));
}

/// At the `range_exp` level, `x op y` with `op` `Range` (an operator
/// token, read where the level looks for one) parses to `Op2(op, x, y)`:
/// the name of the operator token read, and the operands in source order,
/// `x` and `y` being what the next level reads before and after it.
#[verifier::spinoff_prover]
pub proof fn lemma_range_exp_binary(ts: Seq<TokenView>, p: nat, p1: nat, p2: nat, x: AstView, y: AstView)
    requires
        spec_unary_exp(ts, p) == (p1, Ok::<AstView, Fault>(x)),
        p <= p1,
        tok_is(ts, p1, 0, Name::Range),
        spec_unary_exp(ts, p1 + 1) == (p2, Ok::<AstView, Fault>(y)),
        p1 + 1 <= p2,
        !(tok_is(ts, p2, 0, Name::Range)),
    ensures
        spec_range_exp(ts, p) == (p2, Ok::<AstView, Fault>(AstView::Op2(ts[p1 as int].name, Box::new(x), Box::new(y)))),
{
    reveal_with_fuel(spec_range_exp, 1);
    reveal_with_fuel(spec_range_tail, 1);
    let o = AstView::Op2(ts[p1 as int].name, Box::new(x), Box::new(y));
    assert(spec_range_tail(ts, p2, o) == (p2, Ok::<AstView, Fault>(o)));
    assert(spec_range_tail(ts, p1, x) == spec_range_tail(ts, p2, o));
}

/// At the `range_exp` level, `x op1 y op2 z` groups to the left:
/// `Op2(op2, Op2(op1, x, y), z)`.
#[verifier::spinoff_prover]
pub proof fn lemma_range_exp_chain(
    ts: Seq<TokenView>,
    p: nat,
    p1: nat,
    p2: nat,
    p3: nat,
    x: AstView,
    y: AstView,
    z: AstView,
)
    requires
        spec_unary_exp(ts, p) == (p1, Ok::<AstView, Fault>(x)),
        p <= p1,
        tok_is(ts, p1, 0, Name::Range),
        spec_unary_exp(ts, p1 + 1) == (p2, Ok::<AstView, Fault>(y)),
        p1 + 1 <= p2,
        tok_is(ts, p2, 0, Name::Range),
        spec_unary_exp(ts, p2 + 1) == (p3, Ok::<AstView, Fault>(z)),
        p2 + 1 <= p3,
        !(tok_is(ts, p3, 0, Name::Range)),
    ensures
        spec_range_exp(ts, p) == (p3, Ok::<AstView, Fault>(AstView::Op2(
            ts[p2 as int].name,
            Box::new(AstView::Op2(ts[p1 as int].name, Box::new(x), Box::new(y))),
            Box::new(z),
        ))),
{
    reveal_with_fuel(spec_range_exp, 1);
    reveal_with_fuel(spec_range_tail, 1);
    let o1 = AstView::Op2(ts[p1 as int].name, Box::new(x), Box::new(y));
    let o2 = AstView::Op2(ts[p2 as int].name, Box::new(o1), Box::new(z));
    assert(spec_range_tail(ts, p3, o2) == (p3, Ok::<AstView, Fault>(o2)));
    assert(spec_range_tail(ts, p2, o1) == spec_range_tail(ts, p3, o2));
    assert(spec_range_tail(ts, p1, x) == spec_range_tail(ts, p2, o1));
}

/// At the `select_exp` level, `x op y` with `op` `Select` (an operator
/// token, read where the level looks for one) parses to `Op2(op, x, y)`:
/// the name of the operator token read, and the operands in source order,
/// `x` and `y` being what the next level reads before and after it.
#[verifier::spinoff_prover]
pub proof fn lemma_select_exp_binary(ts: Seq<TokenView>, p: nat, p1: nat, p2: nat, x: AstView, y: AstView)
    requires
        spec_apply(ts, p) == (p1, Ok::<AstView, Fault>(x)),
        p <= p1,
        tok_is(ts, p1, 0, Name::Select),
        spec_apply(ts, p1 + 1) == (p2, Ok::<AstView, Fault>(y)),
        p1 + 1 <= p2,
        !(tok_is(ts, p2, 0, Name::Select)),
    ensures
        spec_select_exp(ts, p) == (p2, Ok::<AstView, Fault>(AstView::Op2(ts[p1 as int].name, Box::new(x), Box::new(y)))),
{
    reveal_with_fuel(spec_select_exp, 1);
    reveal_with_fuel(spec_select_tail, 1);
    let o = AstView::Op2(ts[p1 as int].name, Box::new(x), Box::new(y));
    assert(spec_select_tail(ts, p2, o) == (p2, Ok::<AstView, Fault>(o)));
    assert(spec_select_tail(ts, p1, x) == spec_select_tail(ts, p2, o));
}

/// At the `select_exp` level, `x op1 y op2 z` groups to the left:
/// `Op2(op2, Op2(op1, x, y), z)`.
#[verifier::spinoff_prover]
pub proof fn lemma_select_exp_chain(
    ts: Seq<TokenView>,
    p: nat,
    p1: nat,
    p2: nat,
    p3: nat,
    x: AstView,
    y: AstView,
    z: AstView,
)
    requires
        spec_apply(ts, p) == (p1, Ok::<AstView, Fault>(x)),
        p <= p1,
        tok_is(ts, p1, 0, Name::Select),
        spec_apply(ts, p1 + 1) == (p2, Ok::<AstView, Fault>(y)),
        p1 + 1 <= p2,
        tok_is(ts, p2, 0, Name::Select),
        spec_apply(ts, p2 + 1) == (p3, Ok::<AstView, Fault>(z)),
        p2 + 1 <= p3,
        !(tok_is(ts, p3, 0, Name::Select)),
    ensures
        spec_select_exp(ts, p) == (p3, Ok::<AstView, Fault>(AstView::Op2(
            ts[p2 as int].name,
            Box::new(AstView::Op2(ts[p1 as int].name, Box::new(x), Box::new(y))),
            Box::new(z),
        ))),
{
    reveal_with_fuel(spec_select_exp, 1);
    reveal_with_fuel(spec_select_tail, 1);
    let o1 = AstView::Op2(ts[p1 as int].name, Box::new(x), Box::new(y));
    let o2 = AstView::Op2(ts[p2 as int].name, Box::new(o1), Box::new(z));
    assert(spec_select_tail(ts, p3, o2) == (p3, Ok::<AstView, Fault>(o2)));
    assert(spec_select_tail(ts, p2, o1) == spec_select_tail(ts, p3, o2));
    assert(spec_select_tail(ts, p1, x) == spec_select_tail(ts, p2, o1));
}

} // verus!
