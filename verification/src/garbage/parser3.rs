//! A recursive-descent parser from tokens to a tree of points and
//! operator expressions. Precedence, loosest first: return arrows,
//! patterns, labels, sizers, signals, joins, shapes, `|`, `&`, equality,
//! relations, `+ -`, `* /`, `^`, prefix operators, selection and
//! indexing, application, and primaries.
use super::scan::{
    clamp, eat_message, eat_of_message, eat_of_text, eat_text, lemma_skip_stops, remaining, skip_stops, spec_eat, spec_eat_of, spec_eats, spec_eats_of,
    tok_any, tok_any_of, tok_at, tok_is, tok_of, tok_until, tok_until_of, Fault,
};
use crate::compiler::tokenizer::{tokens_view, Kind, Name, Token, TokenView};
use vstd::prelude::*;

verus! {

#[derive(Debug)]
pub enum Ast {
    Nothing,
    Integer(String),
    Decimal(String),
    String(String),
    /// `{ .. }`
    Graph(Vec<Ast>),
    /// `[ .. ]`
    Space(Vec<Ast>),
    /// `graph { .. }`
    Apply(Box<Ast>, Box<Ast>),
    /// a name
    Word(String),
    /// `1 + 2`
    Op2(Name, Box<Ast>, Box<Ast>),
    /// `- 10`
    Op1(Name, Box<Ast>),
    /// `i32`
    Op0(Name),
}

/// An `Ast` as a mathematical value.
pub enum AstView {
    Nothing,
    Integer(Seq<char>),
    Decimal(Seq<char>),
    String(Seq<char>),
    Graph(Seq<AstView>),
    Space(Seq<AstView>),
    Apply(Box<AstView>, Box<AstView>),
    Word(Seq<char>),
    Op2(Name, Box<AstView>, Box<AstView>),
    Op1(Name, Box<AstView>),
    Op0(Name),
}

pub open spec fn ast_view(a: Ast) -> AstView
    decreases a,
{
    match a {
        Ast::Nothing => AstView::Nothing,
        Ast::Integer(x0) => AstView::Integer(x0@),
        Ast::Decimal(x0) => AstView::Decimal(x0@),
        Ast::String(x0) => AstView::String(x0@),
        Ast::Graph(x0) => AstView::Graph(asts_view(x0@)),
        Ast::Space(x0) => AstView::Space(asts_view(x0@)),
        Ast::Apply(x0, x1) => AstView::Apply(Box::new(ast_view(*x0)), Box::new(ast_view(*x1))),
        Ast::Word(x0) => AstView::Word(x0@),
        Ast::Op2(x0, x1, x2) => AstView::Op2(x0, Box::new(ast_view(*x1)), Box::new(ast_view(*x2))),
        Ast::Op1(x0, x1) => AstView::Op1(x0, Box::new(ast_view(*x1))),
        Ast::Op0(x0) => AstView::Op0(x0),
    }
}

pub open spec fn asts_view(s: Seq<Ast>) -> Seq<AstView>
    decreases s,
{
    if s.len() == 0 {
        seq![]
    } else {
        seq![ast_view(s[0])] + asts_view(s.subrange(1, s.len() as int))
    }
}

impl View for Ast {
    type V = AstView;

    open spec fn view(&self) -> AstView {
        ast_view(*self)
    }
}

impl Ast {
    /// A copy of the tree.
    pub fn deep_clone(&self) -> (r: Ast)
        ensures
            r@ == self@,
        decreases self,
    {
        match self {
            Ast::Nothing => Ast::Nothing,
            Ast::Integer(x0) => Ast::Integer(x0.clone()),
            Ast::Decimal(x0) => Ast::Decimal(x0.clone()),
            Ast::String(x0) => Ast::String(x0.clone()),
            Ast::Graph(x0) => Ast::Graph(clone_asts(x0)),
            Ast::Space(x0) => Ast::Space(clone_asts(x0)),
            Ast::Apply(x0, x1) => Ast::Apply(Box::new((**x0).deep_clone()), Box::new((**x1).deep_clone())),
            Ast::Word(x0) => Ast::Word(x0.clone()),
            Ast::Op2(x0, x1, x2) => Ast::Op2(*x0, Box::new((**x1).deep_clone()), Box::new((**x2).deep_clone())),
            Ast::Op1(x0, x1) => Ast::Op1(*x0, Box::new((**x1).deep_clone())),
            Ast::Op0(x0) => Ast::Op0(*x0),
        }
    }
}

pub proof fn lemma_asts_view_len(s: Seq<Ast>)
    ensures
        asts_view(s).len() == s.len(),
    decreases s.len(),
{
    if s.len() > 0 {
        lemma_asts_view_len(s.subrange(1, s.len() as int));
    }
}

pub proof fn lemma_asts_view_index(s: Seq<Ast>, i: int)
    requires
        0 <= i < s.len(),
    ensures
        asts_view(s).len() == s.len(),
        asts_view(s)[i] == s[i]@,
    decreases s.len(),
{
    lemma_asts_view_len(s);
    if i > 0 {
        lemma_asts_view_index(s.subrange(1, s.len() as int), i - 1);
    }
}

/// Two sequences of trees with equal views elementwise have equal views.
pub proof fn lemma_asts_view_ext(s: Seq<Ast>, t: Seq<AstView>)
    requires
        s.len() == t.len(),
        forall|i: int| 0 <= i < s.len() ==> (#[trigger] s[i])@ == t[i],
    ensures
        asts_view(s) == t,
{
    lemma_asts_view_len(s);
    assert forall|i: int| 0 <= i < s.len() implies asts_view(s)[i] == t[i] by {
        lemma_asts_view_index(s, i);
    }
    assert(asts_view(s) =~= t);
}

pub proof fn lemma_asts_view_push(s: Seq<Ast>, a: Ast)
    ensures
        asts_view(s.push(a)) == asts_view(s).push(a@),
{
    let p = s.push(a);
    lemma_asts_view_len(s);
    assert forall|i: int| 0 <= i < p.len() implies (#[trigger] p[i])@ == asts_view(s).push(a@)[i] by {
        if i < s.len() {
            lemma_asts_view_index(s, i);
        }
    }
    lemma_asts_view_ext(p, asts_view(s).push(a@));
}

/// A copy of each tree in `v`.
pub fn clone_asts(v: &Vec<Ast>) -> (r: Vec<Ast>)
    ensures
        asts_view(r@) == asts_view(v@),
    decreases v,
{
    let mut r: Vec<Ast> = Vec::new();
    let mut i: usize = 0;
    while i < v.len()
        invariant
            i <= v@.len(),
            r@.len() == i,
            forall|j: int| 0 <= j < i ==> (#[trigger] r@[j])@ == v@[j]@,
        decreases v@.len() - i,
    {
        assert(decreases_to!(v => v@[i as int]));
        r.push(v[i].deep_clone());
        i = i + 1;
    }
    proof {
        assert forall|j: int| 0 <= j < v@.len() implies (#[trigger] r@[j])@ == asts_view(v@)[j] by {
            lemma_asts_view_index(v@, j);
        }
        lemma_asts_view_len(v@);
        lemma_asts_view_ext(r@, asts_view(v@));
    }
    r
}

pub struct Tokens<'a> {
    cursor: usize,
    tokens: &'a Vec<Token>,
    /// set where the parse reaches a point at which it panics
    aborted: bool,
}

pub open spec fn render<T>(r: Result<T, Fault>) -> Result<T, Seq<char>> {
    match r {
        Ok(x) => Ok(x),
        Err(f) => Err(fault_text(f)),
    }
}

pub open spec fn token_result(r: Result<&Token, String>) -> Result<TokenView, Seq<char>> {
    match r {
        Ok(t) => Ok(t@),
        Err(m) => Err(m@),
    }
}

pub uninterp spec fn eats_text(text: Seq<char>, kind: Kind, name: Name, line: nat, expected: Seq<Name>) -> Seq<char>;

pub uninterp spec fn eats_of_text(text: Seq<char>, kind: Kind, name: Name, line: nat, expected: Seq<Kind>) -> Seq<char>;

/// What the parser reports for a fault.
pub open spec fn fault_text(f: Fault) -> Seq<char> {
    match f {
        Fault::EndOfInput => "UnexpectedEndOfInput"@,
        Fault::UnexpectedName(t, n) => eat_text(t.text, t.kind, t.name, t.line, n),
        Fault::UnexpectedKind(t, k) => eat_of_text(t.text, t.kind, t.name, t.line, k),
        Fault::UnexpectedNames(t, ns) => eats_text(t.text, t.kind, t.name, t.line, ns),
        Fault::UnexpectedKinds(t, ks) => eats_of_text(t.text, t.kind, t.name, t.line, ks),
        Fault::Abort => seq![],
    }
}

/// Formats the token with the names it was expected to have one of.
#[verifier::external_body]
fn eats_message(t: &Token, expected: &[Name]) -> (r: String)
    ensures
        r@ == eats_text(t.meta.text@, t.of.kind, t.of.name, t.meta.line as nat, expected@),
{
    format!(
        "UnexpectedToken: {:?} of {:?}:{:?} on line {}\nExpected tokens of names: {:?}",
        t.meta.text, t.of.kind, t.of.name, t.meta.line, expected
    )
}

/// Formats the token with the kinds it was expected to be one of.
#[verifier::external_body]
fn eats_of_message(t: &Token, expected: &[Kind]) -> (r: String)
    ensures
        r@ == eats_of_text(t.meta.text@, t.of.kind, t.of.name, t.meta.line as nat, expected@),
{
    format!(
        "UnexpectedToken: {:?} of {:?}:{:?} on line {}\nExpected tokens of kinds: {:?}",
        t.meta.text, t.of.kind, t.of.name, t.meta.line, expected
    )
}

pub open spec fn ast_result(r: Result<Ast, String>) -> Result<AstView, Seq<char>> {
    match r {
        Ok(a) => Ok(a@),
        Err(m) => Err(m@),
    }
}

pub open spec fn asts_result(r: Result<Vec<Ast>, String>) -> Result<Seq<AstView>, Seq<char>> {
    match r {
        Ok(a) => Ok(asts_view(a@)),
        Err(m) => Err(m@),
    }
}

impl<'a> Tokens<'a> {
    spec fn toks(&self) -> Seq<TokenView> {
        tokens_view(self.tokens@)
    }

    spec fn pos(&self) -> nat {
        self.cursor as nat
    }

    spec fn wf(&self) -> bool {
        &&& self.cursor <= self.tokens@.len()
        &&& self.tokens@.len() <= usize::MAX
    }

    fn eat(&mut self, name: Name) -> (r: Result<&'a Token, String>)
        requires
            old(self).wf(),
        ensures
            final(self).wf(),
            final(self).tokens == old(self).tokens,
            final(self).aborted == old(self).aborted,
            final(self).pos() == spec_eat(old(self).toks(), old(self).pos(), name).0,
            token_result(r) == render(spec_eat(old(self).toks(), old(self).pos(), name).1),
    {
        match self.get(0) {
            Some(t) => {
                self.cursor = self.cursor + 1;
                if t.of.name == name {
                    Ok(t)
                } else {
                    Err(eat_message(t, name))
                }
            },
            None => Err("UnexpectedEndOfInput".to_owned()),
        }
    }

    fn eat_of(&mut self, kind: Kind) -> (r: Result<&'a Token, String>)
        requires
            old(self).wf(),
        ensures
            final(self).wf(),
            final(self).tokens == old(self).tokens,
            final(self).aborted == old(self).aborted,
            final(self).pos() == spec_eat_of(old(self).toks(), old(self).pos(), kind).0,
            token_result(r) == render(spec_eat_of(old(self).toks(), old(self).pos(), kind).1),
    {
        match self.get(0) {
            Some(t) => {
                self.cursor = self.cursor + 1;
                if t.of.kind == kind {
                    Ok(t)
                } else {
                    Err(eat_of_message(t, kind))
                }
            },
            None => Err("UnexpectedEndOfInput".to_owned()),
        }
    }

    fn eats(&mut self, names: &[Name]) -> (r: Result<&'a Token, String>)
        requires
            old(self).wf(),
        ensures
            final(self).wf(),
            final(self).tokens == old(self).tokens,
            final(self).aborted == old(self).aborted,
            final(self).pos() == spec_eats(old(self).toks(), old(self).pos(), names@).0,
            token_result(r) == render(spec_eats(old(self).toks(), old(self).pos(), names@).1),
    {
        match self.get(0) {
            Some(t) => {
                let ok = self.any(0, names);
                self.cursor = self.cursor + 1;
                if ok {
                    Ok(t)
                } else {
                    Err(eats_message(t, names))
                }
            },
            None => Err("UnexpectedEndOfInput".to_owned()),
        }
    }

    fn eats_of(&mut self, kinds: &[Kind]) -> (r: Result<&'a Token, String>)
        requires
            old(self).wf(),
        ensures
            final(self).wf(),
            final(self).tokens == old(self).tokens,
            final(self).aborted == old(self).aborted,
            final(self).pos() == spec_eats_of(old(self).toks(), old(self).pos(), kinds@).0,
            token_result(r) == render(spec_eats_of(old(self).toks(), old(self).pos(), kinds@).1),
    {
        match self.get(0) {
            Some(t) => {
                let ok = self.any_of(0, kinds);
                self.cursor = self.cursor + 1;
                if ok {
                    Ok(t)
                } else {
                    Err(eats_of_message(t, kinds))
                }
            },
            None => Err("UnexpectedEndOfInput".to_owned()),
        }
    }

    fn clear_stops(&mut self)
        requires
            old(self).wf(),
        ensures
            final(self).wf(),
            final(self).tokens == old(self).tokens,
            final(self).aborted == old(self).aborted,
            final(self).pos() == skip_stops(old(self).toks(), old(self).pos()),
    {
        while self.of(0, Kind::Stop)
            invariant
                self.wf(),
                self.tokens == old(self).tokens,
                self.aborted == old(self).aborted,
                skip_stops(self.toks(), self.pos()) == skip_stops(old(self).toks(), old(self).pos()),
            decreases self.tokens@.len() - self.cursor,
        {
            self.cursor = self.cursor + 1;
        }
    }

    fn get(&self, offset: usize) -> (r: Option<&'a Token>)
        requires
            self.wf(),
        ensures
            match r {
                Some(t) => tok_at(self.toks(), self.pos(), offset as nat) == Some(t@),
                None => tok_at(self.toks(), self.pos(), offset as nat) is None,
            },
    {
        let tokens: &'a Vec<Token> = self.tokens;
        if offset < tokens.len() - self.cursor {
            Some(&tokens[self.cursor + offset])
        } else {
            None
        }
    }

    fn is(&self, offset: usize, stop: Name) -> (r: bool)
        requires
            self.wf(),
        ensures
            r == tok_is(self.toks(), self.pos(), offset as nat, stop),
    {
        match self.get(offset) {
            Some(t) => t.of.name == stop,
            None => false,
        }
    }

    fn of(&self, offset: usize, stop: Kind) -> (r: bool)
        requires
            self.wf(),
        ensures
            r == tok_of(self.toks(), self.pos(), offset as nat, stop),
    {
        match self.get(offset) {
            Some(t) => t.of.kind == stop,
            None => false,
        }
    }

    fn any(&self, offset: usize, names: &[Name]) -> (r: bool)
        requires
            self.wf(),
        ensures
            r == tok_any(self.toks(), self.pos(), offset as nat, names@),
    {
        let mut i: usize = 0;
        while i < names.len()
            invariant
                self.wf(),
                i <= names@.len(),
                forall|j: int| 0 <= j < i ==> !tok_is(self.toks(), self.pos(), offset as nat, #[trigger] names@[j]),
            decreases names@.len() - i,
        {
            if self.is(offset, names[i]) {
                return true;
            }
            i = i + 1;
        }
        false
    }

    fn any_of(&self, offset: usize, kinds: &[Kind]) -> (r: bool)
        requires
            self.wf(),
        ensures
            r == tok_any_of(self.toks(), self.pos(), offset as nat, kinds@),
    {
        let mut i: usize = 0;
        while i < kinds.len()
            invariant
                self.wf(),
                i <= kinds@.len(),
                forall|j: int| 0 <= j < i ==> !tok_of(self.toks(), self.pos(), offset as nat, #[trigger] kinds@[j]),
            decreases kinds@.len() - i,
        {
            if self.of(offset, kinds[i]) {
                return true;
            }
            i = i + 1;
        }
        false
    }

    fn until(&self, offset: usize, stops: &[Name]) -> (r: bool)
        requires
            self.wf(),
        ensures
            r == tok_until(self.toks(), self.pos(), offset as nat, stops@),
    {
        match self.get(offset) {
            Some(t) => {
                let mut i: usize = 0;
                while i < stops.len()
                    invariant
                        self.wf(),
                        tok_at(self.toks(), self.pos(), offset as nat) == Some(t@),
                        i <= stops@.len(),
                        forall|j: int| 0 <= j < i ==> #[trigger] stops@[j] != t.of.name,
                    decreases stops@.len() - i,
                {
                    if t.of.name == stops[i] {
                        proof {
                            assert(stops@[i as int] == t.of.name);
                        }
                        return false;
                    }
                    i = i + 1;
                }
                true
            },
            None => false,
        }
    }

    fn _until_of(&self, offset: usize, stops: &[Kind]) -> (r: bool)
        requires
            self.wf(),
        ensures
            r == tok_until_of(self.toks(), self.pos(), offset as nat, stops@),
    {
        match self.get(offset) {
            Some(t) => {
                let mut i: usize = 0;
                while i < stops.len()
                    invariant
                        self.wf(),
                        tok_at(self.toks(), self.pos(), offset as nat) == Some(t@),
                        i <= stops@.len(),
                        forall|j: int| 0 <= j < i ==> #[trigger] stops@[j] != t.of.kind,
                    decreases stops@.len() - i,
                {
                    if t.of.kind == stops[i] {
                        proof {
                            assert(stops@[i as int] == t.of.kind);
                        }
                        return false;
                    }
                    i = i + 1;
                }
                true
            },
            None => false,
        }
    }

}

// ---------------------------------------------------------------------
// The grammar, stated over token views

pub open spec fn spec_word(ts: Seq<TokenView>, p: nat) -> (nat, Result<AstView, Fault>) {
    let (p1, e) = spec_eat(ts, p, Name::Word);
    match e {
        Err(f) => (p1, Err(f)),
        Ok(t) => (p1, Ok(AstView::Word(t.text))),
    }
}

pub open spec fn spec_string(ts: Seq<TokenView>, p: nat) -> (nat, Result<AstView, Fault>) {
    let (p1, e) = spec_eat_of(ts, p, Kind::String);
    match e {
        Err(f) => (p1, Err(f)),
        Ok(t) => (p1, Ok(AstView::String(t.text))),
    }
}

pub open spec fn spec_number(ts: Seq<TokenView>, p: nat) -> (nat, Result<AstView, Fault>) {
    let (p1, e) = spec_eat_of(ts, p, Kind::Number);
    match e {
        Err(f) => (p1, Err(f)),
        Ok(t) => (p1, if t.name == Name::Decimal {
            Ok(AstView::Decimal(t.text))
        } else if t.name == Name::Integer {
            Ok(AstView::Integer(t.text))
        } else {
            Err(Fault::Abort)
        }),
    }
}

pub open spec fn spec_literal(ts: Seq<TokenView>, p: nat) -> (nat, Result<AstView, Fault>) {
    if tok_of(ts, p, 0, Kind::String) {
        spec_string(ts, p)
    } else {
        spec_number(ts, p)
    }
}

pub open spec fn spec_program(ts: Seq<TokenView>, p: nat) -> (nat, Result<AstView, Fault>) {
    let (q, r) = spec_points(ts, p, seq![]);
    match r {
        Err(f) => (q, Err(f)),
        Ok(points) => (q, Ok(AstView::Graph(points))),
    }
}

#[verifier::opaque]
pub open spec fn spec_points(ts: Seq<TokenView>, p: nat, stops: Seq<Name>) -> (nat, Result<Seq<AstView>, Fault>)
    decreases remaining(ts, p), 41nat,
{
    let p0 = skip_stops(ts, p);
    proof {
        lemma_skip_stops(ts, p);
    }
    spec_points_loop(ts, p0, stops, seq![])
}

#[verifier::opaque]
pub open spec fn spec_points_loop(ts: Seq<TokenView>, p: nat, stops: Seq<Name>, acc: Seq<AstView>) -> (nat, Result<Seq<AstView>, Fault>)
    decreases remaining(ts, p), 40nat,
{
    if tok_until(ts, p, 0, stops) {
        let (q, r) = spec_return_exp(ts, p);
        let p1 = clamp(p, q);
        match r {
            Err(f) => (p1, Err(f)),
            Ok(x) => {
                let p2 = skip_stops(ts, p1);
                if p2 > p {
                    spec_points_loop(ts, p2, stops, acc.push(x))
                } else {
                    (p2, Err(Fault::Abort))
                }
            },
        }
    } else {
        (p, Ok(acc))
    }
}

#[verifier::opaque]
pub open spec fn spec_pattern_exp(ts: Seq<TokenView>, p: nat) -> (nat, Result<AstView, Fault>)
    decreases remaining(ts, p), 36nat,
{
    {
        let (q, r) = spec_label_exp(ts, p);
        let p1 = clamp(p, q);
        match r {
            Err(f) => (p1, Err(f)),
            Ok(left) => spec_pattern_tail(ts, p1, left),
        }
    }
}

#[verifier::opaque]
pub open spec fn spec_pattern_tail(ts: Seq<TokenView>, p: nat, left: AstView) -> (nat, Result<AstView, Fault>)
    decreases remaining(ts, p), 35nat,
{
    if tok_is(ts, p, 0, Name::Pattern) {
        let (p1, e) = spec_eat(ts, p, Name::Pattern);
        match e {
            Err(f) => (p1, Err(f)),
            Ok(t) => {
                let (q, r) = spec_label_exp(ts, p1);
                let p2 = clamp(p1, q);
                match r {
                    Err(f) => (p2, Err(f)),
                    Ok(right) => spec_pattern_tail(ts, p2, AstView::Op2(Name::Pattern, Box::new(left), Box::new(right))),
                }
            },
        }
    } else {
        (p, Ok(left))
    }
}

#[verifier::opaque]
pub open spec fn spec_sizer_exp(ts: Seq<TokenView>, p: nat) -> (nat, Result<AstView, Fault>)
    decreases remaining(ts, p), 32nat,
{
    {
        let (q, r) = spec_signal_exp(ts, p);
        let p1 = clamp(p, q);
        match r {
            Err(f) => (p1, Err(f)),
            Ok(left) => spec_sizer_tail(ts, p1, left),
        }
    }
}

#[verifier::opaque]
pub open spec fn spec_sizer_tail(ts: Seq<TokenView>, p: nat, left: AstView) -> (nat, Result<AstView, Fault>)
    decreases remaining(ts, p), 31nat,
{
    if tok_is(ts, p, 0, Name::Sizer) {
        let (p1, e) = spec_eat(ts, p, Name::Sizer);
        match e {
            Err(f) => (p1, Err(f)),
            Ok(t) => {
                let (q, r) = spec_signal_exp(ts, p1);
                let p2 = clamp(p1, q);
                match r {
                    Err(f) => (p2, Err(f)),
                    Ok(right) => spec_sizer_tail(ts, p2, AstView::Op2(Name::Sizer, Box::new(left), Box::new(right))),
                }
            },
        }
    } else {
        (p, Ok(left))
    }
}

#[verifier::opaque]
pub open spec fn spec_signal_exp(ts: Seq<TokenView>, p: nat) -> (nat, Result<AstView, Fault>)
    decreases remaining(ts, p), 30nat,
{
    {
        let (q, r) = spec_join_exp(ts, p);
        let p1 = clamp(p, q);
        match r {
            Err(f) => (p1, Err(f)),
            Ok(left) => spec_signal_tail(ts, p1, left),
        }
    }
}

#[verifier::opaque]
pub open spec fn spec_signal_tail(ts: Seq<TokenView>, p: nat, left: AstView) -> (nat, Result<AstView, Fault>)
    decreases remaining(ts, p), 29nat,
{
    if tok_is(ts, p, 0, Name::Signal) {
        let (p1, e) = spec_eat(ts, p, Name::Signal);
        match e {
            Err(f) => (p1, Err(f)),
            Ok(t) => {
                let (q, r) = spec_join_exp(ts, p1);
                let p2 = clamp(p1, q);
                match r {
                    Err(f) => (p2, Err(f)),
                    Ok(right) => spec_signal_tail(ts, p2, AstView::Op2(Name::Signal, Box::new(left), Box::new(right))),
                }
            },
        }
    } else {
        (p, Ok(left))
    }
}

#[verifier::opaque]
pub open spec fn spec_join_exp(ts: Seq<TokenView>, p: nat) -> (nat, Result<AstView, Fault>)
    decreases remaining(ts, p), 28nat,
{
    {
        let (q, r) = spec_shape_exp(ts, p);
        let p1 = clamp(p, q);
        match r {
            Err(f) => (p1, Err(f)),
            Ok(left) => spec_join_tail(ts, p1, left),
        }
    }
}

#[verifier::opaque]
pub open spec fn spec_join_tail(ts: Seq<TokenView>, p: nat, left: AstView) -> (nat, Result<AstView, Fault>)
    decreases remaining(ts, p), 27nat,
{
    if tok_is(ts, p, 0, Name::Bleed) && !tok_is(ts, p, 1, Name::Label) {
        let (p1, e) = spec_eat(ts, p, Name::Bleed);
        match e {
            Err(f) => (p1, Err(f)),
            Ok(t) => {
                let (q, r) = spec_shape_exp(ts, p1);
                let p2 = clamp(p1, q);
                match r {
                    Err(f) => (p2, Err(f)),
                    Ok(right) => spec_join_tail(ts, p2, AstView::Op2(Name::Bleed, Box::new(left), Box::new(right))),
                }
            },
        }
    } else {
        (p, Ok(left))
    }
}

#[verifier::opaque]
pub open spec fn spec_shape_exp(ts: Seq<TokenView>, p: nat) -> (nat, Result<AstView, Fault>)
    decreases remaining(ts, p), 26nat,
{
    {
        let (q, r) = spec_or_exp(ts, p);
        let p1 = clamp(p, q);
        match r {
            Err(f) => (p1, Err(f)),
            Ok(left) => spec_shape_tail(ts, p1, left),
        }
    }
}

#[verifier::opaque]
pub open spec fn spec_shape_tail(ts: Seq<TokenView>, p: nat, left: AstView) -> (nat, Result<AstView, Fault>)
    decreases remaining(ts, p), 25nat,
{
    if tok_is(ts, p, 0, Name::Shape) && !tok_is(ts, p, 1, Name::Label) {
        let (p1, e) = spec_eat(ts, p, Name::Shape);
        match e {
            Err(f) => (p1, Err(f)),
            Ok(t) => {
                let (q, r) = spec_or_exp(ts, p1);
                let p2 = clamp(p1, q);
                match r {
                    Err(f) => (p2, Err(f)),
                    Ok(right) => spec_shape_tail(ts, p2, AstView::Op2(Name::Shape, Box::new(left), Box::new(right))),
                }
            },
        }
    } else {
        (p, Ok(left))
    }
}

#[verifier::opaque]
pub open spec fn spec_or_exp(ts: Seq<TokenView>, p: nat) -> (nat, Result<AstView, Fault>)
    decreases remaining(ts, p), 24nat,
{
    {
        let (q, r) = spec_and_exp(ts, p);
        let p1 = clamp(p, q);
        match r {
            Err(f) => (p1, Err(f)),
            Ok(left) => spec_or_tail(ts, p1, left),
        }
    }
}

#[verifier::opaque]
pub open spec fn spec_or_tail(ts: Seq<TokenView>, p: nat, left: AstView) -> (nat, Result<AstView, Fault>)
    decreases remaining(ts, p), 23nat,
{
    if tok_is(ts, p, 0, Name::Or) && !tok_is(ts, p, 1, Name::Label) {
        let (p1, e) = spec_eat(ts, p, Name::Or);
        match e {
            Err(f) => (p1, Err(f)),
            Ok(t) => {
                let (q, r) = spec_and_exp(ts, p1);
                let p2 = clamp(p1, q);
                match r {
                    Err(f) => (p2, Err(f)),
                    Ok(right) => spec_or_tail(ts, p2, AstView::Op2(Name::Or, Box::new(left), Box::new(right))),
                }
            },
        }
    } else {
        (p, Ok(left))
    }
}

#[verifier::opaque]
pub open spec fn spec_and_exp(ts: Seq<TokenView>, p: nat) -> (nat, Result<AstView, Fault>)
    decreases remaining(ts, p), 22nat,
{
    {
        let (q, r) = spec_equality_exp(ts, p);
        let p1 = clamp(p, q);
        match r {
            Err(f) => (p1, Err(f)),
            Ok(left) => spec_and_tail(ts, p1, left),
        }
    }
}

#[verifier::opaque]
pub open spec fn spec_and_tail(ts: Seq<TokenView>, p: nat, left: AstView) -> (nat, Result<AstView, Fault>)
    decreases remaining(ts, p), 21nat,
{
    if tok_is(ts, p, 0, Name::And) && !tok_is(ts, p, 1, Name::Label) {
        let (p1, e) = spec_eat(ts, p, Name::And);
        match e {
            Err(f) => (p1, Err(f)),
            Ok(t) => {
                let (q, r) = spec_equality_exp(ts, p1);
                let p2 = clamp(p1, q);
                match r {
                    Err(f) => (p2, Err(f)),
                    Ok(right) => spec_and_tail(ts, p2, AstView::Op2(Name::And, Box::new(left), Box::new(right))),
                }
            },
        }
    } else {
        (p, Ok(left))
    }
}

#[verifier::opaque]
pub open spec fn spec_equality_exp(ts: Seq<TokenView>, p: nat) -> (nat, Result<AstView, Fault>)
    decreases remaining(ts, p), 20nat,
{
    {
        let (q, r) = spec_relation_exp(ts, p);
        let p1 = clamp(p, q);
        match r {
            Err(f) => (p1, Err(f)),
            Ok(left) => spec_equality_tail(ts, p1, left),
        }
    }
}

#[verifier::opaque]
pub open spec fn spec_equality_tail(ts: Seq<TokenView>, p: nat, left: AstView) -> (nat, Result<AstView, Fault>)
    decreases remaining(ts, p), 19nat,
{
    if tok_any(ts, p, 0, seq![Name::Eq, Name::Ne]) && !tok_is(ts, p, 1, Name::Label) {
        let (p1, e) = spec_eat_of(ts, p, Kind::Operator);
        match e {
            Err(f) => (p1, Err(f)),
            Ok(t) => {
                let (q, r) = spec_relation_exp(ts, p1);
                let p2 = clamp(p1, q);
                match r {
                    Err(f) => (p2, Err(f)),
                    Ok(right) => spec_equality_tail(ts, p2, AstView::Op2(t.name, Box::new(left), Box::new(right))),
                }
            },
        }
    } else {
        (p, Ok(left))
    }
}

#[verifier::opaque]
pub open spec fn spec_relation_exp(ts: Seq<TokenView>, p: nat) -> (nat, Result<AstView, Fault>)
    decreases remaining(ts, p), 18nat,
{
    {
        let (q, r) = spec_additive_exp(ts, p);
        let p1 = clamp(p, q);
        match r {
            Err(f) => (p1, Err(f)),
            Ok(left) => spec_relation_tail(ts, p1, left),
        }
    }
}

#[verifier::opaque]
pub open spec fn spec_relation_tail(ts: Seq<TokenView>, p: nat, left: AstView) -> (nat, Result<AstView, Fault>)
    decreases remaining(ts, p), 17nat,
{
    if tok_any(ts, p, 0, seq![Name::Gt, Name::Ge, Name::Lt, Name::Le]) && !tok_is(ts, p, 1, Name::Label) {
        let (p1, e) = spec_eat_of(ts, p, Kind::Operator);
        match e {
            Err(f) => (p1, Err(f)),
            Ok(t) => {
                let (q, r) = spec_additive_exp(ts, p1);
                let p2 = clamp(p1, q);
                match r {
                    Err(f) => (p2, Err(f)),
                    Ok(right) => spec_relation_tail(ts, p2, AstView::Op2(t.name, Box::new(left), Box::new(right))),
                }
            },
        }
    } else {
        (p, Ok(left))
    }
}

#[verifier::opaque]
pub open spec fn spec_additive_exp(ts: Seq<TokenView>, p: nat) -> (nat, Result<AstView, Fault>)
    decreases remaining(ts, p), 16nat,
{
    {
        let (q, r) = spec_multiplicative_exp(ts, p);
        let p1 = clamp(p, q);
        match r {
            Err(f) => (p1, Err(f)),
            Ok(left) => spec_additive_tail(ts, p1, left),
        }
    }
}

#[verifier::opaque]
pub open spec fn spec_additive_tail(ts: Seq<TokenView>, p: nat, left: AstView) -> (nat, Result<AstView, Fault>)
    decreases remaining(ts, p), 15nat,
{
    if tok_any(ts, p, 0, seq![Name::Add, Name::Sub]) && !tok_is(ts, p, 1, Name::Label) {
        let (p1, e) = spec_eat_of(ts, p, Kind::Operator);
        match e {
            Err(f) => (p1, Err(f)),
            Ok(t) => {
                let (q, r) = spec_multiplicative_exp(ts, p1);
                let p2 = clamp(p1, q);
                match r {
                    Err(f) => (p2, Err(f)),
                    Ok(right) => spec_additive_tail(ts, p2, AstView::Op2(t.name, Box::new(left), Box::new(right))),
                }
            },
        }
    } else {
        (p, Ok(left))
    }
}

#[verifier::opaque]
pub open spec fn spec_multiplicative_exp(ts: Seq<TokenView>, p: nat) -> (nat, Result<AstView, Fault>)
    decreases remaining(ts, p), 14nat,
{
    {
        let (q, r) = spec_exponential_exp(ts, p);
        let p1 = clamp(p, q);
        match r {
            Err(f) => (p1, Err(f)),
            Ok(left) => spec_multiplicative_tail(ts, p1, left),
        }
    }
}

#[verifier::opaque]
pub open spec fn spec_multiplicative_tail(ts: Seq<TokenView>, p: nat, left: AstView) -> (nat, Result<AstView, Fault>)
    decreases remaining(ts, p), 13nat,
{
    if tok_any(ts, p, 0, seq![Name::Mul, Name::Div]) && !tok_is(ts, p, 1, Name::Label) {
        let (p1, e) = spec_eat_of(ts, p, Kind::Operator);
        match e {
            Err(f) => (p1, Err(Fault::Abort)),
            Ok(t) => {
                let (q, r) = spec_exponential_exp(ts, p1);
                let p2 = clamp(p1, q);
                match r {
                    Err(f) => (p2, Err(f)),
                    Ok(right) => spec_multiplicative_tail(ts, p2, AstView::Op2(t.name, Box::new(left), Box::new(right))),
                }
            },
        }
    } else {
        (p, Ok(left))
    }
}

#[verifier::opaque]
pub open spec fn spec_exponential_exp(ts: Seq<TokenView>, p: nat) -> (nat, Result<AstView, Fault>)
    decreases remaining(ts, p), 12nat,
{
    {
        let (q, r) = spec_unary_exp(ts, p);
        let p1 = clamp(p, q);
        match r {
            Err(f) => (p1, Err(f)),
            Ok(left) => spec_exponential_tail(ts, p1, left),
        }
    }
}

#[verifier::opaque]
pub open spec fn spec_exponential_tail(ts: Seq<TokenView>, p: nat, left: AstView) -> (nat, Result<AstView, Fault>)
    decreases remaining(ts, p), 11nat,
{
    if tok_is(ts, p, 0, Name::Exp) && !tok_is(ts, p, 1, Name::Label) {
        let (p1, e) = spec_eat(ts, p, Name::Exp);
        match e {
            Err(f) => (p1, Err(f)),
            Ok(t) => {
                let (q, r) = spec_unary_exp(ts, p1);
                let p2 = clamp(p1, q);
                match r {
                    Err(f) => (p2, Err(f)),
                    Ok(right) => spec_exponential_tail(ts, p2, AstView::Op2(Name::Exp, Box::new(left), Box::new(right))),
                }
            },
        }
    } else {
        (p, Ok(left))
    }
}

#[verifier::opaque]
pub open spec fn spec_select_exp(ts: Seq<TokenView>, p: nat) -> (nat, Result<AstView, Fault>)
    decreases remaining(ts, p), 8nat,
{
    {
        let (q, r) = spec_apply(ts, p);
        let p1 = clamp(p, q);
        match r {
            Err(f) => (p1, Err(f)),
            Ok(left) => spec_select_tail(ts, p1, left),
        }
    }
}

#[verifier::opaque]
pub open spec fn spec_select_tail(ts: Seq<TokenView>, p: nat, left: AstView) -> (nat, Result<AstView, Fault>)
    decreases remaining(ts, p), 7nat,
{
    if tok_any(ts, p, 0, seq![Name::Select, Name::Index]) {
        let (p1, e) = spec_eats(ts, p, seq![Name::Select, Name::Index]);
        match e {
            Err(f) => (p1, Err(f)),
            Ok(t) => {
                let (q, r) = spec_apply(ts, p1);
                let p2 = clamp(p1, q);
                match r {
                    Err(f) => (p2, Err(f)),
                    Ok(right) => spec_select_tail(ts, p2, AstView::Op2(t.name, Box::new(left), Box::new(right))),
                }
            },
        }
    } else {
        (p, Ok(left))
    }
}

#[verifier::opaque]
pub open spec fn spec_return_exp(ts: Seq<TokenView>, p: nat) -> (nat, Result<AstView, Fault>)
    decreases remaining(ts, p), 38nat,
{
    if tok_is(ts, p, 0, Name::Arrow) {
        let (p0, e0) = spec_eat(ts, p, Name::Arrow);
        match e0 {
            Err(f) => (p0, Err(f)),
            Ok(_) => {
                let (q, r) = spec_pattern_exp(ts, p0);
                let p1 = clamp(p0, q);
                match r {
                    Err(f) => (p1, Err(f)),
                    Ok(x) => (p1, Ok(AstView::Op1(Name::Arrow, Box::new(x)))),
                }
            },
        }
    } else {
        let (q, r) = spec_pattern_exp(ts, p);
        let p1 = clamp(p, q);
        match r {
            Err(f) => (p1, Err(f)),
            Ok(left) => if tok_is(ts, p1, 0, Name::Arrow) {
                let (p2, e) = spec_eat(ts, p1, Name::Arrow);
                match e {
                    Err(f) => (p2, Err(f)),
                    Ok(_) => {
                        let (q3, r3) = spec_pattern_exp(ts, p2);
                        let p3 = clamp(p2, q3);
                        match r3 {
                            Err(f) => (p3, Err(f)),
                            Ok(right) => (p3, Ok(AstView::Op2(Name::Arrow, Box::new(left), Box::new(right)))),
                        }
                    },
                }
            } else {
                (p1, Ok(left))
            },
        }
    }
}

#[verifier::opaque]
pub open spec fn spec_label_exp(ts: Seq<TokenView>, p: nat) -> (nat, Result<AstView, Fault>)
    decreases remaining(ts, p), 34nat,
{
    if tok_any_of(ts, p, 0, seq![Kind::Word, Kind::Operator]) && tok_is(ts, p, 1, Name::Label) {
        let (p1, e1) = spec_eats_of(ts, p, seq![Kind::Word, Kind::Operator]);
        match e1 {
            Err(f) => (p1, Err(f)),
            Ok(t) => {
                let (p2, e2) = spec_eat(ts, p1, Name::Label);
                match e2 {
                    Err(f) => (p2, Err(f)),
                    Ok(_) => {
                        let (q, r) = spec_label_exp(ts, p2);
                        let p3 = clamp(p2, q);
                        match r {
                            Err(f) => (p3, Err(f)),
                            Ok(x) => (p3, Ok(AstView::Op2(Name::Label, Box::new(AstView::Word(t.text)), Box::new(x)))),
                        }
                    },
                }
            },
        }
    } else {
        spec_sizer_exp(ts, p)
    }
}

#[verifier::opaque]
pub open spec fn spec_unary_exp(ts: Seq<TokenView>, p: nat) -> (nat, Result<AstView, Fault>)
    decreases remaining(ts, p), 10nat,
{
    if tok_of(ts, p, 0, Kind::Operator) {
        let (p1, e) = spec_eat_of(ts, p, Kind::Operator);
        match e {
            Err(f) => (p1, Err(f)),
            Ok(t) => {
                let (q, r) = spec_unary_exp(ts, p1);
                let p2 = clamp(p1, q);
                match r {
                    Err(f) => (p2, Err(f)),
                    Ok(x) => (p2, Ok(AstView::Op1(t.name, Box::new(x)))),
                }
            },
        }
    } else {
        spec_select_exp(ts, p)
    }
}

#[verifier::opaque]
pub open spec fn spec_apply(ts: Seq<TokenView>, p: nat) -> (nat, Result<AstView, Fault>)
    decreases remaining(ts, p), 6nat,
{
    let (q, r) = spec_primary(ts, p);
    let p1 = clamp(p, q);
    match r {
        Err(f) => (p1, Err(f)),
        Ok(left) => if tok_any(ts, p1, 0, seq![Name::BracketLF, Name::ParenLF]) {
            let (q2, r2) = spec_primary(ts, p1);
            let p2 = clamp(p1, q2);
            match r2 {
                Err(f) => (p2, Err(f)),
                Ok(m) => (p2, Ok(AstView::Apply(Box::new(left), Box::new(m)))),
            }
        } else {
            (p1, Ok(left))
        },
    }
}

#[verifier::opaque]
pub open spec fn spec_primary(ts: Seq<TokenView>, p: nat) -> (nat, Result<AstView, Fault>)
    decreases remaining(ts, p), 4nat,
{
    if tok_is(ts, p, 0, Name::Word) {
        spec_word(ts, p)
    } else if tok_of(ts, p, 0, Kind::Bracket) {
        spec_graph_exp(ts, p)
    } else if tok_of(ts, p, 0, Kind::Paren) {
        spec_paren_exp(ts, p)
    } else if tok_of(ts, p, 0, Kind::Squaren) {
        spec_space_exp(ts, p)
    } else {
        spec_literal(ts, p)
    }
}

#[verifier::opaque]
pub open spec fn spec_graph_exp(ts: Seq<TokenView>, p: nat) -> (nat, Result<AstView, Fault>)
    decreases remaining(ts, p), 2nat,
{
    let (p1, e1) = spec_eat(ts, p, Name::BracketLF);
    match e1 {
        Err(f) => (p1, Err(f)),
        Ok(_) => {
            let (q, r) = spec_points(ts, p1, seq![Name::BracketRT]);
            let p2 = clamp(p1, q);
            match r {
                Err(f) => (p2, Err(f)),
                Ok(points) => {
                    let (p3, e3) = spec_eat(ts, p2, Name::BracketRT);
                    match e3 {
                        Err(f) => (p3, Err(f)),
                        Ok(_) => (p3, Ok(AstView::Graph(points))),
                    }
                },
            }
        },
    }
}

#[verifier::opaque]
pub open spec fn spec_space_exp(ts: Seq<TokenView>, p: nat) -> (nat, Result<AstView, Fault>)
    decreases remaining(ts, p), 2nat,
{
    let (p1, e1) = spec_eat(ts, p, Name::SquarenLF);
    match e1 {
        Err(f) => (p1, Err(f)),
        Ok(_) => {
            let (q, r) = spec_points(ts, p1, seq![Name::SquarenRT]);
            let p2 = clamp(p1, q);
            match r {
                Err(f) => (p2, Err(f)),
                Ok(points) => {
                    let (p3, e3) = spec_eat(ts, p2, Name::SquarenRT);
                    match e3 {
                        Err(f) => (p3, Err(f)),
                        Ok(_) => (p3, Ok(AstView::Space(points))),
                    }
                },
            }
        },
    }
}

#[verifier::opaque]
pub open spec fn spec_paren_exp(ts: Seq<TokenView>, p: nat) -> (nat, Result<AstView, Fault>)
    decreases remaining(ts, p), 2nat,
{
    let (p1, e1) = spec_eat(ts, p, Name::ParenLF);
    match e1 {
        Err(f) => (p1, Err(f)),
        Ok(_) => {
            let (q, r) = spec_or_exp(ts, p1);
            let p2 = clamp(p1, q);
            if r == Err::<AstView, Fault>(Fault::Abort) {
                (p2, r)
            } else {
                let (p3, e3) = spec_eat(ts, p2, Name::ParenRT);
                match e3 {
                    Err(f) => (p3, Err(f)),
                    Ok(_) => (p3, r),
                }
            }
        },
    }
}

/// Parses `tokens` into the graph of its top-level points.
pub open spec fn spec_parser(ts: Seq<TokenView>) -> Result<AstView, Fault> {
    spec_program(ts, 0).1
}


/// A parse that succeeds gives a graph: the program's top-level points.
#[verifier::spinoff_prover]
pub proof fn lemma_parser_gives_graph(ts: Seq<TokenView>)
    ensures
        spec_parser(ts) matches Ok(a) ==> a is Graph,
{
}

#[verifier::spinoff_prover]
proof fn lemma_points_loop_reads_all(ts: Seq<TokenView>, p: nat, stops: Seq<Name>, acc: Seq<AstView>)
    requires
        stops.len() == 0,
    ensures
        spec_points_loop(ts, p, stops, acc).1 is Ok ==> spec_points_loop(ts, p, stops, acc).0 >= ts.len(),
    decreases remaining(ts, p),
{
    reveal_with_fuel(spec_points_loop, 1);
    if tok_until(ts, p, 0, stops) {
        let (q, r) = spec_return_exp(ts, p);
        let p1 = clamp(p, q);
        if let Ok(x) = r {
            let p2 = skip_stops(ts, p1);
            if p2 > p {
                lemma_points_loop_reads_all(ts, p2, stops, acc.push(x));
            }
        }
    } else {
        assert(stops.contains(tok_at(ts, p, 0)->0.name) ==> false);
    }
}

/// A parse that succeeds has read every token of the stream.
#[verifier::spinoff_prover]
pub proof fn lemma_parser_reads_all(ts: Seq<TokenView>)
    ensures
        spec_program(ts, 0).1 is Ok ==> spec_program(ts, 0).0 >= ts.len(),
{
    reveal_with_fuel(spec_points, 1);
    let stops: Seq<Name> = seq![];
    lemma_points_loop_reads_all(ts, skip_stops(ts, 0), stops, seq![]);
}

impl<'a> Tokens<'a> {
    #[verifier::spinoff_prover]
    fn word(&mut self) -> (r: Result<Ast, String>)
        requires
            old(self).wf(),
            !old(self).aborted,
        ensures
            final(self).wf(),
            final(self).tokens == old(self).tokens,
            final(self).pos() >= old(self).pos(),
            r is Ok ==> final(self).pos() > old(self).pos(),
            final(self).aborted == (spec_word(old(self).toks(), old(self).pos()).1 == Err::<AstView, Fault>(Fault::Abort)),
            final(self).aborted ==> r is Err,
            !final(self).aborted ==> final(self).pos() == spec_word(old(self).toks(), old(self).pos()).0,
            !final(self).aborted ==> ast_result(r) == render(spec_word(old(self).toks(), old(self).pos()).1),
    {
        let t = match self.eat(Name::Word) {
            Ok(t) => t,
            Err(m) => {
                return Err(m);
            },
        };
        Ok(Ast::Word(t.meta.text.clone()))
    }
    #[verifier::spinoff_prover]
    fn literal(&mut self) -> (r: Result<Ast, String>)
        requires
            old(self).wf(),
            !old(self).aborted,
        ensures
            final(self).wf(),
            final(self).tokens == old(self).tokens,
            final(self).pos() >= old(self).pos(),
            r is Ok ==> final(self).pos() > old(self).pos(),
            final(self).aborted == (spec_literal(old(self).toks(), old(self).pos()).1 == Err::<AstView, Fault>(Fault::Abort)),
            final(self).aborted ==> r is Err,
            !final(self).aborted ==> final(self).pos() == spec_literal(old(self).toks(), old(self).pos()).0,
            !final(self).aborted ==> ast_result(r) == render(spec_literal(old(self).toks(), old(self).pos()).1),
    {
        if self.of(0, Kind::String) {
            self.string()
        } else {
            self.number()
        }
    }
    #[verifier::spinoff_prover]
    fn number(&mut self) -> (r: Result<Ast, String>)
        requires
            old(self).wf(),
            !old(self).aborted,
        ensures
            final(self).wf(),
            final(self).tokens == old(self).tokens,
            final(self).pos() >= old(self).pos(),
            r is Ok ==> final(self).pos() > old(self).pos(),
            final(self).aborted == (spec_number(old(self).toks(), old(self).pos()).1 == Err::<AstView, Fault>(Fault::Abort)),
            final(self).aborted ==> r is Err,
            !final(self).aborted ==> final(self).pos() == spec_number(old(self).toks(), old(self).pos()).0,
            !final(self).aborted ==> ast_result(r) == render(spec_number(old(self).toks(), old(self).pos()).1),
    {
        let t = match self.eat_of(Kind::Number) {
            Ok(t) => t,
            Err(m) => {
                return Err(m);
            },
        };
        let ast = match t.of.name {
            Name::Decimal => Ast::Decimal(t.meta.text.clone()),
            Name::Integer => Ast::Integer(t.meta.text.clone()),
            _ => {
                self.aborted = true;
                return Err(String::new());
            },
        };
        Ok(ast)
    }
    #[verifier::spinoff_prover]
    fn string(&mut self) -> (r: Result<Ast, String>)
        requires
            old(self).wf(),
            !old(self).aborted,
        ensures
            final(self).wf(),
            final(self).tokens == old(self).tokens,
            final(self).pos() >= old(self).pos(),
            r is Ok ==> final(self).pos() > old(self).pos(),
            final(self).aborted == (spec_string(old(self).toks(), old(self).pos()).1 == Err::<AstView, Fault>(Fault::Abort)),
            final(self).aborted ==> r is Err,
            !final(self).aborted ==> final(self).pos() == spec_string(old(self).toks(), old(self).pos()).0,
            !final(self).aborted ==> ast_result(r) == render(spec_string(old(self).toks(), old(self).pos()).1),
    {
        let t = match self.eat_of(Kind::String) {
            Ok(t) => t,
            Err(m) => {
                return Err(m);
            },
        };
        Ok(Ast::String(t.meta.text.clone()))
    }
    #[verifier::spinoff_prover]
    fn program(&mut self) -> (r: Result<Ast, String>)
        requires
            old(self).wf(),
            !old(self).aborted,
        ensures
            final(self).wf(),
            final(self).tokens == old(self).tokens,
            final(self).pos() >= old(self).pos(),
            final(self).aborted == (spec_program(old(self).toks(), old(self).pos()).1 == Err::<AstView, Fault>(Fault::Abort)),
            final(self).aborted ==> r is Err,
            !final(self).aborted ==> final(self).pos() == spec_program(old(self).toks(), old(self).pos()).0,
            !final(self).aborted ==> ast_result(r) == render(spec_program(old(self).toks(), old(self).pos()).1),
        decreases old(self).tokens@.len() - old(self).cursor, 42nat,
    {
        let stops: &[Name] = &[];
        proof {
            assert(stops@ =~= Seq::<Name>::empty());
        }
        let points = match self.points(stops) {
            Ok(x) => x,
            Err(m) => {
                return Err(m);
            },
        };
        Ok(Ast::Graph(points))
    }
    #[verifier::spinoff_prover]
    fn points(&mut self, stops: &[Name]) -> (r: Result<Vec<Ast>, String>)
        requires
            old(self).wf(),
            !old(self).aborted,
        ensures
            final(self).wf(),
            final(self).tokens == old(self).tokens,
            final(self).pos() >= old(self).pos(),
            final(self).aborted == (spec_points(old(self).toks(), old(self).pos(), stops@).1 == Err::<
                Seq<AstView>,
                Fault,
            >(Fault::Abort)),
            final(self).aborted ==> r is Err,
            !final(self).aborted ==> final(self).pos() == spec_points(old(self).toks(), old(self).pos(), stops@).0,
            !final(self).aborted ==> asts_result(r) == render(spec_points(old(self).toks(), old(self).pos(), stops@).1),
        decreases old(self).tokens@.len() - old(self).cursor, 41nat,
    {
        proof {
            reveal_with_fuel(spec_points, 1);
            reveal_with_fuel(spec_points_loop, 1);
        }
        let ghost ts = self.toks();
        let ghost p0 = self.pos();
        let mut points: Vec<Ast> = Vec::new();
        proof {
            lemma_skip_stops(ts, p0);
            assert(asts_view(points@) =~= Seq::<AstView>::empty());
        }
        self.clear_stops();
        while self.until(0, stops)
            invariant
                self.wf(),
                self.tokens == old(self).tokens,
                ts == old(self).toks(),
                p0 == old(self).pos(),
                self.pos() >= p0,
                !self.aborted,
                spec_points(ts, p0, stops@) == spec_points_loop(ts, self.pos(), stops@, asts_view(points@)),
            decreases self.tokens@.len() - self.cursor,
        {
            proof {
                reveal_with_fuel(spec_points_loop, 1);
            }
            let ghost p1 = self.pos();
            let x = match self.return_exp() {
                Ok(x) => x,
                Err(m) => {
                    return Err(m);
                },
            };
            proof {
                lemma_asts_view_push(points@, x);
                lemma_skip_stops(ts, self.pos());
            }
            points.push(x);
            self.clear_stops();
        }
        Ok(points)
    }

    #[verifier::spinoff_prover]
    fn pattern_exp(&mut self) -> (r: Result<Ast, String>)
        requires
            old(self).wf(),
            !old(self).aborted,
        ensures
            final(self).wf(),
            final(self).tokens == old(self).tokens,
            final(self).pos() >= old(self).pos(),
            r is Ok ==> final(self).pos() > old(self).pos(),
            final(self).aborted == (spec_pattern_exp(old(self).toks(), old(self).pos()).1 == Err::<AstView, Fault>(Fault::Abort)),
            final(self).aborted ==> r is Err,
            !final(self).aborted ==> final(self).pos() == spec_pattern_exp(old(self).toks(), old(self).pos()).0,
            !final(self).aborted ==> ast_result(r) == render(spec_pattern_exp(old(self).toks(), old(self).pos()).1),
        decreases old(self).tokens@.len() - old(self).cursor, 36nat,
    {
        proof {
            reveal_with_fuel(spec_pattern_exp, 1);
            reveal_with_fuel(spec_pattern_tail, 1);
        }
        let ghost ts = self.toks();
        let ghost p0 = self.pos();
        let first = match self.label_exp() {
            Ok(x) => x,
            Err(m) => {
                return Err(m);
            },
        };
        let mut left = first;
        while self.is(0, Name::Pattern)
            invariant
                self.wf(),
                self.tokens == old(self).tokens,
                ts == old(self).toks(),
                p0 == old(self).pos(),
                self.pos() > p0,
                !self.aborted,
                spec_pattern_exp(ts, p0) == spec_pattern_tail(ts, self.pos(), left@),
            decreases self.tokens@.len() - self.cursor,
        {
            proof {
                reveal_with_fuel(spec_pattern_tail, 1);
            }
            let t = match self.eat(Name::Pattern) {
                Ok(t) => t,
                Err(m) => {
                    return Err(m);
                },
            };
            let right = match self.label_exp() {
                Ok(x) => x,
                Err(m) => {
                    return Err(m);
                },
            };
            left = Ast::Op2(Name::Pattern, Box::new(left), Box::new(right));
        }
        Ok(left)
    }

    #[verifier::spinoff_prover]
    fn sizer_exp(&mut self) -> (r: Result<Ast, String>)
        requires
            old(self).wf(),
            !old(self).aborted,
        ensures
            final(self).wf(),
            final(self).tokens == old(self).tokens,
            final(self).pos() >= old(self).pos(),
            r is Ok ==> final(self).pos() > old(self).pos(),
            final(self).aborted == (spec_sizer_exp(old(self).toks(), old(self).pos()).1 == Err::<AstView, Fault>(Fault::Abort)),
            final(self).aborted ==> r is Err,
            !final(self).aborted ==> final(self).pos() == spec_sizer_exp(old(self).toks(), old(self).pos()).0,
            !final(self).aborted ==> ast_result(r) == render(spec_sizer_exp(old(self).toks(), old(self).pos()).1),
        decreases old(self).tokens@.len() - old(self).cursor, 32nat,
    {
        proof {
            reveal_with_fuel(spec_sizer_exp, 1);
            reveal_with_fuel(spec_sizer_tail, 1);
        }
        let ghost ts = self.toks();
        let ghost p0 = self.pos();
        let first = match self.signal_exp() {
            Ok(x) => x,
            Err(m) => {
                return Err(m);
            },
        };
        let mut left = first;
        while self.is(0, Name::Sizer)
            invariant
                self.wf(),
                self.tokens == old(self).tokens,
                ts == old(self).toks(),
                p0 == old(self).pos(),
                self.pos() > p0,
                !self.aborted,
                spec_sizer_exp(ts, p0) == spec_sizer_tail(ts, self.pos(), left@),
            decreases self.tokens@.len() - self.cursor,
        {
            proof {
                reveal_with_fuel(spec_sizer_tail, 1);
            }
            let t = match self.eat(Name::Sizer) {
                Ok(t) => t,
                Err(m) => {
                    return Err(m);
                },
            };
            let right = match self.signal_exp() {
                Ok(x) => x,
                Err(m) => {
                    return Err(m);
                },
            };
            left = Ast::Op2(Name::Sizer, Box::new(left), Box::new(right));
        }
        Ok(left)
    }

    #[verifier::spinoff_prover]
    fn signal_exp(&mut self) -> (r: Result<Ast, String>)
        requires
            old(self).wf(),
            !old(self).aborted,
        ensures
            final(self).wf(),
            final(self).tokens == old(self).tokens,
            final(self).pos() >= old(self).pos(),
            r is Ok ==> final(self).pos() > old(self).pos(),
            final(self).aborted == (spec_signal_exp(old(self).toks(), old(self).pos()).1 == Err::<AstView, Fault>(Fault::Abort)),
            final(self).aborted ==> r is Err,
            !final(self).aborted ==> final(self).pos() == spec_signal_exp(old(self).toks(), old(self).pos()).0,
            !final(self).aborted ==> ast_result(r) == render(spec_signal_exp(old(self).toks(), old(self).pos()).1),
        decreases old(self).tokens@.len() - old(self).cursor, 30nat,
    {
        proof {
            reveal_with_fuel(spec_signal_exp, 1);
            reveal_with_fuel(spec_signal_tail, 1);
        }
        let ghost ts = self.toks();
        let ghost p0 = self.pos();
        let first = match self.join_exp() {
            Ok(x) => x,
            Err(m) => {
                return Err(m);
            },
        };
        let mut left = first;
        while self.is(0, Name::Signal)
            invariant
                self.wf(),
                self.tokens == old(self).tokens,
                ts == old(self).toks(),
                p0 == old(self).pos(),
                self.pos() > p0,
                !self.aborted,
                spec_signal_exp(ts, p0) == spec_signal_tail(ts, self.pos(), left@),
            decreases self.tokens@.len() - self.cursor,
        {
            proof {
                reveal_with_fuel(spec_signal_tail, 1);
            }
            let t = match self.eat(Name::Signal) {
                Ok(t) => t,
                Err(m) => {
                    return Err(m);
                },
            };
            let right = match self.join_exp() {
                Ok(x) => x,
                Err(m) => {
                    return Err(m);
                },
            };
            left = Ast::Op2(Name::Signal, Box::new(left), Box::new(right));
        }
        Ok(left)
    }

    #[verifier::spinoff_prover]
    fn join_exp(&mut self) -> (r: Result<Ast, String>)
        requires
            old(self).wf(),
            !old(self).aborted,
        ensures
            final(self).wf(),
            final(self).tokens == old(self).tokens,
            final(self).pos() >= old(self).pos(),
            r is Ok ==> final(self).pos() > old(self).pos(),
            final(self).aborted == (spec_join_exp(old(self).toks(), old(self).pos()).1 == Err::<AstView, Fault>(Fault::Abort)),
            final(self).aborted ==> r is Err,
            !final(self).aborted ==> final(self).pos() == spec_join_exp(old(self).toks(), old(self).pos()).0,
            !final(self).aborted ==> ast_result(r) == render(spec_join_exp(old(self).toks(), old(self).pos()).1),
        decreases old(self).tokens@.len() - old(self).cursor, 28nat,
    {
        proof {
            reveal_with_fuel(spec_join_exp, 1);
            reveal_with_fuel(spec_join_tail, 1);
        }
        let ghost ts = self.toks();
        let ghost p0 = self.pos();
        let first = match self.shape_exp() {
            Ok(x) => x,
            Err(m) => {
                return Err(m);
            },
        };
        let mut left = first;
        while self.is(0, Name::Bleed) && !self.is(1, Name::Label)
            invariant
                self.wf(),
                self.tokens == old(self).tokens,
                ts == old(self).toks(),
                p0 == old(self).pos(),
                self.pos() > p0,
                !self.aborted,
                spec_join_exp(ts, p0) == spec_join_tail(ts, self.pos(), left@),
            decreases self.tokens@.len() - self.cursor,
        {
            proof {
                reveal_with_fuel(spec_join_tail, 1);
            }
            let t = match self.eat(Name::Bleed) {
                Ok(t) => t,
                Err(m) => {
                    return Err(m);
                },
            };
            let right = match self.shape_exp() {
                Ok(x) => x,
                Err(m) => {
                    return Err(m);
                },
            };
            left = Ast::Op2(Name::Bleed, Box::new(left), Box::new(right));
        }
        Ok(left)
    }

    #[verifier::spinoff_prover]
    fn shape_exp(&mut self) -> (r: Result<Ast, String>)
        requires
            old(self).wf(),
            !old(self).aborted,
        ensures
            final(self).wf(),
            final(self).tokens == old(self).tokens,
            final(self).pos() >= old(self).pos(),
            r is Ok ==> final(self).pos() > old(self).pos(),
            final(self).aborted == (spec_shape_exp(old(self).toks(), old(self).pos()).1 == Err::<AstView, Fault>(Fault::Abort)),
            final(self).aborted ==> r is Err,
            !final(self).aborted ==> final(self).pos() == spec_shape_exp(old(self).toks(), old(self).pos()).0,
            !final(self).aborted ==> ast_result(r) == render(spec_shape_exp(old(self).toks(), old(self).pos()).1),
        decreases old(self).tokens@.len() - old(self).cursor, 26nat,
    {
        proof {
            reveal_with_fuel(spec_shape_exp, 1);
            reveal_with_fuel(spec_shape_tail, 1);
        }
        let ghost ts = self.toks();
        let ghost p0 = self.pos();
        let first = match self.or_exp() {
            Ok(x) => x,
            Err(m) => {
                return Err(m);
            },
        };
        let mut left = first;
        while self.is(0, Name::Shape) && !self.is(1, Name::Label)
            invariant
                self.wf(),
                self.tokens == old(self).tokens,
                ts == old(self).toks(),
                p0 == old(self).pos(),
                self.pos() > p0,
                !self.aborted,
                spec_shape_exp(ts, p0) == spec_shape_tail(ts, self.pos(), left@),
            decreases self.tokens@.len() - self.cursor,
        {
            proof {
                reveal_with_fuel(spec_shape_tail, 1);
            }
            let t = match self.eat(Name::Shape) {
                Ok(t) => t,
                Err(m) => {
                    return Err(m);
                },
            };
            let right = match self.or_exp() {
                Ok(x) => x,
                Err(m) => {
                    return Err(m);
                },
            };
            left = Ast::Op2(Name::Shape, Box::new(left), Box::new(right));
        }
        Ok(left)
    }

    #[verifier::spinoff_prover]
    fn or_exp(&mut self) -> (r: Result<Ast, String>)
        requires
            old(self).wf(),
            !old(self).aborted,
        ensures
            final(self).wf(),
            final(self).tokens == old(self).tokens,
            final(self).pos() >= old(self).pos(),
            r is Ok ==> final(self).pos() > old(self).pos(),
            final(self).aborted == (spec_or_exp(old(self).toks(), old(self).pos()).1 == Err::<AstView, Fault>(Fault::Abort)),
            final(self).aborted ==> r is Err,
            !final(self).aborted ==> final(self).pos() == spec_or_exp(old(self).toks(), old(self).pos()).0,
            !final(self).aborted ==> ast_result(r) == render(spec_or_exp(old(self).toks(), old(self).pos()).1),
        decreases old(self).tokens@.len() - old(self).cursor, 24nat,
    {
        proof {
            reveal_with_fuel(spec_or_exp, 1);
            reveal_with_fuel(spec_or_tail, 1);
        }
        let ghost ts = self.toks();
        let ghost p0 = self.pos();
        let first = match self.and_exp() {
            Ok(x) => x,
            Err(m) => {
                return Err(m);
            },
        };
        let mut left = first;
        while self.is(0, Name::Or) && !self.is(1, Name::Label)
            invariant
                self.wf(),
                self.tokens == old(self).tokens,
                ts == old(self).toks(),
                p0 == old(self).pos(),
                self.pos() > p0,
                !self.aborted,
                spec_or_exp(ts, p0) == spec_or_tail(ts, self.pos(), left@),
            decreases self.tokens@.len() - self.cursor,
        {
            proof {
                reveal_with_fuel(spec_or_tail, 1);
            }
            let t = match self.eat(Name::Or) {
                Ok(t) => t,
                Err(m) => {
                    return Err(m);
                },
            };
            let right = match self.and_exp() {
                Ok(x) => x,
                Err(m) => {
                    return Err(m);
                },
            };
            left = Ast::Op2(Name::Or, Box::new(left), Box::new(right));
        }
        Ok(left)
    }

    #[verifier::spinoff_prover]
    fn and_exp(&mut self) -> (r: Result<Ast, String>)
        requires
            old(self).wf(),
            !old(self).aborted,
        ensures
            final(self).wf(),
            final(self).tokens == old(self).tokens,
            final(self).pos() >= old(self).pos(),
            r is Ok ==> final(self).pos() > old(self).pos(),
            final(self).aborted == (spec_and_exp(old(self).toks(), old(self).pos()).1 == Err::<AstView, Fault>(Fault::Abort)),
            final(self).aborted ==> r is Err,
            !final(self).aborted ==> final(self).pos() == spec_and_exp(old(self).toks(), old(self).pos()).0,
            !final(self).aborted ==> ast_result(r) == render(spec_and_exp(old(self).toks(), old(self).pos()).1),
        decreases old(self).tokens@.len() - old(self).cursor, 22nat,
    {
        proof {
            reveal_with_fuel(spec_and_exp, 1);
            reveal_with_fuel(spec_and_tail, 1);
        }
        let ghost ts = self.toks();
        let ghost p0 = self.pos();
        let first = match self.equality_exp() {
            Ok(x) => x,
            Err(m) => {
                return Err(m);
            },
        };
        let mut left = first;
        while self.is(0, Name::And) && !self.is(1, Name::Label)
            invariant
                self.wf(),
                self.tokens == old(self).tokens,
                ts == old(self).toks(),
                p0 == old(self).pos(),
                self.pos() > p0,
                !self.aborted,
                spec_and_exp(ts, p0) == spec_and_tail(ts, self.pos(), left@),
            decreases self.tokens@.len() - self.cursor,
        {
            proof {
                reveal_with_fuel(spec_and_tail, 1);
            }
            let t = match self.eat(Name::And) {
                Ok(t) => t,
                Err(m) => {
                    return Err(m);
                },
            };
            let right = match self.equality_exp() {
                Ok(x) => x,
                Err(m) => {
                    return Err(m);
                },
            };
            left = Ast::Op2(Name::And, Box::new(left), Box::new(right));
        }
        Ok(left)
    }

    #[verifier::spinoff_prover]
    fn equality_exp(&mut self) -> (r: Result<Ast, String>)
        requires
            old(self).wf(),
            !old(self).aborted,
        ensures
            final(self).wf(),
            final(self).tokens == old(self).tokens,
            final(self).pos() >= old(self).pos(),
            r is Ok ==> final(self).pos() > old(self).pos(),
            final(self).aborted == (spec_equality_exp(old(self).toks(), old(self).pos()).1 == Err::<AstView, Fault>(Fault::Abort)),
            final(self).aborted ==> r is Err,
            !final(self).aborted ==> final(self).pos() == spec_equality_exp(old(self).toks(), old(self).pos()).0,
            !final(self).aborted ==> ast_result(r) == render(spec_equality_exp(old(self).toks(), old(self).pos()).1),
        decreases old(self).tokens@.len() - old(self).cursor, 20nat,
    {
        proof {
            reveal_with_fuel(spec_equality_exp, 1);
            reveal_with_fuel(spec_equality_tail, 1);
        }
        let ghost ts = self.toks();
        let ghost p0 = self.pos();
        let ops: &[Name] = &[Name::Eq, Name::Ne];
        proof {
            assert(ops@ =~= seq![Name::Eq, Name::Ne]);
        }
        let first = match self.relation_exp() {
            Ok(x) => x,
            Err(m) => {
                return Err(m);
            },
        };
        let mut left = first;
        while self.any(0, ops) && !self.is(1, Name::Label)
            invariant
                self.wf(),
                self.tokens == old(self).tokens,
                ts == old(self).toks(),
                p0 == old(self).pos(),
                ops@ == seq![Name::Eq, Name::Ne],
                self.pos() > p0,
                !self.aborted,
                spec_equality_exp(ts, p0) == spec_equality_tail(ts, self.pos(), left@),
            decreases self.tokens@.len() - self.cursor,
        {
            proof {
                reveal_with_fuel(spec_equality_tail, 1);
            }
            let t = match self.eat_of(Kind::Operator) {
                Ok(t) => t,
                Err(m) => {
                    return Err(m);
                },
            };
            let right = match self.relation_exp() {
                Ok(x) => x,
                Err(m) => {
                    return Err(m);
                },
            };
            left = Ast::Op2(t.of.name, Box::new(left), Box::new(right));
        }
        Ok(left)
    }

    #[verifier::spinoff_prover]
    fn relation_exp(&mut self) -> (r: Result<Ast, String>)
        requires
            old(self).wf(),
            !old(self).aborted,
        ensures
            final(self).wf(),
            final(self).tokens == old(self).tokens,
            final(self).pos() >= old(self).pos(),
            r is Ok ==> final(self).pos() > old(self).pos(),
            final(self).aborted == (spec_relation_exp(old(self).toks(), old(self).pos()).1 == Err::<AstView, Fault>(Fault::Abort)),
            final(self).aborted ==> r is Err,
            !final(self).aborted ==> final(self).pos() == spec_relation_exp(old(self).toks(), old(self).pos()).0,
            !final(self).aborted ==> ast_result(r) == render(spec_relation_exp(old(self).toks(), old(self).pos()).1),
        decreases old(self).tokens@.len() - old(self).cursor, 18nat,
    {
        proof {
            reveal_with_fuel(spec_relation_exp, 1);
            reveal_with_fuel(spec_relation_tail, 1);
        }
        let ghost ts = self.toks();
        let ghost p0 = self.pos();
        let ops: &[Name] = &[Name::Gt, Name::Ge, Name::Lt, Name::Le];
        proof {
            assert(ops@ =~= seq![Name::Gt, Name::Ge, Name::Lt, Name::Le]);
        }
        let first = match self.additive_exp() {
            Ok(x) => x,
            Err(m) => {
                return Err(m);
            },
        };
        let mut left = first;
        while self.any(0, ops) && !self.is(1, Name::Label)
            invariant
                self.wf(),
                self.tokens == old(self).tokens,
                ts == old(self).toks(),
                p0 == old(self).pos(),
                ops@ == seq![Name::Gt, Name::Ge, Name::Lt, Name::Le],
                self.pos() > p0,
                !self.aborted,
                spec_relation_exp(ts, p0) == spec_relation_tail(ts, self.pos(), left@),
            decreases self.tokens@.len() - self.cursor,
        {
            proof {
                reveal_with_fuel(spec_relation_tail, 1);
            }
            let t = match self.eat_of(Kind::Operator) {
                Ok(t) => t,
                Err(m) => {
                    return Err(m);
                },
            };
            let right = match self.additive_exp() {
                Ok(x) => x,
                Err(m) => {
                    return Err(m);
                },
            };
            left = Ast::Op2(t.of.name, Box::new(left), Box::new(right));
        }
        Ok(left)
    }

    #[verifier::spinoff_prover]
    fn additive_exp(&mut self) -> (r: Result<Ast, String>)
        requires
            old(self).wf(),
            !old(self).aborted,
        ensures
            final(self).wf(),
            final(self).tokens == old(self).tokens,
            final(self).pos() >= old(self).pos(),
            r is Ok ==> final(self).pos() > old(self).pos(),
            final(self).aborted == (spec_additive_exp(old(self).toks(), old(self).pos()).1 == Err::<AstView, Fault>(Fault::Abort)),
            final(self).aborted ==> r is Err,
            !final(self).aborted ==> final(self).pos() == spec_additive_exp(old(self).toks(), old(self).pos()).0,
            !final(self).aborted ==> ast_result(r) == render(spec_additive_exp(old(self).toks(), old(self).pos()).1),
        decreases old(self).tokens@.len() - old(self).cursor, 16nat,
    {
        proof {
            reveal_with_fuel(spec_additive_exp, 1);
            reveal_with_fuel(spec_additive_tail, 1);
        }
        let ghost ts = self.toks();
        let ghost p0 = self.pos();
        let ops: &[Name] = &[Name::Add, Name::Sub];
        proof {
            assert(ops@ =~= seq![Name::Add, Name::Sub]);
        }
        let first = match self.multiplicative_exp() {
            Ok(x) => x,
            Err(m) => {
                return Err(m);
            },
        };
        let mut left = first;
        while self.any(0, ops) && !self.is(1, Name::Label)
            invariant
                self.wf(),
                self.tokens == old(self).tokens,
                ts == old(self).toks(),
                p0 == old(self).pos(),
                ops@ == seq![Name::Add, Name::Sub],
                self.pos() > p0,
                !self.aborted,
                spec_additive_exp(ts, p0) == spec_additive_tail(ts, self.pos(), left@),
            decreases self.tokens@.len() - self.cursor,
        {
            proof {
                reveal_with_fuel(spec_additive_tail, 1);
            }
            let t = match self.eat_of(Kind::Operator) {
                Ok(t) => t,
                Err(m) => {
                    return Err(m);
                },
            };
            let right = match self.multiplicative_exp() {
                Ok(x) => x,
                Err(m) => {
                    return Err(m);
                },
            };
            left = Ast::Op2(t.of.name, Box::new(left), Box::new(right));
        }
        Ok(left)
    }

    #[verifier::spinoff_prover]
    fn multiplicative_exp(&mut self) -> (r: Result<Ast, String>)
        requires
            old(self).wf(),
            !old(self).aborted,
        ensures
            final(self).wf(),
            final(self).tokens == old(self).tokens,
            final(self).pos() >= old(self).pos(),
            r is Ok ==> final(self).pos() > old(self).pos(),
            final(self).aborted == (spec_multiplicative_exp(old(self).toks(), old(self).pos()).1 == Err::<AstView, Fault>(Fault::Abort)),
            final(self).aborted ==> r is Err,
            !final(self).aborted ==> final(self).pos() == spec_multiplicative_exp(old(self).toks(), old(self).pos()).0,
            !final(self).aborted ==> ast_result(r) == render(spec_multiplicative_exp(old(self).toks(), old(self).pos()).1),
        decreases old(self).tokens@.len() - old(self).cursor, 14nat,
    {
        proof {
            reveal_with_fuel(spec_multiplicative_exp, 1);
            reveal_with_fuel(spec_multiplicative_tail, 1);
        }
        let ghost ts = self.toks();
        let ghost p0 = self.pos();
        let ops: &[Name] = &[Name::Mul, Name::Div];
        proof {
            assert(ops@ =~= seq![Name::Mul, Name::Div]);
        }
        let first = match self.exponential_exp() {
            Ok(x) => x,
            Err(m) => {
                return Err(m);
            },
        };
        let mut left = first;
        while self.any(0, ops) && !self.is(1, Name::Label)
            invariant
                self.wf(),
                self.tokens == old(self).tokens,
                ts == old(self).toks(),
                p0 == old(self).pos(),
                ops@ == seq![Name::Mul, Name::Div],
                self.pos() > p0,
                !self.aborted,
                spec_multiplicative_exp(ts, p0) == spec_multiplicative_tail(ts, self.pos(), left@),
            decreases self.tokens@.len() - self.cursor,
        {
            proof {
                reveal_with_fuel(spec_multiplicative_tail, 1);
            }
            let t = match self.eat_of(Kind::Operator) {
                Ok(t) => t,
                Err(m) => {
                    self.aborted = true;
                    return Err(m);
                },
            };
            let right = match self.exponential_exp() {
                Ok(x) => x,
                Err(m) => {
                    return Err(m);
                },
            };
            left = Ast::Op2(t.of.name, Box::new(left), Box::new(right));
        }
        Ok(left)
    }

    #[verifier::spinoff_prover]
    fn exponential_exp(&mut self) -> (r: Result<Ast, String>)
        requires
            old(self).wf(),
            !old(self).aborted,
        ensures
            final(self).wf(),
            final(self).tokens == old(self).tokens,
            final(self).pos() >= old(self).pos(),
            r is Ok ==> final(self).pos() > old(self).pos(),
            final(self).aborted == (spec_exponential_exp(old(self).toks(), old(self).pos()).1 == Err::<AstView, Fault>(Fault::Abort)),
            final(self).aborted ==> r is Err,
            !final(self).aborted ==> final(self).pos() == spec_exponential_exp(old(self).toks(), old(self).pos()).0,
            !final(self).aborted ==> ast_result(r) == render(spec_exponential_exp(old(self).toks(), old(self).pos()).1),
        decreases old(self).tokens@.len() - old(self).cursor, 12nat,
    {
        proof {
            reveal_with_fuel(spec_exponential_exp, 1);
            reveal_with_fuel(spec_exponential_tail, 1);
        }
        let ghost ts = self.toks();
        let ghost p0 = self.pos();
        let first = match self.unary_exp() {
            Ok(x) => x,
            Err(m) => {
                return Err(m);
            },
        };
        let mut left = first;
        while self.is(0, Name::Exp) && !self.is(1, Name::Label)
            invariant
                self.wf(),
                self.tokens == old(self).tokens,
                ts == old(self).toks(),
                p0 == old(self).pos(),
                self.pos() > p0,
                !self.aborted,
                spec_exponential_exp(ts, p0) == spec_exponential_tail(ts, self.pos(), left@),
            decreases self.tokens@.len() - self.cursor,
        {
            proof {
                reveal_with_fuel(spec_exponential_tail, 1);
            }
            let t = match self.eat(Name::Exp) {
                Ok(t) => t,
                Err(m) => {
                    return Err(m);
                },
            };
            let right = match self.unary_exp() {
                Ok(x) => x,
                Err(m) => {
                    return Err(m);
                },
            };
            left = Ast::Op2(Name::Exp, Box::new(left), Box::new(right));
        }
        Ok(left)
    }

    #[verifier::spinoff_prover]
    fn select_exp(&mut self) -> (r: Result<Ast, String>)
        requires
            old(self).wf(),
            !old(self).aborted,
        ensures
            final(self).wf(),
            final(self).tokens == old(self).tokens,
            final(self).pos() >= old(self).pos(),
            r is Ok ==> final(self).pos() > old(self).pos(),
            final(self).aborted == (spec_select_exp(old(self).toks(), old(self).pos()).1 == Err::<AstView, Fault>(Fault::Abort)),
            final(self).aborted ==> r is Err,
            !final(self).aborted ==> final(self).pos() == spec_select_exp(old(self).toks(), old(self).pos()).0,
            !final(self).aborted ==> ast_result(r) == render(spec_select_exp(old(self).toks(), old(self).pos()).1),
        decreases old(self).tokens@.len() - old(self).cursor, 8nat,
    {
        proof {
            reveal_with_fuel(spec_select_exp, 1);
            reveal_with_fuel(spec_select_tail, 1);
        }
        let ghost ts = self.toks();
        let ghost p0 = self.pos();
        let ops: &[Name] = &[Name::Select, Name::Index];
        proof {
            assert(ops@ =~= seq![Name::Select, Name::Index]);
        }
        let first = match self.apply() {
            Ok(x) => x,
            Err(m) => {
                return Err(m);
            },
        };
        let mut left = first;
        while self.any(0, ops)
            invariant
                self.wf(),
                self.tokens == old(self).tokens,
                ts == old(self).toks(),
                p0 == old(self).pos(),
                ops@ == seq![Name::Select, Name::Index],
                self.pos() > p0,
                !self.aborted,
                spec_select_exp(ts, p0) == spec_select_tail(ts, self.pos(), left@),
            decreases self.tokens@.len() - self.cursor,
        {
            proof {
                reveal_with_fuel(spec_select_tail, 1);
            }
            let t = match self.eats(ops) {
                Ok(t) => t,
                Err(m) => {
                    return Err(m);
                },
            };
            let right = match self.apply() {
                Ok(x) => x,
                Err(m) => {
                    return Err(m);
                },
            };
            left = Ast::Op2(t.of.name, Box::new(left), Box::new(right));
        }
        Ok(left)
    }

    #[verifier::spinoff_prover]
    fn return_exp(&mut self) -> (r: Result<Ast, String>)
        requires
            old(self).wf(),
            !old(self).aborted,
        ensures
            final(self).wf(),
            final(self).tokens == old(self).tokens,
            final(self).pos() >= old(self).pos(),
            r is Ok ==> final(self).pos() > old(self).pos(),
            final(self).aborted == (spec_return_exp(old(self).toks(), old(self).pos()).1 == Err::<AstView, Fault>(Fault::Abort)),
            final(self).aborted ==> r is Err,
            !final(self).aborted ==> final(self).pos() == spec_return_exp(old(self).toks(), old(self).pos()).0,
            !final(self).aborted ==> ast_result(r) == render(spec_return_exp(old(self).toks(), old(self).pos()).1),
        decreases old(self).tokens@.len() - old(self).cursor, 38nat,
    {
        proof {
            reveal_with_fuel(spec_return_exp, 1);
        }
        if self.is(0, Name::Arrow) {
            match self.eat(Name::Arrow) {
                Ok(_) => {},
                Err(m) => {
                    return Err(m);
                },
            }
            let x = match self.pattern_exp() {
                Ok(x) => x,
                Err(m) => {
                    return Err(m);
                },
            };
            return Ok(Ast::Op1(Name::Arrow, Box::new(x)));
        }
        let mut left = match self.pattern_exp() {
            Ok(x) => x,
            Err(m) => {
                return Err(m);
            },
        };
        if self.is(0, Name::Arrow) {
            match self.eat(Name::Arrow) {
                Ok(_) => {},
                Err(m) => {
                    return Err(m);
                },
            }
            let right = match self.pattern_exp() {
                Ok(x) => x,
                Err(m) => {
                    return Err(m);
                },
            };
            left = Ast::Op2(Name::Arrow, Box::new(left), Box::new(right));
        }
        Ok(left)
    }

    #[verifier::spinoff_prover]
    fn label_exp(&mut self) -> (r: Result<Ast, String>)
        requires
            old(self).wf(),
            !old(self).aborted,
        ensures
            final(self).wf(),
            final(self).tokens == old(self).tokens,
            final(self).pos() >= old(self).pos(),
            r is Ok ==> final(self).pos() > old(self).pos(),
            final(self).aborted == (spec_label_exp(old(self).toks(), old(self).pos()).1 == Err::<AstView, Fault>(Fault::Abort)),
            final(self).aborted ==> r is Err,
            !final(self).aborted ==> final(self).pos() == spec_label_exp(old(self).toks(), old(self).pos()).0,
            !final(self).aborted ==> ast_result(r) == render(spec_label_exp(old(self).toks(), old(self).pos()).1),
        decreases old(self).tokens@.len() - old(self).cursor, 34nat,
    {
        proof {
            reveal_with_fuel(spec_label_exp, 1);
        }
        let kinds: &[Kind] = &[Kind::Word, Kind::Operator];
        proof {
            assert(kinds@ =~= seq![Kind::Word, Kind::Operator]);
        }
        let ghost ts = self.toks();
        let ghost p = self.pos();
        if self.any_of(0, kinds) && self.is(1, Name::Label) {
            let t = match self.eats_of(kinds) {
                Ok(t) => t,
                Err(m) => {
                    return Err(m);
                },
            };
            let ghost p1 = self.pos();
            let label = t.meta.text.clone();
            proof {
                assert(spec_eats_of(ts, p, seq![Kind::Word, Kind::Operator]) == (p1, Ok::<TokenView, Fault>(t@)));
                assert(label@ == t@.text);
            }
            match self.eat(Name::Label) {
                Ok(_) => {},
                Err(m) => {
                    return Err(m);
                },
            }
            let ghost p2 = self.pos();
            let x = match self.label_exp() {
                Ok(x) => x,
                Err(m) => {
                    return Err(m);
                },
            };
            let word = Ast::Word(label);
            proof {
                assert(word@ == AstView::Word(t@.text));
            }
            let ast = Ast::Op2(Name::Label, Box::new(word), Box::new(x));
            proof {
                assert(spec_label_exp(ts, p2).1 == Ok::<AstView, Fault>(x@));
                assert(ast@ == AstView::Op2(Name::Label, Box::new(word@), Box::new(x@)));
                assert(spec_label_exp(ts, p) == (self.pos(), Ok::<AstView, Fault>(ast@)));
            }
            return Ok(ast);
        }
        self.sizer_exp()
    }

    #[verifier::spinoff_prover]
    fn unary_exp(&mut self) -> (r: Result<Ast, String>)
        requires
            old(self).wf(),
            !old(self).aborted,
        ensures
            final(self).wf(),
            final(self).tokens == old(self).tokens,
            final(self).pos() >= old(self).pos(),
            r is Ok ==> final(self).pos() > old(self).pos(),
            final(self).aborted == (spec_unary_exp(old(self).toks(), old(self).pos()).1 == Err::<AstView, Fault>(Fault::Abort)),
            final(self).aborted ==> r is Err,
            !final(self).aborted ==> final(self).pos() == spec_unary_exp(old(self).toks(), old(self).pos()).0,
            !final(self).aborted ==> ast_result(r) == render(spec_unary_exp(old(self).toks(), old(self).pos()).1),
        decreases old(self).tokens@.len() - old(self).cursor, 10nat,
    {
        proof {
            reveal_with_fuel(spec_unary_exp, 1);
        }
        if self.of(0, Kind::Operator) {
            let operator = match self.eat_of(Kind::Operator) {
                Ok(t) => t,
                Err(m) => {
                    return Err(m);
                },
            };
            let x = match self.unary_exp() {
                Ok(x) => x,
                Err(m) => {
                    return Err(m);
                },
            };
            Ok(Ast::Op1(operator.of.name, Box::new(x)))
        } else {
            self.select_exp()
        }
    }

    #[verifier::spinoff_prover]
    fn apply(&mut self) -> (r: Result<Ast, String>)
        requires
            old(self).wf(),
            !old(self).aborted,
        ensures
            final(self).wf(),
            final(self).tokens == old(self).tokens,
            final(self).pos() >= old(self).pos(),
            r is Ok ==> final(self).pos() > old(self).pos(),
            final(self).aborted == (spec_apply(old(self).toks(), old(self).pos()).1 == Err::<AstView, Fault>(Fault::Abort)),
            final(self).aborted ==> r is Err,
            !final(self).aborted ==> final(self).pos() == spec_apply(old(self).toks(), old(self).pos()).0,
            !final(self).aborted ==> ast_result(r) == render(spec_apply(old(self).toks(), old(self).pos()).1),
        decreases old(self).tokens@.len() - old(self).cursor, 6nat,
    {
        proof {
            reveal_with_fuel(spec_apply, 1);
        }
        let mut left = match self.primary() {
            Ok(x) => x,
            Err(m) => {
                return Err(m);
            },
        };
        let opens: &[Name] = &[Name::BracketLF, Name::ParenLF];
        proof {
            assert(opens@ =~= seq![Name::BracketLF, Name::ParenLF]);
        }
        if self.any(0, opens) {
            let m = match self.primary() {
                Ok(x) => x,
                Err(m) => {
                    return Err(m);
                },
            };
            left = Ast::Apply(Box::new(left), Box::new(m));
        }
        Ok(left)
    }

    #[verifier::spinoff_prover]
    fn primary(&mut self) -> (r: Result<Ast, String>)
        requires
            old(self).wf(),
            !old(self).aborted,
        ensures
            final(self).wf(),
            final(self).tokens == old(self).tokens,
            final(self).pos() >= old(self).pos(),
            r is Ok ==> final(self).pos() > old(self).pos(),
            final(self).aborted == (spec_primary(old(self).toks(), old(self).pos()).1 == Err::<AstView, Fault>(Fault::Abort)),
            final(self).aborted ==> r is Err,
            !final(self).aborted ==> final(self).pos() == spec_primary(old(self).toks(), old(self).pos()).0,
            !final(self).aborted ==> ast_result(r) == render(spec_primary(old(self).toks(), old(self).pos()).1),
        decreases old(self).tokens@.len() - old(self).cursor, 4nat,
    {
        proof {
            reveal_with_fuel(spec_primary, 1);
        }
        if self.is(0, Name::Word) {
            self.word()
        } else if self.of(0, Kind::Bracket) {
            self.graph_exp()
        } else if self.of(0, Kind::Paren) {
            self.paren_exp()
        } else if self.of(0, Kind::Squaren) {
            self.space_exp()
        } else {
            self.literal()
        }
    }

    #[verifier::spinoff_prover]
    fn graph_exp(&mut self) -> (r: Result<Ast, String>)
        requires
            old(self).wf(),
            !old(self).aborted,
        ensures
            final(self).wf(),
            final(self).tokens == old(self).tokens,
            final(self).pos() >= old(self).pos(),
            r is Ok ==> final(self).pos() > old(self).pos(),
            final(self).aborted == (spec_graph_exp(old(self).toks(), old(self).pos()).1 == Err::<AstView, Fault>(Fault::Abort)),
            final(self).aborted ==> r is Err,
            !final(self).aborted ==> final(self).pos() == spec_graph_exp(old(self).toks(), old(self).pos()).0,
            !final(self).aborted ==> ast_result(r) == render(spec_graph_exp(old(self).toks(), old(self).pos()).1),
        decreases old(self).tokens@.len() - old(self).cursor, 2nat,
    {
        proof {
            reveal_with_fuel(spec_graph_exp, 1);
        }
        match self.eat(Name::BracketLF) {
            Ok(_) => {},
            Err(m) => {
                return Err(m);
            },
        }
        let stops: &[Name] = &[Name::BracketRT];
        proof {
            assert(stops@ =~= seq![Name::BracketRT]);
        }
        let points = match self.points(stops) {
            Ok(x) => x,
            Err(m) => {
                return Err(m);
            },
        };
        match self.eat(Name::BracketRT) {
            Ok(_) => {},
            Err(m) => {
                return Err(m);
            },
        }
        Ok(Ast::Graph(points))
    }

    #[verifier::spinoff_prover]
    fn space_exp(&mut self) -> (r: Result<Ast, String>)
        requires
            old(self).wf(),
            !old(self).aborted,
        ensures
            final(self).wf(),
            final(self).tokens == old(self).tokens,
            final(self).pos() >= old(self).pos(),
            r is Ok ==> final(self).pos() > old(self).pos(),
            final(self).aborted == (spec_space_exp(old(self).toks(), old(self).pos()).1 == Err::<AstView, Fault>(Fault::Abort)),
            final(self).aborted ==> r is Err,
            !final(self).aborted ==> final(self).pos() == spec_space_exp(old(self).toks(), old(self).pos()).0,
            !final(self).aborted ==> ast_result(r) == render(spec_space_exp(old(self).toks(), old(self).pos()).1),
        decreases old(self).tokens@.len() - old(self).cursor, 2nat,
    {
        proof {
            reveal_with_fuel(spec_space_exp, 1);
        }
        match self.eat(Name::SquarenLF) {
            Ok(_) => {},
            Err(m) => {
                return Err(m);
            },
        }
        let stops: &[Name] = &[Name::SquarenRT];
        proof {
            assert(stops@ =~= seq![Name::SquarenRT]);
        }
        let points = match self.points(stops) {
            Ok(x) => x,
            Err(m) => {
                return Err(m);
            },
        };
        match self.eat(Name::SquarenRT) {
            Ok(_) => {},
            Err(m) => {
                return Err(m);
            },
        }
        Ok(Ast::Space(points))
    }

    #[verifier::spinoff_prover]
    fn paren_exp(&mut self) -> (r: Result<Ast, String>)
        requires
            old(self).wf(),
            !old(self).aborted,
        ensures
            final(self).wf(),
            final(self).tokens == old(self).tokens,
            final(self).pos() >= old(self).pos(),
            r is Ok ==> final(self).pos() > old(self).pos(),
            final(self).aborted == (spec_paren_exp(old(self).toks(), old(self).pos()).1 == Err::<AstView, Fault>(Fault::Abort)),
            final(self).aborted ==> r is Err,
            !final(self).aborted ==> final(self).pos() == spec_paren_exp(old(self).toks(), old(self).pos()).0,
            !final(self).aborted ==> ast_result(r) == render(spec_paren_exp(old(self).toks(), old(self).pos()).1),
        decreases old(self).tokens@.len() - old(self).cursor, 2nat,
    {
        proof {
            reveal_with_fuel(spec_paren_exp, 1);
        }
        match self.eat(Name::ParenLF) {
            Ok(_) => {},
            Err(m) => {
                return Err(m);
            },
        }
        let exp = self.or_exp();
        match self.eat(Name::ParenRT) {
            Ok(_) => {},
            Err(m) => {
                return Err(m);
            },
        }
        exp
    }
}

/// Parses a token stream into a graph of points. It panics only where
/// the grammar reaches a number token that is neither an integer nor a
/// decimal, or a `*` or `/` that is not an operator token; `requires`
/// leaves those streams out.
#[verifier::spinoff_prover]
pub fn parser(tokens: &Vec<Token>) -> (r: Result<Ast, String>)
    requires
        spec_parser(tokens_view(tokens@)) != Err::<AstView, Fault>(Fault::Abort),
    ensures
        ast_result(r) == render(spec_parser(tokens_view(tokens@))),
{
    proof {
        assert(tokens@.len() == tokens.len());
    }
    let mut cursor = Tokens { cursor: 0, tokens, aborted: false };
    cursor.program()
}

/// Parses a token stream as `parser` does, or gives `None` where `parser`
/// panics: where the grammar reaches a number token that is neither an
/// integer nor a decimal, or a `*` or `/` that is not an operator token.
#[verifier::spinoff_prover]
pub fn checked_parser(tokens: &Vec<Token>) -> (r: Option<Result<Ast, String>>)
    ensures
        r is None <==> spec_parser(tokens_view(tokens@)) == Err::<AstView, Fault>(Fault::Abort),
        r matches Some(x) ==> ast_result(x) == render(spec_parser(tokens_view(tokens@))),
{
    proof {
        assert(tokens@.len() == tokens.len());
    }
    let mut cursor = Tokens { cursor: 0, tokens, aborted: false };
    let r = cursor.program();
    if cursor.aborted {
        None
    } else {
        Some(r)
    }
}

// ---------------------------------------------------------------------
// Laws of the binary operator levels


/// A number or string token reads as the literal of its own text: an
/// integer token as `Integer`, a decimal token as `Decimal`, a string token
/// as `String`, taking that one token.
pub proof fn lemma_literal_token(ts: Seq<TokenView>, p: nat)
    requires
        p < ts.len(),
    ensures
        ts[p as int].kind == Kind::Number && ts[p as int].name == Name::Integer ==> spec_literal(ts, p) == (
            p + 1,
            Ok::<AstView, Fault>(AstView::Integer(ts[p as int].text)),
        ),
        ts[p as int].kind == Kind::Number && ts[p as int].name == Name::Decimal ==> spec_literal(ts, p) == (
            p + 1,
            Ok::<AstView, Fault>(AstView::Decimal(ts[p as int].text)),
        ),
        ts[p as int].kind == Kind::String ==> spec_literal(ts, p) == (
            p + 1,
            Ok::<AstView, Fault>(AstView::String(ts[p as int].text)),
        ),
{
}

/// An operator token before what the unary level reads, `x`,
/// parses to `Op1(op, x)`, `op` the name of that token.
#[verifier::spinoff_prover]
pub proof fn lemma_unary_prefix(ts: Seq<TokenView>, p: nat, q: nat, x: AstView)
    requires
        p < ts.len(),
        ts[p as int].kind == Kind::Operator,
        spec_unary_exp(ts, p + 1) == (q, Ok::<AstView, Fault>(x)),
        p + 1 <= q,
    ensures
        spec_unary_exp(ts, p) == (q, Ok::<AstView, Fault>(AstView::Op1(ts[p as int].name, Box::new(x)))),
{
    reveal_with_fuel(spec_unary_exp, 1);

}
/// At the `pattern_exp` level, `x op y` with `op` `Pattern` (an operator
/// token, read where the level looks for one) parses to `Op2(op, x, y)`:
/// the name of the operator token read, and the operands in source order,
/// `x` and `y` being what the next level reads before and after it.
#[verifier::spinoff_prover]
pub proof fn lemma_pattern_exp_binary(ts: Seq<TokenView>, p: nat, p1: nat, p2: nat, x: AstView, y: AstView)
    requires
        spec_label_exp(ts, p) == (p1, Ok::<AstView, Fault>(x)),
        p <= p1,
        tok_is(ts, p1, 0, Name::Pattern),
        spec_label_exp(ts, p1 + 1) == (p2, Ok::<AstView, Fault>(y)),
        p1 + 1 <= p2,
        !(tok_is(ts, p2, 0, Name::Pattern)),
    ensures
        spec_pattern_exp(ts, p) == (p2, Ok::<AstView, Fault>(AstView::Op2(ts[p1 as int].name, Box::new(x), Box::new(y)))),
{
    reveal_with_fuel(spec_pattern_exp, 1);
    reveal_with_fuel(spec_pattern_tail, 1);
    let o = AstView::Op2(ts[p1 as int].name, Box::new(x), Box::new(y));
    assert(spec_pattern_tail(ts, p2, o) == (p2, Ok::<AstView, Fault>(o)));
    assert(spec_pattern_tail(ts, p1, x) == spec_pattern_tail(ts, p2, o));
}

/// At the `pattern_exp` level, `x op1 y op2 z` groups to the left:
/// `Op2(op2, Op2(op1, x, y), z)`.
#[verifier::spinoff_prover]
pub proof fn lemma_pattern_exp_chain(
    ts: Seq<TokenView>,
    p: nat,
    p1: nat,
    p2: nat,
    p3: nat,
    x: AstView,
    y: AstView,
    z: AstView,
)
    requires
        spec_label_exp(ts, p) == (p1, Ok::<AstView, Fault>(x)),
        p <= p1,
        tok_is(ts, p1, 0, Name::Pattern),
        spec_label_exp(ts, p1 + 1) == (p2, Ok::<AstView, Fault>(y)),
        p1 + 1 <= p2,
        tok_is(ts, p2, 0, Name::Pattern),
        spec_label_exp(ts, p2 + 1) == (p3, Ok::<AstView, Fault>(z)),
        p2 + 1 <= p3,
        !(tok_is(ts, p3, 0, Name::Pattern)),
    ensures
        spec_pattern_exp(ts, p) == (p3, Ok::<AstView, Fault>(AstView::Op2(
            ts[p2 as int].name,
            Box::new(AstView::Op2(ts[p1 as int].name, Box::new(x), Box::new(y))),
            Box::new(z),
        ))),
{
    reveal_with_fuel(spec_pattern_exp, 1);
    reveal_with_fuel(spec_pattern_tail, 1);
    let o1 = AstView::Op2(ts[p1 as int].name, Box::new(x), Box::new(y));
    let o2 = AstView::Op2(ts[p2 as int].name, Box::new(o1), Box::new(z));
    assert(spec_pattern_tail(ts, p3, o2) == (p3, Ok::<AstView, Fault>(o2)));
    assert(spec_pattern_tail(ts, p2, o1) == spec_pattern_tail(ts, p3, o2));
    assert(spec_pattern_tail(ts, p1, x) == spec_pattern_tail(ts, p2, o1));
}

/// At the `sizer_exp` level, `x op y` with `op` `Sizer` (an operator
/// token, read where the level looks for one) parses to `Op2(op, x, y)`:
/// the name of the operator token read, and the operands in source order,
/// `x` and `y` being what the next level reads before and after it.
#[verifier::spinoff_prover]
pub proof fn lemma_sizer_exp_binary(ts: Seq<TokenView>, p: nat, p1: nat, p2: nat, x: AstView, y: AstView)
    requires
        spec_signal_exp(ts, p) == (p1, Ok::<AstView, Fault>(x)),
        p <= p1,
        tok_is(ts, p1, 0, Name::Sizer),
        spec_signal_exp(ts, p1 + 1) == (p2, Ok::<AstView, Fault>(y)),
        p1 + 1 <= p2,
        !(tok_is(ts, p2, 0, Name::Sizer)),
    ensures
        spec_sizer_exp(ts, p) == (p2, Ok::<AstView, Fault>(AstView::Op2(ts[p1 as int].name, Box::new(x), Box::new(y)))),
{
    reveal_with_fuel(spec_sizer_exp, 1);
    reveal_with_fuel(spec_sizer_tail, 1);
    let o = AstView::Op2(ts[p1 as int].name, Box::new(x), Box::new(y));
    assert(spec_sizer_tail(ts, p2, o) == (p2, Ok::<AstView, Fault>(o)));
    assert(spec_sizer_tail(ts, p1, x) == spec_sizer_tail(ts, p2, o));
}

/// At the `sizer_exp` level, `x op1 y op2 z` groups to the left:
/// `Op2(op2, Op2(op1, x, y), z)`.
#[verifier::spinoff_prover]
pub proof fn lemma_sizer_exp_chain(
    ts: Seq<TokenView>,
    p: nat,
    p1: nat,
    p2: nat,
    p3: nat,
    x: AstView,
    y: AstView,
    z: AstView,
)
    requires
        spec_signal_exp(ts, p) == (p1, Ok::<AstView, Fault>(x)),
        p <= p1,
        tok_is(ts, p1, 0, Name::Sizer),
        spec_signal_exp(ts, p1 + 1) == (p2, Ok::<AstView, Fault>(y)),
        p1 + 1 <= p2,
        tok_is(ts, p2, 0, Name::Sizer),
        spec_signal_exp(ts, p2 + 1) == (p3, Ok::<AstView, Fault>(z)),
        p2 + 1 <= p3,
        !(tok_is(ts, p3, 0, Name::Sizer)),
    ensures
        spec_sizer_exp(ts, p) == (p3, Ok::<AstView, Fault>(AstView::Op2(
            ts[p2 as int].name,
            Box::new(AstView::Op2(ts[p1 as int].name, Box::new(x), Box::new(y))),
            Box::new(z),
        ))),
{
    reveal_with_fuel(spec_sizer_exp, 1);
    reveal_with_fuel(spec_sizer_tail, 1);
    let o1 = AstView::Op2(ts[p1 as int].name, Box::new(x), Box::new(y));
    let o2 = AstView::Op2(ts[p2 as int].name, Box::new(o1), Box::new(z));
    assert(spec_sizer_tail(ts, p3, o2) == (p3, Ok::<AstView, Fault>(o2)));
    assert(spec_sizer_tail(ts, p2, o1) == spec_sizer_tail(ts, p3, o2));
    assert(spec_sizer_tail(ts, p1, x) == spec_sizer_tail(ts, p2, o1));
}

/// At the `signal_exp` level, `x op y` with `op` `Signal` (an operator
/// token, read where the level looks for one) parses to `Op2(op, x, y)`:
/// the name of the operator token read, and the operands in source order,
/// `x` and `y` being what the next level reads before and after it.
#[verifier::spinoff_prover]
pub proof fn lemma_signal_exp_binary(ts: Seq<TokenView>, p: nat, p1: nat, p2: nat, x: AstView, y: AstView)
    requires
        spec_join_exp(ts, p) == (p1, Ok::<AstView, Fault>(x)),
        p <= p1,
        tok_is(ts, p1, 0, Name::Signal),
        spec_join_exp(ts, p1 + 1) == (p2, Ok::<AstView, Fault>(y)),
        p1 + 1 <= p2,
        !(tok_is(ts, p2, 0, Name::Signal)),
    ensures
        spec_signal_exp(ts, p) == (p2, Ok::<AstView, Fault>(AstView::Op2(ts[p1 as int].name, Box::new(x), Box::new(y)))),
{
    reveal_with_fuel(spec_signal_exp, 1);
    reveal_with_fuel(spec_signal_tail, 1);
    let o = AstView::Op2(ts[p1 as int].name, Box::new(x), Box::new(y));
    assert(spec_signal_tail(ts, p2, o) == (p2, Ok::<AstView, Fault>(o)));
    assert(spec_signal_tail(ts, p1, x) == spec_signal_tail(ts, p2, o));
}

/// At the `signal_exp` level, `x op1 y op2 z` groups to the left:
/// `Op2(op2, Op2(op1, x, y), z)`.
#[verifier::spinoff_prover]
pub proof fn lemma_signal_exp_chain(
    ts: Seq<TokenView>,
    p: nat,
    p1: nat,
    p2: nat,
    p3: nat,
    x: AstView,
    y: AstView,
    z: AstView,
)
    requires
        spec_join_exp(ts, p) == (p1, Ok::<AstView, Fault>(x)),
        p <= p1,
        tok_is(ts, p1, 0, Name::Signal),
        spec_join_exp(ts, p1 + 1) == (p2, Ok::<AstView, Fault>(y)),
        p1 + 1 <= p2,
        tok_is(ts, p2, 0, Name::Signal),
        spec_join_exp(ts, p2 + 1) == (p3, Ok::<AstView, Fault>(z)),
        p2 + 1 <= p3,
        !(tok_is(ts, p3, 0, Name::Signal)),
    ensures
        spec_signal_exp(ts, p) == (p3, Ok::<AstView, Fault>(AstView::Op2(
            ts[p2 as int].name,
            Box::new(AstView::Op2(ts[p1 as int].name, Box::new(x), Box::new(y))),
            Box::new(z),
        ))),
{
    reveal_with_fuel(spec_signal_exp, 1);
    reveal_with_fuel(spec_signal_tail, 1);
    let o1 = AstView::Op2(ts[p1 as int].name, Box::new(x), Box::new(y));
    let o2 = AstView::Op2(ts[p2 as int].name, Box::new(o1), Box::new(z));
    assert(spec_signal_tail(ts, p3, o2) == (p3, Ok::<AstView, Fault>(o2)));
    assert(spec_signal_tail(ts, p2, o1) == spec_signal_tail(ts, p3, o2));
    assert(spec_signal_tail(ts, p1, x) == spec_signal_tail(ts, p2, o1));
}

/// At the `join_exp` level, `x op y` with `op` `Bleed` (an operator
/// token, read where the level looks for one) parses to `Op2(op, x, y)`:
/// the name of the operator token read, and the operands in source order,
/// `x` and `y` being what the next level reads before and after it.
#[verifier::spinoff_prover]
pub proof fn lemma_join_exp_binary(ts: Seq<TokenView>, p: nat, p1: nat, p2: nat, x: AstView, y: AstView)
    requires
        spec_shape_exp(ts, p) == (p1, Ok::<AstView, Fault>(x)),
        p <= p1,
        tok_is(ts, p1, 0, Name::Bleed) && !tok_is(ts, p1, 1, Name::Label),
        spec_shape_exp(ts, p1 + 1) == (p2, Ok::<AstView, Fault>(y)),
        p1 + 1 <= p2,
        !(tok_is(ts, p2, 0, Name::Bleed) && !tok_is(ts, p2, 1, Name::Label)),
    ensures
        spec_join_exp(ts, p) == (p2, Ok::<AstView, Fault>(AstView::Op2(ts[p1 as int].name, Box::new(x), Box::new(y)))),
{
    reveal_with_fuel(spec_join_exp, 1);
    reveal_with_fuel(spec_join_tail, 1);
    let o = AstView::Op2(ts[p1 as int].name, Box::new(x), Box::new(y));
    assert(spec_join_tail(ts, p2, o) == (p2, Ok::<AstView, Fault>(o)));
    assert(spec_join_tail(ts, p1, x) == spec_join_tail(ts, p2, o));
}

/// At the `join_exp` level, `x op1 y op2 z` groups to the left:
/// `Op2(op2, Op2(op1, x, y), z)`.
#[verifier::spinoff_prover]
pub proof fn lemma_join_exp_chain(
    ts: Seq<TokenView>,
    p: nat,
    p1: nat,
    p2: nat,
    p3: nat,
    x: AstView,
    y: AstView,
    z: AstView,
)
    requires
        spec_shape_exp(ts, p) == (p1, Ok::<AstView, Fault>(x)),
        p <= p1,
        tok_is(ts, p1, 0, Name::Bleed) && !tok_is(ts, p1, 1, Name::Label),
        spec_shape_exp(ts, p1 + 1) == (p2, Ok::<AstView, Fault>(y)),
        p1 + 1 <= p2,
        tok_is(ts, p2, 0, Name::Bleed) && !tok_is(ts, p2, 1, Name::Label),
        spec_shape_exp(ts, p2 + 1) == (p3, Ok::<AstView, Fault>(z)),
        p2 + 1 <= p3,
        !(tok_is(ts, p3, 0, Name::Bleed) && !tok_is(ts, p3, 1, Name::Label)),
    ensures
        spec_join_exp(ts, p) == (p3, Ok::<AstView, Fault>(AstView::Op2(
            ts[p2 as int].name,
            Box::new(AstView::Op2(ts[p1 as int].name, Box::new(x), Box::new(y))),
            Box::new(z),
        ))),
{
    reveal_with_fuel(spec_join_exp, 1);
    reveal_with_fuel(spec_join_tail, 1);
    let o1 = AstView::Op2(ts[p1 as int].name, Box::new(x), Box::new(y));
    let o2 = AstView::Op2(ts[p2 as int].name, Box::new(o1), Box::new(z));
    assert(spec_join_tail(ts, p3, o2) == (p3, Ok::<AstView, Fault>(o2)));
    assert(spec_join_tail(ts, p2, o1) == spec_join_tail(ts, p3, o2));
    assert(spec_join_tail(ts, p1, x) == spec_join_tail(ts, p2, o1));
}

/// At the `shape_exp` level, `x op y` with `op` `Shape` (an operator
/// token, read where the level looks for one) parses to `Op2(op, x, y)`:
/// the name of the operator token read, and the operands in source order,
/// `x` and `y` being what the next level reads before and after it.
#[verifier::spinoff_prover]
pub proof fn lemma_shape_exp_binary(ts: Seq<TokenView>, p: nat, p1: nat, p2: nat, x: AstView, y: AstView)
    requires
        spec_or_exp(ts, p) == (p1, Ok::<AstView, Fault>(x)),
        p <= p1,
        tok_is(ts, p1, 0, Name::Shape) && !tok_is(ts, p1, 1, Name::Label),
        spec_or_exp(ts, p1 + 1) == (p2, Ok::<AstView, Fault>(y)),
        p1 + 1 <= p2,
        !(tok_is(ts, p2, 0, Name::Shape) && !tok_is(ts, p2, 1, Name::Label)),
    ensures
        spec_shape_exp(ts, p) == (p2, Ok::<AstView, Fault>(AstView::Op2(ts[p1 as int].name, Box::new(x), Box::new(y)))),
{
    reveal_with_fuel(spec_shape_exp, 1);
    reveal_with_fuel(spec_shape_tail, 1);
    let o = AstView::Op2(ts[p1 as int].name, Box::new(x), Box::new(y));
    assert(spec_shape_tail(ts, p2, o) == (p2, Ok::<AstView, Fault>(o)));
    assert(spec_shape_tail(ts, p1, x) == spec_shape_tail(ts, p2, o));
}

/// At the `shape_exp` level, `x op1 y op2 z` groups to the left:
/// `Op2(op2, Op2(op1, x, y), z)`.
#[verifier::spinoff_prover]
pub proof fn lemma_shape_exp_chain(
    ts: Seq<TokenView>,
    p: nat,
    p1: nat,
    p2: nat,
    p3: nat,
    x: AstView,
    y: AstView,
    z: AstView,
)
    requires
        spec_or_exp(ts, p) == (p1, Ok::<AstView, Fault>(x)),
        p <= p1,
        tok_is(ts, p1, 0, Name::Shape) && !tok_is(ts, p1, 1, Name::Label),
        spec_or_exp(ts, p1 + 1) == (p2, Ok::<AstView, Fault>(y)),
        p1 + 1 <= p2,
        tok_is(ts, p2, 0, Name::Shape) && !tok_is(ts, p2, 1, Name::Label),
        spec_or_exp(ts, p2 + 1) == (p3, Ok::<AstView, Fault>(z)),
        p2 + 1 <= p3,
        !(tok_is(ts, p3, 0, Name::Shape) && !tok_is(ts, p3, 1, Name::Label)),
    ensures
        spec_shape_exp(ts, p) == (p3, Ok::<AstView, Fault>(AstView::Op2(
            ts[p2 as int].name,
            Box::new(AstView::Op2(ts[p1 as int].name, Box::new(x), Box::new(y))),
            Box::new(z),
        ))),
{
    reveal_with_fuel(spec_shape_exp, 1);
    reveal_with_fuel(spec_shape_tail, 1);
    let o1 = AstView::Op2(ts[p1 as int].name, Box::new(x), Box::new(y));
    let o2 = AstView::Op2(ts[p2 as int].name, Box::new(o1), Box::new(z));
    assert(spec_shape_tail(ts, p3, o2) == (p3, Ok::<AstView, Fault>(o2)));
    assert(spec_shape_tail(ts, p2, o1) == spec_shape_tail(ts, p3, o2));
    assert(spec_shape_tail(ts, p1, x) == spec_shape_tail(ts, p2, o1));
}

/// At the `or_exp` level, `x op y` with `op` `Or` (an operator
/// token, read where the level looks for one) parses to `Op2(op, x, y)`:
/// the name of the operator token read, and the operands in source order,
/// `x` and `y` being what the next level reads before and after it.
#[verifier::spinoff_prover]
pub proof fn lemma_or_exp_binary(ts: Seq<TokenView>, p: nat, p1: nat, p2: nat, x: AstView, y: AstView)
    requires
        spec_and_exp(ts, p) == (p1, Ok::<AstView, Fault>(x)),
        p <= p1,
        tok_is(ts, p1, 0, Name::Or) && !tok_is(ts, p1, 1, Name::Label),
        spec_and_exp(ts, p1 + 1) == (p2, Ok::<AstView, Fault>(y)),
        p1 + 1 <= p2,
        !(tok_is(ts, p2, 0, Name::Or) && !tok_is(ts, p2, 1, Name::Label)),
    ensures
        spec_or_exp(ts, p) == (p2, Ok::<AstView, Fault>(AstView::Op2(ts[p1 as int].name, Box::new(x), Box::new(y)))),
{
    reveal_with_fuel(spec_or_exp, 1);
    reveal_with_fuel(spec_or_tail, 1);
    let o = AstView::Op2(ts[p1 as int].name, Box::new(x), Box::new(y));
    assert(spec_or_tail(ts, p2, o) == (p2, Ok::<AstView, Fault>(o)));
    assert(spec_or_tail(ts, p1, x) == spec_or_tail(ts, p2, o));
}

/// At the `or_exp` level, `x op1 y op2 z` groups to the left:
/// `Op2(op2, Op2(op1, x, y), z)`.
#[verifier::spinoff_prover]
pub proof fn lemma_or_exp_chain(
    ts: Seq<TokenView>,
    p: nat,
    p1: nat,
    p2: nat,
    p3: nat,
    x: AstView,
    y: AstView,
    z: AstView,
)
    requires
        spec_and_exp(ts, p) == (p1, Ok::<AstView, Fault>(x)),
        p <= p1,
        tok_is(ts, p1, 0, Name::Or) && !tok_is(ts, p1, 1, Name::Label),
        spec_and_exp(ts, p1 + 1) == (p2, Ok::<AstView, Fault>(y)),
        p1 + 1 <= p2,
        tok_is(ts, p2, 0, Name::Or) && !tok_is(ts, p2, 1, Name::Label),
        spec_and_exp(ts, p2 + 1) == (p3, Ok::<AstView, Fault>(z)),
        p2 + 1 <= p3,
        !(tok_is(ts, p3, 0, Name::Or) && !tok_is(ts, p3, 1, Name::Label)),
    ensures
        spec_or_exp(ts, p) == (p3, Ok::<AstView, Fault>(AstView::Op2(
            ts[p2 as int].name,
            Box::new(AstView::Op2(ts[p1 as int].name, Box::new(x), Box::new(y))),
            Box::new(z),
        ))),
{
    reveal_with_fuel(spec_or_exp, 1);
    reveal_with_fuel(spec_or_tail, 1);
    let o1 = AstView::Op2(ts[p1 as int].name, Box::new(x), Box::new(y));
    let o2 = AstView::Op2(ts[p2 as int].name, Box::new(o1), Box::new(z));
    assert(spec_or_tail(ts, p3, o2) == (p3, Ok::<AstView, Fault>(o2)));
    assert(spec_or_tail(ts, p2, o1) == spec_or_tail(ts, p3, o2));
    assert(spec_or_tail(ts, p1, x) == spec_or_tail(ts, p2, o1));
}

/// At the `and_exp` level, `x op y` with `op` `And` (an operator
/// token, read where the level looks for one) parses to `Op2(op, x, y)`:
/// the name of the operator token read, and the operands in source order,
/// `x` and `y` being what the next level reads before and after it.
#[verifier::spinoff_prover]
pub proof fn lemma_and_exp_binary(ts: Seq<TokenView>, p: nat, p1: nat, p2: nat, x: AstView, y: AstView)
    requires
        spec_equality_exp(ts, p) == (p1, Ok::<AstView, Fault>(x)),
        p <= p1,
        tok_is(ts, p1, 0, Name::And) && !tok_is(ts, p1, 1, Name::Label),
        spec_equality_exp(ts, p1 + 1) == (p2, Ok::<AstView, Fault>(y)),
        p1 + 1 <= p2,
        !(tok_is(ts, p2, 0, Name::And) && !tok_is(ts, p2, 1, Name::Label)),
    ensures
        spec_and_exp(ts, p) == (p2, Ok::<AstView, Fault>(AstView::Op2(ts[p1 as int].name, Box::new(x), Box::new(y)))),
{
    reveal_with_fuel(spec_and_exp, 1);
    reveal_with_fuel(spec_and_tail, 1);
    let o = AstView::Op2(ts[p1 as int].name, Box::new(x), Box::new(y));
    assert(spec_and_tail(ts, p2, o) == (p2, Ok::<AstView, Fault>(o)));
    assert(spec_and_tail(ts, p1, x) == spec_and_tail(ts, p2, o));
}

/// At the `and_exp` level, `x op1 y op2 z` groups to the left:
/// `Op2(op2, Op2(op1, x, y), z)`.
#[verifier::spinoff_prover]
pub proof fn lemma_and_exp_chain(
    ts: Seq<TokenView>,
    p: nat,
    p1: nat,
    p2: nat,
    p3: nat,
    x: AstView,
    y: AstView,
    z: AstView,
)
    requires
        spec_equality_exp(ts, p) == (p1, Ok::<AstView, Fault>(x)),
        p <= p1,
        tok_is(ts, p1, 0, Name::And) && !tok_is(ts, p1, 1, Name::Label),
        spec_equality_exp(ts, p1 + 1) == (p2, Ok::<AstView, Fault>(y)),
        p1 + 1 <= p2,
        tok_is(ts, p2, 0, Name::And) && !tok_is(ts, p2, 1, Name::Label),
        spec_equality_exp(ts, p2 + 1) == (p3, Ok::<AstView, Fault>(z)),
        p2 + 1 <= p3,
        !(tok_is(ts, p3, 0, Name::And) && !tok_is(ts, p3, 1, Name::Label)),
    ensures
        spec_and_exp(ts, p) == (p3, Ok::<AstView, Fault>(AstView::Op2(
            ts[p2 as int].name,
            Box::new(AstView::Op2(ts[p1 as int].name, Box::new(x), Box::new(y))),
            Box::new(z),
        ))),
{
    reveal_with_fuel(spec_and_exp, 1);
    reveal_with_fuel(spec_and_tail, 1);
    let o1 = AstView::Op2(ts[p1 as int].name, Box::new(x), Box::new(y));
    let o2 = AstView::Op2(ts[p2 as int].name, Box::new(o1), Box::new(z));
    assert(spec_and_tail(ts, p3, o2) == (p3, Ok::<AstView, Fault>(o2)));
    assert(spec_and_tail(ts, p2, o1) == spec_and_tail(ts, p3, o2));
    assert(spec_and_tail(ts, p1, x) == spec_and_tail(ts, p2, o1));
}

/// At the `equality_exp` level, `x op y` with `op` one of `Eq`, `Ne` (an operator
/// token, read where the level looks for one) parses to `Op2(op, x, y)`:
/// the name of the operator token read, and the operands in source order,
/// `x` and `y` being what the next level reads before and after it.
#[verifier::spinoff_prover]
pub proof fn lemma_equality_exp_binary(ts: Seq<TokenView>, p: nat, p1: nat, p2: nat, x: AstView, y: AstView)
    requires
        spec_relation_exp(ts, p) == (p1, Ok::<AstView, Fault>(x)),
        p <= p1,
        tok_any(ts, p1, 0, seq![Name::Eq, Name::Ne]) && !tok_is(ts, p1, 1, Name::Label),
        ts[p1 as int].kind == Kind::Operator,
        spec_relation_exp(ts, p1 + 1) == (p2, Ok::<AstView, Fault>(y)),
        p1 + 1 <= p2,
        !(tok_any(ts, p2, 0, seq![Name::Eq, Name::Ne]) && !tok_is(ts, p2, 1, Name::Label)),
    ensures
        spec_equality_exp(ts, p) == (p2, Ok::<AstView, Fault>(AstView::Op2(ts[p1 as int].name, Box::new(x), Box::new(y)))),
{
    reveal_with_fuel(spec_equality_exp, 1);
    reveal_with_fuel(spec_equality_tail, 1);
    let o = AstView::Op2(ts[p1 as int].name, Box::new(x), Box::new(y));
    assert(spec_equality_tail(ts, p2, o) == (p2, Ok::<AstView, Fault>(o)));
    assert(spec_equality_tail(ts, p1, x) == spec_equality_tail(ts, p2, o));
}

/// At the `equality_exp` level, `x op1 y op2 z` groups to the left:
/// `Op2(op2, Op2(op1, x, y), z)`.
#[verifier::spinoff_prover]
pub proof fn lemma_equality_exp_chain(
    ts: Seq<TokenView>,
    p: nat,
    p1: nat,
    p2: nat,
    p3: nat,
    x: AstView,
    y: AstView,
    z: AstView,
)
    requires
        spec_relation_exp(ts, p) == (p1, Ok::<AstView, Fault>(x)),
        p <= p1,
        tok_any(ts, p1, 0, seq![Name::Eq, Name::Ne]) && !tok_is(ts, p1, 1, Name::Label),
        ts[p1 as int].kind == Kind::Operator,
        spec_relation_exp(ts, p1 + 1) == (p2, Ok::<AstView, Fault>(y)),
        p1 + 1 <= p2,
        tok_any(ts, p2, 0, seq![Name::Eq, Name::Ne]) && !tok_is(ts, p2, 1, Name::Label),
        ts[p2 as int].kind == Kind::Operator,
        spec_relation_exp(ts, p2 + 1) == (p3, Ok::<AstView, Fault>(z)),
        p2 + 1 <= p3,
        !(tok_any(ts, p3, 0, seq![Name::Eq, Name::Ne]) && !tok_is(ts, p3, 1, Name::Label)),
    ensures
        spec_equality_exp(ts, p) == (p3, Ok::<AstView, Fault>(AstView::Op2(
            ts[p2 as int].name,
            Box::new(AstView::Op2(ts[p1 as int].name, Box::new(x), Box::new(y))),
            Box::new(z),
        ))),
{
    reveal_with_fuel(spec_equality_exp, 1);
    reveal_with_fuel(spec_equality_tail, 1);
    let o1 = AstView::Op2(ts[p1 as int].name, Box::new(x), Box::new(y));
    let o2 = AstView::Op2(ts[p2 as int].name, Box::new(o1), Box::new(z));
    assert(spec_equality_tail(ts, p3, o2) == (p3, Ok::<AstView, Fault>(o2)));
    assert(spec_equality_tail(ts, p2, o1) == spec_equality_tail(ts, p3, o2));
    assert(spec_equality_tail(ts, p1, x) == spec_equality_tail(ts, p2, o1));
}

/// At the `relation_exp` level, `x op y` with `op` one of `Gt`, `Ge`, `Lt`, `Le` (an operator
/// token, read where the level looks for one) parses to `Op2(op, x, y)`:
/// the name of the operator token read, and the operands in source order,
/// `x` and `y` being what the next level reads before and after it.
#[verifier::spinoff_prover]
pub proof fn lemma_relation_exp_binary(ts: Seq<TokenView>, p: nat, p1: nat, p2: nat, x: AstView, y: AstView)
    requires
        spec_additive_exp(ts, p) == (p1, Ok::<AstView, Fault>(x)),
        p <= p1,
        tok_any(ts, p1, 0, seq![Name::Gt, Name::Ge, Name::Lt, Name::Le]) && !tok_is(ts, p1, 1, Name::Label),
        ts[p1 as int].kind == Kind::Operator,
        spec_additive_exp(ts, p1 + 1) == (p2, Ok::<AstView, Fault>(y)),
        p1 + 1 <= p2,
        !(tok_any(ts, p2, 0, seq![Name::Gt, Name::Ge, Name::Lt, Name::Le]) && !tok_is(ts, p2, 1, Name::Label)),
    ensures
        spec_relation_exp(ts, p) == (p2, Ok::<AstView, Fault>(AstView::Op2(ts[p1 as int].name, Box::new(x), Box::new(y)))),
{
    reveal_with_fuel(spec_relation_exp, 1);
    reveal_with_fuel(spec_relation_tail, 1);
    let o = AstView::Op2(ts[p1 as int].name, Box::new(x), Box::new(y));
    assert(spec_relation_tail(ts, p2, o) == (p2, Ok::<AstView, Fault>(o)));
    assert(spec_relation_tail(ts, p1, x) == spec_relation_tail(ts, p2, o));
}

/// At the `relation_exp` level, `x op1 y op2 z` groups to the left:
/// `Op2(op2, Op2(op1, x, y), z)`.
#[verifier::spinoff_prover]
pub proof fn lemma_relation_exp_chain(
    ts: Seq<TokenView>,
    p: nat,
    p1: nat,
    p2: nat,
    p3: nat,
    x: AstView,
    y: AstView,
    z: AstView,
)
    requires
        spec_additive_exp(ts, p) == (p1, Ok::<AstView, Fault>(x)),
        p <= p1,
        tok_any(ts, p1, 0, seq![Name::Gt, Name::Ge, Name::Lt, Name::Le]) && !tok_is(ts, p1, 1, Name::Label),
        ts[p1 as int].kind == Kind::Operator,
        spec_additive_exp(ts, p1 + 1) == (p2, Ok::<AstView, Fault>(y)),
        p1 + 1 <= p2,
        tok_any(ts, p2, 0, seq![Name::Gt, Name::Ge, Name::Lt, Name::Le]) && !tok_is(ts, p2, 1, Name::Label),
        ts[p2 as int].kind == Kind::Operator,
        spec_additive_exp(ts, p2 + 1) == (p3, Ok::<AstView, Fault>(z)),
        p2 + 1 <= p3,
        !(tok_any(ts, p3, 0, seq![Name::Gt, Name::Ge, Name::Lt, Name::Le]) && !tok_is(ts, p3, 1, Name::Label)),
    ensures
        spec_relation_exp(ts, p) == (p3, Ok::<AstView, Fault>(AstView::Op2(
            ts[p2 as int].name,
            Box::new(AstView::Op2(ts[p1 as int].name, Box::new(x), Box::new(y))),
            Box::new(z),
        ))),
{
    reveal_with_fuel(spec_relation_exp, 1);
    reveal_with_fuel(spec_relation_tail, 1);
    let o1 = AstView::Op2(ts[p1 as int].name, Box::new(x), Box::new(y));
    let o2 = AstView::Op2(ts[p2 as int].name, Box::new(o1), Box::new(z));
    assert(spec_relation_tail(ts, p3, o2) == (p3, Ok::<AstView, Fault>(o2)));
    assert(spec_relation_tail(ts, p2, o1) == spec_relation_tail(ts, p3, o2));
    assert(spec_relation_tail(ts, p1, x) == spec_relation_tail(ts, p2, o1));
}

/// At the `additive_exp` level, `x op y` with `op` one of `Add`, `Sub` (an operator
/// token, read where the level looks for one) parses to `Op2(op, x, y)`:
/// the name of the operator token read, and the operands in source order,
/// `x` and `y` being what the next level reads before and after it.
#[verifier::spinoff_prover]
pub proof fn lemma_additive_exp_binary(ts: Seq<TokenView>, p: nat, p1: nat, p2: nat, x: AstView, y: AstView)
    requires
        spec_multiplicative_exp(ts, p) == (p1, Ok::<AstView, Fault>(x)),
        p <= p1,
        tok_any(ts, p1, 0, seq![Name::Add, Name::Sub]) && !tok_is(ts, p1, 1, Name::Label),
        ts[p1 as int].kind == Kind::Operator,
        spec_multiplicative_exp(ts, p1 + 1) == (p2, Ok::<AstView, Fault>(y)),
        p1 + 1 <= p2,
        !(tok_any(ts, p2, 0, seq![Name::Add, Name::Sub]) && !tok_is(ts, p2, 1, Name::Label)),
    ensures
        spec_additive_exp(ts, p) == (p2, Ok::<AstView, Fault>(AstView::Op2(ts[p1 as int].name, Box::new(x), Box::new(y)))),
{
    reveal_with_fuel(spec_additive_exp, 1);
    reveal_with_fuel(spec_additive_tail, 1);
    let o = AstView::Op2(ts[p1 as int].name, Box::new(x), Box::new(y));
    assert(spec_additive_tail(ts, p2, o) == (p2, Ok::<AstView, Fault>(o)));
    assert(spec_additive_tail(ts, p1, x) == spec_additive_tail(ts, p2, o));
}

/// At the `additive_exp` level, `x op1 y op2 z` groups to the left:
/// `Op2(op2, Op2(op1, x, y), z)`.
#[verifier::spinoff_prover]
pub proof fn lemma_additive_exp_chain(
    ts: Seq<TokenView>,
    p: nat,
    p1: nat,
    p2: nat,
    p3: nat,
    x: AstView,
    y: AstView,
    z: AstView,
)
    requires
        spec_multiplicative_exp(ts, p) == (p1, Ok::<AstView, Fault>(x)),
        p <= p1,
        tok_any(ts, p1, 0, seq![Name::Add, Name::Sub]) && !tok_is(ts, p1, 1, Name::Label),
        ts[p1 as int].kind == Kind::Operator,
        spec_multiplicative_exp(ts, p1 + 1) == (p2, Ok::<AstView, Fault>(y)),
        p1 + 1 <= p2,
        tok_any(ts, p2, 0, seq![Name::Add, Name::Sub]) && !tok_is(ts, p2, 1, Name::Label),
        ts[p2 as int].kind == Kind::Operator,
        spec_multiplicative_exp(ts, p2 + 1) == (p3, Ok::<AstView, Fault>(z)),
        p2 + 1 <= p3,
        !(tok_any(ts, p3, 0, seq![Name::Add, Name::Sub]) && !tok_is(ts, p3, 1, Name::Label)),
    ensures
        spec_additive_exp(ts, p) == (p3, Ok::<AstView, Fault>(AstView::Op2(
            ts[p2 as int].name,
            Box::new(AstView::Op2(ts[p1 as int].name, Box::new(x), Box::new(y))),
            Box::new(z),
        ))),
{
    reveal_with_fuel(spec_additive_exp, 1);
    reveal_with_fuel(spec_additive_tail, 1);
    let o1 = AstView::Op2(ts[p1 as int].name, Box::new(x), Box::new(y));
    let o2 = AstView::Op2(ts[p2 as int].name, Box::new(o1), Box::new(z));
    assert(spec_additive_tail(ts, p3, o2) == (p3, Ok::<AstView, Fault>(o2)));
    assert(spec_additive_tail(ts, p2, o1) == spec_additive_tail(ts, p3, o2));
    assert(spec_additive_tail(ts, p1, x) == spec_additive_tail(ts, p2, o1));
}

/// At the `multiplicative_exp` level, `x op y` with `op` one of `Mul`, `Div` (an operator
/// token, read where the level looks for one) parses to `Op2(op, x, y)`:
/// the name of the operator token read, and the operands in source order,
/// `x` and `y` being what the next level reads before and after it.
#[verifier::spinoff_prover]
pub proof fn lemma_multiplicative_exp_binary(ts: Seq<TokenView>, p: nat, p1: nat, p2: nat, x: AstView, y: AstView)
    requires
        spec_exponential_exp(ts, p) == (p1, Ok::<AstView, Fault>(x)),
        p <= p1,
        tok_any(ts, p1, 0, seq![Name::Mul, Name::Div]) && !tok_is(ts, p1, 1, Name::Label),
        ts[p1 as int].kind == Kind::Operator,
        spec_exponential_exp(ts, p1 + 1) == (p2, Ok::<AstView, Fault>(y)),
        p1 + 1 <= p2,
        !(tok_any(ts, p2, 0, seq![Name::Mul, Name::Div]) && !tok_is(ts, p2, 1, Name::Label)),
    ensures
        spec_multiplicative_exp(ts, p) == (p2, Ok::<AstView, Fault>(AstView::Op2(ts[p1 as int].name, Box::new(x), Box::new(y)))),
{
    reveal_with_fuel(spec_multiplicative_exp, 1);
    reveal_with_fuel(spec_multiplicative_tail, 1);
    let o = AstView::Op2(ts[p1 as int].name, Box::new(x), Box::new(y));
    assert(spec_multiplicative_tail(ts, p2, o) == (p2, Ok::<AstView, Fault>(o)));
    assert(spec_multiplicative_tail(ts, p1, x) == spec_multiplicative_tail(ts, p2, o));
}

/// At the `multiplicative_exp` level, `x op1 y op2 z` groups to the left:
/// `Op2(op2, Op2(op1, x, y), z)`.
#[verifier::spinoff_prover]
pub proof fn lemma_multiplicative_exp_chain(
    ts: Seq<TokenView>,
    p: nat,
    p1: nat,
    p2: nat,
    p3: nat,
    x: AstView,
    y: AstView,
    z: AstView,
)
    requires
        spec_exponential_exp(ts, p) == (p1, Ok::<AstView, Fault>(x)),
        p <= p1,
        tok_any(ts, p1, 0, seq![Name::Mul, Name::Div]) && !tok_is(ts, p1, 1, Name::Label),
        ts[p1 as int].kind == Kind::Operator,
        spec_exponential_exp(ts, p1 + 1) == (p2, Ok::<AstView, Fault>(y)),
        p1 + 1 <= p2,
        tok_any(ts, p2, 0, seq![Name::Mul, Name::Div]) && !tok_is(ts, p2, 1, Name::Label),
        ts[p2 as int].kind == Kind::Operator,
        spec_exponential_exp(ts, p2 + 1) == (p3, Ok::<AstView, Fault>(z)),
        p2 + 1 <= p3,
        !(tok_any(ts, p3, 0, seq![Name::Mul, Name::Div]) && !tok_is(ts, p3, 1, Name::Label)),
    ensures
        spec_multiplicative_exp(ts, p) == (p3, Ok::<AstView, Fault>(AstView::Op2(
            ts[p2 as int].name,
            Box::new(AstView::Op2(ts[p1 as int].name, Box::new(x), Box::new(y))),
            Box::new(z),
        ))),
{
    reveal_with_fuel(spec_multiplicative_exp, 1);
    reveal_with_fuel(spec_multiplicative_tail, 1);
    let o1 = AstView::Op2(ts[p1 as int].name, Box::new(x), Box::new(y));
    let o2 = AstView::Op2(ts[p2 as int].name, Box::new(o1), Box::new(z));
    assert(spec_multiplicative_tail(ts, p3, o2) == (p3, Ok::<AstView, Fault>(o2)));
    assert(spec_multiplicative_tail(ts, p2, o1) == spec_multiplicative_tail(ts, p3, o2));
    assert(spec_multiplicative_tail(ts, p1, x) == spec_multiplicative_tail(ts, p2, o1));
}

/// At the `exponential_exp` level, `x op y` with `op` `Exp` (an operator
/// token, read where the level looks for one) parses to `Op2(op, x, y)`:
/// the name of the operator token read, and the operands in source order,
/// `x` and `y` being what the next level reads before and after it.
#[verifier::spinoff_prover]
pub proof fn lemma_exponential_exp_binary(ts: Seq<TokenView>, p: nat, p1: nat, p2: nat, x: AstView, y: AstView)
    requires
        spec_unary_exp(ts, p) == (p1, Ok::<AstView, Fault>(x)),
        p <= p1,
        tok_is(ts, p1, 0, Name::Exp) && !tok_is(ts, p1, 1, Name::Label),
        spec_unary_exp(ts, p1 + 1) == (p2, Ok::<AstView, Fault>(y)),
        p1 + 1 <= p2,
        !(tok_is(ts, p2, 0, Name::Exp) && !tok_is(ts, p2, 1, Name::Label)),
    ensures
        spec_exponential_exp(ts, p) == (p2, Ok::<AstView, Fault>(AstView::Op2(ts[p1 as int].name, Box::new(x), Box::new(y)))),
{
    reveal_with_fuel(spec_exponential_exp, 1);
    reveal_with_fuel(spec_exponential_tail, 1);
    let o = AstView::Op2(ts[p1 as int].name, Box::new(x), Box::new(y));
    assert(spec_exponential_tail(ts, p2, o) == (p2, Ok::<AstView, Fault>(o)));
    assert(spec_exponential_tail(ts, p1, x) == spec_exponential_tail(ts, p2, o));
}

/// At the `exponential_exp` level, `x op1 y op2 z` groups to the left:
/// `Op2(op2, Op2(op1, x, y), z)`.
#[verifier::spinoff_prover]
pub proof fn lemma_exponential_exp_chain(
    ts: Seq<TokenView>,
    p: nat,
    p1: nat,
    p2: nat,
    p3: nat,
    x: AstView,
    y: AstView,
    z: AstView,
)
    requires
        spec_unary_exp(ts, p) == (p1, Ok::<AstView, Fault>(x)),
        p <= p1,
        tok_is(ts, p1, 0, Name::Exp) && !tok_is(ts, p1, 1, Name::Label),
        spec_unary_exp(ts, p1 + 1) == (p2, Ok::<AstView, Fault>(y)),
        p1 + 1 <= p2,
        tok_is(ts, p2, 0, Name::Exp) && !tok_is(ts, p2, 1, Name::Label),
        spec_unary_exp(ts, p2 + 1) == (p3, Ok::<AstView, Fault>(z)),
        p2 + 1 <= p3,
        !(tok_is(ts, p3, 0, Name::Exp) && !tok_is(ts, p3, 1, Name::Label)),
    ensures
        spec_exponential_exp(ts, p) == (p3, Ok::<AstView, Fault>(AstView::Op2(
            ts[p2 as int].name,
            Box::new(AstView::Op2(ts[p1 as int].name, Box::new(x), Box::new(y))),
            Box::new(z),
        ))),
{
    reveal_with_fuel(spec_exponential_exp, 1);
    reveal_with_fuel(spec_exponential_tail, 1);
    let o1 = AstView::Op2(ts[p1 as int].name, Box::new(x), Box::new(y));
    let o2 = AstView::Op2(ts[p2 as int].name, Box::new(o1), Box::new(z));
    assert(spec_exponential_tail(ts, p3, o2) == (p3, Ok::<AstView, Fault>(o2)));
    assert(spec_exponential_tail(ts, p2, o1) == spec_exponential_tail(ts, p3, o2));
    assert(spec_exponential_tail(ts, p1, x) == spec_exponential_tail(ts, p2, o1));
}

/// At the `select_exp` level, `x op y` with `op` one of `Select`, `Index` (an operator
/// token, read where the level looks for one) parses to `Op2(op, x, y)`:
/// the name of the operator token read, and the operands in source order,
/// `x` and `y` being what the next level reads before and after it.
#[verifier::spinoff_prover]
pub proof fn lemma_select_exp_binary(ts: Seq<TokenView>, p: nat, p1: nat, p2: nat, x: AstView, y: AstView)
    requires
        spec_apply(ts, p) == (p1, Ok::<AstView, Fault>(x)),
        p <= p1,
        tok_any(ts, p1, 0, seq![Name::Select, Name::Index]),
        spec_apply(ts, p1 + 1) == (p2, Ok::<AstView, Fault>(y)),
        p1 + 1 <= p2,
        !(tok_any(ts, p2, 0, seq![Name::Select, Name::Index])),
    ensures
        spec_select_exp(ts, p) == (p2, Ok::<AstView, Fault>(AstView::Op2(ts[p1 as int].name, Box::new(x), Box::new(y)))),
{
    reveal_with_fuel(spec_select_exp, 1);
    reveal_with_fuel(spec_select_tail, 1);
    let o = AstView::Op2(ts[p1 as int].name, Box::new(x), Box::new(y));
    assert(spec_select_tail(ts, p2, o) == (p2, Ok::<AstView, Fault>(o)));
    assert(spec_select_tail(ts, p1, x) == spec_select_tail(ts, p2, o));
}

/// At the `select_exp` level, `x op1 y op2 z` groups to the left:
/// `Op2(op2, Op2(op1, x, y), z)`.
#[verifier::spinoff_prover]
pub proof fn lemma_select_exp_chain(
    ts: Seq<TokenView>,
    p: nat,
    p1: nat,
    p2: nat,
    p3: nat,
    x: AstView,
    y: AstView,
    z: AstView,
)
    requires
        spec_apply(ts, p) == (p1, Ok::<AstView, Fault>(x)),
        p <= p1,
        tok_any(ts, p1, 0, seq![Name::Select, Name::Index]),
        spec_apply(ts, p1 + 1) == (p2, Ok::<AstView, Fault>(y)),
        p1 + 1 <= p2,
        tok_any(ts, p2, 0, seq![Name::Select, Name::Index]),
        spec_apply(ts, p2 + 1) == (p3, Ok::<AstView, Fault>(z)),
        p2 + 1 <= p3,
        !(tok_any(ts, p3, 0, seq![Name::Select, Name::Index])),
    ensures
        spec_select_exp(ts, p) == (p3, Ok::<AstView, Fault>(AstView::Op2(
            ts[p2 as int].name,
            Box::new(AstView::Op2(ts[p1 as int].name, Box::new(x), Box::new(y))),
            Box::new(z),
        ))),
{
    reveal_with_fuel(spec_select_exp, 1);
    reveal_with_fuel(spec_select_tail, 1);
    let o1 = AstView::Op2(ts[p1 as int].name, Box::new(x), Box::new(y));
    let o2 = AstView::Op2(ts[p2 as int].name, Box::new(o1), Box::new(z));
    assert(spec_select_tail(ts, p3, o2) == (p3, Ok::<AstView, Fault>(o2)));
    assert(spec_select_tail(ts, p2, o1) == spec_select_tail(ts, p3, o2));
    assert(spec_select_tail(ts, p1, x) == spec_select_tail(ts, p2, o1));
}

} // verus!
