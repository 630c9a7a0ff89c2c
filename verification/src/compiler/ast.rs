//! The syntax tree that the expander and the reducer work on. Graphs and
//! references carry the index of the environment they belong to.
use super::tokenizer::Name;
use vstd::prelude::*;

verus! {

/// Index of an environment.
pub type EID = usize;

/// Index of a code point.
pub type IDX = usize;

#[derive(Debug)]
pub enum Ast {
    Nothing,
    Integer(String),
    Decimal(String),
    String(String),
    Clock(String, Name),
    Size(Name),
    /// `{ .. }`, with the index of its environment
    Graph(EID, Vec<Ast>),
    /// `[ .. ]`
    Space(Vec<Ast>),
    /// `graph { .. }`
    Apply(Box<Ast>, Box<Ast>),
    /// `label: point`
    Key(String, Box<Ast>),
    /// a label, looked up from the given environment
    Ref(EID, String),
    /// the parent link of an environment
    Parent(EID),
    Op2(Name, Box<Ast>, Box<Ast>),
    Op1(Name, Box<Ast>),
    Op0(Name),
}

/// An `Ast` as a mathematical value.
pub enum AstView {
    Nothing,
    Integer(Seq<char>),
    Decimal(Seq<char>),
    String(Seq<char>),
    Clock(Seq<char>, Name),
    Size(Name),
    Graph(EID, Seq<AstView>),
    Space(Seq<AstView>),
    Apply(Box<AstView>, Box<AstView>),
    Key(Seq<char>, Box<AstView>),
    Ref(EID, Seq<char>),
    Parent(EID),
    Op2(Name, Box<AstView>, Box<AstView>),
    Op1(Name, Box<AstView>),
    Op0(Name),
}

pub open spec fn ast_view(a: Ast) -> AstView
    decreases a,
{
    match a {
        Ast::Nothing => AstView::Nothing,
        Ast::Integer(s) => AstView::Integer(s@),
        Ast::Decimal(s) => AstView::Decimal(s@),
        Ast::String(s) => AstView::String(s@),
        Ast::Clock(s, n) => AstView::Clock(s@, n),
        Ast::Size(n) => AstView::Size(n),
        Ast::Graph(e, pts) => AstView::Graph(e, asts_view(pts@)),
        Ast::Space(pts) => AstView::Space(asts_view(pts@)),
        Ast::Apply(a1, a2) => AstView::Apply(Box::new(ast_view(*a1)), Box::new(ast_view(*a2))),
        Ast::Key(l, p) => AstView::Key(l@, Box::new(ast_view(*p))),
        Ast::Ref(e, l) => AstView::Ref(e, l@),
        Ast::Parent(e) => AstView::Parent(e),
        Ast::Op2(n, a1, a2) => AstView::Op2(n, Box::new(ast_view(*a1)), Box::new(ast_view(*a2))),
        Ast::Op1(n, a1) => AstView::Op1(n, Box::new(ast_view(*a1))),
        Ast::Op0(n) => AstView::Op0(n),
    }
}

pub open spec fn asts_view(s: Seq<Ast>) -> Seq<AstView>
    decreases s,
{
    if s.len() == 0 {
        seq![]
    } else {
        seq![ast_view(s[0])] + asts_view(s.subrange(1, s.len() as int))
    }
}

impl View for Ast {
    type V = AstView;

    open spec fn view(&self) -> AstView {
        ast_view(*self)
    }
}

impl Ast {
    /// A copy of the tree.
    pub fn deep_clone(&self) -> (r: Ast)
        ensures
            r@ == self@,
        decreases self,
    {
        match self {
            Ast::Nothing => Ast::Nothing,
            Ast::Integer(s) => Ast::Integer(s.clone()),
            Ast::Decimal(s) => Ast::Decimal(s.clone()),
            Ast::String(s) => Ast::String(s.clone()),
            Ast::Clock(s, n) => Ast::Clock(s.clone(), *n),
            Ast::Size(n) => Ast::Size(*n),
            Ast::Graph(e, pts) => Ast::Graph(*e, clone_asts(pts)),
            Ast::Space(pts) => Ast::Space(clone_asts(pts)),
            Ast::Apply(a1, a2) => Ast::Apply(Box::new((**a1).deep_clone()), Box::new((**a2).deep_clone())),
            Ast::Key(l, p) => Ast::Key(l.clone(), Box::new((**p).deep_clone())),
            Ast::Ref(e, l) => Ast::Ref(*e, l.clone()),
            Ast::Parent(e) => Ast::Parent(*e),
            Ast::Op2(n, a1, a2) => Ast::Op2(*n, Box::new((**a1).deep_clone()), Box::new((**a2).deep_clone())),
            Ast::Op1(n, a1) => Ast::Op1(*n, Box::new((**a1).deep_clone())),
            Ast::Op0(n) => Ast::Op0(*n),
        }
    }
}

pub proof fn lemma_asts_view_index(s: Seq<Ast>, i: int)
    requires
        0 <= i < s.len(),
    ensures
        asts_view(s).len() == s.len(),
        asts_view(s)[i] == s[i]@,
    decreases s.len(),
{
    lemma_asts_view_len(s);
    if i > 0 {
        lemma_asts_view_index(s.subrange(1, s.len() as int), i - 1);
    }
}

pub proof fn lemma_asts_view_len(s: Seq<Ast>)
    ensures
        asts_view(s).len() == s.len(),
    decreases s.len(),
{
    if s.len() > 0 {
        lemma_asts_view_len(s.subrange(1, s.len() as int));
    }
}

/// Two sequences of trees with equal views elementwise have equal views.
pub proof fn lemma_asts_view_ext(s: Seq<Ast>, t: Seq<AstView>)
    requires
        s.len() == t.len(),
        forall|i: int| 0 <= i < s.len() ==> (#[trigger] s[i])@ == t[i],
    ensures
        asts_view(s) == t,
{
    lemma_asts_view_len(s);
    assert forall|i: int| 0 <= i < s.len() implies asts_view(s)[i] == t[i] by {
        lemma_asts_view_index(s, i);
    }
    assert(asts_view(s) =~= t);
}

/// A copy of each tree in `v`.
pub fn clone_asts(v: &Vec<Ast>) -> (r: Vec<Ast>)
    ensures
        asts_view(r@) == asts_view(v@),
    decreases v,
{
    let mut r: Vec<Ast> = Vec::new();
    let mut i: usize = 0;
    while i < v.len()
        invariant
            i <= v@.len(),
            r@.len() == i,
            forall|j: int| 0 <= j < i ==> (#[trigger] r@[j])@ == v@[j]@,
        decreases v@.len() - i,
    {
        assert(decreases_to!(v => v@[i as int]));
        r.push(v[i].deep_clone());
        i = i + 1;
    }
    proof {
        assert forall|j: int| 0 <= j < v@.len() implies (#[trigger] r@[j])@ == asts_view(v@)[j] by {
            lemma_asts_view_index(v@, j);
        }
        lemma_asts_view_len(v@);
        lemma_asts_view_ext(r@, asts_view(v@));
    }
    r
}

pub proof fn lemma_asts_view_push(s: Seq<Ast>, a: Ast)
    ensures
        asts_view(s.push(a)) == asts_view(s).push(a@),
{
    let p = s.push(a);
    lemma_asts_view_len(s);
    assert forall|i: int| 0 <= i < p.len() implies (#[trigger] p[i])@ == asts_view(s).push(a@)[i] by {
        if i < s.len() {
            lemma_asts_view_index(s, i);
        }
    }
    lemma_asts_view_ext(p, asts_view(s).push(a@));
}

} // verus!
