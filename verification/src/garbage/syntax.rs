//! The syntax tree that the expanders read: points may be labelled or
//! returned, and labels are referred to by name.
use crate::compiler::tokenizer::Name;
use vstd::prelude::*;

verus! {

#[derive(Debug)]
pub enum Ast {
    Nothing,
    Integer(String),
    Decimal(String),
    String(String),
    Clock(String, Name),
    Size(Name),
    /// `{ .. }`
    Graph(Vec<Ast>),
    /// `[ .. ]`
    Space(Vec<Ast>),
    /// `graph { .. }`
    Apply(Box<Ast>, Box<Ast>),
    /// `label: point`
    Key(String, Box<Ast>),
    /// `-> point`
    Ret(Box<Ast>),
    /// a label
    Ref(String),
    /// `1 + 2`
    Op2(Name, Box<Ast>, Box<Ast>),
    /// `- 10`
    Op1(Name, Box<Ast>),
    /// `i32`
    Op0(Name),
}

/// An `Ast` as a mathematical value.
pub enum AstView {
    Nothing,
    Integer(Seq<char>),
    Decimal(Seq<char>),
    String(Seq<char>),
    Clock(Seq<char>, Name),
    Size(Name),
    Graph(Seq<AstView>),
    Space(Seq<AstView>),
    Apply(Box<AstView>, Box<AstView>),
    Key(Seq<char>, Box<AstView>),
    Ret(Box<AstView>),
    Ref(Seq<char>),
    Op2(Name, Box<AstView>, Box<AstView>),
    Op1(Name, Box<AstView>),
    Op0(Name),
}

pub open spec fn ast_view(a: Ast) -> AstView
    decreases a,
{
    match a {
        Ast::Nothing => AstView::Nothing,
        Ast::Integer(x0) => AstView::Integer(x0@),
        Ast::Decimal(x0) => AstView::Decimal(x0@),
        Ast::String(x0) => AstView::String(x0@),
        Ast::Clock(x0, x1) => AstView::Clock(x0@, x1),
        Ast::Size(x0) => AstView::Size(x0),
        Ast::Graph(x0) => AstView::Graph(asts_view(x0@)),
        Ast::Space(x0) => AstView::Space(asts_view(x0@)),
        Ast::Apply(x0, x1) => AstView::Apply(Box::new(ast_view(*x0)), Box::new(ast_view(*x1))),
        Ast::Key(x0, x1) => AstView::Key(x0@, Box::new(ast_view(*x1))),
        Ast::Ret(x0) => AstView::Ret(Box::new(ast_view(*x0))),
        Ast::Ref(x0) => AstView::Ref(x0@),
        Ast::Op2(x0, x1, x2) => AstView::Op2(x0, Box::new(ast_view(*x1)), Box::new(ast_view(*x2))),
        Ast::Op1(x0, x1) => AstView::Op1(x0, Box::new(ast_view(*x1))),
        Ast::Op0(x0) => AstView::Op0(x0),
    }
}

pub open spec fn asts_view(s: Seq<Ast>) -> Seq<AstView>
    decreases s,
{
    if s.len() == 0 {
        seq![]
    } else {
        seq![ast_view(s[0])] + asts_view(s.subrange(1, s.len() as int))
    }
}

impl View for Ast {
    type V = AstView;

    open spec fn view(&self) -> AstView {
        ast_view(*self)
    }
}

impl Ast {
    /// A copy of the tree.
    pub fn deep_clone(&self) -> (r: Ast)
        ensures
            r@ == self@,
        decreases self,
    {
        match self {
            Ast::Nothing => Ast::Nothing,
            Ast::Integer(x0) => Ast::Integer(x0.clone()),
            Ast::Decimal(x0) => Ast::Decimal(x0.clone()),
            Ast::String(x0) => Ast::String(x0.clone()),
            Ast::Clock(x0, x1) => Ast::Clock(x0.clone(), *x1),
            Ast::Size(x0) => Ast::Size(*x0),
            Ast::Graph(x0) => Ast::Graph(clone_asts(x0)),
            Ast::Space(x0) => Ast::Space(clone_asts(x0)),
            Ast::Apply(x0, x1) => Ast::Apply(Box::new((**x0).deep_clone()), Box::new((**x1).deep_clone())),
            Ast::Key(x0, x1) => Ast::Key(x0.clone(), Box::new((**x1).deep_clone())),
            Ast::Ret(x0) => Ast::Ret(Box::new((**x0).deep_clone())),
            Ast::Ref(x0) => Ast::Ref(x0.clone()),
            Ast::Op2(x0, x1, x2) => Ast::Op2(*x0, Box::new((**x1).deep_clone()), Box::new((**x2).deep_clone())),
            Ast::Op1(x0, x1) => Ast::Op1(*x0, Box::new((**x1).deep_clone())),
            Ast::Op0(x0) => Ast::Op0(*x0),
        }
    }
}

pub proof fn lemma_asts_view_len(s: Seq<Ast>)
    ensures
        asts_view(s).len() == s.len(),
    decreases s.len(),
{
    if s.len() > 0 {
        lemma_asts_view_len(s.subrange(1, s.len() as int));
    }
}

pub proof fn lemma_asts_view_index(s: Seq<Ast>, i: int)
    requires
        0 <= i < s.len(),
    ensures
        asts_view(s).len() == s.len(),
        asts_view(s)[i] == s[i]@,
    decreases s.len(),
{
    lemma_asts_view_len(s);
    if i > 0 {
        lemma_asts_view_index(s.subrange(1, s.len() as int), i - 1);
    }
}

/// Two sequences of trees with equal views elementwise have equal views.
pub proof fn lemma_asts_view_ext(s: Seq<Ast>, t: Seq<AstView>)
    requires
        s.len() == t.len(),
        forall|i: int| 0 <= i < s.len() ==> (#[trigger] s[i])@ == t[i],
    ensures
        asts_view(s) == t,
{
    lemma_asts_view_len(s);
    assert forall|i: int| 0 <= i < s.len() implies asts_view(s)[i] == t[i] by {
        lemma_asts_view_index(s, i);
    }
    assert(asts_view(s) =~= t);
}

pub proof fn lemma_asts_view_push(s: Seq<Ast>, a: Ast)
    ensures
        asts_view(s.push(a)) == asts_view(s).push(a@),
{
    let p = s.push(a);
    lemma_asts_view_len(s);
    assert forall|i: int| 0 <= i < p.len() implies (#[trigger] p[i])@ == asts_view(s).push(a@)[i] by {
        if i < s.len() {
            lemma_asts_view_index(s, i);
        }
    }
    lemma_asts_view_ext(p, asts_view(s).push(a@));
}

/// A copy of each tree in `v`.
pub fn clone_asts(v: &Vec<Ast>) -> (r: Vec<Ast>)
    ensures
        asts_view(r@) == asts_view(v@),
    decreases v,
{
    let mut r: Vec<Ast> = Vec::new();
    let mut i: usize = 0;
    while i < v.len()
        invariant
            i <= v@.len(),
            r@.len() == i,
            forall|j: int| 0 <= j < i ==> (#[trigger] r@[j])@ == v@[j]@,
        decreases v@.len() - i,
    {
        assert(decreases_to!(v => v@[i as int]));
        r.push(v[i].deep_clone());
        i = i + 1;
    }
    proof {
        assert forall|j: int| 0 <= j < v@.len() implies (#[trigger] r@[j])@ == asts_view(v@)[j] by {
            lemma_asts_view_index(v@, j);
        }
        lemma_asts_view_len(v@);
        lemma_asts_view_ext(r@, asts_view(v@));
    }
    r
}

pub open spec fn tree_size(a: AstView) -> nat
    decreases a,
{
    match a {
        AstView::Graph(s) => 1 + trees_size(s),
        AstView::Space(s) => 1 + trees_size(s),
        AstView::Apply(x, y) => 1 + tree_size(*x) + tree_size(*y),
        AstView::Key(_, x) => 1 + tree_size(*x),
        AstView::Ret(x) => 1 + tree_size(*x),
        AstView::Op2(_, x, y) => 1 + tree_size(*x) + tree_size(*y),
        AstView::Op1(_, x) => 1 + tree_size(*x),
        _ => 1,
    }
}

pub open spec fn trees_size(s: Seq<AstView>) -> nat
    decreases s,
{
    if s.len() == 0 {
        0
    } else {
        tree_size(s[0]) + trees_size(s.subrange(1, s.len() as int))
    }
}

/// An element of a sequence of trees is no larger than the sequence.
pub proof fn lemma_tree_size_elem(s: Seq<AstView>, i: int)
    requires
        0 <= i < s.len(),
    ensures
        tree_size(s[i]) <= trees_size(s),
    decreases s.len(),
{
    if i > 0 {
        let t = s.subrange(1, s.len() as int);
        lemma_tree_size_elem(t, i - 1);
        assert(t[i - 1] == s[i]);
    }
}

} // verus!
