//! The third expander, over a tree whose graphs carry no environment
//! index yet: every graph gets an environment of its own, labelled points
//! are bound in the environment of their graph together with that
//! environment's index, and an application `source { .. }` becomes a copy
//! of the source graph in which the modifier's labelled points replace the
//! source's points of the same label. A selection `a.b` only checks that
//! `a` names something.
use crate::compiler::tokenizer::Name;
use crate::env::{undefined_point_message, undefined_point_text, Env};
use vstd::prelude::*;

verus! {

#[derive(Debug)]
pub enum Ast {
    Nothing,
    Integer(String),
    Decimal(String),
    String(String),
    Clock(String, Name),
    Size(Name),
    /// `{ .. }`
    Graph(Vec<Ast>),
    /// `[ .. ]`
    Space(Vec<Ast>),
    /// `graph { .. }`
    Apply(Box<Ast>, Box<Ast>),
    /// `label: point`
    Key(String, Box<Ast>),
    /// a label
    Ref(String),
    /// `1 + 2`
    Op2(Name, Box<Ast>, Box<Ast>),
    /// `- 10`
    Op1(Name, Box<Ast>),
    /// `i32`
    Op0(Name),
}

/// An `Ast` as a mathematical value.
pub enum AstView {
    Nothing,
    Integer(Seq<char>),
    Decimal(Seq<char>),
    String(Seq<char>),
    Clock(Seq<char>, Name),
    Size(Name),
    Graph(Seq<AstView>),
    Space(Seq<AstView>),
    Apply(Box<AstView>, Box<AstView>),
    Key(Seq<char>, Box<AstView>),
    Ref(Seq<char>),
    Op2(Name, Box<AstView>, Box<AstView>),
    Op1(Name, Box<AstView>),
    Op0(Name),
}

pub open spec fn ast_view(a: Ast) -> AstView
    decreases a,
{
    match a {
        Ast::Nothing => AstView::Nothing,
        Ast::Integer(x0) => AstView::Integer(x0@),
        Ast::Decimal(x0) => AstView::Decimal(x0@),
        Ast::String(x0) => AstView::String(x0@),
        Ast::Clock(x0, x1) => AstView::Clock(x0@, x1),
        Ast::Size(x0) => AstView::Size(x0),
        Ast::Graph(x0) => AstView::Graph(asts_view(x0@)),
        Ast::Space(x0) => AstView::Space(asts_view(x0@)),
        Ast::Apply(x0, x1) => AstView::Apply(Box::new(ast_view(*x0)), Box::new(ast_view(*x1))),
        Ast::Key(x0, x1) => AstView::Key(x0@, Box::new(ast_view(*x1))),
        Ast::Ref(x0) => AstView::Ref(x0@),
        Ast::Op2(x0, x1, x2) => AstView::Op2(x0, Box::new(ast_view(*x1)), Box::new(ast_view(*x2))),
        Ast::Op1(x0, x1) => AstView::Op1(x0, Box::new(ast_view(*x1))),
        Ast::Op0(x0) => AstView::Op0(x0),
    }
}

pub open spec fn asts_view(s: Seq<Ast>) -> Seq<AstView>
    decreases s,
{
    if s.len() == 0 {
        seq![]
    } else {
        seq![ast_view(s[0])] + asts_view(s.subrange(1, s.len() as int))
    }
}

impl View for Ast {
    type V = AstView;

    open spec fn view(&self) -> AstView {
        ast_view(*self)
    }
}

impl Ast {
    /// A copy of the tree.
    pub fn deep_clone(&self) -> (r: Ast)
        ensures
            r@ == self@,
        decreases self,
    {
        match self {
            Ast::Nothing => Ast::Nothing,
            Ast::Integer(x0) => Ast::Integer(x0.clone()),
            Ast::Decimal(x0) => Ast::Decimal(x0.clone()),
            Ast::String(x0) => Ast::String(x0.clone()),
            Ast::Clock(x0, x1) => Ast::Clock(x0.clone(), *x1),
            Ast::Size(x0) => Ast::Size(*x0),
            Ast::Graph(x0) => Ast::Graph(clone_asts(x0)),
            Ast::Space(x0) => Ast::Space(clone_asts(x0)),
            Ast::Apply(x0, x1) => Ast::Apply(Box::new((**x0).deep_clone()), Box::new((**x1).deep_clone())),
            Ast::Key(x0, x1) => Ast::Key(x0.clone(), Box::new((**x1).deep_clone())),
            Ast::Ref(x0) => Ast::Ref(x0.clone()),
            Ast::Op2(x0, x1, x2) => Ast::Op2(*x0, Box::new((**x1).deep_clone()), Box::new((**x2).deep_clone())),
            Ast::Op1(x0, x1) => Ast::Op1(*x0, Box::new((**x1).deep_clone())),
            Ast::Op0(x0) => Ast::Op0(*x0),
        }
    }
}

pub proof fn lemma_asts_view_len(s: Seq<Ast>)
    ensures
        asts_view(s).len() == s.len(),
    decreases s.len(),
{
    if s.len() > 0 {
        lemma_asts_view_len(s.subrange(1, s.len() as int));
    }
}

pub proof fn lemma_asts_view_index(s: Seq<Ast>, i: int)
    requires
        0 <= i < s.len(),
    ensures
        asts_view(s).len() == s.len(),
        asts_view(s)[i] == s[i]@,
    decreases s.len(),
{
    lemma_asts_view_len(s);
    if i > 0 {
        lemma_asts_view_index(s.subrange(1, s.len() as int), i - 1);
    }
}

/// Two sequences of trees with equal views elementwise have equal views.
pub proof fn lemma_asts_view_ext(s: Seq<Ast>, t: Seq<AstView>)
    requires
        s.len() == t.len(),
        forall|i: int| 0 <= i < s.len() ==> (#[trigger] s[i])@ == t[i],
    ensures
        asts_view(s) == t,
{
    lemma_asts_view_len(s);
    assert forall|i: int| 0 <= i < s.len() implies asts_view(s)[i] == t[i] by {
        lemma_asts_view_index(s, i);
    }
    assert(asts_view(s) =~= t);
}

pub proof fn lemma_asts_view_push(s: Seq<Ast>, a: Ast)
    ensures
        asts_view(s.push(a)) == asts_view(s).push(a@),
{
    let p = s.push(a);
    lemma_asts_view_len(s);
    assert forall|i: int| 0 <= i < p.len() implies (#[trigger] p[i])@ == asts_view(s).push(a@)[i] by {
        if i < s.len() {
            lemma_asts_view_index(s, i);
        }
    }
    lemma_asts_view_ext(p, asts_view(s).push(a@));
}

/// A copy of each tree in `v`.
pub fn clone_asts(v: &Vec<Ast>) -> (r: Vec<Ast>)
    ensures
        asts_view(r@) == asts_view(v@),
    decreases v,
{
    let mut r: Vec<Ast> = Vec::new();
    let mut i: usize = 0;
    while i < v.len()
        invariant
            i <= v@.len(),
            r@.len() == i,
            forall|j: int| 0 <= j < i ==> (#[trigger] r@[j])@ == v@[j]@,
        decreases v@.len() - i,
    {
        assert(decreases_to!(v => v@[i as int]));
        r.push(v[i].deep_clone());
        i = i + 1;
    }
    proof {
        assert forall|j: int| 0 <= j < v@.len() implies (#[trigger] r@[j])@ == asts_view(v@)[j] by {
            lemma_asts_view_index(v@, j);
        }
        lemma_asts_view_len(v@);
        lemma_asts_view_ext(r@, asts_view(v@));
    }
    r
}

/// A typed tree, in which every point carries the tree of its type.
#[allow(non_camel_case_types)]
#[derive(Debug)]
pub enum tAst {
    Nothing,
    Integer(String),
    Decimal(String),
    String(String),
    Clock(String, Name),
    /// `{ .. }`
    Graph(Vec<Ast>),
    /// `[ .. ]`
    Space(Vec<Ast>),
    /// `graph { .. }`
    Apply(Box<Ast>, Box<Ast>),
    /// type, label and point
    Key(Box<Ast>, String, Box<Ast>),
    /// a label
    Ref(String),
    /// type, operator and operands
    Op2(Box<Ast>, Name, Box<Ast>, Box<Ast>),
    /// type, operator and operand
    Op1(Box<Ast>, Name, Box<Ast>),
}

/// What an environment keeps for a label: the index of the environment it
/// was bound in, the expanded point, and the labels that depend on it.
pub type Entry = (usize, Ast, Vec<String>);

/// The environments of an expansion; the first is the top level, which
/// has no parent.
pub type Maps = Vec<Env<Entry>>;

#[derive(Debug)]
pub struct Parse {
    pub envs: Maps,
}

pub type EntryView = (usize, AstView, Seq<String>);

pub type EnvsView = Seq<Map<Seq<char>, EntryView>>;

pub open spec fn entry_view(e: Entry) -> EntryView {
    (e.0, e.1@, e.2@)
}

pub open spec fn envs_view(envs: Seq<Env<Entry>>) -> EnvsView {
    envs.map_values(|e: Env<Entry>| e@.map_values(|x: Entry| entry_view(x)))
}

/// The label under which an environment keeps its parent link.
pub open spec fn parent_label() -> Seq<char> {
    "<parent>"@
}

// ---------------------------------------------------------------------
// Measures and shapes of trees

pub open spec fn view_size(a: AstView) -> nat
    decreases a,
{
    match a {
        AstView::Graph(s) => 1 + seq_size(s),
        AstView::Space(s) => 1 + seq_size(s),
        AstView::Apply(x, y) => 1 + view_size(*x) + view_size(*y),
        AstView::Op2(_, x, y) => 1 + view_size(*x) + view_size(*y),
        AstView::Key(_, p) => 1 + view_size(*p),
        AstView::Op1(_, p) => 1 + view_size(*p),
        _ => 1,
    }
}

pub open spec fn seq_size(s: Seq<AstView>) -> nat
    decreases s,
{
    if s.len() == 0 {
        0
    } else {
        view_size(s[0]) + seq_size(s.subrange(1, s.len() as int))
    }
}

pub proof fn lemma_view_size_pos(a: AstView)
    ensures
        view_size(a) >= 1,
{
}

pub open spec fn max_nat(a: nat, b: nat) -> nat {
    if a >= b {
        a
    } else {
        b
    }
}

/// How deeply applications nest in a tree.
pub open spec fn apply_depth(a: AstView) -> nat
    decreases a,
{
    match a {
        AstView::Graph(s) => seq_apply_depth(s),
        AstView::Space(s) => seq_apply_depth(s),
        AstView::Apply(x, y) => 1 + max_nat(apply_depth(*x), apply_depth(*y)),
        AstView::Op2(_, x, y) => max_nat(apply_depth(*x), apply_depth(*y)),
        AstView::Key(_, p) => apply_depth(*p),
        AstView::Op1(_, p) => apply_depth(*p),
        _ => 0,
    }
}

pub open spec fn seq_apply_depth(s: Seq<AstView>) -> nat
    decreases s,
{
    if s.len() == 0 {
        0
    } else {
        max_nat(apply_depth(s[0]), seq_apply_depth(s.subrange(1, s.len() as int)))
    }
}

/// What an expanded point satisfies: no application is left in it.
pub open spec fn expanded(a: AstView) -> bool {
    apply_depth(a) == 0
}

/// What an entry kept in an environment satisfies: it was bound in an
/// existing environment and its point is expanded.
pub open spec fn stored_ok(e: EntryView, n: nat) -> bool {
    e.0 < n && expanded(e.1)
}

/// The environments are well formed: each one but the top level keeps a
/// parent link to an environment that comes before it, or to itself where
/// a point labelled with the parent label took the link's place; and every
/// entry kept is well formed.
pub open spec fn envs_wf(envs: EnvsView) -> bool {
    &&& envs.len() >= 1
    &&& forall|i: int|
        1 <= i < envs.len() ==> (#[trigger] envs[i]).dom().contains(parent_label()) && envs[i][parent_label()].0
            <= i
    &&& forall|i: int, k: Seq<char>|
        0 <= i < envs.len() && (#[trigger] envs[i].dom().contains(k)) ==> stored_ok(envs[i][k], envs.len() as nat)
}

// ---------------------------------------------------------------------
// Messages

pub uninterp spec fn not_reference_text(a: AstView) -> Seq<char>;

pub uninterp spec fn missing_point_text(m: AstView, s: Seq<AstView>) -> Seq<char>;

/// Formats `{ast:?} is not a Reference`.
#[verifier::external_body]
fn not_reference_message(ast: &Ast) -> (r: String)
    ensures
        r@ == not_reference_text(ast@),
{
    format!("{:?} is not a Reference", ast)
}

/// Formats `{m_point:?} does not exist in {s_points:?}`.
#[verifier::external_body]
fn missing_point_message(m_point: &Ast, s_points: &Vec<Ast>) -> (r: String)
    ensures
        r@ == missing_point_text(m_point@, asts_view(s_points@)),
{
    format!("{:?} does not exist in {:?}", m_point, s_points)
}

// ---------------------------------------------------------------------
// The expansion, stated over views

pub open spec fn spec_lookup(envs: EnvsView, label: Seq<char>, env: nat) -> Result<EntryView, Seq<char>>
    decreases env,
{
    if env == 0 || env >= envs.len() {
        Err(undefined_point_text(label))
    } else if envs[env as int].dom().contains(label) {
        Ok(envs[env as int][label])
    } else if envs[env as int].dom().contains(parent_label()) && envs[env as int][parent_label()].0 < env {
        spec_lookup(envs, label, envs[env as int][parent_label()].0 as nat)
    } else {
        Err(undefined_point_text(label))
    }
}

pub open spec fn spec_deref(envs: EnvsView, r: AstView, env: nat) -> Result<EntryView, Seq<char>> {
    match r {
        AstView::Ref(label) => spec_lookup(envs, label, env),
        _ => Err(not_reference_text(r)),
    }
}

pub open spec fn spec_key_match(a: AstView, b: AstView) -> bool {
    match (a, b) {
        (AstView::Key(la, _), AstView::Key(lb, _)) => la == lb,
        _ => false,
    }
}

pub open spec fn spec_has_key(points: Seq<AstView>, a: AstView) -> bool {
    exists|i: int| 0 <= i < points.len() && spec_key_match(#[trigger] points[i], a)
}

pub open spec fn spec_get_key(points: Seq<AstView>, a: AstView) -> Option<AstView>
    decreases points.len(),
{
    if points.len() == 0 {
        None
    } else if spec_key_match(points[0], a) {
        Some(points[0])
    } else {
        spec_get_key(points.subrange(1, points.len() as int), a)
    }
}

/// The first modifier point that has no point of the same label in the source.
pub open spec fn first_missing(s_points: Seq<AstView>, m_points: Seq<AstView>) -> Option<AstView>
    decreases m_points.len(),
{
    if m_points.len() == 0 {
        None
    } else if !spec_has_key(s_points, m_points[0]) {
        Some(m_points[0])
    } else {
        first_missing(s_points, m_points.subrange(1, m_points.len() as int))
    }
}

/// The source's points, each replaced by the modifier's point of the same label.
pub open spec fn merge_points(s_points: Seq<AstView>, m_points: Seq<AstView>) -> Seq<AstView> {
    s_points.map_values(
        |s: AstView|
            match spec_get_key(m_points, s) {
                Some(m) => m,
                None => s,
            },
    )
}

pub open spec fn graph_points(a: AstView) -> Seq<AstView> {
    match a {
        AstView::Graph(p) => p,
        _ => seq![],
    }
}

pub open spec fn new_env(parent: nat) -> Map<Seq<char>, EntryView> {
    Map::empty().insert(parent_label(), (parent as usize, AstView::Nothing, Seq::<String>::empty()))
}

/// The message of an expansion whose applications do not get shallower;
/// on well-formed environments it never arises.
pub open spec fn depth_message() -> Seq<char> {
    "expansion does not terminate"@
}

pub open spec fn spec_map(envs: EnvsView, a: AstView, parent: nat) -> (EnvsView, Result<AstView, Seq<char>>)
    decreases apply_depth(a), view_size(a), 0nat,
{
    match a {
        AstView::Graph(points) => {
            let index = envs.len();
            let (e2, r) = spec_map_points(envs.push(new_env(parent)), points, index);
            match r {
                Ok(xs) => (e2, Ok(AstView::Graph(xs))),
                Err(m) => (e2, Err(m)),
            }
        },
        AstView::Apply(source, modifier) => {
            let index = envs.len();
            let e1 = envs.push(new_env(parent));
            match spec_deref(e1, *source, parent) {
                Err(m) => (e1, Err(m)),
                Ok(entry) => {
                    let s_points = graph_points(entry.1);
                    let m_points = graph_points(*modifier);
                    match first_missing(s_points, m_points) {
                        Some(m) => (e1, Err(missing_point_text(m, s_points))),
                        None => {
                            let points = merge_points(s_points, m_points);
                            if seq_apply_depth(points) < apply_depth(a) {
                                let (e3, r) = spec_map_points(e1, points, index);
                                match r {
                                    Ok(xs) => (e3, Ok(AstView::Graph(xs))),
                                    Err(m) => (e3, Err(m)),
                                }
                            } else {
                                (e1, Err(depth_message()))
                            }
                        },
                    }
                },
            }
        },
        AstView::Key(label, point) => {
            let (e1, r) = spec_map(envs, *point, parent);
            match r {
                Ok(p) => (
                    e1.update(
                        parent as int,
                        e1[parent as int].insert(label, (parent as usize, p, Seq::<String>::empty())),
                    ),
                    Ok(AstView::Key(label, Box::new(p))),
                ),
                Err(m) => (e1, Err(m)),
            }
        },
        AstView::Ref(label) => (envs, Ok(AstView::Ref(label))),
        AstView::Op2(name, left, right) => {
            if name == Name::Select {
                match spec_deref(envs, *left, parent) {
                    Err(m) => (envs, Err(m)),
                    Ok(_) => (envs, Ok(AstView::Nothing)),
                }
            } else {
                let (e1, rl) = spec_map(envs, *left, parent);
                match rl {
                    Err(m) => (e1, Err(m)),
                    Ok(l) => {
                        let (e2, rr) = spec_map(e1, *right, parent);
                        match rr {
                            Err(m) => (e2, Err(m)),
                            Ok(r) => (e2, Ok(AstView::Op2(name, Box::new(l), Box::new(r)))),
                        }
                    },
                }
            }
        },
        AstView::Op1(name, operand) => {
            let (e1, r) = spec_map(envs, *operand, parent);
            match r {
                Ok(x) => (e1, Ok(AstView::Op1(name, Box::new(x)))),
                Err(m) => (e1, Err(m)),
            }
        },
        AstView::Space(sizes) => {
            let (e1, r) = spec_map_points(envs, sizes, parent);
            match r {
                Ok(xs) => (e1, Ok(AstView::Space(xs))),
                Err(m) => (e1, Err(m)),
            }
        },
        _ => (envs, Ok(a)),
    }
}

pub open spec fn spec_map_points(envs: EnvsView, points: Seq<AstView>, index: nat) -> (
    EnvsView,
    Result<Seq<AstView>, Seq<char>>,
)
    decreases seq_apply_depth(points), seq_size(points), 1nat,
{
    if points.len() == 0 {
        (envs, Ok(seq![]))
    } else {
        let (e1, r) = spec_map(envs, points[0], index);
        match r {
            Err(m) => (e1, Err(m)),
            Ok(x) => {
                proof {
                    lemma_view_size_pos(points[0]);
                }
                let (e2, rs) = spec_map_points(e1, points.subrange(1, points.len() as int), index);
                match rs {
                    Ok(xs) => (e2, Ok(seq![x] + xs)),
                    Err(m) => (e2, Err(m)),
                }
            },
        }
    }
}

/// The expansion of `ast` from a fresh set of environments.
pub open spec fn spec_expander(ast: AstView) -> (EnvsView, Result<AstView, Seq<char>>) {
    spec_map(seq![Map::empty()], ast, 0)
}

// ---------------------------------------------------------------------
// Where the expansion never returns: a lookup that reaches an environment
// whose parent link a point labelled with the parent label has replaced
// by a link to itself.

pub open spec fn lookup_aborts(envs: EnvsView, label: Seq<char>, env: nat) -> bool
    decreases env,
{
    if env == 0 || env >= envs.len() || envs[env as int].dom().contains(label) {
        false
    } else if envs[env as int].dom().contains(parent_label()) && envs[env as int][parent_label()].0 < env {
        lookup_aborts(envs, label, envs[env as int][parent_label()].0 as nat)
    } else {
        true
    }
}

pub open spec fn deref_aborts(envs: EnvsView, r: AstView, env: nat) -> bool {
    match r {
        AstView::Ref(label) => lookup_aborts(envs, label, env),
        _ => false,
    }
}

pub open spec fn map_aborts(envs: EnvsView, a: AstView, parent: nat) -> bool
    decreases apply_depth(a), view_size(a), 0nat,
{
    match a {
        AstView::Graph(points) => map_points_aborts(envs.push(new_env(parent)), points, envs.len()),
        AstView::Apply(source, modifier) => {
            let index = envs.len();
            let e1 = envs.push(new_env(parent));
            deref_aborts(e1, *source, parent) || match spec_deref(e1, *source, parent) {
                Err(_) => false,
                Ok(entry) => {
                    let s_points = graph_points(entry.1);
                    let m_points = graph_points(*modifier);
                    match first_missing(s_points, m_points) {
                        Some(_) => false,
                        None => {
                            let points = merge_points(s_points, m_points);
                            seq_apply_depth(points) < apply_depth(a) && map_points_aborts(e1, points, index)
                        },
                    }
                },
            }
        },
        AstView::Key(_, point) => map_aborts(envs, *point, parent),
        AstView::Op2(name, left, right) => if name == Name::Select {
            deref_aborts(envs, *left, parent) || match spec_deref(envs, *left, parent) {
                Ok(p) => deref_aborts(envs, *right, p.0 as nat),
                Err(_) => false,
            }
        } else {
            let (e1, rl) = spec_map(envs, *left, parent);
            map_aborts(envs, *left, parent) || match rl {
                Err(_) => false,
                Ok(_) => map_aborts(e1, *right, parent),
            }
        },
        AstView::Op1(_, operand) => map_aborts(envs, *operand, parent),
        AstView::Space(sizes) => map_points_aborts(envs, sizes, parent),
        _ => false,
    }
}

pub open spec fn map_points_aborts(envs: EnvsView, points: Seq<AstView>, index: nat) -> bool
    decreases seq_apply_depth(points), seq_size(points), 1nat,
{
    if points.len() == 0 {
        false
    } else {
        let (e1, r) = spec_map(envs, points[0], index);
        map_aborts(envs, points[0], index) || match r {
            Err(_) => false,
            Ok(_) => {
                proof {
                    lemma_view_size_pos(points[0]);
                }
                map_points_aborts(e1, points.subrange(1, points.len() as int), index)
            },
        }
    }
}

/// The expansion of `ast` from a fresh set of environments never returns.
pub open spec fn expander_aborts(ast: AstView) -> bool {
    map_aborts(seq![Map::empty()], ast, 0)
}

// ---------------------------------------------------------------------
// Laws

/// Mapping a list of points that succeeds gives one point for each.
pub proof fn lemma_map_points_len(envs: EnvsView, points: Seq<AstView>, index: nat)
    ensures
        spec_map_points(envs, points, index).1 matches Ok(xs) ==> xs.len() == points.len(),
    decreases points.len(),
{
    if points.len() > 0 {
        let (e1, r) = spec_map(envs, points[0], index);
        if r is Ok {
            lemma_map_points_len(e1, points.subrange(1, points.len() as int), index);
        }
    }
}

/// An application that succeeds gives a graph with as many points as the
/// graph its source names: the modifier only replaces points.
pub proof fn lemma_apply_keeps_shape(envs: EnvsView, source: AstView, modifier: AstView, parent: nat)
    ensures
        spec_map(envs, AstView::Apply(Box::new(source), Box::new(modifier)), parent).1 matches Ok(g) ==> (
        g matches AstView::Graph(xs) && spec_deref(envs.push(new_env(parent)), source, parent) matches Ok(
            entry,
        ) && xs.len() == graph_points(entry.1).len()),
{
    let e1 = envs.push(new_env(parent));
    if let Ok(entry) = spec_deref(e1, source, parent) {
        let points = merge_points(graph_points(entry.1), graph_points(modifier));
        lemma_map_points_len(e1, points, envs.len());
    }
}

/// A point that the search by label finds carries the label it was
/// searched by.
proof fn lemma_get_key_matches(points: Seq<AstView>, s: AstView)
    ensures
        spec_get_key(points, s) matches Some(m) ==> spec_key_match(m, s),
    decreases points.len(),
{
    if points.len() > 0 && !spec_key_match(points[0], s) {
        lemma_get_key_matches(points.subrange(1, points.len() as int), s);
    }
}

/// Mapping keeps the label of a labelled point.
proof fn lemma_map_points_labels(envs: EnvsView, points: Seq<AstView>, index: nat)
    ensures
        spec_map_points(envs, points, index).1 matches Ok(xs) ==> forall|k: int|
            0 <= k < points.len() && (#[trigger] points[k] is Key) ==> xs[k] is Key && xs[k]->Key_0
                == points[k]->Key_0,
    decreases points.len(),
{
    if points.len() > 0 {
        let (e1, r) = spec_map(envs, points[0], index);
        if let Ok(x) = r {
            let rest = points.subrange(1, points.len() as int);
            lemma_map_points_labels(e1, rest, index);
            lemma_map_points_len(e1, rest, index);
            if let Ok(xs) = spec_map_points(envs, points, index).1 {
                let tail = spec_map_points(e1, rest, index).1->Ok_0;
                assert(xs == seq![x] + tail);
                assert forall|k: int| 0 <= k < points.len() && (#[trigger] points[k] is Key) implies xs[k] is Key
                    && xs[k]->Key_0 == points[k]->Key_0 by {
                    if k > 0 {
                        assert(points[k] == rest[k - 1]);
                        assert(xs[k] == tail[k - 1]);
                    }
                }
            }
        }
    }
}

/// An application keeps the labels of its source, in order: where the
/// k-th point of the graph the source names is labelled, the k-th point of
/// the result carries the same label, whatever the modifier replaced.
pub proof fn lemma_apply_keeps_labels(envs: EnvsView, source: AstView, modifier: AstView, parent: nat)
    ensures
        spec_map(envs, AstView::Apply(Box::new(source), Box::new(modifier)), parent).1 matches Ok(g) ==> (
        g matches AstView::Graph(xs) && spec_deref(envs.push(new_env(parent)), source, parent) matches Ok(entry)
            && forall|k: int|
            0 <= k < graph_points(entry.1).len() && (#[trigger] graph_points(entry.1)[k] is Key) ==> xs[k] is Key
                && xs[k]->Key_0 == graph_points(entry.1)[k]->Key_0),
{
    let e1 = envs.push(new_env(parent));
    if let Ok(entry) = spec_deref(e1, source, parent) {
        let sp = graph_points(entry.1);
        let mp = graph_points(modifier);
        let points = merge_points(sp, mp);
        lemma_map_points_len(e1, points, envs.len());
        lemma_map_points_labels(e1, points, envs.len());
        assert forall|k: int| 0 <= k < sp.len() && (#[trigger] sp[k] is Key) implies points[k] is Key
            && points[k]->Key_0 == sp[k]->Key_0 by {
            lemma_get_key_matches(mp, sp[k]);
        }
    }
}

// ---------------------------------------------------------------------
// Lemmas on measures and shapes

pub proof fn lemma_seq_elem(s: Seq<AstView>, i: int)
    requires
        0 <= i < s.len(),
    ensures
        apply_depth(s[i]) <= seq_apply_depth(s),
        view_size(s[i]) <= seq_size(s),
    decreases s.len(),
{
    if i > 0 {
        let t = s.subrange(1, s.len() as int);
        lemma_seq_elem(t, i - 1);
        assert(t[i - 1] == s[i]);
    }
}

proof fn lemma_seq_from_elems(s: Seq<AstView>)
    ensures
        (forall|i: int| 0 <= i < s.len() ==> apply_depth(#[trigger] s[i]) == 0) ==> seq_apply_depth(s)
            == 0,
    decreases s.len(),
{
    if s.len() > 0 {
        let t = s.subrange(1, s.len() as int);
        lemma_seq_from_elems(t);
        assert forall|i: int| 0 <= i < t.len() implies #[trigger] t[i] == s[i + 1] by {}
    }
}

proof fn lemma_seq_depth_bound(s: Seq<AstView>, k: nat)
    requires
        forall|i: int| 0 <= i < s.len() ==> apply_depth(#[trigger] s[i]) <= k,
    ensures
        seq_apply_depth(s) <= k,
    decreases s.len(),
{
    if s.len() > 0 {
        let t = s.subrange(1, s.len() as int);
        assert forall|i: int| 0 <= i < t.len() implies apply_depth(#[trigger] t[i]) <= k by {
            assert(t[i] == s[i + 1]);
        }
        lemma_seq_depth_bound(t, k);
    }
}

/// Pushing a fresh environment whose parent exists keeps the environments
/// well formed.
proof fn lemma_push_env_wf(envs: EnvsView, parent: nat)
    requires
        envs_wf(envs),
        parent < envs.len(),
        parent <= usize::MAX,
    ensures
        envs_wf(envs.push(new_env(parent))),
{
    let e = envs.push(new_env(parent));
    assert forall|i: int, k: Seq<char>|
        0 <= i < e.len() && (#[trigger] e[i].dom().contains(k)) implies stored_ok(e[i][k], e.len() as nat) by {
        if i < envs.len() {
            assert(e[i] == envs[i]);
            assert(envs[i].dom().contains(k));
        } else {
            assert(k == parent_label());
        }
    }
    assert forall|i: int|
        1 <= i < e.len() implies (#[trigger] e[i]).dom().contains(parent_label()) && e[i][parent_label()].0
        <= i by {
        if i < envs.len() {
            assert(e[i] == envs[i]);
        }
    }
}

/// Binding a label in environment `parent` to a well-formed entry bound
/// there keeps the environments well formed.
proof fn lemma_bind_wf(envs: EnvsView, parent: nat, label: Seq<char>, v: EntryView)
    requires
        envs_wf(envs),
        parent < envs.len(),
        v.0 == parent,
        stored_ok(v, envs.len() as nat),
    ensures
        envs_wf(envs.update(parent as int, envs[parent as int].insert(label, v))),
{
    let e = envs.update(parent as int, envs[parent as int].insert(label, v));
    assert forall|i: int, k: Seq<char>|
        0 <= i < e.len() && (#[trigger] e[i].dom().contains(k)) implies stored_ok(e[i][k], e.len() as nat) by {
        if i != parent {
            assert(e[i] == envs[i]);
        } else if k != label {
            assert(envs[i].dom().contains(k));
        }
    }
    assert forall|i: int|
        1 <= i < e.len() implies (#[trigger] e[i]).dom().contains(parent_label()) && e[i][parent_label()].0
        <= i by {
        if i != parent {
            assert(e[i] == envs[i]);
        }
    }
}

/// A lookup in well-formed environments yields a well-formed entry.
proof fn lemma_lookup_stored(envs: EnvsView, label: Seq<char>, env: nat)
    requires
        envs_wf(envs),
    ensures
        spec_lookup(envs, label, env) matches Ok(v) ==> stored_ok(v, envs.len() as nat),
    decreases env,
{
    if env != 0 && env < envs.len() {
        if !envs[env as int].dom().contains(label) && envs[env as int].dom().contains(parent_label())
            && envs[env as int][parent_label()].0 < env {
            lemma_lookup_stored(envs, label, envs[env as int][parent_label()].0 as nat);
        }
    }
}

proof fn lemma_get_key_member(points: Seq<AstView>, s: AstView)
    ensures
        spec_get_key(points, s) matches Some(m) ==> exists|i: int| 0 <= i < points.len() && points[i] == m,
    decreases points.len(),
{
    if points.len() > 0 && !spec_key_match(points[0], s) {
        let t = points.subrange(1, points.len() as int);
        lemma_get_key_member(t, s);
        if let Some(m) = spec_get_key(t, s) {
            let i = choose|i: int| 0 <= i < t.len() && t[i] == m;
            assert(points[i + 1] == m);
        }
    }
}

proof fn lemma_merge_ok(sp: Seq<AstView>, mp: Seq<AstView>, d: nat)
    requires
        seq_apply_depth(sp) == 0,
        seq_apply_depth(mp) < d,
    ensures
        seq_apply_depth(merge_points(sp, mp)) < d,
{
    let merged = merge_points(sp, mp);
    assert forall|q: int| 0 <= q < merged.len() implies apply_depth(#[trigger] merged[q]) <= (d - 1) as nat by {
        lemma_get_key_member(mp, sp[q]);
        match spec_get_key(mp, sp[q]) {
            Some(m) => {
                let w = choose|w: int| 0 <= w < mp.len() && mp[w] == m;
                lemma_seq_elem(mp, w);
            },
            None => {
                lemma_seq_elem(sp, q);
            },
        }
    }
    lemma_seq_depth_bound(merged, (d - 1) as nat);
}

proof fn lemma_expanded_points(xs: Seq<Ast>)
    requires
        forall|j: int| 0 <= j < xs.len() ==> expanded(#[trigger] xs[j]@),
    ensures
        seq_apply_depth(asts_view(xs)) == 0,
{
    lemma_asts_view_len(xs);
    let xv = asts_view(xs);
    assert forall|j: int| 0 <= j < xv.len() implies apply_depth(#[trigger] xv[j]) == 0 by {
        lemma_asts_view_index(xs, j);
    }
    lemma_seq_from_elems(xv);
}

pub open spec fn prepend_done(done: Seq<AstView>, r: (EnvsView, Result<Seq<AstView>, Seq<char>>)) -> (
    EnvsView,
    Result<Seq<AstView>, Seq<char>>,
) {
    (
        r.0,
        match r.1 {
            Ok(xs) => Ok(done + xs),
            Err(m) => Err(m),
        },
    )
}

// ---------------------------------------------------------------------
// The expansion

fn key_match(point_a: &Ast, point_b: &Ast) -> (r: bool)
    ensures
        r == spec_key_match(point_a@, point_b@),
{
    match point_a {
        Ast::Key(label_a, _) => match point_b {
            Ast::Key(label_b, _) => *label_a == *label_b,
            _ => false,
        },
        _ => false,
    }
}

fn has_key(points: &Vec<Ast>, point_a: &Ast) -> (r: bool)
    ensures
        r == spec_has_key(asts_view(points@), point_a@),
{
    let ghost v = asts_view(points@);
    proof {
        lemma_asts_view_len(points@);
    }
    let mut i: usize = 0;
    while i < points.len()
        invariant
            i <= points@.len(),
            v == asts_view(points@),
            v.len() == points@.len(),
            forall|j: int| 0 <= j < i ==> !spec_key_match(#[trigger] v[j], point_a@),
        decreases points@.len() - i,
    {
        proof {
            lemma_asts_view_index(points@, i as int);
        }
        if key_match(&points[i], point_a) {
            assert(spec_key_match(v[i as int], point_a@));
            return true;
        }
        i = i + 1;
    }
    false
}

fn get_key(points: &Vec<Ast>, point_a: &Ast) -> (r: Option<Ast>)
    ensures
        match r {
            Some(a) => spec_get_key(asts_view(points@), point_a@) == Some(a@),
            None => spec_get_key(asts_view(points@), point_a@) is None,
        },
{
    let ghost v = asts_view(points@);
    proof {
        lemma_asts_view_len(points@);
        assert(v.subrange(0, v.len() as int) =~= v);
    }
    let mut i: usize = 0;
    while i < points.len()
        invariant
            i <= points@.len(),
            v == asts_view(points@),
            v.len() == points@.len(),
            spec_get_key(v, point_a@) == spec_get_key(v.subrange(i as int, v.len() as int), point_a@),
        decreases points@.len() - i,
    {
        proof {
            lemma_asts_view_index(points@, i as int);
            let t = v.subrange(i as int, v.len() as int);
            assert(t[0] == v[i as int]);
            assert(t.subrange(1, t.len() as int) =~= v.subrange(i + 1, v.len() as int));
        }
        if key_match(&points[i], point_a) {
            return Some(points[i].deep_clone());
        }
        i = i + 1;
    }
    None
}

fn parent_key() -> (r: String)
    ensures
        r@ == parent_label(),
{
    "<parent>".to_string()
}

impl Parse {
    /// The entry that a reference names, seen from environment `env`.
    fn deref(&self, ref_: &Ast, env: usize) -> (r: Result<&Entry, String>)
        requires
            envs_wf(envs_view(self.envs@)),
            env < self.envs@.len(),
            !deref_aborts(envs_view(self.envs@), ref_@, env as nat),
        ensures
            match r {
                Ok(e) => spec_deref(envs_view(self.envs@), ref_@, env as nat) == Ok::<EntryView, Seq<char>>(
                    entry_view(*e),
                ),
                Err(m) => spec_deref(envs_view(self.envs@), ref_@, env as nat) == Err::<EntryView, Seq<char>>(
                    m@,
                ),
            },
    {
        match ref_ {
            Ast::Ref(label) => self.lookup(label, env),
            _ => Err(not_reference_message(ref_)),
        }
    }

    /// The entry of `label` seen from environment `env`.
    fn lookup(&self, label: &String, env: usize) -> (r: Result<&Entry, String>)
        requires
            envs_wf(envs_view(self.envs@)),
            env < self.envs@.len(),
            !lookup_aborts(envs_view(self.envs@), label@, env as nat),
        ensures
            match r {
                Ok(e) => spec_lookup(envs_view(self.envs@), label@, env as nat) == Ok::<EntryView, Seq<char>>(
                    entry_view(*e),
                ),
                Err(m) => spec_lookup(envs_view(self.envs@), label@, env as nat) == Err::<EntryView, Seq<char>>(
                    m@,
                ),
            },
        decreases env,
    {
        let ghost v = envs_view(self.envs@);
        if env == 0 {
            return Err(undefined_point_message(label));
        }
        assert(v[env as int] == self.envs@[env as int]@.map_values(|x: Entry| entry_view(x)));
        match self.envs[env].get(label) {
            Some(result) => Ok(result),
            None => {
                assert(v[env as int].dom().contains(parent_label()));
                let link = match self.envs[env].get(&parent_key()) {
                    Some(l) => l.0,
                    None => {
                        proof {
                            assert(false);
                        }
                        0
                    },
                };
                self.lookup(label, link)
            },
        }
    }

    /// Binds `label` to `entry` in environment `env`.
    fn bind(&mut self, env: usize, label: String, entry: Entry)
        requires
            env < old(self).envs@.len(),
        ensures
            final(self).envs@.len() == old(self).envs@.len(),
            envs_view(final(self).envs@) == envs_view(old(self).envs@).update(
                env as int,
                envs_view(old(self).envs@)[env as int].insert(label@, entry_view(entry)),
            ),
    {
        let ghost l = label@;
        let ghost ev = entry_view(entry);
        self.envs[env].insert(label, entry);
        assert(self.envs@[env as int]@.map_values(|x: Entry| entry_view(x)) =~= envs_view(old(self).envs@)[env as int].insert(l, ev));
        assert(envs_view(self.envs@) =~= envs_view(old(self).envs@).update(
            env as int,
            envs_view(old(self).envs@)[env as int].insert(l, ev),
        ));
    }

    /// Adds a fresh environment whose parent is `parent`.
    fn push_env(&mut self, parent: usize)
        ensures
            envs_view(final(self).envs@) == envs_view(old(self).envs@).push(new_env(parent as nat)),
            final(self).envs@.len() == old(self).envs@.len() + 1,
    {
        let mut env: Env<Entry> = Env::new();
        env.insert(parent_key(), (parent, Ast::Nothing, Vec::new()));
        let ghost ev = env@;
        self.envs.push(env);
        assert(ev.map_values(|x: Entry| entry_view(x)) =~= new_env(parent as nat));
        assert(envs_view(self.envs@) =~= envs_view(old(self).envs@).push(new_env(parent as nat)));
    }
}

impl Parse {
    #[verifier::loop_isolation(false)]
    fn map_points(&mut self, points: &Vec<Ast>, index: usize) -> (r: Result<Vec<Ast>, String>)
        requires
            envs_wf(envs_view(old(self).envs@)),
            index < old(self).envs@.len(),
            !map_points_aborts(envs_view(old(self).envs@), asts_view(points@), index as nat),
        ensures
            envs_wf(envs_view(final(self).envs@)),
            final(self).envs@.len() >= old(self).envs@.len(),
            spec_map_points(envs_view(old(self).envs@), asts_view(points@), index as nat).0 == envs_view(
                final(self).envs@,
            ),
            match r {
                Ok(xs) => spec_map_points(envs_view(old(self).envs@), asts_view(points@), index as nat).1
                    == Ok::<Seq<AstView>, Seq<char>>(asts_view(xs@)) && forall|j: int|
                    0 <= j < xs@.len() ==> expanded(#[trigger] xs@[j]@),
                Err(m) => spec_map_points(envs_view(old(self).envs@), asts_view(points@), index as nat).1
                    == Err::<Seq<AstView>, Seq<char>>(m@),
            },
        decreases seq_apply_depth(asts_view(points@)), seq_size(asts_view(points@)), 2nat,
    {
        let ghost pv = asts_view(points@);
        let ghost e0 = envs_view(self.envs@);
        let mut out: Vec<Ast> = Vec::new();
        let mut i: usize = 0;
        proof {
            lemma_asts_view_len(points@);
            assert(pv.subrange(0, pv.len() as int) =~= pv);
            assert(asts_view(out@) =~= seq![]);
            assert(prepend_done(seq![], spec_map_points(e0, pv, index as nat)) == spec_map_points(
                e0,
                pv,
                index as nat,
            ));
        }
        while i < points.len()
            invariant
                i <= points@.len(),
                e0 == envs_view(old(self).envs@),
                pv == asts_view(points@),
                pv.len() == points@.len(),
                !map_points_aborts(envs_view(self.envs@), pv.subrange(i as int, pv.len() as int), index as nat),
                index < self.envs@.len(),
                envs_wf(envs_view(self.envs@)),
                self.envs@.len() >= e0.len(),
                spec_map_points(e0, pv, index as nat) == prepend_done(
                    asts_view(out@),
                    spec_map_points(envs_view(self.envs@), pv.subrange(i as int, pv.len() as int), index as nat),
                ),
                forall|j: int| 0 <= j < out@.len() ==> expanded(#[trigger] out@[j]@),
                seq_apply_depth(pv) == seq_apply_depth(asts_view(points@)),
            decreases points@.len() - i,
        {
            let ghost rest = pv.subrange(i as int, pv.len() as int);
            proof {
                lemma_asts_view_index(points@, i as int);
                lemma_seq_elem(pv, i as int);
                assert(rest[0] == pv[i as int]);
                assert(rest.subrange(1, rest.len() as int) =~= pv.subrange(i + 1, pv.len() as int));
            }
            match self.map(&points[i], index) {
                Err(m) => {
                    return Err(m);
                },
                Ok(x) => {
                    let ghost done = asts_view(out@);
                    let ghost xv = x@;
                    proof {
                        lemma_asts_view_push(out@, x);
                        let tail = spec_map_points(
                            envs_view(self.envs@),
                            pv.subrange(i + 1, pv.len() as int),
                            index as nat,
                        );
                        match tail.1 {
                            Ok(xs) => {
                                assert(done + (seq![xv] + xs) =~= done.push(xv) + xs);
                            },
                            Err(_) => {},
                        }
                    }
                    out.push(x);
                    i = i + 1;
                },
            }
        }
        proof {
            assert(pv.subrange(i as int, pv.len() as int) =~= Seq::<AstView>::empty());
            assert(asts_view(out@) + Seq::<AstView>::empty() =~= asts_view(out@));
        }
        Ok(out)
    }

    #[verifier::loop_isolation(false)]
    fn map(&mut self, ast: &Ast, parent: usize) -> (r: Result<Ast, String>)
        requires
            envs_wf(envs_view(old(self).envs@)),
            parent < old(self).envs@.len(),
            !map_aborts(envs_view(old(self).envs@), ast@, parent as nat),
        ensures
            envs_wf(envs_view(final(self).envs@)),
            final(self).envs@.len() >= old(self).envs@.len(),
            spec_map(envs_view(old(self).envs@), ast@, parent as nat).0 == envs_view(final(self).envs@),
            match r {
                Ok(a) => spec_map(envs_view(old(self).envs@), ast@, parent as nat).1 == Ok::<
                    AstView,
                    Seq<char>,
                >(a@) && expanded(a@),
                Err(m) => spec_map(envs_view(old(self).envs@), ast@, parent as nat).1 == Err::<
                    AstView,
                    Seq<char>,
                >(m@),
            },
        decreases apply_depth(ast@), view_size(ast@), 1nat,
    {
        let ghost e0 = envs_view(self.envs@);
        match ast {
            Ast::Graph(points) => {
                let index = self.envs.len();
                proof {
                    lemma_push_env_wf(e0, parent as nat);
                }
                self.push_env(parent);
                match self.map_points(points, index) {
                    Ok(xs) => {
                        proof {
                            lemma_expanded_points(xs@);
                        }
                        Ok(Ast::Graph(xs))
                    },
                    Err(m) => Err(m),
                }
            },
            Ast::Apply(source, modifier) => self.map_apply(ast, source, modifier, parent),
            Ast::Key(label, point) => {
                match self.map(point, parent) {
                    Err(m) => Err(m),
                    Ok(p) => {
                        let entry: Entry = (parent, p.deep_clone(), Vec::new());
                        proof {
                            assert(entry_view(entry) == (parent, p@, Seq::<String>::empty()));
                            lemma_bind_wf(envs_view(self.envs@), parent as nat, label@, entry_view(entry));
                        }
                        self.bind(parent, label.clone(), entry);
                        Ok(Ast::Key(label.clone(), Box::new(p)))
                    },
                }
            },
            Ast::Ref(label) => Ok(Ast::Ref(label.clone())),
            Ast::Op2(name, left, right) => {
                if *name == Name::Select {
                    let p = match self.deref(left, parent) {
                        Ok(p) => p,
                        Err(m) => {
                            return Err(m);
                        },
                    };
                    proof {
                        match left@ {
                            AstView::Ref(lb) => lemma_lookup_stored(envs_view(self.envs@), lb, parent as nat),
                            _ => {},
                        }
                    }
                    let _k = self.deref(right, p.0);
                    Ok(Ast::Nothing)
                } else {
                    let l = match self.map(left, parent) {
                        Ok(x) => x,
                        Err(m) => {
                            return Err(m);
                        },
                    };
                    let r = match self.map(right, parent) {
                        Ok(x) => x,
                        Err(m) => {
                            return Err(m);
                        },
                    };
                    Ok(Ast::Op2(*name, Box::new(l), Box::new(r)))
                }
            },
            Ast::Op1(name, operand) => match self.map(operand, parent) {
                Ok(x) => Ok(Ast::Op1(*name, Box::new(x))),
                Err(m) => Err(m),
            },
            Ast::Op0(name) => Ok(Ast::Op0(*name)),
            Ast::Space(sizes) => match self.map_points(sizes, parent) {
                Ok(xs) => {
                    proof {
                        lemma_expanded_points(xs@);
                    }
                    Ok(Ast::Space(xs))
                },
                Err(m) => Err(m),
            },
            Ast::Decimal(i) => Ok(Ast::Decimal(i.clone())),
            Ast::Integer(i) => Ok(Ast::Integer(i.clone())),
            Ast::String(i) => Ok(Ast::String(i.clone())),
            Ast::Clock(t, i) => Ok(Ast::Clock(t.clone(), *i)),
            Ast::Size(i) => Ok(Ast::Size(*i)),
            Ast::Nothing => Ok(Ast::Nothing),
        }
    }

    #[verifier::loop_isolation(false)]
    fn map_apply(&mut self, ast: &Ast, source: &Ast, modifier: &Ast, parent: usize) -> (r: Result<Ast, String>)
        requires
            envs_wf(envs_view(old(self).envs@)),
            parent < old(self).envs@.len(),
            !map_aborts(envs_view(old(self).envs@), ast@, parent as nat),
            ast@ == AstView::Apply(Box::new(source@), Box::new(modifier@)),
        ensures
            envs_wf(envs_view(final(self).envs@)),
            final(self).envs@.len() >= old(self).envs@.len(),
            spec_map(envs_view(old(self).envs@), ast@, parent as nat).0 == envs_view(final(self).envs@),
            match r {
                Ok(a) => spec_map(envs_view(old(self).envs@), ast@, parent as nat).1 == Ok::<
                    AstView,
                    Seq<char>,
                >(a@) && expanded(a@),
                Err(m) => spec_map(envs_view(old(self).envs@), ast@, parent as nat).1 == Err::<
                    AstView,
                    Seq<char>,
                >(m@),
            },
        decreases apply_depth(ast@), view_size(ast@), 0nat,
    {
        let ghost e0 = envs_view(self.envs@);
        let index = self.envs.len();
        proof {
            lemma_push_env_wf(e0, parent as nat);
        }
        self.push_env(parent);
        let ghost e1 = envs_view(self.envs@);
        let s_points: Vec<Ast> = match self.deref(source, parent) {
            Err(m) => {
                return Err(m);
            },
            Ok(sv) => {
                proof {
                    match source@ {
                        AstView::Ref(label) => lemma_lookup_stored(e1, label, parent as nat),
                        _ => {},
                    }
                    assert(stored_ok(entry_view(*sv), e1.len() as nat));
                }
                let sp0 = match &sv.1 {
                    Ast::Graph(pts) => clone_asts(pts),
                    _ => Vec::new(),
                };
                proof {
                    assert(asts_view(sp0@) == graph_points(sv.1@)) by {
                        if !(sv.1@ is Graph) {
                            assert(asts_view(sp0@) =~= Seq::<AstView>::empty());
                        }
                    }
                    assert(seq_apply_depth(asts_view(sp0@)) == 0);
                }
                sp0
            },
        };
        let m_points: Vec<Ast> = match modifier {
            Ast::Graph(pts) => clone_asts(pts),
            _ => Vec::new(),
        };
        proof {
            assert(asts_view(m_points@) == graph_points(modifier@)) by {
                if !(modifier@ is Graph) {
                    assert(asts_view(m_points@) =~= Seq::<AstView>::empty());
                }
            }
        }
        let ghost sp = asts_view(s_points@);
        let ghost mp = asts_view(m_points@);
        proof {
            lemma_asts_view_len(s_points@);
            lemma_asts_view_len(m_points@);
            assert(mp.subrange(0, mp.len() as int) =~= mp);
        }
        let mut j: usize = 0;
        while j < m_points.len()
            invariant
                j <= m_points@.len(),
                mp == asts_view(m_points@),
                sp == asts_view(s_points@),
                mp.len() == m_points@.len(),
                first_missing(sp, mp) == first_missing(sp, mp.subrange(j as int, mp.len() as int)),
            decreases m_points@.len() - j,
        {
            proof {
                lemma_asts_view_index(m_points@, j as int);
                let t = mp.subrange(j as int, mp.len() as int);
                assert(t[0] == mp[j as int]);
                assert(t.subrange(1, t.len() as int) =~= mp.subrange(j + 1, mp.len() as int));
            }
            if !has_key(&s_points, &m_points[j]) {
                return Err(missing_point_message(&m_points[j], &s_points));
            }
            j = j + 1;
        }
        proof {
            assert(mp.subrange(j as int, mp.len() as int) =~= Seq::<AstView>::empty());
        }
        let mut points: Vec<Ast> = Vec::new();
        let mut k: usize = 0;
        while k < s_points.len()
            invariant
                k <= s_points@.len(),
                sp == asts_view(s_points@),
                mp == asts_view(m_points@),
                sp.len() == s_points@.len(),
                points@.len() == k,
                forall|q: int| 0 <= q < k ==> (#[trigger] points@[q])@ == merge_points(sp, mp)[q],
            decreases s_points@.len() - k,
        {
            proof {
                lemma_asts_view_index(s_points@, k as int);
            }
            let p = match get_key(&m_points, &s_points[k]) {
                Some(p) => p,
                None => s_points[k].deep_clone(),
            };
            points.push(p);
            k = k + 1;
        }
        let ghost merged = merge_points(sp, mp);
        proof {
            lemma_asts_view_len(points@);
            assert forall|q: int| 0 <= q < merged.len() implies asts_view(points@)[q] == merged[q] by {
                lemma_asts_view_index(points@, q);
            }
            assert(asts_view(points@) =~= merged);
            let d = apply_depth(ast@);
            assert(d == 1 + max_nat(apply_depth(source@), apply_depth(modifier@)));
            assert(seq_apply_depth(mp) < d) by {
                if let AstView::Graph(pts) = modifier@ {
                    assert(mp == pts);
                    assert(apply_depth(modifier@) == seq_apply_depth(pts));
                } else {
                    assert(mp =~= Seq::<AstView>::empty());
                }
            }
            lemma_merge_ok(sp, mp, d);
        }
        match self.map_points(&points, index) {
            Ok(xs) => {
                proof {
                    lemma_expanded_points(xs@);
                }
                Ok(Ast::Graph(xs))
            },
            Err(m) => Err(m),
        }
    }
}

/// Expands `ast` from a fresh set of environments, whose first entry
/// stands for "no parent". On success it returns the expanded tree and
/// the environments, in which every kept point is expanded (no
/// applications remain) and every environment after the first links to an
/// earlier one or, where a point labelled with the parent label took the
/// link's place, to itself. It never returns where a lookup reaches such
/// an environment; `requires` leaves out exactly those trees.
pub fn expander(ast: &Ast) -> (r: Result<(Ast, Maps), String>)
    requires
        !expander_aborts(ast@),
    ensures
        match r {
            Ok((a, m)) => spec_expander(ast@) == (envs_view(m@), Ok::<AstView, Seq<char>>(a@)),
            Err(e) => spec_expander(ast@).1 == Err::<AstView, Seq<char>>(e@),
        },
        r matches Ok((a, m)) ==> expanded(a@) && envs_wf(envs_view(m@)),
{
    let mut parse = Parse { envs: Vec::new() };
    parse.envs.push(Env::new());
    proof {
        assert(parse.envs@[0]@.map_values(|x: Entry| entry_view(x)) =~= Map::<Seq<char>, EntryView>::empty());
        assert(envs_view(parse.envs@) =~= seq![Map::<Seq<char>, EntryView>::empty()]);
    }
    let a = parse.map(ast, 0)?;
    Ok((a, parse.envs))
}


/// A tree with no application and no selection: expansion gives it back as
/// it is (though labels still bind and graphs still open environments).
pub open spec fn unapplied(a: AstView) -> bool
    decreases a,
{
    match a {
        AstView::Graph(s) => all_unapplied(s),
        AstView::Space(s) => all_unapplied(s),
        AstView::Apply(_, _) => false,
        AstView::Key(_, p) => unapplied(*p),
        AstView::Op2(n, x, y) => n != Name::Select && unapplied(*x) && unapplied(*y),
        AstView::Op1(_, x) => unapplied(*x),
        _ => true,
    }
}

pub open spec fn all_unapplied(s: Seq<AstView>) -> bool
    decreases s,
{
    s.len() == 0 || (unapplied(s[0]) && all_unapplied(s.subrange(1, s.len() as int)))
}

/// Expansion keeps a tree with no application and no selection as it is:
/// every point, operator, operand, label and literal in its place.
pub proof fn lemma_map_unapplied(envs: EnvsView, a: AstView, parent: nat)
    requires
        unapplied(a),
    ensures
        spec_map(envs, a, parent).1 == Ok::<AstView, Seq<char>>(a),
    decreases a,
{
    match a {
        AstView::Graph(s) => lemma_map_points_unapplied(envs.push(new_env(parent)), s, envs.len()),
        AstView::Space(s) => lemma_map_points_unapplied(envs, s, parent),
        AstView::Key(_, p) => lemma_map_unapplied(envs, *p, parent),
        AstView::Op2(_, x, y) => {
            lemma_map_unapplied(envs, *x, parent);
            lemma_map_unapplied(spec_map(envs, *x, parent).0, *y, parent);
        },
        AstView::Op1(_, x) => lemma_map_unapplied(envs, *x, parent),
        _ => {},
    }
}

/// The points-list form of `lemma_map_unapplied`.
pub proof fn lemma_map_points_unapplied(envs: EnvsView, s: Seq<AstView>, index: nat)
    requires
        all_unapplied(s),
    ensures
        spec_map_points(envs, s, index).1 == Ok::<Seq<AstView>, Seq<char>>(s),
    decreases s,
{
    if s.len() > 0 {
        lemma_map_unapplied(envs, s[0], index);
        let rest = s.subrange(1, s.len() as int);
        lemma_map_points_unapplied(spec_map(envs, s[0], index).0, rest, index);
        assert(seq![s[0]] + rest =~= s);
    } else {
        assert(s =~= Seq::<AstView>::empty());
    }
}

} // verus!
