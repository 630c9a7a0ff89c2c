//! Normalization of a parsed tree: every graph opens an environment of its
//! own, linked to the environment it stands in, and every labelled point
//! is recorded in the environment of the graph that holds it. The tree
//! that comes back keeps graphs, binary operators, labels and integers;
//! anything else is refused.
use super::tokenizer::Name;
use crate::garbage::parser3::{
    asts_view, lemma_asts_view_index, lemma_asts_view_len, lemma_asts_view_push, Ast, AstView,
};
use crate::env::{undefined_point_message, undefined_point_text, Env};
use vstd::prelude::*;

verus! {

/// What an environment keeps for a label: the environment it was bound
/// in, the normalized point, and the labels of the points that depend on it.
pub type Entry = (usize, Ast, Vec<String>);

/// The environments of a normalization. Environment 0 is the top level;
/// every later one holds a link to the one it was opened in.
pub struct Parse {
    envs: Vec<Env<Entry>>,
}

/// The graph of normalized points; it holds nothing yet.
pub struct Graph {}

/// The environments as maps.
pub open spec fn envs_view(envs: Seq<Env<Entry>>) -> Seq<Map<Seq<char>, Entry>> {
    envs.map_values(|e: Env<Entry>| e@)
}

/// The label under which an environment keeps its parent link.
pub open spec fn parent_label() -> Seq<char> {
    "<parent>"@
}

/// Every environment after the first links to one before it.
pub open spec fn links_ok(envs: Seq<Map<Seq<char>, Entry>>) -> bool {
    forall|i: int|
        1 <= i < envs.len() ==> (#[trigger] envs[i]).dom().contains(parent_label()) && envs[i][parent_label()].0
            < i
}

// ---------------------------------------------------------------------
// Measures and shapes of trees

pub open spec fn tree_size(a: AstView) -> nat
    decreases a,
{
    match a {
        AstView::Graph(s) => 1 + trees_size(s),
        AstView::Space(s) => 1 + trees_size(s),
        AstView::Apply(x, y) => 1 + tree_size(*x) + tree_size(*y),
        AstView::Op2(_, x, y) => 1 + tree_size(*x) + tree_size(*y),
        AstView::Op1(_, x) => 1 + tree_size(*x),
        _ => 1,
    }
}

pub open spec fn trees_size(s: Seq<AstView>) -> nat
    decreases s,
{
    if s.len() == 0 {
        0
    } else {
        tree_size(s[0]) + trees_size(s.subrange(1, s.len() as int))
    }
}

/// No label in the tree is the parent label.
pub open spec fn no_parent_label(a: AstView) -> bool
    decreases a,
{
    match a {
        AstView::Graph(s) => all_no_parent_label(s),
        AstView::Op2(n, x, y) => (n == Name::Label ==> match *x {
            AstView::Word(l) => l != parent_label(),
            _ => true,
        }) && no_parent_label(*x) && no_parent_label(*y),
        _ => true,
    }
}

pub open spec fn all_no_parent_label(s: Seq<AstView>) -> bool
    decreases s,
{
    s.len() == 0 || (no_parent_label(s[0]) && all_no_parent_label(s.subrange(1, s.len() as int)))
}

proof fn lemma_elem(s: Seq<AstView>, i: int)
    requires
        0 <= i < s.len(),
    ensures
        tree_size(s[i]) <= trees_size(s),
        all_no_parent_label(s) ==> no_parent_label(s[i]),
    decreases s.len(),
{
    if i > 0 {
        let t = s.subrange(1, s.len() as int);
        lemma_elem(t, i - 1);
        assert(t[i - 1] == s[i]);
    }
}

// ---------------------------------------------------------------------
// What normalization gives

pub uninterp spec fn invalid_label_text(x: AstView) -> Seq<char>;

pub uninterp spec fn no_op1_match_text(name: Name) -> Seq<char>;

pub uninterp spec fn no_space_match_text(sizes: Seq<AstView>) -> Seq<char>;

pub uninterp spec fn no_match_text(x: AstView) -> Seq<char>;

/// The normalized tree, or the first refusal met in a left-to-right walk.
pub open spec fn spec_walk(a: AstView) -> Result<AstView, Seq<char>>
    decreases a,
{
    match a {
        AstView::Graph(points) => match spec_walk_points(points) {
            Ok(xs) => Ok(AstView::Graph(xs)),
            Err(m) => Err(m),
        },
        AstView::Op2(name, left, right) => if name == Name::Label {
            match *left {
                AstView::Word(_) => match spec_walk(*right) {
                    Ok(r) => Ok(AstView::Op2(name, left, Box::new(r))),
                    Err(m) => Err(m),
                },
                x => Err(invalid_label_text(x)),
            }
        } else {
            match spec_walk(*left) {
                Err(m) => Err(m),
                Ok(l) => match spec_walk(*right) {
                    Err(m) => Err(m),
                    Ok(r) => Ok(AstView::Op2(name, Box::new(l), Box::new(r))),
                },
            }
        },
        AstView::Op1(name, _) => Err(no_op1_match_text(name)),
        AstView::Space(sizes) => Err(no_space_match_text(sizes)),
        AstView::Integer(i) => Ok(AstView::Integer(i)),
        x => Err(no_match_text(x)),
    }
}

pub open spec fn spec_walk_points(s: Seq<AstView>) -> Result<Seq<AstView>, Seq<char>>
    decreases s,
{
    if s.len() == 0 {
        Ok(seq![])
    } else {
        match spec_walk(s[0]) {
            Err(m) => Err(m),
            Ok(x) => match spec_walk_points(s.subrange(1, s.len() as int)) {
                Err(m) => Err(m),
                Ok(xs) => Ok(seq![x] + xs),
            },
        }
    }
}

pub open spec fn prepend_done(done: Seq<AstView>, r: Result<Seq<AstView>, Seq<char>>) -> Result<
    Seq<AstView>,
    Seq<char>,
> {
    match r {
        Ok(xs) => Ok(done + xs),
        Err(m) => Err(m),
    }
}

/// The entry of `label` seen from environment `env`: its own binding, or
/// else the one seen from its parent; from environment 0 it is undefined.
pub open spec fn spec_lookup(envs: Seq<Map<Seq<char>, Entry>>, label: Seq<char>, env: nat) -> Result<
    Entry,
    Seq<char>,
>
    decreases env,
{
    if env == 0 {
        Err(undefined_point_text(label))
    } else if env < envs.len() && envs[env as int].dom().contains(label) {
        Ok(envs[env as int][label])
    } else if env < envs.len() && envs[env as int].dom().contains(parent_label())
        && envs[env as int][parent_label()].0 < env {
        spec_lookup(envs, label, envs[env as int][parent_label()].0 as nat)
    } else {
        Err(seq![])
    }
}

/// What an entry holds, by views: the environment it was bound in, the
/// normalized point, the labels that depend on it.
pub type EntryView = (usize, AstView, Seq<String>);

/// An environment's entries by views.
pub open spec fn env_entries(m: Map<Seq<char>, Entry>) -> Map<Seq<char>, EntryView> {
    m.map_values(|e: Entry| (e.0, e.1@, e.2@))
}

/// The entries that walking `a` in environment `p` leaves in `m`: every
/// label met outside a nested graph binds the normalized point to its
/// right, with no dependents yet, a later binding replacing an earlier one.
pub open spec fn bind_walk(a: AstView, m: Map<Seq<char>, EntryView>, p: usize) -> Map<
    Seq<char>,
    EntryView,
>
    decreases a,
{
    match a {
        AstView::Op2(n, x, y) => if n == Name::Label {
            let m1 = bind_walk(*y, m, p);
            match *x {
                AstView::Word(l) => match spec_walk(*y) {
                    Ok(v) => m1.insert(l, (p, v, Seq::empty())),
                    Err(_) => m1,
                },
                _ => m1,
            }
        } else {
            bind_walk(*y, bind_walk(*x, m, p), p)
        },
        _ => m,
    }
}

/// The entries that walking the points `s` in turn, in environment `p`,
/// leaves in `m`.
pub open spec fn bind_points(s: Seq<AstView>, m: Map<Seq<char>, EntryView>, p: usize) -> Map<
    Seq<char>,
    EntryView,
>
    decreases s.len(),
{
    if s.len() == 0 {
        m
    } else {
        bind_walk(s.last(), bind_points(s.drop_last(), m, p), p)
    }
}

/// The environment that a graph opens in environment `parent`, before its
/// points are walked: a link to `parent` alone.
pub open spec fn opened_env(parent: usize) -> Map<Seq<char>, EntryView> {
    Map::empty().insert(parent_label(), (parent, AstView::Nothing, Seq::empty()))
}

pub open spec fn walk_result(r: Result<Ast, String>) -> Result<AstView, Seq<char>> {
    match r {
        Ok(a) => Ok(a@),
        Err(m) => Err(m@),
    }
}

pub open spec fn walk_points_result(r: Result<Vec<Ast>, String>) -> Result<Seq<AstView>, Seq<char>> {
    match r {
        Ok(a) => Ok(asts_view(a@)),
        Err(m) => Err(m@),
    }
}

/// Formats `Invalid label ${x:?}`.
#[verifier::external_body]
fn invalid_label_message(x: &Ast) -> (r: String)
    ensures
        r@ == invalid_label_text(x@),
{
    format!("Invalid label ${:?}", x)
}

/// Formats `No match defined for Op1 {name:?}`.
#[verifier::external_body]
fn no_op1_match_message(name: Name) -> (r: String)
    ensures
        r@ == no_op1_match_text(name),
{
    format!("No match defined for Op1 {:?}", name)
}

/// Formats `No match defined for Space {sizes:?}`.
#[verifier::external_body]
fn no_space_match_message(sizes: &Vec<Ast>) -> (r: String)
    ensures
        r@ == no_space_match_text(asts_view(sizes@)),
{
    format!("No match defined for Space {:?}", sizes)
}

/// Formats `No match defined for {x:?}`.
#[verifier::external_body]
fn no_match_message(x: &Ast) -> (r: String)
    ensures
        r@ == no_match_text(x@),
{
    format!("No match defined for {:?}", x)
}

/// The parent label as a string.
fn parent_key() -> (r: String)
    ensures
        r@ == parent_label(),
{
    "<parent>".to_string()
}

// ---------------------------------------------------------------------
// The walk

impl Parse {
    pub closed spec fn envs(&self) -> Seq<Map<Seq<char>, Entry>> {
        envs_view(self.envs@)
    }

    fn walk(&mut self, ast: &Ast, parent: usize) -> (r: Result<Ast, String>)
        requires
            parent < old(self).envs@.len(),
        ensures
            final(self).envs@.len() >= old(self).envs@.len(),
            links_ok(old(self).envs()) && no_parent_label(ast@) ==> links_ok(final(self).envs()),
            walk_result(r) == spec_walk(ast@),
            forall|i: int|
                0 <= i < old(self).envs().len() && i != parent ==> #[trigger] final(self).envs()[i]
                    == old(self).envs()[i],
            r is Ok ==> env_entries(final(self).envs()[parent as int]) == bind_walk(
                ast@,
                env_entries(old(self).envs()[parent as int]),
                parent,
            ),
            ast@ is Graph && r is Ok ==> final(self).envs().len() > old(self).envs().len()
                && env_entries(final(self).envs()[old(self).envs().len() as int]) == bind_points(
                ast@->Graph_0,
                opened_env(parent),
                old(self).envs().len() as usize,
            ),
        decreases tree_size(ast@), 1nat,
    {
        match ast {
            Ast::Graph(points) => {
                let index = self.envs.len();
                let mut env: Env<Entry> = Env::new();
                env.insert(parent_key(), (parent, Ast::Nothing, Vec::new()));
                let ghost before = self.envs();
                self.envs.push(env);
                proof {
                    assert(self.envs().len() == before.len() + 1);
                    assert forall|i: int| 0 <= i < before.len() implies #[trigger] self.envs()[i]
                        == before[i] by {}
                    assert(self.envs()[index as int] == env@);
                    if links_ok(before) {
                        assert forall|i: int| 1 <= i < self.envs().len() implies (#[trigger] self.envs()[i]).dom().contains(
                            parent_label(),
                        ) && self.envs()[i][parent_label()].0 < i by {
                            if i < before.len() {
                                assert(self.envs()[i] == before[i]);
                            }
                        }
                    }
                }
                proof {
                    assert(env_entries(self.envs()[index as int]) =~= opened_env(parent));
                }
                let r = self.walk_points(points, index);
                match r {
                    Ok(xs) => Ok(Ast::Graph(xs)),
                    Err(m) => Err(m),
                }
            },
            Ast::Op2(name, left, right) => {
                if *name == Name::Label {
                    let label = match &**left {
                        Ast::Word(l) => l.clone(),
                        x => {
                            return Err(invalid_label_message(x));
                        },
                    };
                    let right = match self.walk(right, parent) {
                        Ok(x) => x,
                        Err(m) => {
                            return Err(m);
                        },
                    };
                    let ghost before = self.envs();
                    let entry: Entry = (parent, right.deep_clone(), Vec::new());
                    let ghost ev = entry;
                    let ghost lv = label@;
                    self.envs[parent].insert(label, entry);
                    proof {
                        assert forall|i: int| 0 <= i < before.len() && i != parent implies #[trigger] self.envs()[i]
                            == before[i] by {}
                        if links_ok(before) && no_parent_label(ast@) {
                            assert(lv != parent_label());
                            assert forall|i: int| 1 <= i < self.envs().len() implies (#[trigger] self.envs()[i]).dom().contains(
                                parent_label(),
                            ) && self.envs()[i][parent_label()].0 < i by {
                                if i != parent {
                                    assert(self.envs()[i] == before[i]);
                                } else {
                                    assert(self.envs()[i] == before[i].insert(lv, ev));
                                }
                            }
                        }
                    }
                    Ok(Ast::Op2(*name, Box::new((**left).deep_clone()), Box::new(right)))
                } else {
                    let l = match self.walk(left, parent) {
                        Ok(x) => x,
                        Err(m) => {
                            return Err(m);
                        },
                    };
                    let r = match self.walk(right, parent) {
                        Ok(x) => x,
                        Err(m) => {
                            return Err(m);
                        },
                    };
                    Ok(Ast::Op2(*name, Box::new(l), Box::new(r)))
                }
            },
            Ast::Op1(name, _) => Err(no_op1_match_message(*name)),
            Ast::Space(sizes) => Err(no_space_match_message(sizes)),
            Ast::Integer(i) => Ok(Ast::Integer(i.clone())),
            x => Err(no_match_message(x)),
        }
    }

    fn walk_points(&mut self, points: &Vec<Ast>, index: usize) -> (r: Result<Vec<Ast>, String>)
        requires
            index < old(self).envs@.len(),
        ensures
            final(self).envs@.len() >= old(self).envs@.len(),
            links_ok(old(self).envs()) && all_no_parent_label(asts_view(points@)) ==> links_ok(
                final(self).envs(),
            ),
            walk_points_result(r) == spec_walk_points(asts_view(points@)),
            forall|i: int|
                0 <= i < old(self).envs().len() && i != index ==> #[trigger] final(self).envs()[i]
                    == old(self).envs()[i],
            r is Ok ==> env_entries(final(self).envs()[index as int]) == bind_points(
                asts_view(points@),
                env_entries(old(self).envs()[index as int]),
                index,
            ),
        decreases trees_size(asts_view(points@)), 2nat,
    {
        let ghost pv = asts_view(points@);
        let ghost ok0 = links_ok(self.envs()) && all_no_parent_label(pv);
        let mut out: Vec<Ast> = Vec::new();
        let mut i: usize = 0;
        proof {
            lemma_asts_view_len(points@);
            assert(pv.subrange(0, pv.len() as int) =~= pv);
            assert(pv.subrange(0, 0) =~= Seq::<AstView>::empty());
            assert(asts_view(out@) =~= seq![]);
            assert(prepend_done(seq![], spec_walk_points(pv)) == spec_walk_points(pv));
        }
        while i < points.len()
            invariant
                i <= points@.len(),
                pv == asts_view(points@),
                pv.len() == points@.len(),
                index < self.envs@.len(),
                self.envs@.len() >= old(self).envs@.len(),
                ok0 == (links_ok(old(self).envs()) && all_no_parent_label(pv)),
                ok0 ==> links_ok(self.envs()),
                spec_walk_points(pv) == prepend_done(
                    asts_view(out@),
                    spec_walk_points(pv.subrange(i as int, pv.len() as int)),
                ),
                index < old(self).envs().len(),
                forall|j: int|
                    0 <= j < old(self).envs().len() && j != index ==> #[trigger] self.envs()[j]
                        == old(self).envs()[j],
                env_entries(self.envs()[index as int]) == bind_points(
                    pv.subrange(0, i as int),
                    env_entries(old(self).envs()[index as int]),
                    index,
                ),
            decreases points@.len() - i,
        {
            let ghost rest = pv.subrange(i as int, pv.len() as int);
            proof {
                lemma_asts_view_index(points@, i as int);
                lemma_elem(pv, i as int);
                assert(rest[0] == pv[i as int]);
                assert(rest.subrange(1, rest.len() as int) =~= pv.subrange(i + 1, pv.len() as int));
            }
            match self.walk(&points[i], index) {
                Err(m) => {
                    return Err(m);
                },
                Ok(x) => {
                    let ghost done = asts_view(out@);
                    let ghost xv = x@;
                    proof {
                        lemma_asts_view_push(out@, x);
                        match spec_walk_points(pv.subrange(i + 1, pv.len() as int)) {
                            Ok(xs) => {
                                assert(done + (seq![xv] + xs) =~= done.push(xv) + xs);
                            },
                            Err(_) => {},
                        }
                    }
                    out.push(x);
                    proof {
                        assert(pv.subrange(0, i + 1).drop_last() =~= pv.subrange(0, i as int));
                        assert(pv.subrange(0, i + 1).last() == pv[i as int]);
                    }
                },
            }
            i = i + 1;
        }
        proof {
            assert(pv.subrange(i as int, pv.len() as int) =~= Seq::<AstView>::empty());
            assert(asts_view(out@) + seq![] =~= asts_view(out@));
        }
        Ok(out)
    }

    fn program(&mut self, ast: &Ast) -> (r: Result<Ast, String>)
        requires
            old(self).envs@.len() >= 1,
        ensures
            walk_result(r) == spec_walk(ast@),
    {
        self.walk(ast, 0)
    }

    /// The entry of `label` seen from environment `env`.
    fn lookup(&self, label: String, env: usize) -> (r: Result<&Entry, String>)
        requires
            links_ok(self.envs()),
            env < self.envs@.len(),
        ensures
            match r {
                Ok(e) => spec_lookup(self.envs(), label@, env as nat) == Ok::<Entry, Seq<char>>(*e),
                Err(m) => spec_lookup(self.envs(), label@, env as nat) == Err::<Entry, Seq<char>>(m@),
            },
        decreases env,
    {
        if env == 0 {
            return Err(undefined_point_message(&label));
        }
        proof {
            assert(self.envs()[env as int] == self.envs@[env as int]@);
        }
        match self.envs[env].get(&label) {
            Some(result) => Ok(result),
            None => {
                let link = match self.envs[env].get(&parent_key()) {
                    Some(l) => l.0,
                    None => {
                        proof {
                            assert(false);
                        }
                        0
                    },
                };
                self.lookup(label, link)
            },
        }
    }
}

/// Normalizes a parsed tree from a fresh top-level environment.
pub fn normalize(ast: &Ast) -> (r: Result<Ast, String>)
    ensures
        walk_result(r) == spec_walk(ast@),
{
    let mut parse = Parse { envs: vec![Env::new()] };
    parse.program(ast)
}

// ---------------------------------------------------------------------
// Laws

/// The trees that normalization accepts as they are: graphs of such
/// trees, labels whose label is a word, other binary operators, and
/// integers.
pub open spec fn is_normal(a: AstView) -> bool
    decreases a,
{
    match a {
        AstView::Graph(s) => all_normal(s),
        AstView::Op2(n, x, y) => if n == Name::Label {
            (*x is Word) && is_normal(*y)
        } else {
            is_normal(*x) && is_normal(*y)
        },
        AstView::Integer(_) => true,
        _ => false,
    }
}

pub open spec fn all_normal(s: Seq<AstView>) -> bool
    decreases s,
{
    s.len() == 0 || (is_normal(s[0]) && all_normal(s.subrange(1, s.len() as int)))
}

/// A normal tree normalizes to itself.
pub proof fn lemma_walk_normal(a: AstView)
    requires
        is_normal(a),
    ensures
        spec_walk(a) == Ok::<AstView, Seq<char>>(a),
    decreases a,
{
    match a {
        AstView::Graph(s) => {
            lemma_walk_points_normal(s);
        },
        AstView::Op2(n, x, y) => {
            if n == Name::Label {
                lemma_walk_normal(*y);
            } else {
                lemma_walk_normal(*x);
                lemma_walk_normal(*y);
            }
        },
        _ => {},
    }
}

pub proof fn lemma_walk_points_normal(s: Seq<AstView>)
    requires
        all_normal(s),
    ensures
        spec_walk_points(s) == Ok::<Seq<AstView>, Seq<char>>(s),
    decreases s,
{
    if s.len() > 0 {
        lemma_walk_normal(s[0]);
        lemma_walk_points_normal(s.subrange(1, s.len() as int));
        assert(seq![s[0]] + s.subrange(1, s.len() as int) =~= s);
    } else {
        assert(s =~= Seq::<AstView>::empty());
    }
}

/// What normalization gives is normal.
pub proof fn lemma_walk_gives_normal(a: AstView)
    ensures
        spec_walk(a) matches Ok(b) ==> is_normal(b),
    decreases a,
{
    match a {
        AstView::Graph(s) => {
            lemma_walk_points_gives_normal(s);
        },
        AstView::Op2(n, x, y) => {
            lemma_walk_gives_normal(*x);
            lemma_walk_gives_normal(*y);
        },
        _ => {},
    }
}

pub proof fn lemma_walk_points_gives_normal(s: Seq<AstView>)
    ensures
        spec_walk_points(s) matches Ok(t) ==> all_normal(t),
    decreases s,
{
    if s.len() > 0 {
        lemma_walk_gives_normal(s[0]);
        lemma_walk_points_gives_normal(s.subrange(1, s.len() as int));
        match spec_walk_points(s) {
            Ok(t) => {
                let x = spec_walk(s[0])->Ok_0;
                let xs = spec_walk_points(s.subrange(1, s.len() as int))->Ok_0;
                assert(t == seq![x] + xs);
                assert(t[0] == x);
                assert(t.subrange(1, t.len() as int) =~= xs);
            },
            Err(_) => {},
        }
    }
}

/// Normalization is idempotent: normalizing what it gave gives it again.
pub proof fn lemma_normalize_idempotent(a: AstView)
    ensures
        spec_walk(a) matches Ok(b) ==> spec_walk(b) == Ok::<AstView, Seq<char>>(b),
{
    lemma_walk_gives_normal(a);
    if let Ok(b) = spec_walk(a) {
        lemma_walk_normal(b);
    }
}

} // verus!
