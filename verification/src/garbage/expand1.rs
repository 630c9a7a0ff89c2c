//! The first expander: every graph opens an environment linked to the one
//! it stands in, labelled and returned points are recorded in the
//! environment of their graph, and the points of each graph are flattened
//! so that a chain of labels becomes a run of labelled points.
use super::syntax::{
    asts_view, lemma_asts_view_index, lemma_asts_view_len, lemma_asts_view_push, lemma_tree_size_elem,
    tree_size, trees_size, Ast, AstView,
};
use crate::env::{undefined_point_message, undefined_point_text, Env};
use vstd::prelude::*;

verus! {

/// What an environment keeps for a label: the environment it was bound
/// in, the point without its label, and the labels that depend on it.
pub type Entry = (usize, Ast, Vec<String>);

/// The environments of an expansion; environment 0 is the top level.
#[derive(Debug)]
pub struct Parse {
    envs: Vec<Env<Entry>>,
}

pub open spec fn envs_view(envs: Seq<Env<Entry>>) -> Seq<Map<Seq<char>, Entry>> {
    envs.map_values(|e: Env<Entry>| e@)
}

/// The label under which an environment keeps its parent link.
pub open spec fn parent_label() -> Seq<char> {
    "<parent>"@
}

/// The label under which an environment keeps its returned point.
pub open spec fn return_label() -> Seq<char> {
    "<return>"@
}

/// Every environment after the first links to one before it.
pub open spec fn links_ok(envs: Seq<Map<Seq<char>, Entry>>) -> bool {
    forall|i: int|
        1 <= i < envs.len() ==> (#[trigger] envs[i]).dom().contains(parent_label()) && envs[i][parent_label()].0
            < i
}

/// No label in the tree is the parent label.
pub open spec fn no_parent_label(a: AstView) -> bool
    decreases a,
{
    match a {
        AstView::Graph(s) => all_no_parent_label(s),
        AstView::Space(s) => all_no_parent_label(s),
        AstView::Apply(_, y) => no_parent_label(*y),
        AstView::Key(l, p) => l != parent_label() && no_parent_label(*p),
        AstView::Ret(p) => no_parent_label(*p),
        AstView::Op2(_, x, y) => no_parent_label(*x) && no_parent_label(*y),
        AstView::Op1(_, x) => no_parent_label(*x),
        _ => true,
    }
}

pub open spec fn all_no_parent_label(s: Seq<AstView>) -> bool
    decreases s,
{
    s.len() == 0 || (no_parent_label(s[0]) && all_no_parent_label(s.subrange(1, s.len() as int)))
}

pub proof fn lemma_no_parent_label_elem(s: Seq<AstView>, i: int)
    requires
        0 <= i < s.len(),
        all_no_parent_label(s),
    ensures
        no_parent_label(s[i]),
    decreases s.len(),
{
    if i > 0 {
        let t = s.subrange(1, s.len() as int);
        lemma_no_parent_label_elem(t, i - 1);
        assert(t[i - 1] == s[i]);
    }
}

// ---------------------------------------------------------------------
// Flattening

/// A point without its label.
pub open spec fn spec_strip_keys(a: AstView) -> AstView {
    match a {
        AstView::Key(_, p) => *p,
        x => x,
    }
}

/// The points that a point flattens to: a labelled or returned point
/// gives itself, holding its value without a label, then what its value
/// flattens to; any other point gives itself at the top of a chain and
/// nothing below it.
pub open spec fn spec_flatten_key(top: bool, point: AstView) -> Seq<AstView>
    decreases point,
{
    match point {
        AstView::Key(label, p) => seq![AstView::Key(label, Box::new(spec_strip_keys(*p)))] + spec_flatten_key(
            false,
            *p,
        ),
        AstView::Ret(p) => seq![AstView::Ret(Box::new(spec_strip_keys(*p)))] + spec_flatten_key(false, *p),
        _ => if top {
            seq![point]
        } else {
            seq![]
        },
    }
}

/// The points of a list, each flattened, in order.
pub open spec fn spec_flatten_keys(points: Seq<AstView>) -> Seq<AstView>
    decreases points.len(),
{
    if points.len() == 0 {
        seq![]
    } else {
        spec_flatten_keys(points.drop_last()) + spec_flatten_key(true, points.last())
    }
}

/// Neither labelled nor returned.
pub open spec fn is_plain(a: AstView) -> bool {
    !(a is Key) && !(a is Ret)
}

/// Flattening a list of points that holds no labelled or returned point
/// gives the list back.
pub proof fn lemma_flatten_plain(points: Seq<AstView>)
    requires
        forall|i: int| 0 <= i < points.len() ==> is_plain(#[trigger] points[i]),
    ensures
        spec_flatten_keys(points) == points,
    decreases points.len(),
{
    if points.len() > 0 {
        let d = points.drop_last();
        assert forall|i: int| 0 <= i < d.len() implies is_plain(#[trigger] d[i]) by {
            assert(d[i] == points[i]);
        }
        lemma_flatten_plain(d);
        assert(is_plain(points[points.len() - 1]));
        assert(points.drop_last().push(points.last()) =~= points);
    }
}

/// Flattening keeps the points of each list in order: flattening two
/// lists one after the other is flattening the two together.
pub proof fn lemma_flatten_append(a: Seq<AstView>, b: Seq<AstView>)
    ensures
        spec_flatten_keys(a + b) == spec_flatten_keys(a) + spec_flatten_keys(b),
    decreases b.len(),
{
    if b.len() == 0 {
        assert(a + b =~= a);
        assert(spec_flatten_keys(a) + seq![] =~= spec_flatten_keys(a));
    } else {
        assert((a + b).drop_last() =~= a + b.drop_last());
        assert((a + b).last() == b.last());
        lemma_flatten_append(a, b.drop_last());
        assert(spec_flatten_keys(a) + spec_flatten_keys(b.drop_last()) + spec_flatten_key(true, b.last())
            =~= spec_flatten_keys(a) + (spec_flatten_keys(b.drop_last()) + spec_flatten_key(true, b.last())));
    }
}

/// A point without its label.
pub(crate) fn strip_keys(ast: &Ast) -> (r: Ast)
    ensures
        r@ == spec_strip_keys(ast@),
{
    match ast {
        Ast::Key(_, point) => (**point).deep_clone(),
        x => x.deep_clone(),
    }
}

/// Appends what `point` flattens to.
pub(crate) fn flatten_key(top: bool, point: &Ast, normal_points: &mut Vec<Ast>)
    ensures
        asts_view(final(normal_points)@) == asts_view(old(normal_points)@) + spec_flatten_key(top, point@),
    decreases tree_size(point@),
{
    proof {
        lemma_asts_view_len(normal_points@);
    }
    match point {
        Ast::Key(label, inner) => {
            let ghost before = asts_view(normal_points@);
            let stripped = strip_keys(inner);
            let key = Ast::Key(label.clone(), Box::new(stripped));
            proof {
                lemma_asts_view_push(normal_points@, key);
            }
            normal_points.push(key);
            flatten_key(false, inner, normal_points);
            proof {
                assert(before.push(key@) + spec_flatten_key(false, (**inner)@) =~= before + (seq![key@]
                    + spec_flatten_key(false, (**inner)@)));
            }
        },
        Ast::Ret(inner) => {
            let ghost before = asts_view(normal_points@);
            let stripped = strip_keys(inner);
            let ret = Ast::Ret(Box::new(stripped));
            proof {
                lemma_asts_view_push(normal_points@, ret);
            }
            normal_points.push(ret);
            flatten_key(false, inner, normal_points);
            proof {
                assert(before.push(ret@) + spec_flatten_key(false, (**inner)@) =~= before + (seq![ret@]
                    + spec_flatten_key(false, (**inner)@)));
            }
        },
        _ => {
            if top {
                let copy = point.deep_clone();
                proof {
                    lemma_asts_view_push(normal_points@, copy);
                }
                normal_points.push(copy);
            } else {
                assert(asts_view(normal_points@) + seq![] =~= asts_view(normal_points@));
            }
        },
    }
}

/// Appends what each of `points` flattens to, in order.
pub(crate) fn flatten_keys(points: Vec<Ast>, normal_points: &mut Vec<Ast>)
    ensures
        asts_view(final(normal_points)@) == asts_view(old(normal_points)@) + spec_flatten_keys(
            asts_view(points@),
        ),
{
    let ghost pv = asts_view(points@);
    let ghost start = asts_view(normal_points@);
    let mut i: usize = 0;
    proof {
        lemma_asts_view_len(points@);
        assert(pv.subrange(0, 0) =~= Seq::<AstView>::empty());
        assert(start + seq![] =~= start);
    }
    while i < points.len()
        invariant
            i <= points@.len(),
            pv == asts_view(points@),
            pv.len() == points@.len(),
            asts_view(normal_points@) == start + spec_flatten_keys(pv.subrange(0, i as int)),
        decreases points@.len() - i,
    {
        proof {
            lemma_asts_view_index(points@, i as int);
            assert(pv.subrange(0, i + 1).drop_last() =~= pv.subrange(0, i as int));
            assert(pv.subrange(0, i + 1).last() == pv[i as int]);
        }
        let ghost before = asts_view(normal_points@);
        flatten_key(true, &points[i], normal_points);
        proof {
            assert(start + spec_flatten_keys(pv.subrange(0, i as int)) + spec_flatten_key(true, pv[i as int])
                =~= start + (spec_flatten_keys(pv.subrange(0, i as int)) + spec_flatten_key(true, pv[i as int])));
        }
        i = i + 1;
    }
    proof {
        assert(pv.subrange(0, pv.len() as int) =~= pv);
    }
}

// ---------------------------------------------------------------------
// What expansion gives

pub uninterp spec fn no_map_match_text(x: AstView) -> Seq<char>;

/// The expanded tree, or the first refusal met in a left-to-right walk.
pub open spec fn spec_map(a: AstView) -> Result<AstView, Seq<char>>
    decreases a,
{
    match a {
        AstView::Graph(points) => match spec_map_points(points) {
            Ok(xs) => Ok(AstView::Graph(spec_flatten_keys(xs))),
            Err(m) => Err(m),
        },
        AstView::Ref(label) => Ok(AstView::Ref(label)),
        AstView::Ret(p) => match spec_map(*p) {
            Ok(x) => Ok(AstView::Ret(Box::new(x))),
            Err(m) => Err(m),
        },
        AstView::Key(label, p) => match spec_map(*p) {
            Ok(x) => Ok(AstView::Key(label, Box::new(x))),
            Err(m) => Err(m),
        },
        AstView::Op2(name, left, right) => match spec_map(*left) {
            Err(m) => Err(m),
            Ok(l) => match spec_map(*right) {
                Err(m) => Err(m),
                Ok(r) => Ok(AstView::Op2(name, Box::new(l), Box::new(r))),
            },
        },
        AstView::Op1(name, operand) => match spec_map(*operand) {
            Ok(x) => Ok(AstView::Op1(name, Box::new(x))),
            Err(m) => Err(m),
        },
        AstView::Apply(name, operand) => match spec_map(*operand) {
            Ok(x) => Ok(AstView::Apply(name, Box::new(x))),
            Err(m) => Err(m),
        },
        AstView::Space(sizes) => match spec_map_points(sizes) {
            Ok(xs) => Ok(AstView::Space(xs)),
            Err(m) => Err(m),
        },
        AstView::Decimal(i) => Ok(AstView::Decimal(i)),
        AstView::Integer(i) => Ok(AstView::Integer(i)),
        AstView::String(i) => Ok(AstView::String(i)),
        AstView::Nothing => Ok(AstView::Nothing),
        x => Err(no_map_match_text(x)),
    }
}

pub open spec fn spec_map_points(s: Seq<AstView>) -> Result<Seq<AstView>, Seq<char>>
    decreases s,
{
    if s.len() == 0 {
        Ok(seq![])
    } else {
        match spec_map(s[0]) {
            Err(m) => Err(m),
            Ok(x) => match spec_map_points(s.subrange(1, s.len() as int)) {
                Err(m) => Err(m),
                Ok(xs) => Ok(seq![x] + xs),
            },
        }
    }
}

pub open spec fn prepend_done(done: Seq<AstView>, r: Result<Seq<AstView>, Seq<char>>) -> Result<
    Seq<AstView>,
    Seq<char>,
> {
    match r {
        Ok(xs) => Ok(done + xs),
        Err(m) => Err(m),
    }
}

/// The entry of `label` seen from environment `env`: its own binding, or
/// else the one seen from its parent; from environment 0 it is undefined.
pub open spec fn spec_lookup(envs: Seq<Map<Seq<char>, Entry>>, label: Seq<char>, env: nat) -> Result<
    Entry,
    Seq<char>,
>
    decreases env,
{
    if env == 0 {
        Err(undefined_point_text(label))
    } else if env < envs.len() && envs[env as int].dom().contains(label) {
        Ok(envs[env as int][label])
    } else if env < envs.len() && envs[env as int].dom().contains(parent_label())
        && envs[env as int][parent_label()].0 < env {
        spec_lookup(envs, label, envs[env as int][parent_label()].0 as nat)
    } else {
        Err(seq![])
    }
}

pub open spec fn map_result(r: Result<Ast, String>) -> Result<AstView, Seq<char>> {
    match r {
        Ok(a) => Ok(a@),
        Err(m) => Err(m@),
    }
}

pub open spec fn map_points_result(r: Result<Vec<Ast>, String>) -> Result<Seq<AstView>, Seq<char>> {
    match r {
        Ok(a) => Ok(asts_view(a@)),
        Err(m) => Err(m@),
    }
}

/// Formats `No map match defined for {x:?}`.
#[verifier::external_body]
pub(crate) fn no_map_match_message(x: &Ast) -> (r: String)
    ensures
        r@ == no_map_match_text(x@),
{
    format!("No map match defined for {:?}", x)
}

fn parent_key() -> (r: String)
    ensures
        r@ == parent_label(),
{
    "<parent>".to_string()
}

fn return_key() -> (r: String)
    ensures
        r@ == return_label(),
{
    "<return>".to_string()
}

impl Parse {
    pub closed spec fn envs(&self) -> Seq<Map<Seq<char>, Entry>> {
        envs_view(self.envs@)
    }

    /// Binds `label` in environment `env`; the links stay as they were
    /// unless `label` is the parent label.
    fn bind(&mut self, env: usize, label: String, entry: Entry)
        requires
            env < old(self).envs@.len(),
        ensures
            final(self).envs@.len() == old(self).envs@.len(),
            final(self).envs() == old(self).envs().update(env as int, old(self).envs()[env as int].insert(label@, entry)),
            links_ok(old(self).envs()) && label@ != parent_label() ==> links_ok(final(self).envs()),
    {
        let ghost before = self.envs();
        let ghost lv = label@;
        let ghost ev = entry;
        self.envs[env].insert(label, entry);
        proof {
            assert forall|i: int| 0 <= i < before.len() && i != env implies #[trigger] self.envs()[i]
                == before[i] by {}
            assert(self.envs()[env as int] == before[env as int].insert(lv, ev));
            assert(self.envs() =~= before.update(env as int, before[env as int].insert(lv, ev)));
            if links_ok(before) && lv != parent_label() {
                assert forall|i: int| 1 <= i < self.envs().len() implies (#[trigger] self.envs()[i]).dom().contains(
                    parent_label(),
                ) && self.envs()[i][parent_label()].0 < i by {
                    if i != env {
                        assert(self.envs()[i] == before[i]);
                    } else {
                        assert(self.envs()[i] == before[i].insert(lv, ev));
                    }
                }
            }
        }
    }

    fn map(&mut self, ast: &Ast, parent: usize) -> (r: Result<Ast, String>)
        requires
            parent < old(self).envs@.len(),
        ensures
            final(self).envs@.len() >= old(self).envs@.len(),
            links_ok(old(self).envs()) && no_parent_label(ast@) ==> links_ok(final(self).envs()),
            map_result(r) == spec_map(ast@),
        decreases tree_size(ast@), 1nat,
    {
        match ast {
            Ast::Graph(points) => {
                let index = self.envs.len();
                let mut env: Env<Entry> = Env::new();
                env.insert(parent_key(), (parent, Ast::Nothing, Vec::new()));
                let ghost before = self.envs();
                self.envs.push(env);
                proof {
                    assert forall|i: int| 0 <= i < before.len() implies #[trigger] self.envs()[i]
                        == before[i] by {}
                    assert(self.envs()[index as int] == env@);
                    if links_ok(before) {
                        assert forall|i: int| 1 <= i < self.envs().len() implies (#[trigger] self.envs()[i]).dom().contains(
                            parent_label(),
                        ) && self.envs()[i][parent_label()].0 < i by {
                            if i < before.len() {
                                assert(self.envs()[i] == before[i]);
                            }
                        }
                    }
                }
                let pts = match self.map_points(points, index) {
                    Ok(xs) => xs,
                    Err(m) => {
                        return Err(m);
                    },
                };
                let mut normal_points: Vec<Ast> = Vec::new();
                proof {
                    assert(asts_view(normal_points@) =~= Seq::<AstView>::empty());
                }
                flatten_keys(pts, &mut normal_points);
                proof {
                    assert(asts_view(normal_points@) =~= Seq::<AstView>::empty() + spec_flatten_keys(
                        asts_view(pts@),
                    ));
                }
                Ok(Ast::Graph(normal_points))
            },
            Ast::Ref(label) => Ok(Ast::Ref(label.clone())),
            Ast::Ret(point) => {
                let p = match self.map(point, parent) {
                    Ok(x) => x,
                    Err(m) => {
                        return Err(m);
                    },
                };
                let stripped = strip_keys(&p);
                proof {
                    reveal_strlit("<return>");
                    reveal_strlit("<parent>");
                    assert(return_label()[1] != parent_label()[1]);
                }
                self.bind(parent, return_key(), (parent, stripped, Vec::new()));
                Ok(Ast::Ret(Box::new(p)))
            },
            Ast::Key(label, point) => {
                let p = match self.map(point, parent) {
                    Ok(x) => x,
                    Err(m) => {
                        return Err(m);
                    },
                };
                let stripped = strip_keys(&p);
                self.bind(parent, label.clone(), (parent, stripped, Vec::new()));
                Ok(Ast::Key(label.clone(), Box::new(p)))
            },
            Ast::Op2(name, left, right) => {
                let l = match self.map(left, parent) {
                    Ok(x) => x,
                    Err(m) => {
                        return Err(m);
                    },
                };
                let r = match self.map(right, parent) {
                    Ok(x) => x,
                    Err(m) => {
                        return Err(m);
                    },
                };
                Ok(Ast::Op2(*name, Box::new(l), Box::new(r)))
            },
            Ast::Op1(name, operand) => {
                let x = match self.map(operand, parent) {
                    Ok(x) => x,
                    Err(m) => {
                        return Err(m);
                    },
                };
                Ok(Ast::Op1(*name, Box::new(x)))
            },
            Ast::Apply(name, operand) => {
                let x = match self.map(operand, parent) {
                    Ok(x) => x,
                    Err(m) => {
                        return Err(m);
                    },
                };
                Ok(Ast::Apply(Box::new((**name).deep_clone()), Box::new(x)))
            },
            Ast::Space(sizes) => {
                let ss = match self.map_points(sizes, parent) {
                    Ok(xs) => xs,
                    Err(m) => {
                        return Err(m);
                    },
                };
                Ok(Ast::Space(ss))
            },
            Ast::Decimal(i) => Ok(Ast::Decimal(i.clone())),
            Ast::Integer(i) => Ok(Ast::Integer(i.clone())),
            Ast::String(i) => Ok(Ast::String(i.clone())),
            Ast::Nothing => Ok(Ast::Nothing),
            x => Err(no_map_match_message(x)),
        }
    }

    /// Maps each of `points` in environment `index`, left to right,
    /// stopping at the first refusal.
    fn map_points(&mut self, points: &Vec<Ast>, index: usize) -> (r: Result<Vec<Ast>, String>)
        requires
            index < old(self).envs@.len(),
        ensures
            final(self).envs@.len() >= old(self).envs@.len(),
            links_ok(old(self).envs()) && all_no_parent_label(asts_view(points@)) ==> links_ok(
                final(self).envs(),
            ),
            map_points_result(r) == spec_map_points(asts_view(points@)),
        decreases trees_size(asts_view(points@)), 2nat,
    {
        let ghost pv = asts_view(points@);
        let ghost ok0 = links_ok(self.envs()) && all_no_parent_label(pv);
        let mut out: Vec<Ast> = Vec::new();
        let mut i: usize = 0;
        proof {
            lemma_asts_view_len(points@);
            assert(pv.subrange(0, pv.len() as int) =~= pv);
            assert(asts_view(out@) =~= seq![]);
            assert(prepend_done(seq![], spec_map_points(pv)) == spec_map_points(pv));
        }
        while i < points.len()
            invariant
                i <= points@.len(),
                pv == asts_view(points@),
                pv.len() == points@.len(),
                index < self.envs@.len(),
                self.envs@.len() >= old(self).envs@.len(),
                ok0 == (links_ok(old(self).envs()) && all_no_parent_label(pv)),
                ok0 ==> links_ok(self.envs()),
                spec_map_points(pv) == prepend_done(
                    asts_view(out@),
                    spec_map_points(pv.subrange(i as int, pv.len() as int)),
                ),
            decreases points@.len() - i,
        {
            let ghost rest = pv.subrange(i as int, pv.len() as int);
            proof {
                lemma_asts_view_index(points@, i as int);
                lemma_tree_size_elem(pv, i as int);
                if ok0 {
                    lemma_no_parent_label_elem(pv, i as int);
                }
                assert(rest[0] == pv[i as int]);
                assert(rest.subrange(1, rest.len() as int) =~= pv.subrange(i + 1, pv.len() as int));
            }
            match self.map(&points[i], index) {
                Err(m) => {
                    return Err(m);
                },
                Ok(x) => {
                    let ghost done = asts_view(out@);
                    let ghost xv = x@;
                    proof {
                        lemma_asts_view_push(out@, x);
                        match spec_map_points(pv.subrange(i + 1, pv.len() as int)) {
                            Ok(xs) => {
                                assert(done + (seq![xv] + xs) =~= done.push(xv) + xs);
                            },
                            Err(_) => {},
                        }
                    }
                    out.push(x);
                },
            }
            i = i + 1;
        }
        proof {
            assert(pv.subrange(i as int, pv.len() as int) =~= Seq::<AstView>::empty());
            assert(asts_view(out@) + seq![] =~= asts_view(out@));
        }
        Ok(out)
    }

    /// The entry of `label` seen from environment `env`.
    fn lookup(&self, label: &String, env: usize) -> (r: Result<&Entry, String>)
        requires
            links_ok(self.envs()),
            env < self.envs@.len(),
        ensures
            match r {
                Ok(e) => spec_lookup(self.envs(), label@, env as nat) == Ok::<Entry, Seq<char>>(*e),
                Err(m) => spec_lookup(self.envs(), label@, env as nat) == Err::<Entry, Seq<char>>(m@),
            },
        decreases env,
    {
        if env == 0 {
            return Err(undefined_point_message(label));
        }
        proof {
            assert(self.envs()[env as int] == self.envs@[env as int]@);
        }
        match self.envs[env].get(label) {
            Some(result) => Ok(result),
            None => {
                let link = match self.envs[env].get(&parent_key()) {
                    Some(l) => l.0,
                    None => {
                        proof {
                            assert(false);
                        }
                        0
                    },
                };
                self.lookup(label, link)
            },
        }
    }
}

/// Expands a tree from a fresh top-level environment.
pub fn normalize(ast: &Ast) -> (r: Result<Ast, String>)
    ensures
        map_result(r) == spec_map(ast@),
{
    let mut parse = Parse { envs: vec![Env::new()] };
    parse.map(ast, 0)
}


/// A tree with no labelled and no returned point, and none of the forms
/// expansion refuses (clocks, sizes, bare operators): graphs, spaces,
/// references, applications, prefix and binary operations over such trees,
/// and integer, decimal and string literals, and nothing.
pub open spec fn unlabelled(a: AstView) -> bool
    decreases a,
{
    match a {
        AstView::Graph(s) => all_unlabelled(s),
        AstView::Space(s) => all_unlabelled(s),
        AstView::Ref(_) => true,
        AstView::Op2(_, x, y) => unlabelled(*x) && unlabelled(*y),
        AstView::Op1(_, x) => unlabelled(*x),
        AstView::Apply(x, y) => unlabelled(*y),
        AstView::Decimal(_) => true,
        AstView::Integer(_) => true,
        AstView::String(_) => true,
        AstView::Nothing => true,
        _ => false,
    }
}

pub open spec fn all_unlabelled(s: Seq<AstView>) -> bool
    decreases s,
{
    s.len() == 0 || (unlabelled(s[0]) && all_unlabelled(s.subrange(1, s.len() as int)))
}

/// Expansion gives back a tree with no labelled and no returned point as
/// it is: every operator, operand, reference and literal in its place.
pub proof fn lemma_map_unlabelled(a: AstView)
    requires
        unlabelled(a),
    ensures
        spec_map(a) == Ok::<AstView, Seq<char>>(a),
    decreases a,
{
    match a {
        AstView::Graph(s) => {
            lemma_map_points_unlabelled(s);
            assert forall|i: int| 0 <= i < s.len() implies is_plain(#[trigger] s[i]) by {
                lemma_unlabelled_elem(s, i);
            }
            lemma_flatten_plain(s);
        },
        AstView::Space(s) => lemma_map_points_unlabelled(s),
        AstView::Op2(_, x, y) => {
            lemma_map_unlabelled(*x);
            lemma_map_unlabelled(*y);
        },
        AstView::Op1(_, x) => lemma_map_unlabelled(*x),
        AstView::Apply(_, y) => lemma_map_unlabelled(*y),
        _ => {},
    }
}

proof fn lemma_unlabelled_elem(s: Seq<AstView>, i: int)
    requires
        all_unlabelled(s),
        0 <= i < s.len(),
    ensures
        unlabelled(s[i]),
        is_plain(s[i]),
    decreases s.len(),
{
    if i > 0 {
        let t = s.subrange(1, s.len() as int);
        lemma_unlabelled_elem(t, i - 1);
        assert(t[i - 1] == s[i]);
    }
}

/// The points-list form of `lemma_map_unlabelled`.
pub proof fn lemma_map_points_unlabelled(s: Seq<AstView>)
    requires
        all_unlabelled(s),
    ensures
        spec_map_points(s) == Ok::<Seq<AstView>, Seq<char>>(s),
    decreases s,
{
    if s.len() > 0 {
        lemma_map_unlabelled(s[0]);
        lemma_map_points_unlabelled(s.subrange(1, s.len() as int));
        assert(seq![s[0]] + s.subrange(1, s.len() as int) =~= s);
    } else {
        assert(s =~= Seq::<AstView>::empty());
    }
}

/// Expansion keeps the form of every point it accepts: the same kind of
/// node, with the same operator or label, around the expanded parts.
pub proof fn lemma_map_keeps_form(a: AstView)
    ensures
        spec_map(a) matches Ok(b) ==> match (a, b) {
            (AstView::Op1(n, _), AstView::Op1(m, _)) => n == m,
            (AstView::Op1(_, _), _) => false,
            (AstView::Op2(n, _, _), AstView::Op2(m, _, _)) => n == m,
            (AstView::Op2(_, _, _), _) => false,
            (AstView::Key(l, _), AstView::Key(k, _)) => l == k,
            (AstView::Key(_, _), _) => false,
            (AstView::Ret(_), AstView::Ret(_)) => true,
            (AstView::Ret(_), _) => false,
            (AstView::Apply(x, _), AstView::Apply(y, _)) => x == y,
            (AstView::Apply(_, _), _) => false,
            (AstView::Graph(_), AstView::Graph(_)) => true,
            (AstView::Graph(_), _) => false,
            (AstView::Space(s), AstView::Space(t)) => s.len() == t.len(),
            (AstView::Space(_), _) => false,
            _ => b == a,
        },
{
    if let AstView::Space(s) = a {
        lemma_map_points_len(s);
    }
}

/// Expanding a list of points that succeeds gives one point for each.
pub proof fn lemma_map_points_len(s: Seq<AstView>)
    ensures
        spec_map_points(s) matches Ok(t) ==> t.len() == s.len(),
    decreases s,
{
    if s.len() > 0 {
        lemma_map_points_len(s.subrange(1, s.len() as int));
    }
}

} // verus!
