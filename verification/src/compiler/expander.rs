//! Expands a tree: every graph gets an environment of its own, labels are
//! bound in the environment of the graph that holds them, references are
//! resolved against the chain of enclosing environments, and an
//! application `source { .. }` becomes a copy of the source graph in which
//! the modifier's labelled points replace the source's points of the same
//! label.
use super::ast::{
    asts_view, clone_asts, lemma_asts_view_index, lemma_asts_view_len, lemma_asts_view_push, Ast,
    AstView, EID,
};
use super::tokenizer::Name;
use crate::env::{undefined_point_message, undefined_point_text, Env};
use vstd::prelude::*;

verus! {

/// The environments of an expansion, indexed by `EID`; the first is the
/// top level, which has no parent.
pub type Maps = Vec<Env<Ast>>;

pub type Typs = Vec<Env<Typ>>;

/// Types of points. None is worked out yet, so every point has the one
/// placeholder type.
pub enum Typ {
    Unknown,
}

#[derive(Debug)]
pub struct Parse {
    pub envs: Maps,
}

pub type EnvsView = Seq<Map<Seq<char>, AstView>>;

pub open spec fn envs_view(envs: Seq<Env<Ast>>) -> EnvsView {
    envs.map_values(|e: Env<Ast>| e@.map_values(|a: Ast| a@))
}

/// The label under which an environment keeps its parent link.
pub open spec fn parent_label() -> Seq<char> {
    "<parent>"@
}

// ---------------------------------------------------------------------
// Measures and shapes of trees

pub open spec fn view_size(a: AstView) -> nat
    decreases a,
{
    match a {
        AstView::Graph(_, s) => 1 + seq_size(s),
        AstView::Space(s) => 1 + seq_size(s),
        AstView::Apply(x, y) => 1 + view_size(*x) + view_size(*y),
        AstView::Op2(_, x, y) => 1 + view_size(*x) + view_size(*y),
        AstView::Key(_, p) => 1 + view_size(*p),
        AstView::Op1(_, p) => 1 + view_size(*p),
        _ => 1,
    }
}

pub open spec fn seq_size(s: Seq<AstView>) -> nat
    decreases s,
{
    if s.len() == 0 {
        0
    } else {
        view_size(s[0]) + seq_size(s.subrange(1, s.len() as int))
    }
}

pub proof fn lemma_view_size_pos(a: AstView)
    ensures
        view_size(a) >= 1,
{
}

pub open spec fn max_nat(a: nat, b: nat) -> nat {
    if a >= b {
        a
    } else {
        b
    }
}

/// How deeply applications nest in a tree.
pub open spec fn apply_depth(a: AstView) -> nat
    decreases a,
{
    match a {
        AstView::Graph(_, s) => seq_apply_depth(s),
        AstView::Space(s) => seq_apply_depth(s),
        AstView::Apply(x, y) => 1 + max_nat(apply_depth(*x), apply_depth(*y)),
        AstView::Op2(_, x, y) => max_nat(apply_depth(*x), apply_depth(*y)),
        AstView::Key(_, p) => apply_depth(*p),
        AstView::Op1(_, p) => apply_depth(*p),
        _ => 0,
    }
}

pub open spec fn seq_apply_depth(s: Seq<AstView>) -> nat
    decreases s,
{
    if s.len() == 0 {
        0
    } else {
        max_nat(apply_depth(s[0]), seq_apply_depth(s.subrange(1, s.len() as int)))
    }
}

/// Every environment index in the tree is below `n`.
pub open spec fn eids_below(a: AstView, n: nat) -> bool
    decreases a,
{
    match a {
        AstView::Graph(e, s) => e < n && seq_eids_below(s, n),
        AstView::Space(s) => seq_eids_below(s, n),
        AstView::Apply(x, y) => eids_below(*x, n) && eids_below(*y, n),
        AstView::Op2(_, x, y) => eids_below(*x, n) && eids_below(*y, n),
        AstView::Key(_, p) => eids_below(*p, n),
        AstView::Op1(_, p) => eids_below(*p, n),
        AstView::Ref(e, _) => e < n,
        AstView::Parent(e) => e < n,
        _ => true,
    }
}

pub open spec fn seq_eids_below(s: Seq<AstView>, n: nat) -> bool
    decreases s,
{
    s.len() == 0 || (eids_below(s[0], n) && seq_eids_below(s.subrange(1, s.len() as int), n))
}

/// What a value kept in an environment satisfies.
pub open spec fn stored_ok(a: AstView, n: nat) -> bool {
    apply_depth(a) == 0 && eids_below(a, n)
}

/// The environments are well formed: each one but the top level keeps a
/// parent link, which, unless a point labelled with the parent label took
/// its place, names an environment that comes before it; and every value
/// kept is expanded and refers only to existing environments.
pub open spec fn envs_wf(envs: EnvsView) -> bool {
    &&& envs.len() >= 1
    &&& forall|i: int|
        1 <= i < envs.len() ==> (#[trigger] envs[i]).dom().contains(parent_label()) && (
        envs[i][parent_label()] matches AstView::Parent(p) ==> p < i)
    &&& forall|i: int, k: Seq<char>|
        0 <= i < envs.len() && (#[trigger] envs[i].dom().contains(k)) ==> stored_ok(
            envs[i][k],
            envs.len(),
        )
}

// ---------------------------------------------------------------------
// Messages

pub uninterp spec fn not_reference_text(a: AstView) -> Seq<char>;

pub uninterp spec fn not_graph_text(a: AstView) -> Seq<char>;

pub uninterp spec fn not_ref_text(a: AstView) -> Seq<char>;

pub uninterp spec fn missing_point_text(m: AstView, s: Seq<AstView>) -> Seq<char>;

pub uninterp spec fn no_map_match_text(a: AstView) -> Seq<char>;

/// Formats `{ast:?} is not a Reference`.
#[verifier::external_body]
fn not_reference_message(ast: &Ast) -> (r: String)
    ensures
        r@ == not_reference_text(ast@),
{
    format!("{:?} is not a Reference", ast)
}

/// Formats `{ast:?} is not a Graph, thus no eid`.
#[verifier::external_body]
fn not_graph_message(ast: &Ast) -> (r: String)
    ensures
        r@ == not_graph_text(ast@),
{
    format!("{:?} is not a Graph, thus no eid", ast)
}

/// Formats `{ast:?} is not a ref, thus no label`.
#[verifier::external_body]
fn not_ref_message(ast: &Ast) -> (r: String)
    ensures
        r@ == not_ref_text(ast@),
{
    format!("{:?} is not a ref, thus no label", ast)
}

/// Formats `{m_point:?} does not exist in {s_points:?}`.
#[verifier::external_body]
fn missing_point_message(m_point: &Ast, s_points: &Vec<Ast>) -> (r: String)
    ensures
        r@ == missing_point_text(m_point@, asts_view(s_points@)),
{
    format!("{:?} does not exist in {:?}", m_point, s_points)
}

/// Formats `No map match defined for {ast:?}`.
#[verifier::external_body]
fn no_map_match_message(ast: &Ast) -> (r: String)
    ensures
        r@ == no_map_match_text(ast@),
{
    format!("No map match defined for {:?}", ast)
}

// ---------------------------------------------------------------------
// The expansion, stated over views

pub open spec fn spec_lookup(envs: EnvsView, label: Seq<char>, eid: EID) -> Result<AstView, Seq<char>>
    decreases eid,
{
    if eid == 0 || eid >= envs.len() {
        Err(undefined_point_text(label))
    } else if envs[eid as int].dom().contains(label) {
        Ok(envs[eid as int][label])
    } else {
        match envs[eid as int][parent_label()] {
            AstView::Parent(p) => if p < eid {
                spec_lookup(envs, label, p)
            } else {
                Err(undefined_point_text(label))
            },
            _ => Err(undefined_point_text(label)),
        }
    }
}

pub open spec fn spec_deref(envs: EnvsView, r: AstView) -> Result<AstView, Seq<char>> {
    match r {
        AstView::Ref(eid, label) => spec_lookup(envs, label, eid),
        _ => Err(not_reference_text(r)),
    }
}

pub open spec fn spec_key_match(s: AstView, m: AstView) -> bool {
    match (s, m) {
        (AstView::Key(ls, _), AstView::Key(lm, _)) => ls == lm,
        _ => false,
    }
}

pub open spec fn spec_has_key(points: Seq<AstView>, s: AstView) -> bool {
    exists|i: int| 0 <= i < points.len() && spec_key_match(s, #[trigger] points[i])
}

pub open spec fn spec_get_key(points: Seq<AstView>, s: AstView) -> Option<AstView>
    decreases points.len(),
{
    if points.len() == 0 {
        None
    } else if spec_key_match(s, points[0]) {
        Some(points[0])
    } else {
        spec_get_key(points.subrange(1, points.len() as int), s)
    }
}

/// The first modifier point that has no point of the same label in the source.
pub open spec fn first_missing(s_points: Seq<AstView>, m_points: Seq<AstView>) -> Option<AstView>
    decreases m_points.len(),
{
    if m_points.len() == 0 {
        None
    } else if !spec_has_key(s_points, m_points[0]) {
        Some(m_points[0])
    } else {
        first_missing(s_points, m_points.subrange(1, m_points.len() as int))
    }
}

/// The source's points, each replaced by the modifier's point of the same label.
pub open spec fn merge_points(s_points: Seq<AstView>, m_points: Seq<AstView>) -> Seq<AstView> {
    s_points.map_values(
        |s: AstView|
            match spec_get_key(m_points, s) {
                Some(m) => m,
                None => s,
            },
    )
}

pub open spec fn graph_points(a: AstView) -> Seq<AstView> {
    match a {
        AstView::Graph(_, p) => p,
        _ => seq![],
    }
}

pub open spec fn new_env(parent: EID) -> Map<Seq<char>, AstView> {
    Map::empty().insert(parent_label(), AstView::Parent(parent))
}

/// The message of an expansion whose applications do not get shallower;
/// on well-formed environments it never arises.
pub open spec fn depth_message() -> Seq<char> {
    "expansion does not terminate"@
}

pub open spec fn spec_map(envs: EnvsView, a: AstView, parent: EID) -> (EnvsView, Result<AstView, Seq<char>>)
    decreases apply_depth(a), view_size(a), 0nat,
{
    match a {
        AstView::Graph(_, points) => {
            let index = envs.len() as EID;
            let (e2, r) = spec_map_points(envs.push(new_env(parent)), points, index);
            match r {
                Ok(xs) => (e2, Ok(AstView::Graph(index, xs))),
                Err(m) => (e2, Err(m)),
            }
        },
        AstView::Key(label, point) => {
            let (e1, r) = spec_map(envs, *point, parent);
            match r {
                Ok(p) => (
                    e1.update(parent as int, e1[parent as int].insert(label, p)),
                    Ok(AstView::Key(label, Box::new(p))),
                ),
                Err(m) => (e1, Err(m)),
            }
        },
        AstView::Apply(source, modifier) => {
            let index = envs.len() as EID;
            let (e2, rs) = spec_map(envs.push(new_env(parent)), *source, parent);
            match rs {
                Err(m) => (e2, Err(m)),
                Ok(src) => match spec_deref(e2, src) {
                    Err(m) => (e2, Err(m)),
                    Ok(sv) => {
                        let s_points = graph_points(sv);
                        let m_points = graph_points(*modifier);
                        match first_missing(s_points, m_points) {
                            Some(m) => (e2, Err(missing_point_text(m, s_points))),
                            None => {
                                let points = merge_points(s_points, m_points);
                                if seq_apply_depth(points) < apply_depth(a) {
                                    let (e3, r) = spec_map_points(e2, points, index);
                                    match r {
                                        Ok(xs) => (e3, Ok(AstView::Graph(index, xs))),
                                        Err(m) => (e3, Err(m)),
                                    }
                                } else {
                                    (e2, Err(depth_message()))
                                }
                            },
                        }
                    },
                },
            }
        },
        AstView::Ref(_, label) => match spec_deref(envs, AstView::Ref(parent, label)) {
            Ok(_) => (envs, Ok(AstView::Ref(parent, label))),
            Err(m) => (envs, Err(m)),
        },
        AstView::Op2(name, left, right) => {
            if name == Name::Select {
                let (e1, rl) = spec_map(envs, *left, parent);
                match rl {
                    Err(m) => (e1, Err(m)),
                    Ok(l) => match spec_deref(e1, l) {
                        Err(m) => (e1, Err(m)),
                        Ok(AstView::Graph(eid, _)) => {
                            let (e2, rr) = spec_map(e1, *right, eid);
                            match rr {
                                Err(m) => (e2, Err(m)),
                                Ok(AstView::Ref(_, label)) => (e2, Ok(AstView::Ref(eid, label))),
                                Ok(r) => (e2, Err(not_ref_text(r))),
                            }
                        },
                        Ok(lns) => (e1, Err(not_graph_text(lns))),
                    },
                }
            } else {
                (envs, Ok(AstView::Nothing))
            }
        },
        AstView::Op1(_, _) => (envs, Ok(AstView::Nothing)),
        AstView::Op0(_) => (envs, Ok(AstView::Nothing)),
        AstView::Space(_) => (envs, Ok(AstView::Nothing)),
        AstView::Parent(_) => (envs, Err(no_map_match_text(a))),
        _ => (envs, Ok(a)),
    }
}

pub open spec fn spec_map_points(envs: EnvsView, points: Seq<AstView>, index: EID) -> (
    EnvsView,
    Result<Seq<AstView>, Seq<char>>,
)
    decreases seq_apply_depth(points), seq_size(points), 1nat,
{
    if points.len() == 0 {
        (envs, Ok(seq![]))
    } else {
        let (e1, r) = spec_map(envs, points[0], index);
        match r {
            Err(m) => (e1, Err(m)),
            Ok(x) => {
                proof {
                    lemma_view_size_pos(points[0]);
                }
                let (e2, rs) = spec_map_points(e1, points.subrange(1, points.len() as int), index);
                match rs {
                    Ok(xs) => (e2, Ok(seq![x] + xs)),
                    Err(m) => (e2, Err(m)),
                }
            },
        }
    }
}

/// The expansion of `ast` from a fresh set of environments.
pub open spec fn spec_expander(ast: AstView) -> (EnvsView, Result<AstView, Seq<char>>) {
    spec_map(seq![Map::empty()], ast, 0)
}

// ---------------------------------------------------------------------
// Where the expansion panics: a lookup that reaches an environment whose
// parent link a point labelled with the parent label has replaced.

pub open spec fn lookup_aborts(envs: EnvsView, label: Seq<char>, eid: EID) -> bool
    decreases eid,
{
    if eid == 0 || eid >= envs.len() || envs[eid as int].dom().contains(label) {
        false
    } else if !envs[eid as int].dom().contains(parent_label()) {
        true
    } else {
        match envs[eid as int][parent_label()] {
            AstView::Parent(p) => p < eid && lookup_aborts(envs, label, p),
            _ => true,
        }
    }
}

pub open spec fn deref_aborts(envs: EnvsView, r: AstView) -> bool {
    match r {
        AstView::Ref(eid, label) => lookup_aborts(envs, label, eid),
        _ => false,
    }
}

pub open spec fn map_aborts(envs: EnvsView, a: AstView, parent: EID) -> bool
    decreases apply_depth(a), view_size(a), 0nat,
{
    match a {
        AstView::Graph(_, points) => map_points_aborts(envs.push(new_env(parent)), points, envs.len() as EID),
        AstView::Key(_, point) => map_aborts(envs, *point, parent),
        AstView::Apply(source, modifier) => {
            let index = envs.len() as EID;
            let e1 = envs.push(new_env(parent));
            let (e2, rs) = spec_map(e1, *source, parent);
            map_aborts(e1, *source, parent) || match rs {
                Err(_) => false,
                Ok(src) => deref_aborts(e2, src) || match spec_deref(e2, src) {
                    Err(_) => false,
                    Ok(sv) => {
                        let s_points = graph_points(sv);
                        let m_points = graph_points(*modifier);
                        match first_missing(s_points, m_points) {
                            Some(_) => false,
                            None => {
                                let points = merge_points(s_points, m_points);
                                seq_apply_depth(points) < apply_depth(a) && map_points_aborts(e2, points, index)
                            },
                        }
                    },
                },
            }
        },
        AstView::Ref(_, label) => deref_aborts(envs, AstView::Ref(parent, label)),
        AstView::Op2(name, left, right) => if name == Name::Select {
            let (e1, rl) = spec_map(envs, *left, parent);
            map_aborts(envs, *left, parent) || match rl {
                Err(_) => false,
                Ok(l) => deref_aborts(e1, l) || match spec_deref(e1, l) {
                    Ok(AstView::Graph(eid, _)) => map_aborts(e1, *right, eid),
                    _ => false,
                },
            }
        } else {
            false
        },
        _ => false,
    }
}

pub open spec fn map_points_aborts(envs: EnvsView, points: Seq<AstView>, index: EID) -> bool
    decreases seq_apply_depth(points), seq_size(points), 1nat,
{
    if points.len() == 0 {
        false
    } else {
        let (e1, r) = spec_map(envs, points[0], index);
        map_aborts(envs, points[0], index) || match r {
            Err(_) => false,
            Ok(_) => {
                proof {
                    lemma_view_size_pos(points[0]);
                }
                map_points_aborts(e1, points.subrange(1, points.len() as int), index)
            },
        }
    }
}

/// The expansion of `ast` from a fresh set of environments panics.
pub open spec fn expander_aborts(ast: AstView) -> bool {
    map_aborts(seq![Map::empty()], ast, 0)
}

// ---------------------------------------------------------------------
// Laws

/// Mapping a list of points that succeeds gives one point for each.
pub proof fn lemma_map_points_len(envs: EnvsView, points: Seq<AstView>, index: EID)
    ensures
        spec_map_points(envs, points, index).1 matches Ok(xs) ==> xs.len() == points.len(),
    decreases points.len(),
{
    if points.len() > 0 {
        let (e1, r) = spec_map(envs, points[0], index);
        if r is Ok {
            lemma_map_points_len(e1, points.subrange(1, points.len() as int), index);
        }
    }
}

/// An application that succeeds gives a graph with as many points as the
/// graph its source names: the modifier only replaces points.
pub proof fn lemma_apply_keeps_shape(envs: EnvsView, source: AstView, modifier: AstView, parent: EID)
    ensures
        spec_map(envs, AstView::Apply(Box::new(source), Box::new(modifier)), parent).1 matches Ok(g) ==> (
        g matches AstView::Graph(_, xs) && spec_map(envs.push(new_env(parent)), source, parent).1 matches Ok(
            src,
        ) && spec_deref(spec_map(envs.push(new_env(parent)), source, parent).0, src) matches Ok(sv) && xs.len()
            == graph_points(sv).len()),
{
    let (e2, rs) = spec_map(envs.push(new_env(parent)), source, parent);
    if let Ok(src) = rs {
        if let Ok(sv) = spec_deref(e2, src) {
            let points = merge_points(graph_points(sv), graph_points(modifier));
            lemma_map_points_len(e2, points, envs.len() as EID);
        }
    }
}

/// A point that the search by label finds carries the label it was
/// searched by.
proof fn lemma_get_key_matches(points: Seq<AstView>, s: AstView)
    ensures
        spec_get_key(points, s) matches Some(m) ==> spec_key_match(s, m),
    decreases points.len(),
{
    if points.len() > 0 && !spec_key_match(s, points[0]) {
        lemma_get_key_matches(points.subrange(1, points.len() as int), s);
    }
}

/// Mapping keeps the label of a labelled point.
proof fn lemma_map_points_labels(envs: EnvsView, points: Seq<AstView>, index: EID)
    ensures
        spec_map_points(envs, points, index).1 matches Ok(xs) ==> forall|k: int|
            0 <= k < points.len() && (#[trigger] points[k] is Key) ==> xs[k] is Key && xs[k]->Key_0
                == points[k]->Key_0,
    decreases points.len(),
{
    if points.len() > 0 {
        let (e1, r) = spec_map(envs, points[0], index);
        if let Ok(x) = r {
            let rest = points.subrange(1, points.len() as int);
            lemma_map_points_labels(e1, rest, index);
            lemma_map_points_len(e1, rest, index);
            if let Ok(xs) = spec_map_points(envs, points, index).1 {
                let tail = spec_map_points(e1, rest, index).1->Ok_0;
                assert(xs == seq![x] + tail);
                assert forall|k: int| 0 <= k < points.len() && (#[trigger] points[k] is Key) implies xs[k] is Key
                    && xs[k]->Key_0 == points[k]->Key_0 by {
                    if k > 0 {
                        assert(points[k] == rest[k - 1]);
                        assert(xs[k] == tail[k - 1]);
                    }
                }
            }
        }
    }
}

/// An application keeps the labels of its source, in order: where the
/// k-th point of the graph the source names is labelled, the k-th point of
/// the result carries the same label, whatever the modifier replaced.
pub proof fn lemma_apply_keeps_labels(envs: EnvsView, source: AstView, modifier: AstView, parent: EID)
    ensures
        spec_map(envs, AstView::Apply(Box::new(source), Box::new(modifier)), parent).1 matches Ok(g) ==> (
        g matches AstView::Graph(_, xs) && spec_map(envs.push(new_env(parent)), source, parent).1 matches Ok(
            src,
        ) && spec_deref(spec_map(envs.push(new_env(parent)), source, parent).0, src) matches Ok(sv) && forall|
            k: int,
        |
            0 <= k < graph_points(sv).len() && (#[trigger] graph_points(sv)[k] is Key) ==> xs[k] is Key
                && xs[k]->Key_0 == graph_points(sv)[k]->Key_0),
{
    let (e2, rs) = spec_map(envs.push(new_env(parent)), source, parent);
    if let Ok(src) = rs {
        if let Ok(sv) = spec_deref(e2, src) {
            let sp = graph_points(sv);
            let mp = graph_points(modifier);
            let points = merge_points(sp, mp);
            lemma_map_points_len(e2, points, envs.len() as EID);
            lemma_map_points_labels(e2, points, envs.len() as EID);
            assert forall|k: int| 0 <= k < sp.len() && (#[trigger] sp[k] is Key) implies points[k] is Key
                && points[k]->Key_0 == sp[k]->Key_0 by {
                lemma_get_key_matches(mp, sp[k]);
            }
        }
    }
}

// ---------------------------------------------------------------------
// Lemmas on measures and shapes

pub proof fn lemma_seq_elem(s: Seq<AstView>, i: int, n: nat)
    requires
        0 <= i < s.len(),
    ensures
        apply_depth(s[i]) <= seq_apply_depth(s),
        view_size(s[i]) <= seq_size(s),
        seq_eids_below(s, n) ==> eids_below(s[i], n),
    decreases s.len(),
{
    if i > 0 {
        let t = s.subrange(1, s.len() as int);
        lemma_seq_elem(t, i - 1, n);
        assert(t[i - 1] == s[i]);
    }
}

proof fn lemma_seq_from_elems(s: Seq<AstView>, n: nat)
    ensures
        (forall|i: int| 0 <= i < s.len() ==> apply_depth(#[trigger] s[i]) == 0) ==> seq_apply_depth(s)
            == 0,
        (forall|i: int| 0 <= i < s.len() ==> eids_below(#[trigger] s[i], n)) ==> seq_eids_below(s, n),
    decreases s.len(),
{
    if s.len() > 0 {
        let t = s.subrange(1, s.len() as int);
        lemma_seq_from_elems(t, n);
        assert forall|i: int| 0 <= i < t.len() implies #[trigger] t[i] == s[i + 1] by {}
    }
}

proof fn lemma_seq_depth_bound(s: Seq<AstView>, k: nat)
    requires
        forall|i: int| 0 <= i < s.len() ==> apply_depth(#[trigger] s[i]) <= k,
    ensures
        seq_apply_depth(s) <= k,
    decreases s.len(),
{
    if s.len() > 0 {
        let t = s.subrange(1, s.len() as int);
        assert forall|i: int| 0 <= i < t.len() implies apply_depth(#[trigger] t[i]) <= k by {
            assert(t[i] == s[i + 1]);
        }
        lemma_seq_depth_bound(t, k);
    }
}

proof fn lemma_eids_below_mono(a: AstView, n: nat, m: nat)
    requires
        eids_below(a, n),
        n <= m,
    ensures
        eids_below(a, m),
    decreases a,
{
    match a {
        AstView::Graph(_, s) => lemma_seq_eids_below_mono(s, n, m),
        AstView::Space(s) => lemma_seq_eids_below_mono(s, n, m),
        AstView::Apply(x, y) => {
            lemma_eids_below_mono(*x, n, m);
            lemma_eids_below_mono(*y, n, m);
        },
        AstView::Op2(_, x, y) => {
            lemma_eids_below_mono(*x, n, m);
            lemma_eids_below_mono(*y, n, m);
        },
        AstView::Key(_, p) => lemma_eids_below_mono(*p, n, m),
        AstView::Op1(_, p) => lemma_eids_below_mono(*p, n, m),
        _ => {},
    }
}

proof fn lemma_seq_eids_below_mono(s: Seq<AstView>, n: nat, m: nat)
    requires
        seq_eids_below(s, n),
        n <= m,
    ensures
        seq_eids_below(s, m),
    decreases s,
{
    if s.len() > 0 {
        lemma_eids_below_mono(s[0], n, m);
        lemma_seq_eids_below_mono(s.subrange(1, s.len() as int), n, m);
    }
}

/// Pushing a fresh environment whose parent exists keeps the environments
/// well formed.
proof fn lemma_push_env_wf(envs: EnvsView, parent: EID)
    requires
        envs_wf(envs),
        parent < envs.len(),
    ensures
        envs_wf(envs.push(new_env(parent))),
{
    let e = envs.push(new_env(parent));
    assert forall|i: int, k: Seq<char>|
        0 <= i < e.len() && (#[trigger] e[i].dom().contains(k)) implies stored_ok(e[i][k], e.len()) by {
        if i < envs.len() {
            assert(e[i] == envs[i]);
            assert(envs[i].dom().contains(k));
            lemma_eids_below_mono(envs[i][k], envs.len() as nat, e.len() as nat);
        } else {
            assert(k == parent_label());
        }
    }
    assert forall|i: int|
        1 <= i < e.len() implies (#[trigger] e[i]).dom().contains(parent_label()) && (
        e[i][parent_label()] matches AstView::Parent(p) ==> p < i) by {
        if i < envs.len() {
            assert(e[i] == envs[i]);
        }
    }
}

/// Binding a label to a stored value that is not a parent link keeps the
/// environments well formed.
proof fn lemma_bind_wf(envs: EnvsView, parent: EID, label: Seq<char>, v: AstView)
    requires
        envs_wf(envs),
        parent < envs.len(),
        !(v is Parent),
        stored_ok(v, envs.len() as nat),
    ensures
        envs_wf(envs.update(parent as int, envs[parent as int].insert(label, v))),
{
    let e = envs.update(parent as int, envs[parent as int].insert(label, v));
    assert forall|i: int, k: Seq<char>|
        0 <= i < e.len() && (#[trigger] e[i].dom().contains(k)) implies stored_ok(e[i][k], e.len()) by {
        if i != parent {
            assert(e[i] == envs[i]);
        } else if k != label {
            assert(envs[i].dom().contains(k));
        }
    }
    assert forall|i: int|
        1 <= i < e.len() implies (#[trigger] e[i]).dom().contains(parent_label()) && (
        e[i][parent_label()] matches AstView::Parent(p) ==> p < i) by {
        if i != parent {
            assert(e[i] == envs[i]);
        }
    }
}

/// A lookup in well-formed environments yields a stored value.
proof fn lemma_lookup_stored(envs: EnvsView, label: Seq<char>, eid: EID)
    requires
        envs_wf(envs),
    ensures
        spec_lookup(envs, label, eid) matches Ok(v) ==> stored_ok(v, envs.len() as nat),
    decreases eid,
{
    if eid != 0 && eid < envs.len() {
        if envs[eid as int].dom().contains(label) {
        } else {
            match envs[eid as int][parent_label()] {
                AstView::Parent(p) => if p < eid {
                    lemma_lookup_stored(envs, label, p);
                },
                _ => {},
            }
        }
    }
}

proof fn lemma_get_key_member(points: Seq<AstView>, s: AstView)
    ensures
        spec_get_key(points, s) matches Some(m) ==> exists|i: int| 0 <= i < points.len() && points[i] == m,
    decreases points.len(),
{
    if points.len() > 0 && !spec_key_match(s, points[0]) {
        let t = points.subrange(1, points.len() as int);
        lemma_get_key_member(t, s);
        if let Some(m) = spec_get_key(t, s) {
            let i = choose|i: int| 0 <= i < t.len() && t[i] == m;
            assert(points[i + 1] == m);
        }
    }
}

proof fn lemma_merge_ok(sp: Seq<AstView>, mp: Seq<AstView>, d: nat)
    requires
        seq_apply_depth(sp) == 0,
        seq_apply_depth(mp) < d,
    ensures
        seq_apply_depth(merge_points(sp, mp)) < d,
{
    let merged = merge_points(sp, mp);
    assert forall|q: int| 0 <= q < merged.len() implies apply_depth(#[trigger] merged[q]) <= (d - 1) as nat by {
        lemma_get_key_member(mp, sp[q]);
        match spec_get_key(mp, sp[q]) {
            Some(m) => {
                let w = choose|w: int| 0 <= w < mp.len() && mp[w] == m;
                lemma_seq_elem(mp, w, 0);
            },
            None => {
                lemma_seq_elem(sp, q, 0);
            },
        }
    }
    lemma_seq_depth_bound(merged, (d - 1) as nat);
}

pub open spec fn prepend_done(done: Seq<AstView>, r: (EnvsView, Result<Seq<AstView>, Seq<char>>)) -> (
    EnvsView,
    Result<Seq<AstView>, Seq<char>>,
) {
    (
        r.0,
        match r.1 {
            Ok(xs) => Ok(done + xs),
            Err(m) => Err(m),
        },
    )
}

// ---------------------------------------------------------------------
// The expansion

fn get_eid(ast: &Ast) -> (r: Result<EID, String>)
    ensures
        match r {
            Ok(e) => ast@ matches AstView::Graph(e2, _) && e == e2,
            Err(m) => !(ast@ is Graph) && m@ == not_graph_text(ast@),
        },
{
    match ast {
        Ast::Graph(eid, _) => Ok(*eid),
        _ => Err(not_graph_message(ast)),
    }
}

fn get_label(ast: &Ast) -> (r: Result<String, String>)
    ensures
        match r {
            Ok(l) => ast@ matches AstView::Ref(_, l2) && l@ == l2,
            Err(m) => !(ast@ is Ref) && m@ == not_ref_text(ast@),
        },
{
    match ast {
        Ast::Ref(_, label) => Ok(label.clone()),
        _ => Err(not_ref_message(ast)),
    }
}

fn key_match(point_s: &Ast, point_m: &Ast) -> (r: bool)
    ensures
        r == spec_key_match(point_s@, point_m@),
{
    match point_s {
        Ast::Key(label_s, _) => match point_m {
            Ast::Key(label_m, _) => *label_s == *label_m,
            _ => false,
        },
        _ => false,
    }
}

fn has_key(points: &Vec<Ast>, point_s: &Ast) -> (r: bool)
    ensures
        r == spec_has_key(asts_view(points@), point_s@),
{
    let ghost v = asts_view(points@);
    proof {
        lemma_asts_view_len(points@);
    }
    let mut i: usize = 0;
    while i < points.len()
        invariant
            i <= points@.len(),
            v == asts_view(points@),
            v.len() == points@.len(),
            forall|j: int| 0 <= j < i ==> !spec_key_match(point_s@, #[trigger] v[j]),
        decreases points@.len() - i,
    {
        proof {
            lemma_asts_view_index(points@, i as int);
        }
        if key_match(point_s, &points[i]) {
            return true;
        }
        i = i + 1;
    }
    false
}

fn get_key(points: &Vec<Ast>, point_s: &Ast) -> (r: Option<Ast>)
    ensures
        match r {
            Some(a) => spec_get_key(asts_view(points@), point_s@) == Some(a@),
            None => spec_get_key(asts_view(points@), point_s@) is None,
        },
{
    let ghost v = asts_view(points@);
    proof {
        lemma_asts_view_len(points@);
        assert(v.subrange(0, v.len() as int) =~= v);
    }
    let mut i: usize = 0;
    while i < points.len()
        invariant
            i <= points@.len(),
            v == asts_view(points@),
            v.len() == points@.len(),
            spec_get_key(v, point_s@) == spec_get_key(v.subrange(i as int, v.len() as int), point_s@),
        decreases points@.len() - i,
    {
        proof {
            lemma_asts_view_index(points@, i as int);
            let t = v.subrange(i as int, v.len() as int);
            assert(t[0] == v[i as int]);
            assert(t.subrange(1, t.len() as int) =~= v.subrange(i + 1, v.len() as int));
        }
        if key_match(point_s, &points[i]) {
            return Some(points[i].deep_clone());
        }
        i = i + 1;
    }
    None
}

fn get_parent_eid(ast: &Ast) -> (r: EID)
    requires
        ast@ is Parent,
    ensures
        ast@ == AstView::Parent(r),
{
    match ast {
        Ast::Parent(eid) => *eid,
        _ => {
            proof {
                assert(false);
            }
            0
        },
    }
}

impl Parse {
    fn deref(&self, ref_: &Ast) -> (r: Result<&Ast, String>)
        requires
            envs_wf(envs_view(self.envs@)),
            !deref_aborts(envs_view(self.envs@), ref_@),
            ref_@ matches AstView::Ref(e, _) ==> e < self.envs@.len(),
        ensures
            match r {
                Ok(a) => spec_deref(envs_view(self.envs@), ref_@) == Ok::<AstView, Seq<char>>(a@),
                Err(m) => spec_deref(envs_view(self.envs@), ref_@) == Err::<AstView, Seq<char>>(m@),
            },
    {
        match ref_ {
            Ast::Ref(eid, label) => self.lookup(label, *eid),
            _ => Err(not_reference_message(ref_)),
        }
    }

    fn lookup(&self, label: &String, eid: EID) -> (r: Result<&Ast, String>)
        requires
            envs_wf(envs_view(self.envs@)),
            eid < self.envs@.len(),
            !lookup_aborts(envs_view(self.envs@), label@, eid),
        ensures
            match r {
                Ok(a) => spec_lookup(envs_view(self.envs@), label@, eid) == Ok::<AstView, Seq<char>>(
                    a@,
                ),
                Err(m) => spec_lookup(envs_view(self.envs@), label@, eid) == Err::<
                    AstView,
                    Seq<char>,
                >(m@),
            },
        decreases eid,
    {
        let ghost v = envs_view(self.envs@);
        if eid == 0 {
            return Err(undefined_point_message(label));
        }
        assert(v[eid as int] == self.envs@[eid as int]@.map_values(|a: Ast| a@));
        match self.envs[eid].get(label) {
            Some(result) => Ok(result),
            None => {
                let key = "<parent>".to_owned();
                assert(v[eid as int].dom().contains(parent_label()));
                let link = self.envs[eid].get(&key).unwrap();
                self.lookup(label, get_parent_eid(link))
            },
        }
    }
}

impl Parse {
    /// Binds `label` to `point` in environment `eid`.
    fn bind(&mut self, eid: EID, label: String, point: Ast)
        requires
            eid < old(self).envs@.len(),
        ensures
            final(self).envs@.len() == old(self).envs@.len(),
            envs_view(final(self).envs@) == envs_view(old(self).envs@).update(
                eid as int,
                envs_view(old(self).envs@)[eid as int].insert(label@, point@),
            ),
    {
        let ghost l = label@;
        let ghost p = point@;
        self.envs[eid].insert(label, point);
        assert(self.envs@[eid as int]@.map_values(|a: Ast| a@) =~= envs_view(old(self).envs@)[eid as int].insert(l, p));
        assert(envs_view(self.envs@) =~= envs_view(old(self).envs@).update(
            eid as int,
            envs_view(old(self).envs@)[eid as int].insert(l, p),
        ));
    }

    /// Adds a fresh environment whose parent is `parent`.
    fn push_env(&mut self, parent: EID)
        ensures
            envs_view(final(self).envs@) == envs_view(old(self).envs@).push(new_env(parent)),
            final(self).envs@.len() == old(self).envs@.len() + 1,
    {
        let mut env: Env<Ast> = Env::new();
        env.insert("<parent>".to_owned(), Ast::Parent(parent));
        let ghost ev = env@;
        self.envs.push(env);
        assert(ev.map_values(|a: Ast| a@) =~= new_env(parent));
        assert(envs_view(self.envs@) =~= envs_view(old(self).envs@).push(new_env(parent)));
    }
}

impl Parse {
    #[verifier::loop_isolation(false)]
    fn map_points(&mut self, points: &Vec<Ast>, index: EID) -> (r: Result<Vec<Ast>, String>)
        requires
            envs_wf(envs_view(old(self).envs@)),
            index < old(self).envs@.len(),
            !map_points_aborts(envs_view(old(self).envs@), asts_view(points@), index),
        ensures
            envs_wf(envs_view(final(self).envs@)),
            final(self).envs@.len() >= old(self).envs@.len(),
            spec_map_points(envs_view(old(self).envs@), asts_view(points@), index).0 == envs_view(
                final(self).envs@,
            ),
            match r {
                Ok(xs) => spec_map_points(envs_view(old(self).envs@), asts_view(points@), index).1
                    == Ok::<Seq<AstView>, Seq<char>>(asts_view(xs@)) && forall|j: int|
                    0 <= j < xs@.len() ==> stored_ok(#[trigger] xs@[j]@, final(self).envs@.len() as nat),
                Err(m) => spec_map_points(envs_view(old(self).envs@), asts_view(points@), index).1
                    == Err::<Seq<AstView>, Seq<char>>(m@),
            },
        decreases seq_apply_depth(asts_view(points@)), seq_size(asts_view(points@)), 2nat,
    {
        let ghost pv = asts_view(points@);
        let ghost e0 = envs_view(self.envs@);
        let mut out: Vec<Ast> = Vec::new();
        let mut i: usize = 0;
        proof {
            lemma_asts_view_len(points@);
            assert(pv.subrange(0, pv.len() as int) =~= pv);
            assert(asts_view(out@) =~= seq![]);
            assert(prepend_done(seq![], spec_map_points(e0, pv, index)) == spec_map_points(e0, pv, index));
        }
        while i < points.len()
            invariant
                i <= points@.len(),
                e0 == envs_view(old(self).envs@),
                pv == asts_view(points@),
                pv.len() == points@.len(),
                !map_points_aborts(envs_view(self.envs@), pv.subrange(i as int, pv.len() as int), index),
                index < self.envs@.len(),
                envs_wf(envs_view(self.envs@)),
                self.envs@.len() >= e0.len(),
                spec_map_points(e0, pv, index) == prepend_done(
                    asts_view(out@),
                    spec_map_points(envs_view(self.envs@), pv.subrange(i as int, pv.len() as int), index),
                ),
                forall|j: int| 0 <= j < out@.len() ==> stored_ok(#[trigger] out@[j]@, self.envs@.len() as nat),
                seq_apply_depth(pv) == seq_apply_depth(asts_view(points@)),
            decreases points@.len() - i,
        {
            let ghost cur = envs_view(self.envs@);
            let ghost rest = pv.subrange(i as int, pv.len() as int);
            proof {
                lemma_asts_view_index(points@, i as int);
                lemma_seq_elem(pv, i as int, 0);
                assert(rest[0] == pv[i as int]);
                assert(rest.subrange(1, rest.len() as int) =~= pv.subrange(i + 1, pv.len() as int));
            }
            match self.map(&points[i], index) {
                Err(m) => {
                    return Err(m);
                },
                Ok(x) => {
                    let ghost done = asts_view(out@);
                    let ghost xv = x@;
                    proof {
                        lemma_asts_view_push(out@, x);
                        let tail = spec_map_points(
                            envs_view(self.envs@),
                            pv.subrange(i + 1, pv.len() as int),
                            index,
                        );
                        match tail.1 {
                            Ok(xs) => {
                                assert(done + (seq![xv] + xs) =~= done.push(xv) + xs);
                            },
                            Err(_) => {},
                        }
                        assert forall|j: int| 0 <= j < out@.len() implies stored_ok(
                            #[trigger] out@[j]@,
                            self.envs@.len() as nat,
                        ) by {
                            lemma_eids_below_mono(out@[j]@, cur.len() as nat, self.envs@.len() as nat);
                        }
                    }
                    out.push(x);
                    i = i + 1;
                },
            }
        }
        proof {
            assert(pv.subrange(i as int, pv.len() as int) =~= Seq::<AstView>::empty());
            assert(asts_view(out@) + Seq::<AstView>::empty() =~= asts_view(out@));
        }
        Ok(out)
    }

    #[verifier::loop_isolation(false)]
    fn map(&mut self, ast: &Ast, parent_eid: EID) -> (r: Result<Ast, String>)
        requires
            envs_wf(envs_view(old(self).envs@)),
            parent_eid < old(self).envs@.len(),
            !map_aborts(envs_view(old(self).envs@), ast@, parent_eid),
        ensures
            envs_wf(envs_view(final(self).envs@)),
            final(self).envs@.len() >= old(self).envs@.len(),
            spec_map(envs_view(old(self).envs@), ast@, parent_eid).0 == envs_view(final(self).envs@),
            match r {
                Ok(a) => spec_map(envs_view(old(self).envs@), ast@, parent_eid).1 == Ok::<
                    AstView,
                    Seq<char>,
                >(a@) && stored_ok(a@, final(self).envs@.len() as nat) && !(a@ is Parent),
                Err(m) => spec_map(envs_view(old(self).envs@), ast@, parent_eid).1 == Err::<
                    AstView,
                    Seq<char>,
                >(m@),
            },
            keeps_keys(envs_view(old(self).envs@), envs_view(final(self).envs@)),
            envs_parent_free(envs_view(old(self).envs@)) && parent_free(ast@) ==> keeps_links(
                envs_view(old(self).envs@),
                envs_view(final(self).envs@),
            ),
            ast@ matches AstView::Graph(_, ps) ==> (r matches Ok(x) ==> x@ matches AstView::Graph(k, qs)
                && k == old(self).envs@.len() && qs.len() == ps.len()) && envs_view(final(self).envs@)[old(
                self,
            ).envs@.len() as int].dom().contains(parent_label()) && (envs_parent_free(
                envs_view(old(self).envs@),
            ) && parent_free(ast@) ==> envs_view(final(self).envs@)[old(self).envs@.len() as int][parent_label()]
                == AstView::Parent(parent_eid)),
        decreases apply_depth(ast@), view_size(ast@), 1nat,
    {
        let ghost e0 = envs_view(self.envs@);
        proof {
            lemma_wf_eids_ok(e0);
            lemma_map_frame(e0, ast@, parent_eid);
        }
        match ast {
            Ast::Graph(_, points) => {
                let index = self.envs.len();
                proof {
                    lemma_push_env_wf(e0, parent_eid);
                }
                self.push_env(parent_eid);
                proof {
                    assert(self.envs@.len() == self.envs.len());
                    lemma_map_graph(e0, ast@->Graph_0, ast@->Graph_1, parent_eid);
                }
                match self.map_points(points, index) {
                    Ok(xs) => {
                        proof {
                            lemma_asts_view_len(xs@);
                            let xv = asts_view(xs@);
                            assert forall|j: int| 0 <= j < xv.len() implies apply_depth(#[trigger] xv[j]) == 0
                                && eids_below(xv[j], self.envs@.len() as nat) by {
                                lemma_asts_view_index(xs@, j);
                            }
                            lemma_seq_from_elems(xv, self.envs@.len() as nat);
                        }
                        Ok(Ast::Graph(index, xs))
                    },
                    Err(m) => Err(m),
                }
            },
            Ast::Key(label, point) => {
                match self.map(point, parent_eid) {
                    Err(m) => Err(m),
                    Ok(p) => {
                        proof {
                            lemma_bind_wf(envs_view(self.envs@), parent_eid, label@, p@);
                        }
                        self.bind(parent_eid, label.clone(), p.deep_clone());
                        Ok(Ast::Key(label.clone(), Box::new(p)))
                    },
                }
            },
            Ast::Apply(source, modifier) => self.map_apply(ast, source, modifier, parent_eid),
            Ast::Ref(_, label) => {
                let r = Ast::Ref(parent_eid, label.clone());
                match self.deref(&r) {
                    Ok(_) => Ok(r),
                    Err(m) => Err(m),
                }
            },
            Ast::Op2(name, left, right) => {
                if *name == Name::Select {
                    self.map_select(ast, left, right, parent_eid)
                } else {
                    Ok(Ast::Nothing)
                }
            },
            Ast::Op1(_, _) => Ok(Ast::Nothing),
            Ast::Op0(_) => Ok(Ast::Nothing),
            Ast::Space(_) => Ok(Ast::Nothing),
            Ast::Decimal(i) => Ok(Ast::Decimal(i.clone())),
            Ast::Integer(i) => Ok(Ast::Integer(i.clone())),
            Ast::String(i) => Ok(Ast::String(i.clone())),
            Ast::Clock(t, i) => Ok(Ast::Clock(t.clone(), *i)),
            Ast::Size(i) => Ok(Ast::Size(*i)),
            Ast::Nothing => Ok(Ast::Nothing),
            Ast::Parent(_) => Err(no_map_match_message(ast)),
        }
    }
}

/// Expands `ast` from a fresh set of environments, whose first entry
/// stands for "no parent". On success it returns the expanded tree and
/// the environments, in which every value is expanded (no applications
/// remain) and every environment after the first keeps a parent link. It
/// panics where a lookup reaches an environment whose parent link a point
/// labelled with the parent label has replaced; `requires` leaves out
/// exactly those trees.
pub fn expander(ast: &Ast) -> (r: Result<(Ast, Maps), String>)
    requires
        !expander_aborts(ast@),
    ensures
        match r {
            Ok((a, m)) => spec_expander(ast@) == (envs_view(m@), Ok::<AstView, Seq<char>>(a@)),
            Err(e) => spec_expander(ast@).1 == Err::<AstView, Seq<char>>(e@),
        },
        r matches Ok((a, m)) ==> stored_ok(a@, m@.len() as nat) && envs_wf(envs_view(m@)),
{
    let mut parse = Parse { envs: Vec::new() };
    parse.envs.push(Env::new());
    proof {
        assert(parse.envs@[0]@.map_values(|a: Ast| a@) =~= Map::<Seq<char>, AstView>::empty());
        assert(envs_view(parse.envs@) =~= seq![Map::<Seq<char>, AstView>::empty()]);
    }
    let a = parse.map(ast, 0)?;
    Ok((a, parse.envs))
}

impl Parse {
    #[verifier::loop_isolation(false)]
    fn map_apply(&mut self, ast: &Ast, source: &Ast, modifier: &Ast, parent_eid: EID) -> (r: Result<Ast, String>)
        requires
            envs_wf(envs_view(old(self).envs@)),
            parent_eid < old(self).envs@.len(),
            !map_aborts(envs_view(old(self).envs@), ast@, parent_eid),
            ast@ == AstView::Apply(Box::new(source@), Box::new(modifier@)),
        ensures
            envs_wf(envs_view(final(self).envs@)),
            final(self).envs@.len() >= old(self).envs@.len(),
            spec_map(envs_view(old(self).envs@), ast@, parent_eid).0 == envs_view(final(self).envs@),
            match r {
                Ok(a) => spec_map(envs_view(old(self).envs@), ast@, parent_eid).1 == Ok::<
                    AstView,
                    Seq<char>,
                >(a@) && stored_ok(a@, final(self).envs@.len() as nat) && !(a@ is Parent),
                Err(m) => spec_map(envs_view(old(self).envs@), ast@, parent_eid).1 == Err::<
                    AstView,
                    Seq<char>,
                >(m@),
            },
        decreases apply_depth(ast@), view_size(ast@), 0nat,
    {
        let ghost e0 = envs_view(self.envs@);
                let index = self.envs.len();
                proof {
                    lemma_push_env_wf(e0, parent_eid);
                }
                self.push_env(parent_eid);
                let src = match self.map(source, parent_eid) {
                    Ok(s) => s,
                    Err(m) => {
                        return Err(m);
                    },
                };
                let ghost e2 = envs_view(self.envs@);
                let s_points: Vec<Ast> = match self.deref(&src) {
                    Err(m) => {
                        return Err(m);
                    },
                    Ok(sv) => {
                        proof {
                            match src@ {
                                AstView::Ref(eid, label) => lemma_lookup_stored(e2, label, eid),
                                _ => {},
                            }
                            assert(stored_ok(sv@, e2.len() as nat));
                            assert(spec_deref(e2, src@) == Ok::<AstView, Seq<char>>(sv@));
                        }
                        let sp0 = match sv {
                            Ast::Graph(_, pts) => clone_asts(pts),
                            _ => Vec::new(),
                        };
                        proof {
                            assert(asts_view(sp0@) == graph_points(sv@)) by {
                                if !(sv@ is Graph) {
                                    assert(asts_view(sp0@) =~= Seq::<AstView>::empty());
                                }
                            }
                            assert(seq_apply_depth(asts_view(sp0@)) == 0);
                        }
                        sp0
                    },
                };
                let m_points: Vec<Ast> = match modifier {
                    Ast::Graph(_, pts) => clone_asts(pts),
                    _ => Vec::new(),
                };
                proof {
                    assert(asts_view(m_points@) == graph_points(modifier@)) by {
                        if !(modifier@ is Graph) {
                            assert(asts_view(m_points@) =~= Seq::<AstView>::empty());
                        }
                    }
                }
                let ghost sp = asts_view(s_points@);
                let ghost mp = asts_view(m_points@);
                proof {
                    lemma_asts_view_len(s_points@);
                    lemma_asts_view_len(m_points@);
                    assert(mp.subrange(0, mp.len() as int) =~= mp);
                }
                let mut j: usize = 0;
                while j < m_points.len()
                    invariant
                        j <= m_points@.len(),
                        mp == asts_view(m_points@),
                        sp == asts_view(s_points@),
                        mp.len() == m_points@.len(),
                        first_missing(sp, mp) == first_missing(sp, mp.subrange(j as int, mp.len() as int)),
                    decreases m_points@.len() - j,
                {
                    proof {
                        lemma_asts_view_index(m_points@, j as int);
                        let t = mp.subrange(j as int, mp.len() as int);
                        assert(t[0] == mp[j as int]);
                        assert(t.subrange(1, t.len() as int) =~= mp.subrange(j + 1, mp.len() as int));
                    }
                    if !has_key(&s_points, &m_points[j]) {
                        return Err(missing_point_message(&m_points[j], &s_points));
                    }
                    j = j + 1;
                }
                proof {
                    assert(mp.subrange(j as int, mp.len() as int) =~= Seq::<AstView>::empty());
                }
                let mut points: Vec<Ast> = Vec::new();
                let mut k: usize = 0;
                while k < s_points.len()
                    invariant
                        k <= s_points@.len(),
                        sp == asts_view(s_points@),
                        mp == asts_view(m_points@),
                        sp.len() == s_points@.len(),
                        points@.len() == k,
                        forall|q: int| 0 <= q < k ==> (#[trigger] points@[q])@ == merge_points(sp, mp)[q],
                    decreases s_points@.len() - k,
                {
                    proof {
                        lemma_asts_view_index(s_points@, k as int);
                    }
                    let p = match get_key(&m_points, &s_points[k]) {
                        Some(p) => p,
                        None => s_points[k].deep_clone(),
                    };
                    points.push(p);
                    k = k + 1;
                }
                let ghost merged = merge_points(sp, mp);
                proof {
                    lemma_asts_view_len(points@);
                    assert forall|q: int| 0 <= q < merged.len() implies asts_view(points@)[q] == merged[q] by {
                        lemma_asts_view_index(points@, q);
                    }
                    assert(asts_view(points@) =~= merged);
                    let d = apply_depth(ast@);
                    assert(d == 1 + max_nat(apply_depth(source@), apply_depth(modifier@)));
                    assert(seq_apply_depth(mp) < d) by {
                        if let AstView::Graph(_, pts) = modifier@ {
                            assert(mp == pts);
                            assert(apply_depth(modifier@) == seq_apply_depth(pts));
                        } else {
                            assert(mp =~= Seq::<AstView>::empty());
                        }
                    }
                    lemma_merge_ok(sp, mp, d);
                }
                match self.map_points(&points, index) {
                    Ok(xs) => {
                        proof {
                            lemma_asts_view_len(xs@);
                            let xv = asts_view(xs@);
                            assert forall|q: int| 0 <= q < xv.len() implies apply_depth(#[trigger] xv[q]) == 0
                                && eids_below(xv[q], self.envs@.len() as nat) by {
                                lemma_asts_view_index(xs@, q);
                            }
                            lemma_seq_from_elems(xv, self.envs@.len() as nat);
                        }
                        Ok(Ast::Graph(index, xs))
                    },
                    Err(m) => Err(m),
                }
                }

    fn map_select(&mut self, ast: &Ast, left: &Ast, right: &Ast, parent_eid: EID) -> (r: Result<Ast, String>)
        requires
            envs_wf(envs_view(old(self).envs@)),
            parent_eid < old(self).envs@.len(),
            !map_aborts(envs_view(old(self).envs@), ast@, parent_eid),
            ast@ == AstView::Op2(Name::Select, Box::new(left@), Box::new(right@)),
        ensures
            envs_wf(envs_view(final(self).envs@)),
            final(self).envs@.len() >= old(self).envs@.len(),
            spec_map(envs_view(old(self).envs@), ast@, parent_eid).0 == envs_view(final(self).envs@),
            match r {
                Ok(a) => spec_map(envs_view(old(self).envs@), ast@, parent_eid).1 == Ok::<
                    AstView,
                    Seq<char>,
                >(a@) && stored_ok(a@, final(self).envs@.len() as nat) && !(a@ is Parent),
                Err(m) => spec_map(envs_view(old(self).envs@), ast@, parent_eid).1 == Err::<
                    AstView,
                    Seq<char>,
                >(m@),
            },
        decreases apply_depth(ast@), view_size(ast@), 0nat,
    {
                    let l = match self.map(left, parent_eid) {
                        Ok(l) => l,
                        Err(m) => {
                            return Err(m);
                        },
                    };
                    let eid = match self.deref(&l) {
                        Err(m) => {
                            return Err(m);
                        },
                        Ok(lns) => {
                            proof {
                                let ev = envs_view(self.envs@);
                                match l@ {
                                    AstView::Ref(e, lb) => lemma_lookup_stored(ev, lb, e),
                                    _ => {},
                                }
                            }
                            match get_eid(lns) {
                                Ok(e) => e,
                                Err(m) => {
                                    return Err(m);
                                },
                            }
                        },
                    };
                    let r = match self.map(right, eid) {
                        Ok(r) => r,
                        Err(m) => {
                            return Err(m);
                        },
                    };
                    let label = match get_label(&r) {
                        Ok(label) => label,
                        Err(m) => {
                            return Err(m);
                        },
                    };
                    Ok(Ast::Ref(eid, label))
    }
}


// ---------------------------------------------------------------------
// Laws of the environments under expansion

/// No point of the tree is labelled with the parent label.
pub open spec fn parent_free(a: AstView) -> bool
    decreases a,
{
    match a {
        AstView::Graph(_, s) => seq_parent_free(s),
        AstView::Space(s) => seq_parent_free(s),
        AstView::Apply(x, y) => parent_free(*x) && parent_free(*y),
        AstView::Op2(_, x, y) => parent_free(*x) && parent_free(*y),
        AstView::Key(l, p) => l != parent_label() && parent_free(*p),
        AstView::Op1(_, p) => parent_free(*p),
        _ => true,
    }
}

pub open spec fn seq_parent_free(s: Seq<AstView>) -> bool
    decreases s,
{
    s.len() == 0 || (parent_free(s[0]) && seq_parent_free(s.subrange(1, s.len() as int)))
}

/// Every value kept in the environments names existing environments only.
pub open spec fn envs_eids_ok(envs: EnvsView) -> bool {
    forall|i: int, k: Seq<char>|
        0 <= i < envs.len() && (#[trigger] envs[i].dom().contains(k)) ==> eids_below(
            envs[i][k],
            envs.len() as nat,
        )
}

/// No value kept in the environments holds a point labelled with the
/// parent label.
pub open spec fn envs_parent_free(envs: EnvsView) -> bool {
    forall|i: int, k: Seq<char>|
        0 <= i < envs.len() && (#[trigger] envs[i].dom().contains(k)) ==> parent_free(envs[i][k])
}

/// `e2` keeps every environment of `e1` and every label bound in it.
pub open spec fn keeps_keys(e1: EnvsView, e2: EnvsView) -> bool {
    &&& e2.len() >= e1.len()
    &&& forall|i: int, k: Seq<char>|
        0 <= i < e1.len() && (#[trigger] e1[i].dom().contains(k)) ==> e2[i].dom().contains(k)
}

/// `e2` keeps the parent link of every environment of `e1`.
pub open spec fn keeps_links(e1: EnvsView, e2: EnvsView) -> bool {
    forall|i: int|
        0 <= i < e1.len() && (#[trigger] e1[i].dom().contains(parent_label())) ==> e2[i][parent_label()]
            == e1[i][parent_label()]
}

/// What an expansion step from `e1` to `e2` with result `r` keeps: the
/// environments and their labels stay, kept values and the result name
/// existing environments only, and, where nothing is labelled with the
/// parent label (`free`), every parent link stays as it was.
pub open spec fn map_frame(e1: EnvsView, e2: EnvsView, r: Result<AstView, Seq<char>>, free: bool) -> bool {
    &&& keeps_keys(e1, e2)
    &&& envs_eids_ok(e2)
    &&& (r matches Ok(x) ==> eids_below(x, e2.len() as nat))
    &&& (free ==> envs_parent_free(e2) && keeps_links(e1, e2) && (r matches Ok(x) ==> parent_free(x)))
}

proof fn lemma_seq_parent_free(s: Seq<AstView>)
    ensures
        seq_parent_free(s) <==> forall|i: int| 0 <= i < s.len() ==> parent_free(#[trigger] s[i]),
    decreases s.len(),
{
    if s.len() > 0 {
        let t = s.subrange(1, s.len() as int);
        lemma_seq_parent_free(t);
        assert forall|i: int| 0 <= i < t.len() implies #[trigger] t[i] == s[i + 1] by {}
        if forall|i: int| 0 <= i < s.len() ==> parent_free(#[trigger] s[i]) {
            assert(parent_free(s[0]));
            assert forall|i: int| 0 <= i < t.len() implies parent_free(#[trigger] t[i]) by {
                assert(t[i] == s[i + 1]);
            }
        }
        if seq_parent_free(s) {
            assert forall|i: int| 0 <= i < s.len() implies parent_free(#[trigger] s[i]) by {
                if i > 0 {
                    assert(s[i] == t[i - 1]);
                }
            }
        }
    }
}

proof fn lemma_keeps_trans(e1: EnvsView, e2: EnvsView, e3: EnvsView)
    ensures
        keeps_keys(e1, e2) && keeps_keys(e2, e3) ==> keeps_keys(e1, e3),
        keeps_keys(e1, e2) && keeps_links(e1, e2) && keeps_links(e2, e3) ==> keeps_links(e1, e3),
{
    if keeps_keys(e1, e2) && keeps_keys(e2, e3) {
        assert forall|i: int, k: Seq<char>|
            0 <= i < e1.len() && (#[trigger] e1[i].dom().contains(k)) implies e3[i].dom().contains(k) by {
            assert(e2[i].dom().contains(k));
        }
    }
    if keeps_keys(e1, e2) && keeps_links(e1, e2) && keeps_links(e2, e3) {
        assert forall|i: int|
            0 <= i < e1.len() && (#[trigger] e1[i].dom().contains(parent_label())) implies e3[i][parent_label()]
            == e1[i][parent_label()] by {
            assert(e2[i].dom().contains(parent_label()));
        }
    }
}

proof fn lemma_push_frame(envs: EnvsView, parent: EID)
    requires
        parent < envs.len(),
        envs_eids_ok(envs),
    ensures
        keeps_keys(envs, envs.push(new_env(parent))),
        keeps_links(envs, envs.push(new_env(parent))),
        envs_eids_ok(envs.push(new_env(parent))),
        envs_parent_free(envs) ==> envs_parent_free(envs.push(new_env(parent))),
{
    let e = envs.push(new_env(parent));
    assert forall|i: int, k: Seq<char>|
        0 <= i < envs.len() && (#[trigger] envs[i].dom().contains(k)) implies e[i].dom().contains(k) by {
        assert(e[i] == envs[i]);
    }
    assert forall|i: int|
        0 <= i < envs.len() && (#[trigger] envs[i].dom().contains(parent_label())) implies e[i][parent_label()]
        == envs[i][parent_label()] by {
        assert(e[i] == envs[i]);
    }
    assert forall|i: int, k: Seq<char>|
        0 <= i < e.len() && (#[trigger] e[i].dom().contains(k)) implies eids_below(e[i][k], e.len() as nat) by {
        if i < envs.len() {
            assert(e[i] == envs[i]);
            lemma_eids_below_mono(envs[i][k], envs.len() as nat, e.len() as nat);
        }
    }
    if envs_parent_free(envs) {
        assert forall|i: int, k: Seq<char>|
            0 <= i < e.len() && (#[trigger] e[i].dom().contains(k)) implies parent_free(e[i][k]) by {
            if i < envs.len() {
                assert(e[i] == envs[i]);
            }
        }
    }
}

proof fn lemma_bind_frame(envs: EnvsView, parent: EID, label: Seq<char>, v: AstView)
    requires
        parent < envs.len(),
        envs_eids_ok(envs),
        eids_below(v, envs.len() as nat),
    ensures
        keeps_keys(envs, envs.update(parent as int, envs[parent as int].insert(label, v))),
        envs_eids_ok(envs.update(parent as int, envs[parent as int].insert(label, v))),
        label != parent_label() ==> keeps_links(
            envs,
            envs.update(parent as int, envs[parent as int].insert(label, v)),
        ),
        envs_parent_free(envs) && parent_free(v) ==> envs_parent_free(
            envs.update(parent as int, envs[parent as int].insert(label, v)),
        ),
{
    let e = envs.update(parent as int, envs[parent as int].insert(label, v));
    assert forall|i: int, k: Seq<char>|
        0 <= i < envs.len() && (#[trigger] envs[i].dom().contains(k)) implies e[i].dom().contains(k) by {
        if i != parent {
            assert(e[i] == envs[i]);
        }
    }
    assert forall|i: int, k: Seq<char>|
        0 <= i < e.len() && (#[trigger] e[i].dom().contains(k)) implies eids_below(e[i][k], e.len() as nat) by {
        if i != parent {
            assert(e[i] == envs[i]);
        } else if k != label {
            assert(envs[i].dom().contains(k));
        }
    }
    if label != parent_label() {
        assert forall|i: int|
            0 <= i < envs.len() && (#[trigger] envs[i].dom().contains(parent_label())) implies e[i][parent_label()]
            == envs[i][parent_label()] by {
            if i != parent {
                assert(e[i] == envs[i]);
            }
        }
    }
    if envs_parent_free(envs) && parent_free(v) {
        assert forall|i: int, k: Seq<char>|
            0 <= i < e.len() && (#[trigger] e[i].dom().contains(k)) implies parent_free(e[i][k]) by {
            if i != parent {
                assert(e[i] == envs[i]);
            } else if k != label {
                assert(envs[i].dom().contains(k));
            }
        }
    }
}

proof fn lemma_lookup_kept(envs: EnvsView, label: Seq<char>, eid: EID)
    ensures
        spec_lookup(envs, label, eid) matches Ok(v) ==> (envs_eids_ok(envs) ==> eids_below(
            v,
            envs.len() as nat,
        )) && (envs_parent_free(envs) ==> parent_free(v)),
    decreases eid,
{
    if eid != 0 && eid < envs.len() && !envs[eid as int].dom().contains(label) {
        match envs[eid as int][parent_label()] {
            AstView::Parent(p) => if p < eid {
                lemma_lookup_kept(envs, label, p);
            },
            _ => {},
        }
    }
}

proof fn lemma_graph_points_free(a: AstView)
    requires
        parent_free(a),
    ensures
        seq_parent_free(graph_points(a)),
{
    if !(a is Graph) {
        assert(graph_points(a).len() == 0);
    }
}

proof fn lemma_merge_parent_free(sp: Seq<AstView>, mp: Seq<AstView>)
    requires
        seq_parent_free(sp),
        seq_parent_free(mp),
    ensures
        seq_parent_free(merge_points(sp, mp)),
{
    lemma_seq_parent_free(sp);
    lemma_seq_parent_free(mp);
    let merged = merge_points(sp, mp);
    assert forall|q: int| 0 <= q < merged.len() implies parent_free(#[trigger] merged[q]) by {
        lemma_get_key_member(mp, sp[q]);
        match spec_get_key(mp, sp[q]) {
            Some(m) => {
                let w = choose|w: int| 0 <= w < mp.len() && mp[w] == m;
                assert(parent_free(mp[w]));
            },
            None => {},
        }
    }
    lemma_seq_parent_free(merged);
}

/// Expanding a tree keeps every environment and every label bound in it,
/// keeps every kept value and the result naming existing environments
/// only, and, where no point of the tree or of the environments is
/// labelled with the parent label, keeps every parent link as it was.
pub proof fn lemma_map_frame(envs: EnvsView, a: AstView, parent: EID)
    requires
        parent < envs.len(),
        envs_eids_ok(envs),
    ensures
        map_frame(
            envs,
            spec_map(envs, a, parent).0,
            spec_map(envs, a, parent).1,
            envs_parent_free(envs) && parent_free(a),
        ),
    decreases apply_depth(a), view_size(a), 0nat,
{
    let free = envs_parent_free(envs) && parent_free(a);
    match a {
        AstView::Graph(_, points) => {
            let index = envs.len() as EID;
            let e1 = envs.push(new_env(parent));
            lemma_push_frame(envs, parent);
            lemma_map_points_frame(e1, points, index);
            let (e2, r) = spec_map_points(e1, points, index);
            lemma_keeps_trans(envs, e1, e2);
        },
        AstView::Key(label, point) => {
            lemma_map_frame(envs, *point, parent);
            let (e1, r) = spec_map(envs, *point, parent);
            if let Ok(p) = r {
                lemma_bind_frame(e1, parent, label, p);
                let e2 = e1.update(parent as int, e1[parent as int].insert(label, p));
                lemma_keeps_trans(envs, e1, e2);
            }
        },
        AstView::Apply(source, modifier) => {
            let index = envs.len() as EID;
            let e1 = envs.push(new_env(parent));
            lemma_push_frame(envs, parent);
            lemma_map_frame(e1, *source, parent);
            let (e2, rs) = spec_map(e1, *source, parent);
            lemma_keeps_trans(envs, e1, e2);
            if let Ok(src) = rs {
                if let AstView::Ref(eid, label) = src {
                    lemma_lookup_kept(e2, label, eid);
                }
                if let Ok(sv) = spec_deref(e2, src) {
                    let s_points = graph_points(sv);
                    let m_points = graph_points(*modifier);
                    if first_missing(s_points, m_points) is None {
                        let points = merge_points(s_points, m_points);
                        if seq_apply_depth(points) < apply_depth(a) {
                            if free && envs_parent_free(e2) {
                                lemma_graph_points_free(sv);
                                lemma_graph_points_free(*modifier);
                                lemma_merge_parent_free(s_points, m_points);
                            }
                            lemma_map_points_frame(e2, points, index);
                            let (e3, r) = spec_map_points(e2, points, index);
                            lemma_keeps_trans(envs, e2, e3);
                        }
                    }
                }
            }
        },
        AstView::Op2(name, left, right) => {
            if name == Name::Select {
                lemma_map_frame(envs, *left, parent);
                let (e1, rl) = spec_map(envs, *left, parent);
                if let Ok(l) = rl {
                    if let AstView::Ref(eid, label) = l {
                        lemma_lookup_kept(e1, label, eid);
                    }
                    if let Ok(AstView::Graph(eid, _)) = spec_deref(e1, l) {
                        lemma_map_frame(e1, *right, eid);
                        let (e2, rr) = spec_map(e1, *right, eid);
                        lemma_keeps_trans(envs, e1, e2);
                    }
                }
            }
        },
        _ => {},
    }
}

/// The points-list form of `lemma_map_frame`.
pub proof fn lemma_map_points_frame(envs: EnvsView, points: Seq<AstView>, index: EID)
    requires
        index < envs.len(),
        envs_eids_ok(envs),
    ensures
        keeps_keys(envs, spec_map_points(envs, points, index).0),
        envs_eids_ok(spec_map_points(envs, points, index).0),
        spec_map_points(envs, points, index).1 matches Ok(xs) ==> seq_eids_below(
            xs,
            spec_map_points(envs, points, index).0.len() as nat,
        ),
        envs_parent_free(envs) && seq_parent_free(points) ==> envs_parent_free(
            spec_map_points(envs, points, index).0,
        ) && keeps_links(envs, spec_map_points(envs, points, index).0) && (spec_map_points(
            envs,
            points,
            index,
        ).1 matches Ok(xs) ==> seq_parent_free(xs)),
    decreases seq_apply_depth(points), seq_size(points), 1nat,
{
    if points.len() == 0 {
    } else {
        lemma_seq_elem(points, 0, 0);
        lemma_view_size_pos(points[0]);
        lemma_map_frame(envs, points[0], index);
        let (e1, r) = spec_map(envs, points[0], index);
        if let Ok(x) = r {
            let rest = points.subrange(1, points.len() as int);
            lemma_map_points_frame(e1, rest, index);
            let (e2, rs) = spec_map_points(e1, rest, index);
            lemma_keeps_trans(envs, e1, e2);
            if let Ok(xs) = rs {
                lemma_eids_below_mono(x, e1.len() as nat, e2.len() as nat);
                let all = seq![x] + xs;
                assert(all[0] == x);
                assert(all.subrange(1, all.len() as int) =~= xs);
            }
        }
    }
}

/// Expanding a graph opens environment `envs.len()`, linked to `parent`,
/// and gives a graph with that index and one point for each point; the
/// link stays as it was made where nothing is labelled with the parent
/// label.
pub proof fn lemma_map_graph(envs: EnvsView, e0: EID, points: Seq<AstView>, parent: EID)
    requires
        parent < envs.len(),
        envs.len() < usize::MAX,
        envs_eids_ok(envs),
    ensures
        spec_map(envs, AstView::Graph(e0, points), parent).1 matches Ok(x) ==> x matches AstView::Graph(
            k,
            qs,
        ) && k == envs.len() && qs.len() == points.len(),
        spec_map(envs, AstView::Graph(e0, points), parent).0.len() > envs.len(),
        spec_map(envs, AstView::Graph(e0, points), parent).0[envs.len() as int].dom().contains(
            parent_label(),
        ),
        envs_parent_free(envs) && seq_parent_free(points) ==> spec_map(
            envs,
            AstView::Graph(e0, points),
            parent,
        ).0[envs.len() as int][parent_label()] == AstView::Parent(parent),
{
    let index = envs.len() as EID;
    let e1 = envs.push(new_env(parent));
    lemma_push_frame(envs, parent);
    lemma_map_points_frame(e1, points, index);
    lemma_map_points_len(e1, points, index);
    assert(e1[index as int] == new_env(parent));
    assert(e1[index as int].dom().contains(parent_label()));
}


/// The environment indices of the graphs in a tree, in pre-order.
pub open spec fn graph_eids(a: AstView) -> Seq<EID>
    decreases a,
{
    match a {
        AstView::Graph(e, s) => seq![e] + seq_graph_eids(s),
        AstView::Space(s) => seq_graph_eids(s),
        AstView::Apply(x, y) => graph_eids(*x) + graph_eids(*y),
        AstView::Op2(_, x, y) => graph_eids(*x) + graph_eids(*y),
        AstView::Key(_, p) => graph_eids(*p),
        AstView::Op1(_, p) => graph_eids(*p),
        _ => seq![],
    }
}

pub open spec fn seq_graph_eids(s: Seq<AstView>) -> Seq<EID>
    decreases s,
{
    if s.len() == 0 {
        seq![]
    } else {
        graph_eids(s[0]) + seq_graph_eids(s.subrange(1, s.len() as int))
    }
}

/// `ks` rises strictly and lies within `lo..hi`; so no index occurs twice.
pub open spec fn ascending_in(ks: Seq<EID>, lo: nat, hi: nat) -> bool {
    &&& forall|i: int| 0 <= i < ks.len() ==> lo <= #[trigger] ks[i] < hi
    &&& forall|i: int, j: int| 0 <= i < j < ks.len() ==> #[trigger] ks[i] < #[trigger] ks[j]
}

/// Each environment of `ks` links to an environment before it.
pub open spec fn links_hold(ks: Seq<EID>, envs: EnvsView) -> bool {
    forall|i: int|
        0 <= i < ks.len() ==> envs[#[trigger] ks[i] as int].dom().contains(parent_label()) && (
        envs[ks[i] as int][parent_label()] matches AstView::Parent(p) && p < ks[i])
}

proof fn lemma_ascending_concat(a: Seq<EID>, b: Seq<EID>, lo: nat, mid: nat, hi: nat)
    requires
        lo <= mid <= hi,
        ascending_in(a, lo, mid),
        ascending_in(b, mid, hi),
    ensures
        ascending_in(a + b, lo, hi),
{
    let c = a + b;
    assert forall|i: int| 0 <= i < c.len() implies lo <= #[trigger] c[i] < hi by {
        if i < a.len() {
            assert(c[i] == a[i]);
        } else {
            assert(c[i] == b[i - a.len()]);
        }
    }
    assert forall|i: int, j: int| 0 <= i < j < c.len() implies #[trigger] c[i] < #[trigger] c[j] by {
        if j < a.len() {
            assert(c[i] == a[i] && c[j] == a[j]);
        } else if i < a.len() {
            assert(c[i] == a[i] && c[j] == b[j - a.len()]);
        } else {
            assert(c[i] == b[i - a.len()] && c[j] == b[j - a.len()]);
        }
    }
}

proof fn lemma_links_concat(a: Seq<EID>, b: Seq<EID>, envs: EnvsView)
    requires
        links_hold(a, envs),
        links_hold(b, envs),
    ensures
        links_hold(a + b, envs),
{
    let c = a + b;
    assert forall|i: int| 0 <= i < c.len() implies envs[#[trigger] c[i] as int].dom().contains(parent_label()) && (
    envs[c[i] as int][parent_label()] matches AstView::Parent(p) && p < c[i]) by {
        if i < a.len() {
            assert(c[i] == a[i]);
        } else {
            assert(c[i] == b[i - a.len()]);
        }
    }
}

proof fn lemma_links_hold_mono(ks: Seq<EID>, e1: EnvsView, e2: EnvsView)
    requires
        links_hold(ks, e1),
        keeps_keys(e1, e2),
        keeps_links(e1, e2),
        forall|i: int| 0 <= i < ks.len() ==> #[trigger] ks[i] < e1.len(),
    ensures
        links_hold(ks, e2),
{
    assert forall|i: int| 0 <= i < ks.len() implies e2[#[trigger] ks[i] as int].dom().contains(parent_label()) && (
    e2[ks[i] as int][parent_label()] matches AstView::Parent(p) && p < ks[i]) by {
        assert(e1[ks[i] as int].dom().contains(parent_label()));
    }
}

/// The graphs that an expansion gives are numbered by the environments it
/// opens: their indices rise strictly (so no two are alike) from the
/// number of environments before it to the number after; and where nothing
/// is labelled with the parent label, each such environment links to one
/// before it.
pub proof fn lemma_map_eids(envs: EnvsView, a: AstView, parent: EID)
    requires
        parent < envs.len(),
        envs_eids_ok(envs),
        spec_map(envs, a, parent).0.len() <= usize::MAX,
    ensures
        spec_map(envs, a, parent).1 matches Ok(x) ==> ascending_in(
            graph_eids(x),
            envs.len() as nat,
            spec_map(envs, a, parent).0.len() as nat,
        ) && (envs_parent_free(envs) && parent_free(a) ==> links_hold(
            graph_eids(x),
            spec_map(envs, a, parent).0,
        )),
    decreases apply_depth(a), view_size(a), 0nat,
{
    lemma_map_frame(envs, a, parent);
    let free = envs_parent_free(envs) && parent_free(a);
    match a {
        AstView::Graph(_, points) => {
            let index = envs.len() as EID;
            let e1 = envs.push(new_env(parent));
            lemma_push_frame(envs, parent);
            lemma_map_points_frame(e1, points, index);
            let (e2, r) = spec_map_points(e1, points, index);
            if let Ok(xs) = r {
                lemma_map_points_eids(e1, points, index);
                let head = seq![index];
                assert(ascending_in(head, envs.len() as nat, e1.len() as nat));
                lemma_ascending_concat(head, seq_graph_eids(xs), envs.len() as nat, e1.len() as nat, e2.len() as nat);
                if free {
                    assert(e1[index as int] == new_env(parent));
                    assert(links_hold(head, e1));
                    lemma_links_hold_mono(head, e1, e2);
                    lemma_links_concat(head, seq_graph_eids(xs), e2);
                }
            }
        },
        AstView::Key(label, point) => {
            lemma_map_frame(envs, *point, parent);
            let (e1, r) = spec_map(envs, *point, parent);
            if let Ok(p) = r {
                lemma_map_eids(envs, *point, parent);
                lemma_bind_frame(e1, parent, label, p);
                let e2 = e1.update(parent as int, e1[parent as int].insert(label, p));
                if free {
                    lemma_links_hold_mono(graph_eids(p), e1, e2);
                }
            }
        },
        AstView::Apply(source, modifier) => {
            let index = envs.len() as EID;
            let e1 = envs.push(new_env(parent));
            lemma_push_frame(envs, parent);
            lemma_map_frame(e1, *source, parent);
            let (e2, rs) = spec_map(e1, *source, parent);
            lemma_keeps_trans(envs, e1, e2);
            if let Ok(src) = rs {
                if let AstView::Ref(eid, label) = src {
                    lemma_lookup_kept(e2, label, eid);
                }
                if let Ok(sv) = spec_deref(e2, src) {
                    let s_points = graph_points(sv);
                    let m_points = graph_points(*modifier);
                    if first_missing(s_points, m_points) is None {
                        let points = merge_points(s_points, m_points);
                        if seq_apply_depth(points) < apply_depth(a) {
                            if free && envs_parent_free(e2) {
                                lemma_graph_points_free(sv);
                                lemma_graph_points_free(*modifier);
                                lemma_merge_parent_free(s_points, m_points);
                            }
                            lemma_map_points_frame(e2, points, index);
                            let (e3, r) = spec_map_points(e2, points, index);
                            if let Ok(xs) = r {
                                lemma_map_points_eids(e2, points, index);
                                let head = seq![index];
                                assert(ascending_in(head, envs.len() as nat, e2.len() as nat));
                                lemma_ascending_concat(head, seq_graph_eids(xs), envs.len() as nat, e2.len() as nat, e3.len() as nat);
                                if free {
                                    assert(e1[index as int] == new_env(parent));
                                    assert(links_hold(head, e1));
                                    lemma_links_hold_mono(head, e1, e2);
                                    lemma_links_hold_mono(head, e2, e3);
                                    lemma_links_concat(head, seq_graph_eids(xs), e3);
                                }
                            }
                        }
                    }
                }
            }
        },
        _ => {},
    }
}

/// The points-list form of `lemma_map_eids`.
pub proof fn lemma_map_points_eids(envs: EnvsView, points: Seq<AstView>, index: EID)
    requires
        index < envs.len(),
        envs_eids_ok(envs),
        spec_map_points(envs, points, index).0.len() <= usize::MAX,
    ensures
        spec_map_points(envs, points, index).1 matches Ok(xs) ==> ascending_in(
            seq_graph_eids(xs),
            envs.len() as nat,
            spec_map_points(envs, points, index).0.len() as nat,
        ) && (envs_parent_free(envs) && seq_parent_free(points) ==> links_hold(
            seq_graph_eids(xs),
            spec_map_points(envs, points, index).0,
        )),
    decreases seq_apply_depth(points), seq_size(points), 1nat,
{
    if points.len() > 0 {
        lemma_seq_elem(points, 0, 0);
        lemma_view_size_pos(points[0]);
        lemma_map_frame(envs, points[0], index);
        let (e1, r) = spec_map(envs, points[0], index);
        if let Ok(x) = r {
            let rest = points.subrange(1, points.len() as int);
            lemma_map_points_frame(e1, rest, index);
            let (e2, rs) = spec_map_points(e1, rest, index);
            if let Ok(xs) = rs {
                lemma_map_eids(envs, points[0], index);
                lemma_map_points_eids(e1, rest, index);
                let all = seq![x] + xs;
                assert(all[0] == x);
                assert(all.subrange(1, all.len() as int) =~= xs);
                assert(seq_graph_eids(all) == graph_eids(x) + seq_graph_eids(xs));
                lemma_ascending_concat(graph_eids(x), seq_graph_eids(xs), envs.len() as nat, e1.len() as nat, e2.len() as nat);
                if envs_parent_free(envs) && seq_parent_free(points) {
                    lemma_links_hold_mono(graph_eids(x), e1, e2);
                    lemma_links_concat(graph_eids(x), seq_graph_eids(xs), e2);
                }
            }
        }
    } else {
        assert(ascending_in(Seq::<EID>::empty(), envs.len() as nat, envs.len() as nat));
    }
}

/// The expansion of a whole tree: the graphs it gives carry pairwise
/// distinct environment indices, in rising pre-order, each naming an
/// environment after the top level; where no point is labelled with the
/// parent label, each of those environments links to one before it.
pub proof fn lemma_expander_eids(ast: AstView)
    requires
        spec_expander(ast).0.len() <= usize::MAX,
    ensures
        spec_expander(ast).1 matches Ok(x) ==> ascending_in(graph_eids(x), 1, spec_expander(ast).0.len() as nat)
            && (parent_free(ast) ==> links_hold(graph_eids(x), spec_expander(ast).0)),
{
    let e0: EnvsView = seq![Map::empty()];
    assert(envs_eids_ok(e0));
    assert(envs_parent_free(e0));
    lemma_map_eids(e0, ast, 0);
}


/// No selection in the tree selects by a selection: the right side of
/// every `.` is not itself a `.`.
pub open spec fn select_plain(a: AstView) -> bool
    decreases a,
{
    match a {
        AstView::Graph(_, s) => seq_select_plain(s),
        AstView::Space(s) => seq_select_plain(s),
        AstView::Apply(x, y) => select_plain(*x) && select_plain(*y),
        AstView::Op2(n, x, y) => (n == Name::Select ==> !(*y matches AstView::Op2(m, _, _) && m
            == Name::Select)) && select_plain(*x) && select_plain(*y),
        AstView::Key(_, p) => select_plain(*p),
        AstView::Op1(_, p) => select_plain(*p),
        _ => true,
    }
}

pub open spec fn seq_select_plain(s: Seq<AstView>) -> bool
    decreases s,
{
    s.len() == 0 || (select_plain(s[0]) && seq_select_plain(s.subrange(1, s.len() as int)))
}

/// Every reference in the tree resolves in `envs`.
pub open spec fn refs_resolve(a: AstView, envs: EnvsView) -> bool
    decreases a,
{
    match a {
        AstView::Graph(_, s) => seq_refs_resolve(s, envs),
        AstView::Space(s) => seq_refs_resolve(s, envs),
        AstView::Apply(x, y) => refs_resolve(*x, envs) && refs_resolve(*y, envs),
        AstView::Op2(_, x, y) => refs_resolve(*x, envs) && refs_resolve(*y, envs),
        AstView::Key(_, p) => refs_resolve(*p, envs),
        AstView::Op1(_, p) => refs_resolve(*p, envs),
        AstView::Ref(e, l) => spec_lookup(envs, l, e) is Ok,
        _ => true,
    }
}

pub open spec fn seq_refs_resolve(s: Seq<AstView>, envs: EnvsView) -> bool
    decreases s,
{
    s.len() == 0 || (refs_resolve(s[0], envs) && seq_refs_resolve(s.subrange(1, s.len() as int), envs))
}

/// Every environment after the top level has a parent link entry.
pub open spec fn links_present(envs: EnvsView) -> bool {
    forall|i: int| 1 <= i < envs.len() ==> (#[trigger] envs[i]).dom().contains(parent_label())
}

/// Every value kept in the environments is `select_plain`.
pub open spec fn envs_select_plain(envs: EnvsView) -> bool {
    forall|i: int, k: Seq<char>|
        0 <= i < envs.len() && (#[trigger] envs[i].dom().contains(k)) ==> select_plain(envs[i][k])
}

proof fn lemma_seq_select_plain(s: Seq<AstView>)
    ensures
        seq_select_plain(s) <==> forall|i: int| 0 <= i < s.len() ==> select_plain(#[trigger] s[i]),
    decreases s.len(),
{
    if s.len() > 0 {
        let t = s.subrange(1, s.len() as int);
        lemma_seq_select_plain(t);
        if forall|i: int| 0 <= i < s.len() ==> select_plain(#[trigger] s[i]) {
            assert(select_plain(s[0]));
            assert forall|i: int| 0 <= i < t.len() implies select_plain(#[trigger] t[i]) by {
                assert(t[i] == s[i + 1]);
            }
        }
        if seq_select_plain(s) {
            assert forall|i: int| 0 <= i < s.len() implies select_plain(#[trigger] s[i]) by {
                if i > 0 {
                    assert(s[i] == t[i - 1]);
                }
            }
        }
    }
}

proof fn lemma_lookup_plain(envs: EnvsView, label: Seq<char>, eid: EID)
    ensures
        spec_lookup(envs, label, eid) matches Ok(v) ==> (envs_select_plain(envs) ==> select_plain(v)),
    decreases eid,
{
    if eid != 0 && eid < envs.len() && !envs[eid as int].dom().contains(label) {
        match envs[eid as int][parent_label()] {
            AstView::Parent(p) => if p < eid {
                lemma_lookup_plain(envs, label, p);
            },
            _ => {},
        }
    }
}

proof fn lemma_merge_plain(sp: Seq<AstView>, mp: Seq<AstView>)
    requires
        seq_select_plain(sp),
        seq_select_plain(mp),
    ensures
        seq_select_plain(merge_points(sp, mp)),
{
    lemma_seq_select_plain(sp);
    lemma_seq_select_plain(mp);
    let merged = merge_points(sp, mp);
    assert forall|q: int| 0 <= q < merged.len() implies select_plain(#[trigger] merged[q]) by {
        lemma_get_key_member(mp, sp[q]);
        match spec_get_key(mp, sp[q]) {
            Some(m) => {
                let w = choose|w: int| 0 <= w < mp.len() && mp[w] == m;
                assert(select_plain(mp[w]));
            },
            None => {},
        }
    }
    lemma_seq_select_plain(merged);
}

proof fn lemma_graph_points_plain(a: AstView)
    requires
        select_plain(a),
    ensures
        seq_select_plain(graph_points(a)),
{
    if !(a is Graph) {
        assert(graph_points(a).len() == 0);
    }
}

/// A lookup that succeeds still succeeds once environments and labels have
/// been added and no parent link has changed.
proof fn lemma_lookup_grows(e1: EnvsView, e2: EnvsView, label: Seq<char>, eid: EID)
    requires
        keeps_keys(e1, e2),
        keeps_links(e1, e2),
        links_present(e1),
        spec_lookup(e1, label, eid) is Ok,
    ensures
        spec_lookup(e2, label, eid) is Ok,
    decreases eid,
{
    if !e1[eid as int].dom().contains(label) {
        assert(e1[eid as int].dom().contains(parent_label()));
        if !e2[eid as int].dom().contains(label) {
            match e1[eid as int][parent_label()] {
                AstView::Parent(p) => {
                    lemma_lookup_grows(e1, e2, label, p);
                },
                _ => {},
            }
        }
    } else {
        assert(e2[eid as int].dom().contains(label));
    }
}

proof fn lemma_refs_grow(a: AstView, e1: EnvsView, e2: EnvsView)
    requires
        keeps_keys(e1, e2),
        keeps_links(e1, e2),
        links_present(e1),
        refs_resolve(a, e1),
    ensures
        refs_resolve(a, e2),
    decreases a,
{
    match a {
        AstView::Graph(_, s) => lemma_seq_refs_grow(s, e1, e2),
        AstView::Space(s) => lemma_seq_refs_grow(s, e1, e2),
        AstView::Apply(x, y) => {
            lemma_refs_grow(*x, e1, e2);
            lemma_refs_grow(*y, e1, e2);
        },
        AstView::Op2(_, x, y) => {
            lemma_refs_grow(*x, e1, e2);
            lemma_refs_grow(*y, e1, e2);
        },
        AstView::Key(_, p) => lemma_refs_grow(*p, e1, e2),
        AstView::Op1(_, p) => lemma_refs_grow(*p, e1, e2),
        AstView::Ref(e, l) => lemma_lookup_grows(e1, e2, l, e),
        _ => {},
    }
}

proof fn lemma_seq_refs_grow(s: Seq<AstView>, e1: EnvsView, e2: EnvsView)
    requires
        keeps_keys(e1, e2),
        keeps_links(e1, e2),
        links_present(e1),
        seq_refs_resolve(s, e1),
    ensures
        seq_refs_resolve(s, e2),
    decreases s,
{
    if s.len() > 0 {
        lemma_refs_grow(s[0], e1, e2);
        lemma_seq_refs_grow(s.subrange(1, s.len() as int), e1, e2);
    }
}

/// What the reference law keeps between two environments.
pub open spec fn refs_frame(e2: EnvsView, r: Result<AstView, Seq<char>>) -> bool {
    &&& links_present(e2)
    &&& envs_select_plain(e2)
    &&& (r matches Ok(x) ==> refs_resolve(x, e2) && select_plain(x))
}

/// Where nothing is labelled with the parent label and no selection
/// selects by a selection, every reference in the tree that an expansion
/// gives resolves in the environments it leaves.
pub proof fn lemma_map_refs(envs: EnvsView, a: AstView, parent: EID)
    requires
        parent < envs.len(),
        envs_eids_ok(envs),
        links_present(envs),
        envs_parent_free(envs),
        parent_free(a),
        envs_select_plain(envs),
        select_plain(a),
    ensures
        refs_frame(spec_map(envs, a, parent).0, spec_map(envs, a, parent).1),
    decreases apply_depth(a), view_size(a), 0nat,
{
    lemma_map_frame(envs, a, parent);
    match a {
        AstView::Graph(_, points) => {
            let index = envs.len() as EID;
            let e1 = envs.push(new_env(parent));
            lemma_push_frame(envs, parent);
            assert(links_present(e1)) by {
                assert forall|i: int| 1 <= i < e1.len() implies (#[trigger] e1[i]).dom().contains(parent_label()) by {
                    if i < envs.len() {
                        assert(e1[i] == envs[i]);
                    }
                }
            }
            assert(envs_select_plain(e1)) by {
                assert forall|i: int, k: Seq<char>|
                    0 <= i < e1.len() && (#[trigger] e1[i].dom().contains(k)) implies select_plain(e1[i][k]) by {
                    if i < envs.len() {
                        assert(e1[i] == envs[i]);
                    }
                }
            }
            lemma_map_points_refs(e1, points, index);
        },
        AstView::Key(label, point) => {
            lemma_map_frame(envs, *point, parent);
            lemma_map_refs(envs, *point, parent);
            let (e1, r) = spec_map(envs, *point, parent);
            if let Ok(p) = r {
                lemma_bind_frame(e1, parent, label, p);
                let e2 = e1.update(parent as int, e1[parent as int].insert(label, p));
                lemma_refs_grow(p, e1, e2);
                assert(links_present(e2)) by {
                    assert forall|i: int| 1 <= i < e2.len() implies (#[trigger] e2[i]).dom().contains(parent_label()) by {
                        assert(e1[i].dom().contains(parent_label()));
                    }
                }
                assert(envs_select_plain(e2)) by {
                    assert forall|i: int, k: Seq<char>|
                        0 <= i < e2.len() && (#[trigger] e2[i].dom().contains(k)) implies select_plain(e2[i][k]) by {
                        if i != parent {
                            assert(e2[i] == e1[i]);
                        } else if k != label {
                            assert(e1[i].dom().contains(k));
                        }
                    }
                }
            }
        },
        AstView::Apply(source, modifier) => {
            let index = envs.len() as EID;
            let e1 = envs.push(new_env(parent));
            lemma_push_frame(envs, parent);
            assert(links_present(e1)) by {
                assert forall|i: int| 1 <= i < e1.len() implies (#[trigger] e1[i]).dom().contains(parent_label()) by {
                    if i < envs.len() {
                        assert(e1[i] == envs[i]);
                    }
                }
            }
            assert(envs_select_plain(e1)) by {
                assert forall|i: int, k: Seq<char>|
                    0 <= i < e1.len() && (#[trigger] e1[i].dom().contains(k)) implies select_plain(e1[i][k]) by {
                    if i < envs.len() {
                        assert(e1[i] == envs[i]);
                    }
                }
            }
            lemma_map_frame(e1, *source, parent);
            lemma_map_refs(e1, *source, parent);
            let (e2, rs) = spec_map(e1, *source, parent);
            if let Ok(src) = rs {
                if let AstView::Ref(eid, label) = src {
                    lemma_lookup_kept(e2, label, eid);
                    lemma_lookup_plain(e2, label, eid);
                }
                if let Ok(sv) = spec_deref(e2, src) {
                    let s_points = graph_points(sv);
                    let m_points = graph_points(*modifier);
                    if first_missing(s_points, m_points) is None {
                        let points = merge_points(s_points, m_points);
                        if seq_apply_depth(points) < apply_depth(a) {
                            lemma_graph_points_free(sv);
                            lemma_graph_points_free(*modifier);
                            lemma_merge_parent_free(s_points, m_points);
                            lemma_graph_points_plain(sv);
                            lemma_graph_points_plain(*modifier);
                            lemma_merge_plain(s_points, m_points);
                            lemma_map_points_refs(e2, points, index);
                        }
                    }
                }
            }
        },
        AstView::Ref(_, label) => {},
        AstView::Op2(name, left, right) => {
            if name == Name::Select {
                lemma_map_frame(envs, *left, parent);
                lemma_map_refs(envs, *left, parent);
                let (e1, rl) = spec_map(envs, *left, parent);
                if let Ok(l) = rl {
                    if let AstView::Ref(eid, label) = l {
                        lemma_lookup_kept(e1, label, eid);
                    }
                    if let Ok(AstView::Graph(eid, _)) = spec_deref(e1, l) {
                        lemma_map_refs(e1, *right, eid);
                    }
                }
            }
        },
        _ => {},
    }
}

/// The points-list form of `lemma_map_refs`.
pub proof fn lemma_map_points_refs(envs: EnvsView, points: Seq<AstView>, index: EID)
    requires
        index < envs.len(),
        envs_eids_ok(envs),
        links_present(envs),
        envs_parent_free(envs),
        seq_parent_free(points),
        envs_select_plain(envs),
        seq_select_plain(points),
    ensures
        links_present(spec_map_points(envs, points, index).0),
        envs_select_plain(spec_map_points(envs, points, index).0),
        spec_map_points(envs, points, index).1 matches Ok(xs) ==> seq_refs_resolve(
            xs,
            spec_map_points(envs, points, index).0,
        ) && seq_select_plain(xs),
    decreases seq_apply_depth(points), seq_size(points), 1nat,
{
    if points.len() > 0 {
        lemma_seq_elem(points, 0, 0);
        lemma_view_size_pos(points[0]);
        lemma_map_frame(envs, points[0], index);
        lemma_map_refs(envs, points[0], index);
        let (e1, r) = spec_map(envs, points[0], index);
        if let Ok(x) = r {
            let rest = points.subrange(1, points.len() as int);
            lemma_map_points_frame(e1, rest, index);
            lemma_map_points_refs(e1, rest, index);
            let (e2, rs) = spec_map_points(e1, rest, index);
            if let Ok(xs) = rs {
                lemma_refs_grow(x, e1, e2);
                let all = seq![x] + xs;
                assert(all[0] == x);
                assert(all.subrange(1, all.len() as int) =~= xs);
            }
        }
    }
}

/// The expansion of a whole tree, where nothing is labelled with the
/// parent label and no selection selects by a selection: every reference
/// in the tree it gives resolves in the environments it gives.
pub proof fn lemma_expander_refs(ast: AstView)
    requires
        parent_free(ast),
        select_plain(ast),
    ensures
        spec_expander(ast).1 matches Ok(x) ==> refs_resolve(x, spec_expander(ast).0),
{
    let e0: EnvsView = seq![Map::empty()];
    assert(envs_eids_ok(e0));
    assert(envs_parent_free(e0));
    assert(envs_select_plain(e0));
    assert(links_present(e0));
    lemma_map_refs(e0, ast, 0);
}


/// Well-formed environments keep values that name existing environments only.
pub proof fn lemma_wf_eids_ok(envs: EnvsView)
    requires
        envs_wf(envs),
    ensures
        envs_eids_ok(envs),
{
    assert forall|i: int, k: Seq<char>|
        0 <= i < envs.len() && (#[trigger] envs[i].dom().contains(k)) implies eids_below(
        envs[i][k],
        envs.len() as nat,
    ) by {
        assert(stored_ok(envs[i][k], envs.len() as nat));
    }
}

/// Expanding a tree in well-formed environments keeps every environment
/// and every label bound in each of them; where nothing is labelled with
/// the parent label it keeps every parent link too; and a graph comes back
/// numbered by the environment it opens, `envs.len()`, with one point for
/// each of its points, that environment linked to `parent`. (That the
/// environments stay well formed, whatever the outcome, is part of what
/// `Parse::map` ensures.)
pub proof fn lemma_map_law(envs: EnvsView, a: AstView, parent: EID)
    requires
        envs_wf(envs),
        parent < envs.len(),
        envs.len() < usize::MAX,
    ensures
        keeps_keys(envs, spec_map(envs, a, parent).0),
        envs_parent_free(envs) && parent_free(a) ==> keeps_links(envs, spec_map(envs, a, parent).0),
        a matches AstView::Graph(_, ps) ==> (spec_map(envs, a, parent).1 matches Ok(x) ==> x matches AstView::Graph(
            k,
            qs,
        ) && k == envs.len() && qs.len() == ps.len()) && (envs_parent_free(envs) && parent_free(a)
            ==> spec_map(envs, a, parent).0[envs.len() as int][parent_label()] == AstView::Parent(parent)),
{
    lemma_wf_eids_ok(envs);
    lemma_map_frame(envs, a, parent);
    if let AstView::Graph(e0, ps) = a {
        lemma_map_graph(envs, e0, ps, parent);
    }
}


/// Every environment after the top level links to one before it.
pub open spec fn links_strict(envs: EnvsView) -> bool {
    forall|i: int|
        1 <= i < envs.len() ==> (#[trigger] envs[i]).dom().contains(parent_label()) && (
        envs[i][parent_label()] matches AstView::Parent(q) && q < i)
}

/// Each graph of the tree numbers an environment linked to the graph that
/// encloses it, the outermost ones to `p`.
pub open spec fn graphs_linked(a: AstView, envs: EnvsView, p: EID) -> bool
    decreases a,
{
    match a {
        AstView::Graph(k, s) => envs[k as int].dom().contains(parent_label()) && envs[k as int][parent_label()]
            == AstView::Parent(p) && seq_graphs_linked(s, envs, k),
        AstView::Space(s) => seq_graphs_linked(s, envs, p),
        AstView::Apply(x, y) => graphs_linked(*x, envs, p) && graphs_linked(*y, envs, p),
        AstView::Op2(_, x, y) => graphs_linked(*x, envs, p) && graphs_linked(*y, envs, p),
        AstView::Key(_, q) => graphs_linked(*q, envs, p),
        AstView::Op1(_, q) => graphs_linked(*q, envs, p),
        _ => true,
    }
}

pub open spec fn seq_graphs_linked(s: Seq<AstView>, envs: EnvsView, p: EID) -> bool
    decreases s,
{
    s.len() == 0 || (graphs_linked(s[0], envs, p) && seq_graphs_linked(s.subrange(1, s.len() as int), envs, p))
}

proof fn lemma_graphs_linked_mono(a: AstView, e1: EnvsView, e2: EnvsView, p: EID)
    requires
        graphs_linked(a, e1, p),
        eids_below(a, e1.len() as nat),
        keeps_keys(e1, e2),
        keeps_links(e1, e2),
    ensures
        graphs_linked(a, e2, p),
    decreases a,
{
    match a {
        AstView::Graph(k, s) => {
            assert(e1[k as int].dom().contains(parent_label()));
            lemma_seq_graphs_linked_mono(s, e1, e2, k);
        },
        AstView::Space(s) => lemma_seq_graphs_linked_mono(s, e1, e2, p),
        AstView::Apply(x, y) => {
            lemma_graphs_linked_mono(*x, e1, e2, p);
            lemma_graphs_linked_mono(*y, e1, e2, p);
        },
        AstView::Op2(_, x, y) => {
            lemma_graphs_linked_mono(*x, e1, e2, p);
            lemma_graphs_linked_mono(*y, e1, e2, p);
        },
        AstView::Key(_, q) => lemma_graphs_linked_mono(*q, e1, e2, p),
        AstView::Op1(_, q) => lemma_graphs_linked_mono(*q, e1, e2, p),
        _ => {},
    }
}

proof fn lemma_seq_graphs_linked_mono(s: Seq<AstView>, e1: EnvsView, e2: EnvsView, p: EID)
    requires
        seq_graphs_linked(s, e1, p),
        seq_eids_below(s, e1.len() as nat),
        keeps_keys(e1, e2),
        keeps_links(e1, e2),
    ensures
        seq_graphs_linked(s, e2, p),
    decreases s,
{
    if s.len() > 0 {
        lemma_graphs_linked_mono(s[0], e1, e2, p);
        lemma_seq_graphs_linked_mono(s.subrange(1, s.len() as int), e1, e2, p);
    }
}

proof fn lemma_links_strict_push(envs: EnvsView, parent: EID)
    requires
        links_strict(envs),
        parent < envs.len(),
    ensures
        links_strict(envs.push(new_env(parent))),
{
    let e = envs.push(new_env(parent));
    assert forall|i: int| 1 <= i < e.len() implies (#[trigger] e[i]).dom().contains(parent_label()) && (
    e[i][parent_label()] matches AstView::Parent(q) && q < i) by {
        if i < envs.len() {
            assert(e[i] == envs[i]);
        }
    }
}

proof fn lemma_links_strict_bind(envs: EnvsView, parent: EID, label: Seq<char>, v: AstView)
    requires
        links_strict(envs),
        parent < envs.len(),
        label != parent_label(),
    ensures
        links_strict(envs.update(parent as int, envs[parent as int].insert(label, v))),
{
    let e = envs.update(parent as int, envs[parent as int].insert(label, v));
    assert forall|i: int| 1 <= i < e.len() implies (#[trigger] e[i]).dom().contains(parent_label()) && (
    e[i][parent_label()] matches AstView::Parent(q) && q < i) by {
        if i != parent {
            assert(e[i] == envs[i]);
        } else {
            assert(envs[i].dom().contains(parent_label()));
        }
    }
}

/// The environments an application of a graph leaves include those its
/// source leaves.
proof fn lemma_map_apply_grows(envs: EnvsView, a: AstView, parent: EID)
    requires
        parent < envs.len(),
        envs_eids_ok(envs),
        a is Apply,
    ensures
        spec_map(envs, a, parent).0.len() >= spec_map(
            envs.push(new_env(parent)),
            *(a->Apply_0),
            parent,
        ).0.len(),
{
    let index = envs.len() as EID;
    let e1 = envs.push(new_env(parent));
    lemma_push_frame(envs, parent);
    lemma_map_frame(e1, *(a->Apply_0), parent);
    let (e2, rs) = spec_map(e1, *(a->Apply_0), parent);
    if let Ok(src) = rs {
        if let AstView::Ref(eid, label) = src {
            lemma_lookup_kept(e2, label, eid);
        }
        if let Ok(sv) = spec_deref(e2, src) {
            let s_points = graph_points(sv);
            let m_points = graph_points(*(a->Apply_1));
            if first_missing(s_points, m_points) is None {
                let points = merge_points(s_points, m_points);
                if seq_apply_depth(points) < apply_depth(a) {
                    lemma_map_points_frame(e2, points, index);
                }
            }
        }
    }
}

/// Where nothing is labelled with the parent label, an expansion keeps
/// every environment after the top level linked to an earlier one, and
/// each graph it gives numbers an environment linked to the graph that
/// encloses it in the result, the outermost ones to `parent`.
pub proof fn lemma_map_links(envs: EnvsView, a: AstView, parent: EID)
    requires
        parent < envs.len(),
        envs_eids_ok(envs),
        envs_parent_free(envs),
        parent_free(a),
        links_strict(envs),
        spec_map(envs, a, parent).0.len() <= usize::MAX,
    ensures
        links_strict(spec_map(envs, a, parent).0),
        spec_map(envs, a, parent).1 matches Ok(x) ==> graphs_linked(x, spec_map(envs, a, parent).0, parent),
    decreases apply_depth(a), view_size(a), 0nat,
{
    lemma_map_frame(envs, a, parent);
    match a {
        AstView::Graph(_, points) => {
            let index = envs.len() as EID;
            let e1 = envs.push(new_env(parent));
            lemma_push_frame(envs, parent);
            lemma_links_strict_push(envs, parent);
            lemma_map_points_frame(e1, points, index);
            lemma_map_points_links(e1, points, index);
            assert(e1[index as int] == new_env(parent));
        },
        AstView::Key(label, point) => {
            lemma_map_frame(envs, *point, parent);
            lemma_map_links(envs, *point, parent);
            let (e1, r) = spec_map(envs, *point, parent);
            if let Ok(p) = r {
                lemma_bind_frame(e1, parent, label, p);
                lemma_links_strict_bind(e1, parent, label, p);
                let e2 = e1.update(parent as int, e1[parent as int].insert(label, p));
                lemma_graphs_linked_mono(p, e1, e2, parent);
            }
        },
        AstView::Apply(source, modifier) => {
            let index = envs.len() as EID;
            let e1 = envs.push(new_env(parent));
            lemma_push_frame(envs, parent);
            lemma_links_strict_push(envs, parent);
            lemma_map_frame(e1, *source, parent);
            let (e2, rs) = spec_map(e1, *source, parent);
            lemma_keeps_trans(envs, e1, e2);
            lemma_map_apply_grows(envs, a, parent);
            lemma_map_links(e1, *source, parent);
            if let Ok(src) = rs {
                if let AstView::Ref(eid, label) = src {
                    lemma_lookup_kept(e2, label, eid);
                }
                if let Ok(sv) = spec_deref(e2, src) {
                    let s_points = graph_points(sv);
                    let m_points = graph_points(*modifier);
                    if first_missing(s_points, m_points) is None {
                        let points = merge_points(s_points, m_points);
                        if seq_apply_depth(points) < apply_depth(a) {
                            lemma_graph_points_free(sv);
                            lemma_graph_points_free(*modifier);
                            lemma_merge_parent_free(s_points, m_points);
                            lemma_map_points_frame(e2, points, index);
                            lemma_map_points_links(e2, points, index);
                            let (e3, r) = spec_map_points(e2, points, index);
                            lemma_keeps_trans(e1, e2, e3);
                            assert(e1[index as int] == new_env(parent));
                            assert(e1[index as int].dom().contains(parent_label()));
                        }
                    }
                }
            }
        },
        AstView::Op2(name, left, right) => {
            if name == Name::Select {
                lemma_map_frame(envs, *left, parent);
                let (e1, rl) = spec_map(envs, *left, parent);
                if let Ok(l) = rl {
                    if let AstView::Ref(eid, label) = l {
                        lemma_lookup_kept(e1, label, eid);
                    }
                    if let Ok(AstView::Graph(eid, _)) = spec_deref(e1, l) {
                        lemma_map_frame(e1, *right, eid);
                        lemma_map_links(envs, *left, parent);
                        lemma_map_links(e1, *right, eid);
                    } else {
                        lemma_map_links(envs, *left, parent);
                    }
                } else {
                    lemma_map_links(envs, *left, parent);
                }
            }
        },
        _ => {},
    }
}

/// The points-list form of `lemma_map_links`.
pub proof fn lemma_map_points_links(envs: EnvsView, points: Seq<AstView>, index: EID)
    requires
        index < envs.len(),
        envs_eids_ok(envs),
        envs_parent_free(envs),
        seq_parent_free(points),
        links_strict(envs),
        spec_map_points(envs, points, index).0.len() <= usize::MAX,
    ensures
        links_strict(spec_map_points(envs, points, index).0),
        spec_map_points(envs, points, index).1 matches Ok(xs) ==> seq_graphs_linked(
            xs,
            spec_map_points(envs, points, index).0,
            index,
        ),
    decreases seq_apply_depth(points), seq_size(points), 1nat,
{
    if points.len() > 0 {
        lemma_seq_elem(points, 0, 0);
        lemma_view_size_pos(points[0]);
        lemma_map_frame(envs, points[0], index);
        let (e1, r) = spec_map(envs, points[0], index);
        if r is Err {
            lemma_map_links(envs, points[0], index);
        }
        if let Ok(x) = r {
            let rest = points.subrange(1, points.len() as int);
            lemma_map_points_frame(e1, rest, index);
            lemma_map_links(envs, points[0], index);
            lemma_map_points_links(e1, rest, index);
            let (e2, rs) = spec_map_points(e1, rest, index);
            if let Ok(xs) = rs {
                lemma_graphs_linked_mono(x, e1, e2, index);
                let all = seq![x] + xs;
                assert(all[0] == x);
                assert(all.subrange(1, all.len() as int) =~= xs);
            }
        }
    }
}

/// The expansion of a whole tree in which nothing is labelled with the
/// parent label: every environment after the top level links to an
/// earlier one, and every graph of the result numbers an environment
/// linked to the graph that encloses it, or to the top level at the root.
pub proof fn lemma_expander_links(ast: AstView)
    requires
        parent_free(ast),
        spec_expander(ast).0.len() <= usize::MAX,
    ensures
        links_strict(spec_expander(ast).0),
        spec_expander(ast).1 matches Ok(x) ==> graphs_linked(x, spec_expander(ast).0, 0),
{
    let e0: EnvsView = seq![Map::empty()];
    assert(envs_eids_ok(e0));
    assert(envs_parent_free(e0));
    assert(links_strict(e0));
    lemma_map_links(e0, ast, 0);
}


/// Every selection met in expanding `a` that gives a reference, `g.x`
/// where `x` comes back as a reference found from the selected graph,
/// also finds `x` from `g`'s own graph once re-pointed there: the one
/// place where an expansion re-points a reference. It holds of every
/// selection whose right side is a plain reference.
pub open spec fn selections_resolve(envs: EnvsView, a: AstView, parent: EID) -> bool
    decreases apply_depth(a), view_size(a), 0nat,
{
    match a {
        AstView::Graph(_, points) => seq_selections_resolve(envs.push(new_env(parent)), points, envs.len() as EID),
        AstView::Key(_, point) => selections_resolve(envs, *point, parent),
        AstView::Apply(source, modifier) => {
            let index = envs.len() as EID;
            let e1 = envs.push(new_env(parent));
            let (e2, rs) = spec_map(e1, *source, parent);
            selections_resolve(e1, *source, parent) && match rs {
                Err(_) => true,
                Ok(src) => match spec_deref(e2, src) {
                    Err(_) => true,
                    Ok(sv) => {
                        let s_points = graph_points(sv);
                        let m_points = graph_points(*modifier);
                        let points = merge_points(s_points, m_points);
                        if first_missing(s_points, m_points) is None && seq_apply_depth(points) < apply_depth(a) {
                            seq_selections_resolve(e2, points, index)
                        } else {
                            true
                        }
                    },
                },
            }
        },
        AstView::Op2(name, left, right) => if name == Name::Select {
            let (e1, rl) = spec_map(envs, *left, parent);
            selections_resolve(envs, *left, parent) && match rl {
                Err(_) => true,
                Ok(l) => match spec_deref(e1, l) {
                    Ok(AstView::Graph(eid, _)) => selections_resolve(e1, *right, eid) && match spec_map(
                        e1,
                        *right,
                        eid,
                    ) {
                        (e2, Ok(AstView::Ref(_, label))) => spec_lookup(e2, label, eid) is Ok,
                        _ => true,
                    },
                    _ => true,
                },
            }
        } else {
            true
        },
        _ => true,
    }
}

pub open spec fn seq_selections_resolve(envs: EnvsView, points: Seq<AstView>, index: EID) -> bool
    decreases seq_apply_depth(points), seq_size(points), 1nat,
{
    if points.len() == 0 {
        true
    } else {
        let (e1, r) = spec_map(envs, points[0], index);
        selections_resolve(envs, points[0], index) && match r {
            Err(_) => true,
            Ok(_) => {
                proof {
                    lemma_view_size_pos(points[0]);
                }
                seq_selections_resolve(e1, points.subrange(1, points.len() as int), index)
            },
        }
    }
}

/// Where nothing is labelled with the parent label and every selection
/// that re-points a reference finds it (`selections_resolve`), every
/// reference in the tree that an expansion gives resolves in the
/// environments it leaves.
pub proof fn lemma_map_refs_found(envs: EnvsView, a: AstView, parent: EID)
    requires
        parent < envs.len(),
        envs_eids_ok(envs),
        links_present(envs),
        envs_parent_free(envs),
        parent_free(a),
        selections_resolve(envs, a, parent),
    ensures
        links_present(spec_map(envs, a, parent).0),
        spec_map(envs, a, parent).1 matches Ok(x) ==> refs_resolve(x, spec_map(envs, a, parent).0),
    decreases apply_depth(a), view_size(a), 0nat,
{
    lemma_map_frame(envs, a, parent);
    match a {
        AstView::Graph(_, points) => {
            let index = envs.len() as EID;
            let e1 = envs.push(new_env(parent));
            lemma_push_frame(envs, parent);
            assert(links_present(e1)) by {
                assert forall|i: int| 1 <= i < e1.len() implies (#[trigger] e1[i]).dom().contains(parent_label()) by {
                    if i < envs.len() {
                        assert(e1[i] == envs[i]);
                    }
                }
            }
            lemma_map_points_refs_found(e1, points, index);
        },
        AstView::Key(label, point) => {
            lemma_map_frame(envs, *point, parent);
            lemma_map_refs_found(envs, *point, parent);
            let (e1, r) = spec_map(envs, *point, parent);
            if let Ok(p) = r {
                lemma_bind_frame(e1, parent, label, p);
                let e2 = e1.update(parent as int, e1[parent as int].insert(label, p));
                lemma_refs_grow(p, e1, e2);
                assert(links_present(e2)) by {
                    assert forall|i: int| 1 <= i < e2.len() implies (#[trigger] e2[i]).dom().contains(parent_label()) by {
                        assert(e1[i].dom().contains(parent_label()));
                    }
                }
            }
        },
        AstView::Apply(source, modifier) => {
            let index = envs.len() as EID;
            let e1 = envs.push(new_env(parent));
            lemma_push_frame(envs, parent);
            assert(links_present(e1)) by {
                assert forall|i: int| 1 <= i < e1.len() implies (#[trigger] e1[i]).dom().contains(parent_label()) by {
                    if i < envs.len() {
                        assert(e1[i] == envs[i]);
                    }
                }
            }
            lemma_map_frame(e1, *source, parent);
            lemma_map_refs_found(e1, *source, parent);
            let (e2, rs) = spec_map(e1, *source, parent);
            if let Ok(src) = rs {
                if let AstView::Ref(eid, label) = src {
                    lemma_lookup_kept(e2, label, eid);
                }
                if let Ok(sv) = spec_deref(e2, src) {
                    let s_points = graph_points(sv);
                    let m_points = graph_points(*modifier);
                    if first_missing(s_points, m_points) is None {
                        let points = merge_points(s_points, m_points);
                        if seq_apply_depth(points) < apply_depth(a) {
                            lemma_graph_points_free(sv);
                            lemma_graph_points_free(*modifier);
                            lemma_merge_parent_free(s_points, m_points);
                            lemma_map_points_refs_found(e2, points, index);
                        }
                    }
                }
            }
        },
        AstView::Op2(name, left, right) => {
            if name == Name::Select {
                lemma_map_frame(envs, *left, parent);
                lemma_map_refs_found(envs, *left, parent);
                let (e1, rl) = spec_map(envs, *left, parent);
                if let Ok(l) = rl {
                    if let AstView::Ref(eid, label) = l {
                        lemma_lookup_kept(e1, label, eid);
                    }
                    if let Ok(AstView::Graph(eid, _)) = spec_deref(e1, l) {
                        lemma_map_refs_found(e1, *right, eid);
                    }
                }
            }
        },
        _ => {},
    }
}

/// The points-list form of `lemma_map_refs_found`.
pub proof fn lemma_map_points_refs_found(envs: EnvsView, points: Seq<AstView>, index: EID)
    requires
        index < envs.len(),
        envs_eids_ok(envs),
        links_present(envs),
        envs_parent_free(envs),
        seq_parent_free(points),
        seq_selections_resolve(envs, points, index),
    ensures
        links_present(spec_map_points(envs, points, index).0),
        spec_map_points(envs, points, index).1 matches Ok(xs) ==> seq_refs_resolve(
            xs,
            spec_map_points(envs, points, index).0,
        ),
    decreases seq_apply_depth(points), seq_size(points), 1nat,
{
    if points.len() > 0 {
        lemma_seq_elem(points, 0, 0);
        lemma_view_size_pos(points[0]);
        lemma_map_frame(envs, points[0], index);
        lemma_map_refs_found(envs, points[0], index);
        let (e1, r) = spec_map(envs, points[0], index);
        if let Ok(x) = r {
            let rest = points.subrange(1, points.len() as int);
            lemma_map_points_frame(e1, rest, index);
            lemma_map_points_refs_found(e1, rest, index);
            let (e2, rs) = spec_map_points(e1, rest, index);
            if let Ok(xs) = rs {
                lemma_refs_grow(x, e1, e2);
                let all = seq![x] + xs;
                assert(all[0] == x);
                assert(all.subrange(1, all.len() as int) =~= xs);
            }
        }
    }
}

/// The expansion of a whole tree in which nothing is labelled with the
/// parent label and every selection that re-points a reference finds it:
/// every reference in the tree it gives resolves in the environments it
/// gives.
pub proof fn lemma_expander_refs_found(ast: AstView)
    requires
        parent_free(ast),
        selections_resolve(seq![Map::empty()], ast, 0),
    ensures
        spec_expander(ast).1 matches Ok(x) ==> refs_resolve(x, spec_expander(ast).0),
{
    let e0: EnvsView = seq![Map::empty()];
    assert(envs_eids_ok(e0));
    assert(envs_parent_free(e0));
    assert(links_present(e0));
    lemma_map_refs_found(e0, ast, 0);
}


/// A literal: an integer, decimal, string, clock or size, or nothing.
pub open spec fn is_literal(a: AstView) -> bool {
    ||| a is Integer
    ||| a is Decimal
    ||| a is String
    ||| a is Clock
    ||| a is Size
    ||| a is Nothing
}

/// Expansion leaves a literal as it is, and the environments untouched.
pub proof fn lemma_map_literal(envs: EnvsView, a: AstView, parent: EID)
    requires
        is_literal(a),
    ensures
        spec_map(envs, a, parent) == (envs, Ok::<AstView, Seq<char>>(a)),
{
}

/// A labelled literal expands to itself and binds its label to the
/// literal in the environment it stands in.
pub proof fn lemma_map_key_literal(envs: EnvsView, label: Seq<char>, v: AstView, parent: EID)
    requires
        is_literal(v),
    ensures
        spec_map(envs, AstView::Key(label, Box::new(v)), parent) == (
            envs.update(parent as int, envs[parent as int].insert(label, v)),
            Ok::<AstView, Seq<char>>(AstView::Key(label, Box::new(v))),
        ),
{
    lemma_map_literal(envs, v, parent);
}

/// A list of literals expands to itself, in order, leaving the
/// environments untouched.
pub proof fn lemma_map_points_literals(envs: EnvsView, points: Seq<AstView>, index: EID)
    requires
        forall|i: int| 0 <= i < points.len() ==> is_literal(#[trigger] points[i]),
    ensures
        spec_map_points(envs, points, index) == (envs, Ok::<Seq<AstView>, Seq<char>>(points)),
    decreases points.len(),
{
    if points.len() > 0 {
        let rest = points.subrange(1, points.len() as int);
        assert forall|i: int| 0 <= i < rest.len() implies is_literal(#[trigger] rest[i]) by {
            assert(rest[i] == points[i + 1]);
        }
        lemma_map_literal(envs, points[0], index);
        lemma_map_points_literals(envs, rest, index);
        assert(seq![points[0]] + rest =~= points);
    } else {
        assert(points =~= Seq::<AstView>::empty());
    }
}

/// A graph of literals expands to the same literals, in order, in a graph
/// numbered by the environment it opens, linked to `parent`.
pub proof fn lemma_map_graph_literals(envs: EnvsView, e0: EID, points: Seq<AstView>, parent: EID)
    requires
        forall|i: int| 0 <= i < points.len() ==> is_literal(#[trigger] points[i]),
    ensures
        spec_map(envs, AstView::Graph(e0, points), parent) == (
            envs.push(new_env(parent)),
            Ok::<AstView, Seq<char>>(AstView::Graph(envs.len() as EID, points)),
        ),
{
    lemma_map_points_literals(envs.push(new_env(parent)), points, envs.len() as EID);
}

} // verus!
