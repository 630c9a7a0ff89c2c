//! Reduces an expanded tree to a flat sequence of code points: each point
//! of a graph is reduced in turn and the graph becomes a point listing
//! their indices; a binary operation is evaluated where its operands are
//! integer points.
use super::ast::{asts_view, lemma_asts_view_index, lemma_asts_view_len, Ast, AstView, IDX};
use super::expander::{lemma_seq_elem, view_size, Maps};
use super::tokenizer::Name;
use vstd::prelude::*;
use vstd::string::StrSliceExecFns;

verus! {

pub struct Program {
    data: Vec<i32>,
    code: Vec<Point>,
    push: Vec<i32>,
}

#[derive(Debug, Clone)]
pub enum Point {
    Dummy,
    Error(String),
    Graph(Vec<IDX>),
    Integer(i64),
    Add(IDX, IDX, IDX),
}

/// A code point as a mathematical value.
pub enum PointView {
    Dummy,
    Error(Seq<char>),
    Graph(Seq<IDX>),
    Integer(i64),
    Add(IDX, IDX, IDX),
}

impl View for Point {
    type V = PointView;

    open spec fn view(&self) -> PointView {
        match self {
            Point::Dummy => PointView::Dummy,
            Point::Error(s) => PointView::Error(s@),
            Point::Graph(v) => PointView::Graph(v@),
            Point::Integer(i) => PointView::Integer(*i),
            Point::Add(a, b, c) => PointView::Add(*a, *b, *c),
        }
    }
}

pub open spec fn points_view(s: Seq<Point>) -> Seq<PointView> {
    s.map_values(|p: Point| p@)
}

// ---------------------------------------------------------------------
// Integer literals

pub open spec fn is_digit(c: char) -> bool {
    '0' <= c <= '9'
}

pub open spec fn digits_value(s: Seq<char>) -> int
    decreases s.len(),
{
    if s.len() == 0 {
        0
    } else {
        digits_value(s.drop_last()) * 10 + (s.last() as int - '0' as int)
    }
}

pub open spec fn all_digits(s: Seq<char>) -> bool {
    s.len() > 0 && forall|i: int| 0 <= i < s.len() ==> is_digit(#[trigger] s[i])
}

pub open spec fn in_i64(v: int) -> bool {
    i64::MIN <= v <= i64::MAX
}

/// What `str::parse::<i64>` yields: an optional sign followed by one or
/// more decimal digits, whose value fits in an `i64`.
pub open spec fn spec_parse_i64(s: Seq<char>) -> Option<i64> {
    if s.len() > 0 && (s[0] == '+' || s[0] == '-') {
        let d = s.subrange(1, s.len() as int);
        let v = if s[0] == '-' {
            -digits_value(d)
        } else {
            digits_value(d)
        };
        if all_digits(d) && in_i64(v) {
            Some(v as i64)
        } else {
            None
        }
    } else if all_digits(s) && in_i64(digits_value(s)) {
        Some(digits_value(s) as i64)
    } else {
        None
    }
}

/// A prefix of a run of digits is worth no more than the run.
proof fn lemma_digits_prefix(s: Seq<char>, k: int)
    requires
        0 <= k <= s.len(),
        forall|i: int| 0 <= i < s.len() ==> is_digit(#[trigger] s[i]),
    ensures
        0 <= digits_value(s.subrange(0, k)) <= digits_value(s),
    decreases s.len(),
{
    if k < s.len() {
        let d = s.drop_last();
        lemma_digits_prefix(d, k);
        assert(d.subrange(0, k) =~= s.subrange(0, k));
        lemma_digits_prefix(d, d.len() as int);
        assert(d.subrange(0, d.len() as int) =~= d);
        assert(is_digit(s[s.len() - 1]));
    } else {
        assert(s.subrange(0, k) =~= s);
        if s.len() > 0 {
            let d = s.drop_last();
            lemma_digits_prefix(d, d.len() as int);
            assert(d.subrange(0, d.len() as int) =~= d);
            assert(is_digit(s[s.len() - 1]));
        }
    }
}

/// Reads an integer literal as `str::parse::<i64>` does: an optional `+`
/// or `-`, then one or more ASCII digits whose value fits in an `i64`.
fn parse_i64(s: &String) -> (r: Option<i64>)
    ensures
        r == spec_parse_i64(s@),
{
    let t = s.as_str();
    let n = t.unicode_len();
    if n == 0 {
        return None;
    }
    let c0 = t.get_char(0);
    let negative = c0 == '-';
    let start: usize = if c0 == '+' || c0 == '-' {
        1
    } else {
        0
    };
    let ghost d = t@.subrange(start as int, n as int);
    if start == n {
        proof {
            assert(d.len() == 0);
        }
        return None;
    }
    let mut v: i128 = 0;
    let mut i: usize = start;
    while i < n
        invariant
            n == t@.len(),
            t@ == s@,
            start <= i <= n,
            start < n,
            c0 == t@[0],
            negative == (c0 == '-'),
            start == (if c0 == '+' || c0 == '-' { 1usize } else { 0usize }),
            d == t@.subrange(start as int, n as int),
            forall|j: int| start <= j < i ==> is_digit(#[trigger] t@[j]),
            v == (if negative { -digits_value(t@.subrange(start as int, i as int)) } else { digits_value(
                t@.subrange(start as int, i as int),
            ) }),
            in_i64(v as int),
        decreases n - i,
    {
        let c = t.get_char(i);
        let ghost p = t@.subrange(start as int, i as int);
        let ghost q = t@.subrange(start as int, i + 1);
        proof {
            assert(q.drop_last() =~= p);
            assert(q.last() == c);
        }
        if !('0' <= c && c <= '9') {
            proof {
                assert(d[i - start] == c);
                assert(!all_digits(d));
                if start == 0 {
                    assert(d =~= s@);
                }
            }
            return None;
        }
        let digit = (c as u32 - '0' as u32) as i128;
        let next: i128 = if negative {
            v * 10 - digit
        } else {
            v * 10 + digit
        };
        proof {
            assert(digits_value(q) == digits_value(p) * 10 + (c as int - '0' as int));
            assert forall|j: int| start <= j < i + 1 implies is_digit(#[trigger] t@[j]) by {}
        }
        if next < i64::MIN as i128 || next > i64::MAX as i128 {
            proof {
                if all_digits(d) {
                    assert forall|j: int| 0 <= j < d.len() implies is_digit(#[trigger] d[j]) by {
                        assert(d[j] == t@[start + j]);
                    }
                    lemma_digits_prefix(d, i + 1 - start);
                    assert(d.subrange(0, i + 1 - start) =~= q);
                }
                if start == 0 {
                    assert(d =~= s@);
                }
            }
            return None;
        }
        v = next;
        i = i + 1;
    }
    proof {
        assert(t@.subrange(start as int, i as int) =~= d);
        assert forall|j: int| 0 <= j < d.len() implies is_digit(#[trigger] d[j]) by {
            assert(d[j] == t@[start + j]);
        }
        if start == 0 {
            assert(d =~= s@);
        }
    }
    Some(v as i64)
}

// ---------------------------------------------------------------------
// The reduction, stated over views

pub uninterp spec fn no_reduce_match_text(a: AstView) -> Seq<char>;

/// Formats `No reduce match defined for {ast:?}`.
#[verifier::external_body]
fn no_reduce_match_message(ast: &Ast) -> (r: String)
    ensures
        r@ == no_reduce_match_text(ast@),
{
    format!("No reduce match defined for {:?}", ast)
}

pub open spec fn error_text() -> Seq<char> {
    "fug"@
}

pub open spec fn spec_add(a: PointView, b: PointView) -> PointView {
    match (a, b) {
        (PointView::Integer(x), PointView::Integer(y)) => PointView::Integer((x + y) as i64),
        _ => PointView::Error(error_text()),
    }
}

pub open spec fn spec_execute2(name: Name, a: PointView, b: PointView) -> PointView {
    if name == Name::Add {
        spec_add(a, b)
    } else {
        PointView::Error(error_text())
    }
}

pub open spec fn spec_reduce(code: Seq<PointView>, a: AstView) -> (Seq<PointView>, Result<IDX, Seq<char>>)
    decreases a,
{
    match a {
        AstView::Graph(_, points) => {
            let (c1, r) = spec_reduce_points(code, points);
            match r {
                Ok(idxs) => (c1.push(PointView::Graph(idxs)), Ok(c1.len() as IDX)),
                Err(m) => (c1, Err(m)),
            }
        },
        AstView::Key(_, p) => spec_reduce(code, *p),
        AstView::Integer(s) => match spec_parse_i64(s) {
            Some(v) => (code.push(PointView::Integer(v)), Ok(code.len() as IDX)),
            None => (code, Err(seq![])),
        },
        AstView::Op2(name, x, y) => {
            let (c1, ra) = spec_reduce(code, *x);
            match ra {
                Err(m) => (c1, Err(m)),
                Ok(ia) => {
                    let (c2, rb) = spec_reduce(c1, *y);
                    match rb {
                        Err(m) => (c2, Err(m)),
                        Ok(ib) => {
                            let c3 = c2.push(spec_execute2(name, c2[ia as int], c2[ib as int]));
                            (c3.push(PointView::Add(ia, ib, c2.len() as IDX)), Ok(c3.len() as IDX))
                        },
                    }
                },
            }
        },
        _ => (code, Err(no_reduce_match_text(a))),
    }
}

pub open spec fn spec_reduce_points(code: Seq<PointView>, points: Seq<AstView>) -> (
    Seq<PointView>,
    Result<Seq<IDX>, Seq<char>>,
)
    decreases points,
{
    if points.len() == 0 {
        (code, Ok(seq![]))
    } else {
        let (c1, r) = spec_reduce(code, points[0]);
        match r {
            Err(m) => (c1, Err(m)),
            Ok(i) => {
                let (c2, rs) = spec_reduce_points(c1, points.subrange(1, points.len() as int));
                match rs {
                    Ok(is) => (c2, Ok(seq![i] + is)),
                    Err(m) => (c2, Err(m)),
                }
            },
        }
    }
}

/// The reduction of `a` returns an error (whatever the code so far).
pub open spec fn reduce_fails(a: AstView) -> bool
    decreases a,
{
    match a {
        AstView::Graph(_, points) => seq_reduce_fails(points),
        AstView::Key(_, p) => reduce_fails(*p),
        AstView::Integer(_) => false,
        AstView::Op2(_, x, y) => reduce_fails(*x) || reduce_fails(*y),
        _ => true,
    }
}

pub open spec fn seq_reduce_fails(points: Seq<AstView>) -> bool
    decreases points,
{
    points.len() > 0 && (reduce_fails(points[0]) || seq_reduce_fails(
        points.subrange(1, points.len() as int),
    ))
}

/// The integer that the reduction of `a` lays down, if it is an integer point.
pub open spec fn literal_value(a: AstView) -> Option<i64>
    decreases a,
{
    match a {
        AstView::Integer(s) => spec_parse_i64(s),
        AstView::Key(_, p) => literal_value(*p),
        _ => None,
    }
}

/// The reduction of `a` does not panic: every integer literal it reaches
/// parses, and every addition of two integer points it reaches fits in an
/// `i64`.
pub open spec fn reduce_safe(a: AstView) -> bool
    decreases a,
{
    match a {
        AstView::Graph(_, points) => seq_reduce_safe(points),
        AstView::Key(_, p) => reduce_safe(*p),
        AstView::Integer(s) => spec_parse_i64(s) is Some,
        AstView::Op2(name, x, y) => reduce_safe(*x) && (!reduce_fails(*x) ==> reduce_safe(*y) && (
        !reduce_fails(*y) && name == Name::Add ==> match (literal_value(*x), literal_value(*y)) {
            (Some(u), Some(v)) => in_i64(u + v),
            _ => true,
        })),
        _ => true,
    }
}

pub open spec fn seq_reduce_safe(points: Seq<AstView>) -> bool
    decreases points,
{
    points.len() == 0 || (reduce_safe(points[0]) && (!reduce_fails(points[0]) ==> seq_reduce_safe(
        points.subrange(1, points.len() as int),
    )))
}

/// What the reduction keeps true of the code it extends.
pub open spec fn extends(code: Seq<PointView>, c1: Seq<PointView>) -> bool {
    c1.len() >= code.len() && c1.subrange(0, code.len() as int) == code
}

/// The code a reduction yields extends the code it started from, and on
/// a tree whose reduction does not panic it fails exactly where
/// `reduce_fails` says.
pub proof fn lemma_reduce(code: Seq<PointView>, a: AstView)
    ensures
        extends(code, spec_reduce(code, a).0),
        reduce_safe(a) ==> (spec_reduce(code, a).1 is Err <==> reduce_fails(a)),
    decreases a,
{
    match a {
        AstView::Graph(_, points) => {
            lemma_reduce_points(code, points);
            let (c1, r) = spec_reduce_points(code, points);
            if let Ok(idxs) = r {
                assert(c1.push(PointView::Graph(idxs)).subrange(0, code.len() as int) =~= c1.subrange(0, code.len() as int));
            }
        },
        AstView::Key(_, p) => lemma_reduce(code, *p),
        AstView::Integer(s) => {
            if let Some(v) = spec_parse_i64(s) {
                assert(code.push(PointView::Integer(v)).subrange(0, code.len() as int) =~= code);
            } else {
                assert(code.subrange(0, code.len() as int) =~= code);
            }
        },
        AstView::Op2(name, x, y) => {
            lemma_reduce(code, *x);
            let (c1, ra) = spec_reduce(code, *x);
            if let Ok(ia) = ra {
                lemma_reduce(c1, *y);
                let (c2, rb) = spec_reduce(c1, *y);
                assert(c2.subrange(0, code.len() as int) =~= c1.subrange(0, code.len() as int)) by {
                    assert(c2.subrange(0, c1.len() as int).subrange(0, code.len() as int) =~= c2.subrange(0, code.len() as int));
                }
                if let Ok(ib) = rb {
                    let c3 = c2.push(spec_execute2(name, c2[ia as int], c2[ib as int]));
                    let c4 = c3.push(PointView::Add(ia, ib, c2.len() as IDX));
                    assert(c4.subrange(0, code.len() as int) =~= c2.subrange(0, code.len() as int));
                }
            }
        },
        _ => {
            assert(code.subrange(0, code.len() as int) =~= code);
        },
    }
}

pub proof fn lemma_reduce_points(code: Seq<PointView>, points: Seq<AstView>)
    ensures
        extends(code, spec_reduce_points(code, points).0),
        seq_reduce_safe(points) ==> (spec_reduce_points(code, points).1 is Err <==> seq_reduce_fails(
            points,
        )),
    decreases points,
{
    if points.len() == 0 {
        assert(code.subrange(0, code.len() as int) =~= code);
    } else {
        lemma_reduce(code, points[0]);
        let (c1, r) = spec_reduce(code, points[0]);
        if let Ok(i) = r {
            lemma_reduce_points(c1, points.subrange(1, points.len() as int));
            let (c2, rs) = spec_reduce_points(c1, points.subrange(1, points.len() as int));
            assert(c2.subrange(0, c1.len() as int).subrange(0, code.len() as int) =~= c2.subrange(0, code.len() as int));
        }
    }
}

/// The index a reduction returns is that of the point it laid down last
/// for the tree, an integer point exactly where the tree is an integer
/// literal.
pub proof fn lemma_reduce_index(code: Seq<PointView>, a: AstView)
    requires
        spec_reduce(code, a).0.len() <= usize::MAX,
    ensures
        spec_reduce(code, a).1 matches Ok(i) ==> i < spec_reduce(code, a).0.len() && match literal_value(
            a,
        ) {
            Some(v) => spec_reduce(code, a).0[i as int] == PointView::Integer(v),
            None => !(spec_reduce(code, a).0[i as int] is Integer),
        },
    decreases a,
{
    match a {
        AstView::Graph(_, points) => {
            let (c1, r) = spec_reduce_points(code, points);
            if let Ok(idxs) = r {
                assert(c1.push(PointView::Graph(idxs))[c1.len() as int] == PointView::Graph(idxs));
            }
        },
        AstView::Key(_, p) => lemma_reduce_index(code, *p),
        _ => {},
    }
}

/// The number of code points that a successful reduction of `a` lays
/// down: one per integer literal, one per graph on top of its points, two
/// per binary operation on top of its operands.
pub open spec fn reduce_size(a: AstView) -> nat
    decreases a,
{
    match a {
        AstView::Graph(_, points) => 1 + reduce_points_size(points),
        AstView::Key(_, p) => reduce_size(*p),
        AstView::Integer(_) => 1,
        AstView::Op2(_, x, y) => reduce_size(*x) + reduce_size(*y) + 2,
        _ => 0,
    }
}

pub open spec fn reduce_points_size(points: Seq<AstView>) -> nat
    decreases points,
{
    if points.len() == 0 {
        0
    } else {
        reduce_size(points[0]) + reduce_points_size(points.subrange(1, points.len() as int))
    }
}

/// Every point of `code` refers only to points laid down before it.
pub open spec fn refers_back(code: Seq<PointView>) -> bool {
    forall|j: int|
        0 <= j < code.len() ==> match #[trigger] code[j] {
            PointView::Graph(ids) => forall|k: int| 0 <= k < ids.len() ==> ids[k] < j,
            PointView::Add(x, y, z) => x < j && y < j && z < j,
            _ => true,
        }
}

proof fn lemma_refers_back_push(code: Seq<PointView>, p: PointView)
    requires
        refers_back(code),
        match p {
            PointView::Graph(ids) => forall|k: int| 0 <= k < ids.len() ==> ids[k] < code.len(),
            PointView::Add(x, y, z) => x < code.len() && y < code.len() && z < code.len(),
            _ => true,
        },
    ensures
        refers_back(code.push(p)),
{
    let c = code.push(p);
    assert forall|j: int| 0 <= j < c.len() implies match #[trigger] c[j] {
        PointView::Graph(ids) => forall|k: int| 0 <= k < ids.len() ==> ids[k] < j,
        PointView::Add(x, y, z) => x < j && y < j && z < j,
        _ => true,
    } by {
        if j < code.len() {
            assert(c[j] == code[j]);
        }
    }
}

/// A successful reduction appends exactly `reduce_size(a)` points to the
/// code, leaving what was there before as it was, and returns the index
/// of the last of them; whatever the outcome, a code whose points refer
/// only to earlier points keeps that property.
pub proof fn lemma_reduce_shape(code: Seq<PointView>, a: AstView)
    requires
        spec_reduce(code, a).0.len() <= usize::MAX,
    ensures
        spec_reduce(code, a).0.subrange(0, code.len() as int) == code,
        spec_reduce(code, a).1 matches Ok(i) ==> spec_reduce(code, a).0.len() == code.len()
            + reduce_size(a) && i == spec_reduce(code, a).0.len() - 1,
        refers_back(code) ==> refers_back(spec_reduce(code, a).0),
    decreases a,
{
    lemma_reduce(code, a);
    match a {
        AstView::Graph(_, points) => {
            lemma_reduce_points(code, points);
            lemma_reduce_points_shape(code, points);
            let (c1, r) = spec_reduce_points(code, points);
            if let Ok(idxs) = r {
                if refers_back(code) {
                    lemma_refers_back_push(c1, PointView::Graph(idxs));
                }
            }
        },
        AstView::Key(_, p) => lemma_reduce_shape(code, *p),
        AstView::Integer(s) => {
            if let Some(v) = spec_parse_i64(s) {
                if refers_back(code) {
                    lemma_refers_back_push(code, PointView::Integer(v));
                }
            }
        },
        AstView::Op2(name, x, y) => {
            let (c1, ra) = spec_reduce(code, *x);
            lemma_reduce(code, *x);
            if let Ok(ia) = ra {
                let (c2, rb) = spec_reduce(c1, *y);
                lemma_reduce(c1, *y);
                lemma_reduce_shape(code, *x);
                lemma_reduce_shape(c1, *y);
                if let Ok(ib) = rb {
                    let e = spec_execute2(name, c2[ia as int], c2[ib as int]);
                    let c3 = c2.push(e);
                    if refers_back(code) {
                        lemma_refers_back_push(c2, e);
                        lemma_refers_back_push(c3, PointView::Add(ia, ib, c2.len() as IDX));
                    }
                }
            } else {
                lemma_reduce_shape(code, *x);
            }
        },
        _ => {},
    }
}

/// `lemma_reduce_shape` for code of any length: its claims hold wherever
/// the code laid down fits in memory.
pub proof fn lemma_reduce_shape_within(code: Seq<PointView>, a: AstView)
    ensures
        spec_reduce(code, a).0.len() <= usize::MAX ==> (spec_reduce(code, a).1 matches Ok(i) ==> spec_reduce(
            code,
            a,
        ).0.len() == code.len() + reduce_size(a) && i == spec_reduce(code, a).0.len() - 1) && (refers_back(
            code,
        ) ==> refers_back(spec_reduce(code, a).0)),
{
    if spec_reduce(code, a).0.len() <= usize::MAX {
        lemma_reduce_shape(code, a);
    }
}

/// The points-list form of `lemma_reduce_shape`: on success every index
/// returned lies within the code laid down.
pub proof fn lemma_reduce_points_shape(code: Seq<PointView>, points: Seq<AstView>)
    requires
        spec_reduce_points(code, points).0.len() <= usize::MAX,
    ensures
        spec_reduce_points(code, points).1 matches Ok(is) ==> spec_reduce_points(code, points).0.len()
            == code.len() + reduce_points_size(points) && forall|k: int|
            0 <= k < is.len() ==> is[k] < spec_reduce_points(code, points).0.len(),
        refers_back(code) ==> refers_back(spec_reduce_points(code, points).0),
    decreases points,
{
    lemma_reduce_points(code, points);
    if points.len() > 0 {
        let (c1, r) = spec_reduce(code, points[0]);
        lemma_reduce(code, points[0]);
        if let Ok(i) = r {
            let rest = points.subrange(1, points.len() as int);
            lemma_reduce_points(c1, rest);
            lemma_reduce_shape(code, points[0]);
            lemma_reduce_points_shape(c1, rest);
            let (c2, rs) = spec_reduce_points(c1, rest);
            if let Ok(is) = rs {
                let all = seq![i] + is;
                assert forall|k: int| 0 <= k < all.len() implies all[k] < c2.len() by {
                    if k > 0 {
                        assert(all[k] == is[k - 1]);
                    }
                }
            }
        } else {
            lemma_reduce_shape(code, points[0]);
        }
    }
}

fn add(a: &Point, b: &Point) -> (r: Point)
    requires
        (a@, b@) matches (PointView::Integer(x), PointView::Integer(y)) ==> in_i64(x + y),
    ensures
        r@ == spec_add(a@, b@),
{
    match (a, b) {
        (Point::Integer(x), Point::Integer(y)) => Point::Integer(x + y),
        _ => Point::Error("fug".to_owned()),
    }
}

fn execute2(name: Name, a: &Point, b: &Point) -> (r: Point)
    requires
        name == Name::Add ==> ((a@, b@) matches (PointView::Integer(x), PointView::Integer(y)) ==> in_i64(x + y)),
    ensures
        r@ == spec_execute2(name, a@, b@),
{
    match name {
        Name::Add => self::add(a, b),
        _ => Point::Error("fug".to_owned()),
    }
}

pub open spec fn prepend_idxs(done: Seq<IDX>, r: (Seq<PointView>, Result<Seq<IDX>, Seq<char>>)) -> (
    Seq<PointView>,
    Result<Seq<IDX>, Seq<char>>,
) {
    (
        r.0,
        match r.1 {
            Ok(xs) => Ok(done + xs),
            Err(m) => Err(m),
        },
    )
}

impl Program {
    #[verifier::spinoff_prover]
    fn reduce(&mut self, ast: &Ast, parent: usize) -> (r: Result<IDX, String>)
        requires
            reduce_safe(ast@),
        ensures
            spec_reduce(points_view(old(self).code@), ast@).0 == points_view(final(self).code@),
            final(self).data == old(self).data,
            final(self).push == old(self).push,
            match r {
                Ok(i) => spec_reduce(points_view(old(self).code@), ast@).1 == Ok::<IDX, Seq<char>>(i),
                Err(m) => spec_reduce(points_view(old(self).code@), ast@).1 == Err::<IDX, Seq<char>>(m@),
            },
            points_view(final(self).code@).subrange(0, old(self).code.len() as int) == points_view(
                old(self).code@,
            ),
            r matches Ok(i) ==> final(self).code.len() == old(self).code.len() + reduce_size(ast@) && i
                == final(self).code.len() - 1,
            refers_back(points_view(old(self).code@)) ==> refers_back(points_view(final(self).code@)),
        decreases view_size(ast@),
    {
        let ghost c0 = points_view(self.code@);
        proof {
            lemma_reduce(c0, ast@);
            lemma_reduce_shape_within(c0, ast@);
        }
        match ast {
            Ast::Graph(eid, points) => {
                let ghost pv = asts_view(points@);
                let mut idxs: Vec<IDX> = Vec::new();
                let mut i: usize = 0;
                proof {
                    lemma_asts_view_len(points@);
                    assert(pv.subrange(0, pv.len() as int) =~= pv);
                    assert(prepend_idxs(seq![], spec_reduce_points(c0, pv)) == spec_reduce_points(c0, pv)) by {
                        match spec_reduce_points(c0, pv).1 {
                            Ok(xs) => { assert(Seq::<IDX>::empty() + xs =~= xs); },
                            Err(_) => {},
                        }
                    }
                }
                while i < points.len()
                    invariant
                        i <= points@.len(),
                        c0 == points_view(old(self).code@),
                        self.data == old(self).data,
                        self.push == old(self).push,
                        pv == asts_view(points@),
                        pv.len() == points@.len(),
                        ast@ == AstView::Graph(*eid, pv),
                        seq_reduce_safe(pv.subrange(i as int, pv.len() as int)),
                        spec_reduce_points(c0, pv) == prepend_idxs(
                            idxs@,
                            spec_reduce_points(points_view(self.code@), pv.subrange(i as int, pv.len() as int)),
                        ),
                    decreases points@.len() - i,
                {
                    let ghost cur = points_view(self.code@);
                    let ghost rest = pv.subrange(i as int, pv.len() as int);
                    proof {
                        lemma_asts_view_index(points@, i as int);
                        assert(rest[0] == pv[i as int]);
                        assert(rest.subrange(1, rest.len() as int) =~= pv.subrange(i + 1, pv.len() as int));
                        lemma_seq_elem(pv, i as int, 0);
                    }
                    match self.reduce(&points[i], *eid) {
                        Err(m) => {
                            proof {
                                assert(spec_reduce(cur, rest[0]).1 is Err);
                                assert(spec_reduce_points(cur, rest).0 == points_view(self.code@));
                                assert(spec_reduce_points(c0, pv).1 is Err);
                                assert(spec_reduce_points(c0, pv).0 == points_view(self.code@));
                                assert(spec_reduce(c0, ast@).0 == points_view(self.code@));
                                lemma_reduce(c0, ast@);
                                lemma_reduce_shape_within(c0, ast@);
                                assert(self.code@.len() == self.code.len());
                            }
                            return Err(m);
                        },
                        Ok(x) => {
                            proof {
                                lemma_reduce(cur, pv[i as int]);
                                let tail = spec_reduce_points(
                                    points_view(self.code@),
                                    pv.subrange(i + 1, pv.len() as int),
                                );
                                match tail.1 {
                                    Ok(xs) => {
                                        assert(idxs@ + (seq![x] + xs) =~= idxs@.push(x) + xs);
                                    },
                                    Err(_) => {},
                                }
                            }
                            idxs.push(x);
                            i = i + 1;
                        },
                    }
                }
                proof {
                    assert(pv.subrange(i as int, pv.len() as int) =~= Seq::<AstView>::empty());
                    assert(idxs@ + Seq::<IDX>::empty() =~= idxs@);
                }
                let idx = self.code.len();
                self.code.push(Point::Graph(idxs));
                assert(points_view(self.code@) =~= spec_reduce(c0, ast@).0);
                Ok(idx)
            },
            Ast::Key(_, point) => self.reduce(point, parent),
            Ast::Integer(value) => {
                let v: i64 = match parse_i64(value) {
                    Some(v) => v,
                    None => {
                        proof {
                            assert(false);
                        }
                        0
                    },
                };
                let idx = self.code.len();
                self.code.push(Point::Integer(v));
                assert(points_view(self.code@) =~= spec_reduce(c0, ast@).0);
                Ok(idx)
            },
            Ast::Op2(name, point_a, point_b) => {
                let a = match self.reduce(point_a, parent) {
                    Ok(a) => a,
                    Err(m) => {
                        return Err(m);
                    },
                };
                let n1 = self.code.len();
                let ghost c1 = points_view(self.code@);
                proof {
                    lemma_reduce(c0, point_a@);
                    lemma_reduce_index(c0, point_a@);
                }
                let b = match self.reduce(point_b, parent) {
                    Ok(b) => b,
                    Err(m) => {
                        return Err(m);
                    },
                };
                let n2 = self.code.len();
                let ghost c2 = points_view(self.code@);
                proof {
                    lemma_reduce(c1, point_b@);
                    lemma_reduce_index(c1, point_b@);
                    assert(c2.subrange(0, c1.len() as int) == c1);
                    assert(c2[a as int] == c1[a as int]);
                }
                let c_point = execute2(*name, &self.code[a], &self.code[b]);
                let c = self.code.len();
                self.code.push(c_point);
                let idx = self.code.len();
                self.code.push(Point::Add(a, b, c));
                assert(points_view(self.code@) =~= spec_reduce(c0, ast@).0);
                Ok(idx)
            },
            _ => Err(no_reduce_match_message(ast)),
        }
    }
}

/// Reduces `ast` into a fresh program and returns the index of the point
/// that stands for the whole tree.
pub fn reducer(ast: &Ast, envs: &Maps) -> (r: Result<IDX, String>)
    requires
        reduce_safe(ast@),
    ensures
        match r {
            Ok(i) => spec_reduce(seq![], ast@).1 == Ok::<IDX, Seq<char>>(i),
            Err(m) => spec_reduce(seq![], ast@).1 == Err::<IDX, Seq<char>>(m@),
        },
{
    let mut parse = Program { data: Vec::new(), code: Vec::new(), push: Vec::new() };
    assert(points_view(parse.code@) =~= seq![]);
    parse.reduce(ast, 0)
}


/// The sum of two integer literals reduces to four points after the code
/// so far: the two integers, their sum, and the addition that names the
/// three; the result is the index of the addition.
pub proof fn lemma_reduce_sum(code: Seq<PointView>, s: Seq<char>, t: Seq<char>, u: i64, v: i64)
    requires
        spec_parse_i64(s) == Some(u),
        spec_parse_i64(t) == Some(v),
        in_i64(u + v),
        code.len() + 4 <= usize::MAX,
    ensures
        spec_reduce(
            code,
            AstView::Op2(Name::Add, Box::new(AstView::Integer(s)), Box::new(AstView::Integer(t))),
        ) == (
            code + seq![
                PointView::Integer(u),
                PointView::Integer(v),
                PointView::Integer((u + v) as i64),
                PointView::Add(code.len() as IDX, (code.len() + 1) as IDX, (code.len() + 2) as IDX),
            ],
            Ok::<IDX, Seq<char>>((code.len() + 3) as IDX),
        ),
{
    let c1 = code.push(PointView::Integer(u));
    let c2 = c1.push(PointView::Integer(v));
    assert(spec_reduce(code, AstView::Integer(s)) == (c1, Ok::<IDX, Seq<char>>(code.len() as IDX)));
    assert(spec_reduce(c1, AstView::Integer(t)) == (c2, Ok::<IDX, Seq<char>>(c1.len() as IDX)));
    assert(c2[code.len() as int] == PointView::Integer(u));
    assert(c2[code.len() + 1int] == PointView::Integer(v));
    let c3 = c2.push(PointView::Integer((u + v) as i64));
    let c4 = c3.push(PointView::Add(code.len() as IDX, (code.len() + 1) as IDX, (code.len() + 2) as IDX));
    assert(c4 =~= code + seq![
        PointView::Integer(u),
        PointView::Integer(v),
        PointView::Integer((u + v) as i64),
        PointView::Add(code.len() as IDX, (code.len() + 1) as IDX, (code.len() + 2) as IDX),
    ]);
}

/// An integer literal reduces to one integer point holding its value.
pub proof fn lemma_reduce_integer(code: Seq<PointView>, s: Seq<char>, u: i64)
    requires
        spec_parse_i64(s) == Some(u),
        code.len() <= usize::MAX,
    ensures
        spec_reduce(code, AstView::Integer(s)) == (code.push(PointView::Integer(u)), Ok::<IDX, Seq<char>>(
            code.len() as IDX,
        )),
{
}

} // verus!
