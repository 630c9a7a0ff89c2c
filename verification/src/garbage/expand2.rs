//! The second expander: it records labelled points in the environments of
//! their graphs and sorts the points of an application's modifier against
//! those of its source, but hands back no tree yet. Its strip and flatten
//! steps are the first expander's.
use super::expand1::{envs_view, no_map_match_message, no_map_match_text, parent_label, Entry};
use super::syntax::{
    asts_view, clone_asts, lemma_asts_view_index, lemma_asts_view_len, lemma_tree_size_elem, tree_size, trees_size, Ast,
    AstView,
};
use crate::env::{undefined_point_message, undefined_point_text, Env};
use vstd::prelude::*;

verus! {

/// The environments of an expansion; environment 0 is the top level.
#[derive(Debug)]
pub struct Parse {
    envs: Vec<Env<Entry>>,
}

pub open spec fn spec_is_label(a: AstView) -> bool {
    a is Key
}

/// Both points are labelled, with the same label.
pub open spec fn spec_key_match(a: AstView, b: AstView) -> bool {
    match (a, b) {
        (AstView::Key(la, _), AstView::Key(lb, _)) => la == lb,
        _ => false,
    }
}

/// Some point of `points` has the label of `a`.
pub open spec fn spec_has_key(points: Seq<AstView>, a: AstView) -> bool {
    exists|i: int| 0 <= i < points.len() && spec_key_match(#[trigger] points[i], a)
}

fn is_label(ast: &Ast) -> (r: bool)
    ensures
        r == spec_is_label(ast@),
{
    match ast {
        Ast::Key(_, _) => true,
        _ => false,
    }
}

fn key_match(point_a: &Ast, point_b: &Ast) -> (r: bool)
    ensures
        r == spec_key_match(point_a@, point_b@),
{
    match point_a {
        Ast::Key(label_a, _) => match point_b {
            Ast::Key(label_b, _) => *label_a == *label_b,
            _ => false,
        },
        _ => false,
    }
}

fn has_key(points: &Vec<Ast>, point_a: &Ast) -> (r: bool)
    ensures
        r == spec_has_key(asts_view(points@), point_a@),
{
    let ghost pv = asts_view(points@);
    proof {
        lemma_asts_view_len(points@);
    }
    let mut i: usize = 0;
    while i < points.len()
        invariant
            i <= points@.len(),
            pv == asts_view(points@),
            pv.len() == points@.len(),
            forall|j: int| 0 <= j < i ==> !spec_key_match(#[trigger] pv[j], point_a@),
        decreases points@.len() - i,
    {
        proof {
            lemma_asts_view_index(points@, i as int);
        }
        if key_match(&points[i], point_a) {
            assert(spec_key_match(pv[i as int], point_a@));
            return true;
        }
        i = i + 1;
    }
    false
}


// ---------------------------------------------------------------------
// The walk, stated over the links of the environments: for each label,
// the index of the environment it was bound in.

pub type Links = Seq<Map<Seq<char>, nat>>;

pub open spec fn links_view(envs: Seq<Map<Seq<char>, Entry>>) -> Links {
    envs.map_values(|m: Map<Seq<char>, Entry>| m.map_values(|e: Entry| e.0 as nat))
}

/// Every environment after the first keeps a parent link, to one before
/// it or, where a point labelled with the parent label took its place, to
/// itself.
pub open spec fn links_wf(links: Links) -> bool {
    forall|i: int|
        1 <= i < links.len() ==> (#[trigger] links[i]).dom().contains(parent_label()) && links[i][parent_label()]
            <= i
}

/// Whether `label` is found from environment `env`, or the message that
/// says it is not; `None` where the lookup never returns.
pub open spec fn spec_lookup(links: Links, label: Seq<char>, env: nat) -> Option<Result<(), Seq<char>>>
    decreases env,
{
    if env == 0 || env >= links.len() {
        Some(Err(undefined_point_text(label)))
    } else if links[env as int].dom().contains(label) {
        Some(Ok(()))
    } else if links[env as int].dom().contains(parent_label()) && links[env as int][parent_label()] < env {
        spec_lookup(links, label, links[env as int][parent_label()])
    } else {
        None
    }
}

pub open spec fn spec_deref(links: Links, r: AstView, env: nat) -> Option<Result<(), Seq<char>>> {
    match r {
        AstView::Ref(label) => spec_lookup(links, label, env),
        _ => Some(Err(not_reference_text(r))),
    }
}

/// The links after walking `a` in environment `parent`, and whether the
/// walk succeeds or the message of its first refusal; `None` where it
/// never returns.
pub open spec fn spec_map(links: Links, a: AstView, parent: nat) -> (Links, Option<Result<(), Seq<char>>>)
    decreases a,
{
    match a {
        AstView::Graph(points) => spec_map_points(
            links.push(Map::empty().insert(parent_label(), parent)),
            points,
            links.len(),
        ),
        AstView::Apply(source, _) => (links, spec_deref(links, *source, parent)),
        AstView::Key(label, point) => {
            let (l1, r) = spec_map(links, *point, parent);
            match r {
                Some(Ok(())) => (l1.update(parent as int, l1[parent as int].insert(label, parent)), r),
                _ => (l1, r),
            }
        },
        AstView::Ret(_) => (links, Some(Ok(()))),
        AstView::Ref(_) => (links, Some(Ok(()))),
        AstView::Op2(_, _, _) => (links, Some(Ok(()))),
        AstView::Op1(_, _) => (links, Some(Ok(()))),
        AstView::Space(_) => (links, Some(Ok(()))),
        AstView::Decimal(_) => (links, Some(Ok(()))),
        AstView::Integer(_) => (links, Some(Ok(()))),
        AstView::String(_) => (links, Some(Ok(()))),
        AstView::Nothing => (links, Some(Ok(()))),
        x => (links, Some(Err(no_map_match_text(x)))),
    }
}

pub open spec fn spec_map_points(links: Links, s: Seq<AstView>, index: nat) -> (Links, Option<Result<(), Seq<char>>>)
    decreases s,
{
    if s.len() == 0 {
        (links, Some(Ok(())))
    } else {
        let (l1, r) = spec_map(links, s[0], index);
        match r {
            Some(Ok(())) => spec_map_points(l1, s.subrange(1, s.len() as int), index),
            _ => (l1, r),
        }
    }
}

/// The second expander never returns on `ast`.
pub open spec fn normalize_aborts(ast: AstView) -> bool {
    spec_map(seq![Map::empty()], ast, 0).1 is None
}

pub uninterp spec fn not_reference_text(x: AstView) -> Seq<char>;

/// Formats `{x:?} is not a Reference`.
#[verifier::external_body]
fn not_reference_message(x: &Ast) -> (r: String)
    ensures
        r@ == not_reference_text(x@),
{
    format!("{:?} is not a Reference", x)
}

fn parent_key() -> (r: String)
    ensures
        r@ == parent_label(),
{
    "<parent>".to_string()
}

impl Parse {
    pub closed spec fn envs(&self) -> Seq<Map<Seq<char>, Entry>> {
        envs_view(self.envs@)
    }

    pub closed spec fn links(&self) -> Links {
        links_view(self.envs())
    }

    /// Walks `ast` in environment `parent`, recording labelled points; it
    /// reports `No error` or the first refusal.
    fn map(&mut self, ast: &Ast, parent: usize) -> (r: Result<String, String>)
        requires
            parent < old(self).envs@.len(),
            links_wf(old(self).links()),
            spec_map(old(self).links(), ast@, parent as nat).1 is Some,
        ensures
            final(self).envs@.len() >= old(self).envs@.len(),
            links_wf(final(self).links()),
            final(self).links() == spec_map(old(self).links(), ast@, parent as nat).0,
            match r {
                Ok(m) => m@ == "No error"@ && spec_map(old(self).links(), ast@, parent as nat).1 == Some(
                    Ok::<(), Seq<char>>(()),
                ),
                Err(m) => spec_map(old(self).links(), ast@, parent as nat).1 == Some(Err::<(), Seq<char>>(m@)),
            },
        decreases tree_size(ast@),
    {
        match ast {
            Ast::Graph(points) => {
                let index = self.envs.len();
                let mut env: Env<Entry> = Env::new();
                env.insert(parent_key(), (parent, Ast::Nothing, Vec::new()));
                let ghost before = self.links();
                let ghost ev = env@;
                self.envs.push(env);
                proof {
                    assert(ev.map_values(|e: Entry| e.0 as nat) =~= Map::empty().insert(parent_label(), parent as nat));
                    assert(self.links() =~= before.push(Map::empty().insert(parent_label(), parent as nat)));
                }
                let ghost pv = asts_view(points@);
                proof {
                    lemma_asts_view_len(points@);
                    assert(pv.subrange(0, pv.len() as int) =~= pv);
                }
                let mut i: usize = 0;
                while i < points.len()
                    invariant
                        i <= points@.len(),
                        pv == asts_view(points@),
                        pv.len() == points@.len(),
                        ast@ == AstView::Graph(pv),
                        index < self.envs@.len(),
                        self.envs@.len() >= old(self).envs@.len(),
                        links_wf(self.links()),
                        spec_map(old(self).links(), ast@, parent as nat) == spec_map_points(
                            self.links(),
                            pv.subrange(i as int, pv.len() as int),
                            index as nat,
                        ),
                        spec_map(old(self).links(), ast@, parent as nat).1 is Some,
                    decreases points@.len() - i,
                {
                    let ghost rest = pv.subrange(i as int, pv.len() as int);
                    proof {
                        lemma_asts_view_index(points@, i as int);
                        lemma_tree_size_elem(pv, i as int);
                        assert(rest[0] == pv[i as int]);
                        assert(rest.subrange(1, rest.len() as int) =~= pv.subrange(i + 1, pv.len() as int));
                    }
                    match self.map(&points[i], index) {
                        Ok(_) => {},
                        Err(m) => {
                            return Err(m);
                        },
                    }
                    i = i + 1;
                }
                proof {
                    assert(pv.subrange(i as int, pv.len() as int) =~= Seq::<AstView>::empty());
                }
            },
            Ast::Apply(source, modifier) => {
                let source = match self.deref(source, parent) {
                    Ok(s) => s,
                    Err(m) => {
                        return Err(m);
                    },
                };
                let s_points: Vec<Ast> = match &source.1 {
                    Ast::Graph(points) => clone_asts(points),
                    _ => Vec::new(),
                };
                let m_points: Vec<Ast> = match &**modifier {
                    Ast::Graph(points) => clone_asts(points),
                    _ => Vec::new(),
                };
                let mut final_points: Vec<Ast> = Vec::new();
                let mut shared_points: Vec<Ast> = Vec::new();
                let mut i: usize = 0;
                while i < m_points.len()
                    invariant
                        i <= m_points@.len(),
                    decreases m_points@.len() - i,
                {
                    let m_point = &m_points[i];
                    if !is_label(m_point) {
                        if i < s_points.len() {
                            let p = match &s_points[i] {
                                Ast::Key(label, _) => Ast::Key(label.clone(), Box::new(m_point.deep_clone())),
                                _ => m_point.deep_clone(),
                            };
                            final_points.push(p);
                        } else {
                            final_points.push(m_point.deep_clone());
                        }
                    } else if !has_key(&s_points, m_point) {
                        final_points.push(m_point.deep_clone());
                    } else {
                        shared_points.push(m_point.deep_clone());
                    }
                    i = i + 1;
                }
            },
            Ast::Key(label, point) => {
                match self.map(point, parent) {
                    Ok(_) => {},
                    Err(m) => {
                        return Err(m);
                    },
                }
                let ghost before = self.envs();
                let ghost lbefore = self.links();
                let entry: Entry = (parent, (**point).deep_clone(), Vec::new());
                let ghost ev = entry;
                let key = label.clone();
                let ghost lv = key@;
                self.envs[parent].insert(key, entry);
                proof {
                    assert forall|i: int| 0 <= i < before.len() && i != parent implies #[trigger] self.envs()[i]
                        == before[i] by {}
                    assert(self.envs()[parent as int] == before[parent as int].insert(lv, ev));
                    assert(self.links()[parent as int] =~= lbefore[parent as int].insert(lv, parent as nat));
                    assert(self.links() =~= lbefore.update(parent as int, lbefore[parent as int].insert(lv, parent as nat)));
                }
            },
            Ast::Ret(_) => {},
            Ast::Ref(_) => {},
            Ast::Op2(_, _, _) => {},
            Ast::Op1(_, _) => {},
            Ast::Space(_) => {},
            Ast::Decimal(_) => {},
            Ast::Integer(_) => {},
            Ast::String(_) => {},
            Ast::Nothing => {},
            x => {
                return Err(no_map_match_message(x));
            },
        }
        Ok("No error".to_string())
    }

    /// The entry that a reference names, seen from environment `env`.
    fn deref(&self, ref_: &Ast, env: usize) -> (r: Result<&Entry, String>)
        requires
            links_wf(self.links()),
            env < self.envs@.len(),
            spec_deref(self.links(), ref_@, env as nat) is Some,
        ensures
            match r {
                Ok(_) => spec_deref(self.links(), ref_@, env as nat) == Some(Ok::<(), Seq<char>>(())),
                Err(m) => spec_deref(self.links(), ref_@, env as nat) == Some(Err::<(), Seq<char>>(m@)),
            },
    {
        match ref_ {
            Ast::Ref(label) => self.lookup(label, env),
            ast => Err(not_reference_message(ast)),
        }
    }

    /// The entry of `label` seen from environment `env`.
    fn lookup(&self, label: &String, env: usize) -> (r: Result<&Entry, String>)
        requires
            links_wf(self.links()),
            env < self.envs@.len(),
            spec_lookup(self.links(), label@, env as nat) is Some,
        ensures
            match r {
                Ok(_) => spec_lookup(self.links(), label@, env as nat) == Some(Ok::<(), Seq<char>>(())),
                Err(m) => spec_lookup(self.links(), label@, env as nat) == Some(Err::<(), Seq<char>>(m@)),
            },
        decreases env,
    {
        if env == 0 {
            return Err(undefined_point_message(label));
        }
        proof {
            assert(self.envs()[env as int] == self.envs@[env as int]@);
            assert(self.links()[env as int] == self.envs()[env as int].map_values(|e: Entry| e.0 as nat));
        }
        match self.envs[env].get(label) {
            Some(result) => Ok(result),
            None => {
                let link = match self.envs[env].get(&parent_key()) {
                    Some(l) => l.0,
                    None => {
                        proof {
                            assert(false);
                        }
                        0
                    },
                };
                self.lookup(label, link)
            },
        }
    }
}

/// Runs the second expander over `ast` and hands back an empty tree. It
/// never returns where an application looks a label up through an
/// environment whose parent link a point labelled with the parent label
/// has replaced; `requires` leaves out exactly those trees.
pub fn normalize(ast: &Ast) -> (r: Result<Ast, String>)
    requires
        !normalize_aborts(ast@),
    ensures
        r matches Ok(a) && a@ == AstView::Nothing,
{
    let top: Env<Entry> = Env::new();
    let ghost tv = top@;
    let mut parse = Parse { envs: vec![top] };
    proof {
        assert(parse.envs@.len() == 1);
        assert(parse.envs@[0]@ == tv);
        assert(parse.links().len() == 1);
        assert(parse.links()[0] =~= Map::<Seq<char>, nat>::empty());
        assert(parse.links() =~= seq![Map::<Seq<char>, nat>::empty()]);
    }
    let _ = parse.map(ast, 0);
    Ok(Ast::Nothing)
}

} // verus!
