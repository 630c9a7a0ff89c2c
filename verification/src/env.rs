//! A string-keyed environment: the map from labels to what they name,
//! in which a later binding of a label replaces the earlier one.
use vstd::prelude::*;
use vstd::string::StringExecFns;

verus! {

#[derive(Debug, Clone)]
pub struct Env<V> {
    entries: Vec<(String, V)>,
}

/// The map that a list of bindings denotes: a later binding of a key wins.
pub open spec fn bindings_map<V>(s: Seq<(String, V)>) -> Map<Seq<char>, V>
    decreases s.len(),
{
    if s.len() == 0 {
        Map::empty()
    } else {
        bindings_map(s.drop_last()).insert(s.last().0@, s.last().1)
    }
}

proof fn lemma_bindings_last<V>(s: Seq<(String, V)>, k: Seq<char>, i: int)
    requires
        0 <= i < s.len(),
        s[i].0@ == k,
        forall|j: int| i < j < s.len() ==> (#[trigger] s[j]).0@ != k,
    ensures
        bindings_map(s).dom().contains(k),
        bindings_map(s)[k] == s[i].1,
    decreases s.len(),
{
    if i < s.len() - 1 {
        let d = s.drop_last();
        assert forall|j: int| i < j < d.len() implies (#[trigger] d[j]).0@ != k by {
            assert(d[j] == s[j]);
        }
        lemma_bindings_last(d, k, i);
        assert(s[s.len() - 1].0@ != k);
    }
}

proof fn lemma_bindings_absent<V>(s: Seq<(String, V)>, k: Seq<char>)
    requires
        forall|j: int| 0 <= j < s.len() ==> (#[trigger] s[j]).0@ != k,
    ensures
        !bindings_map(s).dom().contains(k),
    decreases s.len(),
{
    if s.len() > 0 {
        let d = s.drop_last();
        assert forall|j: int| 0 <= j < d.len() implies (#[trigger] d[j]).0@ != k by {
            assert(d[j] == s[j]);
        }
        lemma_bindings_absent(d, k);
        assert(s[s.len() - 1].0@ != k);
    }
}

proof fn lemma_bindings_update<V>(s: Seq<(String, V)>, i: int, key: String, v: V)
    requires
        0 <= i < s.len(),
        s[i].0@ == key@,
        forall|j: int| i < j < s.len() ==> (#[trigger] s[j]).0@ != key@,
    ensures
        bindings_map(s.update(i, (key, v))) == bindings_map(s).insert(key@, v),
    decreases s.len(),
{
    let u = s.update(i, (key, v));
    if i == s.len() - 1 {
        assert(u.drop_last() =~= s.drop_last());
        assert(bindings_map(u) =~= bindings_map(s).insert(key@, v));
    } else {
        let d = s.drop_last();
        assert forall|j: int| i < j < d.len() implies (#[trigger] d[j]).0@ != key@ by {
            assert(d[j] == s[j]);
        }
        lemma_bindings_update(d, i, key, v);
        assert(u.drop_last() =~= d.update(i, (key, v)));
        assert(s.last().0@ != key@);
        assert(bindings_map(u) =~= bindings_map(s).insert(key@, v));
    }
}

impl<V> View for Env<V> {
    type V = Map<Seq<char>, V>;

    closed spec fn view(&self) -> Map<Seq<char>, V> {
        bindings_map(self.entries@)
    }
}

impl<V> Env<V> {
    /// The empty environment.
    pub fn new() -> (r: Self)
        ensures
            r@ == Map::<Seq<char>, V>::empty(),
    {
        Env { entries: Vec::new() }
    }

    /// The index of the last binding of `key`, if any.
    fn find(&self, key: &String) -> (r: Option<usize>)
        ensures
            r matches Some(i) ==> i < self.entries@.len() && self.entries@[i as int].0@ == key@
                && forall|j: int| i < j < self.entries@.len() ==> (#[trigger] self.entries@[j]).0@
                != key@,
            r is None ==> forall|j: int|
                0 <= j < self.entries@.len() ==> (#[trigger] self.entries@[j]).0@ != key@,
    {
        let mut i = self.entries.len();
        while i > 0
            invariant
                i <= self.entries@.len(),
                forall|j: int| i <= j < self.entries@.len() ==> (#[trigger] self.entries@[j]).0@ != key@,
            decreases i,
        {
            if self.entries[i - 1].0 == *key {
                return Some(i - 1);
            }
            i = i - 1;
        }
        None
    }

    /// Binds `key` to `value`, replacing an earlier binding of `key`.
    pub fn insert(&mut self, key: String, value: V)
        ensures
            final(self)@ == old(self)@.insert(key@, value),
    {
        match self.find(&key) {
            Some(i) => {
                proof {
                    lemma_bindings_update(self.entries@, i as int, key, value);
                }
                self.entries.set(i, (key, value));
            },
            None => {
                let ghost k = key@;
                self.entries.push((key, value));
                assert(self.entries@.drop_last() =~= old(self).entries@);
            },
        }
    }

    /// What `key` is bound to.
    pub fn get(&self, key: &String) -> (r: Option<&V>)
        ensures
            r matches Some(v) ==> self@.dom().contains(key@) && *v == self@[key@],
            r is None ==> !self@.dom().contains(key@),
    {
        match self.find(key) {
            Some(i) => {
                proof {
                    lemma_bindings_last(self.entries@, key@, i as int);
                }
                Some(&self.entries[i].1)
            },
            None => {
                proof {
                    lemma_bindings_absent(self.entries@, key@);
                }
                None
            },
        }
    }
}

/// `Point {label} is undefined`, with the label written as it is: what a
/// lookup of an unbound label reports.
pub open spec fn undefined_point_text(label: Seq<char>) -> Seq<char> {
    "Point "@ + label + " is undefined"@
}

/// Writes `Point {label} is undefined`, the label as it is.
pub(crate) fn undefined_point_message(label: &String) -> (r: String)
    ensures
        r@ == undefined_point_text(label@),
{
    let mut r = String::from_str("Point ");
    r.append(label.as_str());
    r.append(" is undefined");
    r
}

} // verus!
