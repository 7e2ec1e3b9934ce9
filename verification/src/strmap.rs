//! A map keyed by strings that keeps each key once, in the order in which
//! keys were first inserted.

use vstd::prelude::*;
use vstd::string::StringExecFns;

verus! {

/// No key occurs twice.
pub open spec fn keys_unique<W>(e: Seq<(Seq<char>, W)>) -> bool {
    forall|i: int, j: int| 0 <= i < j < e.len() ==> (#[trigger] e[i]).0 != (#[trigger] e[j]).0
}

/// Whether `k` is a key of `e`.
pub open spec fn has_key<W>(e: Seq<(Seq<char>, W)>, k: Seq<char>) -> bool {
    exists|i: int| 0 <= i < e.len() && (#[trigger] e[i]).0 == k
}

/// The value of `k` in `e`.
pub open spec fn lookup<W>(e: Seq<(Seq<char>, W)>, k: Seq<char>) -> Option<W>
    decreases e.len(),
{
    if e.len() == 0 {
        None
    } else if e.last().0 == k {
        Some(e.last().1)
    } else {
        lookup(e.drop_last(), k)
    }
}

/// `e` with `k` mapped to `v`: the value replaced in place where `k` is a
/// key, otherwise a new entry at the end.
pub open spec fn insert_entry<W>(e: Seq<(Seq<char>, W)>, k: Seq<char>, v: W) -> Seq<(Seq<char>, W)> {
    if has_key(e, k) {
        Seq::new(e.len(), |i: int| if e[i].0 == k { (k, v) } else { e[i] })
    } else {
        e.push((k, v))
    }
}

pub proof fn lemma_lookup_at<W>(e: Seq<(Seq<char>, W)>, k: Seq<char>, i: int)
    requires
        keys_unique(e),
        0 <= i < e.len(),
        e[i].0 == k,
    ensures
        lookup(e, k) == Some(e[i].1),
    decreases e.len(),
{
    if i < e.len() - 1 {
        assert(e.last() == e[e.len() - 1]);
        assert(e[i].0 != e[e.len() - 1].0);
        let t = e.drop_last();
        assert(t[i] == e[i]);
        assert(keys_unique(t)) by {
            assert forall|a: int, b: int| 0 <= a < b < t.len() implies (#[trigger] t[a]).0 != (
            #[trigger] t[b]).0 by {
                assert(t[a] == e[a] && t[b] == e[b]);
            }
        }
        lemma_lookup_at(t, k, i);
    }
}

pub proof fn lemma_lookup_none<W>(e: Seq<(Seq<char>, W)>, k: Seq<char>)
    requires
        !has_key(e, k),
    ensures
        lookup(e, k) is None,
    decreases e.len(),
{
    if e.len() > 0 {
        assert(e.last() == e[e.len() - 1]);
        let t = e.drop_last();
        assert(!has_key(t, k)) by {
            if has_key(t, k) {
                let j = choose|j: int| 0 <= j < t.len() && (#[trigger] t[j]).0 == k;
                assert(e[j] == t[j]);
            }
        }
        lemma_lookup_none(t, k);
    }
}

/// Inserting keeps keys unique.
pub proof fn lemma_insert_unique<W>(e: Seq<(Seq<char>, W)>, k: Seq<char>, v: W)
    requires
        keys_unique(e),
    ensures
        keys_unique(insert_entry(e, k, v)),
        has_key(insert_entry(e, k, v), k),
        lookup(insert_entry(e, k, v), k) == Some(v),
{
    let r = insert_entry(e, k, v);
    if has_key(e, k) {
        let j = choose|j: int| 0 <= j < e.len() && (#[trigger] e[j]).0 == k;
        assert forall|a: int, b: int| 0 <= a < b < r.len() implies (#[trigger] r[a]).0 != (
        #[trigger] r[b]).0 by {
            assert(e[a].0 != e[b].0);
        }
        assert(r[j].0 == k);
        lemma_lookup_at(r, k, j);
    } else {
        assert forall|a: int, b: int| 0 <= a < b < r.len() implies (#[trigger] r[a]).0 != (
        #[trigger] r[b]).0 by {
            if b < e.len() {
                assert(e[a].0 != e[b].0);
            } else {
                assert(r[a] == e[a]);
            }
        }
        assert(r[e.len() as int].0 == k);
        lemma_lookup_at(r, k, e.len() as int);
    }
}

/// Reading a key after a write gives the written value for that key and
/// the old value for every other key: the law of `HashMap::insert` and
/// `HashMap::get`.
pub proof fn lemma_insert_lookup<W>(e: Seq<(Seq<char>, W)>, k: Seq<char>, v: W, j: Seq<char>)
    requires
        keys_unique(e),
    ensures
        lookup(insert_entry(e, k, v), j) == if j == k {
            Some(v)
        } else {
            lookup(e, j)
        },
{
    lemma_insert_unique(e, k, v);
    let r = insert_entry(e, k, v);
    if j != k {
        if has_key(e, j) {
            let i = choose|i: int| 0 <= i < e.len() && (#[trigger] e[i]).0 == j;
            lemma_lookup_at(e, j, i);
            assert(r[i] == e[i]);
            lemma_lookup_at(r, j, i);
        } else {
            lemma_lookup_none(e, j);
            assert(!has_key(r, j)) by {
                if has_key(r, j) {
                    let i = choose|i: int| 0 <= i < r.len() && (#[trigger] r[i]).0 == j;
                    if i < e.len() {
                        assert(r[i] == e[i]);
                    }
                }
            }
            lemma_lookup_none(r, j);
        }
    }
}

/// `e` with `x` added at the end of the value of `k`.
pub open spec fn append_value(e: Seq<(Seq<char>, Seq<char>)>, k: Seq<char>, x: Seq<char>) -> Seq<
    (Seq<char>, Seq<char>),
> {
    Seq::new(e.len(), |i: int| if e[i].0 == k { (k, e[i].1 + x) } else { e[i] })
}

/// Appending to a value keeps the keys.
pub proof fn lemma_append_keys(e: Seq<(Seq<char>, Seq<char>)>, k: Seq<char>, x: Seq<char>)
    ensures
        forall|i: int|
            0 <= i < e.len() ==> (#[trigger] append_value(e, k, x)[i]).0 == e[i].0,
        append_value(e, k, x).len() == e.len(),
        keys_unique(e) ==> keys_unique(append_value(e, k, x)),
        forall|j: Seq<char>| has_key(e, j) ==> #[trigger] has_key(append_value(e, k, x), j),
{
    let r = append_value(e, k, x);
    assert forall|j: Seq<char>| has_key(e, j) implies #[trigger] has_key(r, j) by {
        let i = choose|i: int| 0 <= i < e.len() && (#[trigger] e[i]).0 == j;
        assert(r[i].0 == j);
    }
    if keys_unique(e) {
        assert forall|a: int, b: int| 0 <= a < b < r.len() implies (#[trigger] r[a]).0 != (
        #[trigger] r[b]).0 by {
            assert(e[a].0 != e[b].0);
        }
    }
}

/// Appending to the value of a key changes that value, by the appended
/// text at its end, and no other.
pub proof fn lemma_append_lookup(
    e: Seq<(Seq<char>, Seq<char>)>,
    k: Seq<char>,
    x: Seq<char>,
    j: Seq<char>,
)
    requires
        keys_unique(e),
        has_key(e, k),
    ensures
        lookup(append_value(e, k, x), j) == if j == k {
            Some(lookup(e, k).unwrap() + x)
        } else {
            lookup(e, j)
        },
{
    let r = append_value(e, k, x);
    lemma_append_keys(e, k, x);
    if has_key(e, j) {
        let i = choose|i: int| 0 <= i < e.len() && (#[trigger] e[i]).0 == j;
        lemma_lookup_at(e, j, i);
        lemma_lookup_at(r, j, i);
    } else {
        lemma_lookup_none(e, j);
        assert(!has_key(r, j)) by {
            if has_key(r, j) {
                let i = choose|i: int| 0 <= i < r.len() && (#[trigger] r[i]).0 == j;
                assert(r[i].0 == e[i].0);
            }
        }
        lemma_lookup_none(r, j);
    }
}

/// A map from strings to values that holds each key once.
#[derive(Debug)]
pub struct StrMap<V: View> {
    entries: Vec<(String, V)>,
}

impl<V: View> View for StrMap<V> {
    type V = Seq<(Seq<char>, V::V)>;

    closed spec fn view(&self) -> Seq<(Seq<char>, V::V)> {
        Seq::new(self.entries.len() as nat, |i: int| (self.entries@[i].0@, self.entries@[i].1@))
    }
}

impl<V: View> StrMap<V> {
    #[verifier::type_invariant]
    closed spec fn inv(self) -> bool {
        keys_unique(self@)
    }

    /// An empty map.
    pub fn new() -> (m: Self)
        ensures
            m@ == Seq::<(Seq<char>, V::V)>::empty(),
    {
        let m = StrMap { entries: Vec::new() };
        assert(m@ =~= Seq::<(Seq<char>, V::V)>::empty());
        m
    }

    /// The number of keys.
    pub fn len(&self) -> (n: usize)
        ensures
            n == self@.len(),
    {
        self.entries.len()
    }

    /// The key and value at a position.
    pub fn entry(&self, i: usize) -> (r: (&String, &V))
        requires
            i < self@.len(),
        ensures
            r.0@ == self@[i as int].0,
            r.1@ == self@[i as int].1,
    {
        let e = &self.entries[i];
        (&e.0, &e.1)
    }

    /// Where `k` is a key, its position.
    fn position(&self, k: &String) -> (r: Option<usize>)
        ensures
            r matches Some(i) ==> i < self@.len() && self@[i as int].0 == k@,
            r is None ==> !has_key(self@, k@),
    {
        let mut i: usize = 0;
        while i < self.entries.len()
            invariant
                i <= self.entries.len(),
                self@.len() == self.entries.len(),
                forall|j: int| 0 <= j < i ==> self@[j].0 != k@,
            decreases self.entries.len() - i,
        {
            if self.entries[i].0 == *k {
                return Some(i);
            }
            i = i + 1;
        }
        None
    }

    /// The value of `k`, if it is a key.
    pub fn get(&self, k: &str) -> (r: Option<&V>)
        ensures
            match r {
                Some(v) => lookup(self@, k@) == Some(v@),
                None => lookup(self@, k@) is None,
            },
    {
        proof {
            use_type_invariant(self);
        }
        let key = k.to_owned();
        match self.position(&key) {
            Some(i) => {
                proof {
                    lemma_lookup_at(self@, k@, i as int);
                }
                Some(&self.entries[i].1)
            },
            None => {
                proof {
                    lemma_lookup_none(self@, k@);
                }
                None
            },
        }
    }

    /// Maps `k` to `v` (`HashMap::insert`): an existing key keeps its place.
    pub fn insert(&mut self, k: String, v: V)
        ensures
            final(self)@ == insert_entry(old(self)@, k@, v@),
    {
        proof {
            use_type_invariant(&*self);
        }
        let ghost old_view = self@;
        match self.position(&k) {
            Some(i) => {
                proof {
                    lemma_insert_unique(old_view, k@, v@);
                    assert forall|j: int| 0 <= j < old_view.len() && j != i implies old_view[j].0
                        != k@ by {
                        if j < i {
                            assert(old_view[j].0 != old_view[i as int].0);
                        } else {
                            assert(old_view[i as int].0 != old_view[j].0);
                        }
                    }
                }
                let mut entries: Vec<(String, V)> = Vec::new();
                std::mem::swap(&mut entries, &mut self.entries);
                entries.set(i, (k, v));
                proof {
                    assert(StrMap { entries }@ =~= insert_entry(old_view, k@, v@));
                }
                self.entries = entries;
            },
            None => {
                proof {
                    lemma_insert_unique(old_view, k@, v@);
                }
                let mut entries: Vec<(String, V)> = Vec::new();
                std::mem::swap(&mut entries, &mut self.entries);
                entries.push((k, v));
                proof {
                    assert(StrMap { entries }@ =~= insert_entry(old_view, k@, v@));
                }
                self.entries = entries;
            },
        }
    }
}

impl StrMap<String> {
    /// Adds `extra` at the end of the value of `k`.
    pub fn push_str_to(&mut self, k: &String, extra: &str)
        requires
            has_key(old(self)@, k@),
        ensures
            final(self)@ == append_value(old(self)@, k@, extra@),
    {
        proof {
            use_type_invariant(&*self);
        }
        let ghost old_view = self@;
        match self.position(k) {
            Some(i) => {
                let mut value = self.entries[i].1.clone();
                value.append(extra);
                let key = self.entries[i].0.clone();
                proof {
                    lemma_append_keys(old_view, k@, extra@);
                    assert forall|j: int| 0 <= j < old_view.len() && j != i implies old_view[j].0
                        != k@ by {
                        if j < i {
                            assert(old_view[j].0 != old_view[i as int].0);
                        } else {
                            assert(old_view[i as int].0 != old_view[j].0);
                        }
                    }
                }
                let mut entries: Vec<(String, String)> = Vec::new();
                std::mem::swap(&mut entries, &mut self.entries);
                entries.set(i, (key, value));
                proof {
                    assert(StrMap { entries }@ =~= append_value(old_view, k@, extra@));
                }
                self.entries = entries;
            },
            None => {},
        }
    }
}

} // verus!
