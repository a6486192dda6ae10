//! A small map keyed by text, kept as a list of distinct keys: the caches
//! and registries of the server hold a few hundred entries at most.

use vstd::prelude::*;
use crate::text::{to_chars, chars_eq};

verus! {

/// Entries keyed by text, each key at most once.
pub struct StrMap<V> {
    entries: Vec<(String, V)>,
}

pub open spec fn entries_map<V>(es: Seq<(String, V)>) -> Map<Seq<char>, V>
    decreases es.len(),
{
    if es.len() == 0 {
        Map::empty()
    } else {
        entries_map(es.drop_last()).insert(es.last().0@, es.last().1)
    }
}

pub open spec fn distinct_keys<V>(es: Seq<(String, V)>) -> bool {
    forall|i: int, j: int| 0 <= i < es.len() && 0 <= j < es.len() && i != j ==> es[i].0@ != es[j].0@
}

proof fn lemma_drop_last_distinct<V>(es: Seq<(String, V)>)
    requires
        distinct_keys(es),
        es.len() > 0,
    ensures
        distinct_keys(es.drop_last()),
{
    let d = es.drop_last();
    assert forall|a: int, b: int| 0 <= a < d.len() && 0 <= b < d.len() && a != b implies d[a].0@
        != d[b].0@ by {
        assert(d[a] == es[a] && d[b] == es[b]);
    }
}

proof fn lemma_entries_at<V>(es: Seq<(String, V)>, i: int)
    requires
        distinct_keys(es),
        0 <= i < es.len(),
    ensures
        entries_map(es).contains_key(es[i].0@),
        entries_map(es)[es[i].0@] == es[i].1,
    decreases es.len(),
{
    if i < es.len() - 1 {
        let d = es.drop_last();
        assert(d[i] == es[i]);
        lemma_drop_last_distinct(es);
        lemma_entries_at(d, i);
        assert(es.last() == es[es.len() - 1]);
    }
}

proof fn lemma_entries_absent<V>(es: Seq<(String, V)>, k: Seq<char>)
    requires
        forall|i: int| 0 <= i < es.len() ==> (#[trigger] es[i]).0@ != k,
    ensures
        !entries_map(es).contains_key(k),
    decreases es.len(),
{
    if es.len() > 0 {
        let d = es.drop_last();
        assert forall|i: int| 0 <= i < d.len() implies (#[trigger] d[i]).0@ != k by {
            assert(d[i] == es[i]);
        }
        lemma_entries_absent(d, k);
        assert(es.last() == es[es.len() - 1]);
    }
}

/// The map holds exactly the keys of the entries.
proof fn lemma_entries_keys<V>(es: Seq<(String, V)>, k: Seq<char>)
    requires
        distinct_keys(es),
    ensures
        entries_map(es).contains_key(k) <==> exists|i: int| 0 <= i < es.len() && (#[trigger] es[i]).0@ == k,
{
    if exists|i: int| 0 <= i < es.len() && (#[trigger] es[i]).0@ == k {
        let i = choose|i: int| 0 <= i < es.len() && (#[trigger] es[i]).0@ == k;
        lemma_entries_at(es, i);
    } else {
        lemma_entries_absent(es, k);
    }
}

proof fn lemma_entries_dom<V>(es: Seq<(String, V)>)
    requires
        distinct_keys(es),
    ensures
        entries_map(es).dom().finite(),
        entries_map(es).dom().len() == es.len(),
    decreases es.len(),
{
    if es.len() > 0 {
        let d = es.drop_last();
        lemma_drop_last_distinct(es);
        lemma_entries_dom(d);
        assert forall|i: int| 0 <= i < d.len() implies (#[trigger] d[i]).0@ != es.last().0@ by {
            assert(d[i] == es[i]);
            assert(es.last() == es[es.len() - 1]);
        }
        lemma_entries_absent(d, es.last().0@);
    }
}

/// Two entry lists with the same keys and values at the same keys give the
/// same map.
proof fn lemma_entries_same<V>(a: Seq<(String, V)>, b: Seq<(String, V)>, m: Map<Seq<char>, V>)
    requires
        distinct_keys(a),
        forall|k: Seq<char>| #![trigger m.dom().contains(k)]
            m.dom().contains(k) <==> exists|i: int| 0 <= i < a.len() && (#[trigger] a[i]).0@ == k,
        forall|i: int| 0 <= i < a.len() ==> m.dom().contains((#[trigger] a[i]).0@) && m[a[i].0@] == a[i].1,
        b == a,
    ensures
        entries_map(b) == m,
{
    let em = entries_map(a);
    assert forall|k: Seq<char>| #![trigger em.dom().contains(k)] #![trigger m.dom().contains(k)]
        em.dom().contains(k) == m.dom().contains(k) && (em.dom().contains(k) ==> em[k] == m[k]) by {
        lemma_entries_keys(a, k);
        if m.dom().contains(k) {
            let i = choose|i: int| 0 <= i < a.len() && (#[trigger] a[i]).0@ == k;
            lemma_entries_at(a, i);
        }
    }
    assert(em.dom() =~= m.dom());
    assert(em =~= m);
}

impl<V> View for StrMap<V> {
    type V = Map<Seq<char>, V>;

    closed spec fn view(&self) -> Map<Seq<char>, V> {
        entries_map(self.entries@)
    }
}

impl<V> StrMap<V> {
    /// Each key at most once.
    pub closed spec fn wf(&self) -> bool {
        distinct_keys(self.entries@)
    }

    pub fn new() -> (m: Self)
        ensures
            m.wf(),
            m@ == Map::<Seq<char>, V>::empty(),
    {
        StrMap { entries: Vec::new() }
    }

    /// The number of keys held.
    pub fn len(&self) -> (r: usize)
        requires
            self.wf(),
        ensures
            self@.dom().finite(),
            r == self@.dom().len(),
    {
        proof {
            lemma_entries_dom(self.entries@);
        }
        self.entries.len()
    }

    fn index_of(&self, k: &[char]) -> (r: Option<usize>)
        requires
            self.wf(),
        ensures
            r matches Some(i) ==> i < self.entries.len() && self.entries@[i as int].0@ == k@,
            r is None ==> forall|i: int| 0 <= i < self.entries.len() ==> (#[trigger] self.entries@[i]).0@
                != k@,
    {
        let mut i: usize = 0;
        while i < self.entries.len()
            invariant
                i <= self.entries.len(),
                forall|j: int| 0 <= j < i ==> (#[trigger] self.entries@[j]).0@ != k@,
            decreases self.entries.len() - i,
        {
            if chars_eq(&to_chars(self.entries[i].0.as_str()), k) {
                return Some(i);
            }
            i = i + 1;
        }
        None
    }

    /// The value stored under `k`.
    pub fn get(&self, k: &str) -> (r: Option<&V>)
        requires
            self.wf(),
        ensures
            r matches Some(v) ==> self@.contains_key(k@) && *v == self@[k@],
            r is None ==> !self@.contains_key(k@),
    {
        match self.index_of(&to_chars(k)) {
            Some(i) => {
                proof {
                    lemma_entries_at(self.entries@, i as int);
                }
                Some(&self.entries[i].1)
            },
            None => {
                proof {
                    lemma_entries_absent(self.entries@, k@);
                }
                None
            },
        }
    }

    /// Whether a value is stored under `k`.
    pub fn contains(&self, k: &str) -> (r: bool)
        requires
            self.wf(),
        ensures
            r == self@.contains_key(k@),
    {
        self.get(k).is_some()
    }

    /// Stores `v` under `k`, replacing what was there.
    pub fn insert(&mut self, k: String, v: V)
        requires
            old(self).wf(),
        ensures
            final(self).wf(),
            final(self)@ == old(self)@.insert(k@, v),
    {
        let ghost old_es = self.entries@;
        let ghost m = entries_map(old_es).insert(k@, v);
        match self.index_of(&to_chars(k.as_str())) {
            Some(i) => {
                self.entries.set(i, (k, v));
                proof {
                    let es = self.entries@;
                    assert(es == old_es.update(i as int, es[i as int]));
                    assert forall|a: int, b: int| 0 <= a < es.len() && 0 <= b < es.len() && a != b implies es[a].0@
                        != es[b].0@ by {
                        assert(es[a].0@ == old_es[a].0@ && es[b].0@ == old_es[b].0@);
                    }
                    assert forall|key: Seq<char>| #![trigger m.dom().contains(key)]
                        m.dom().contains(key) <==> exists|j: int| 0 <= j < es.len() && (#[trigger] es[j]).0@ == key by {
                        lemma_entries_keys(old_es, key);
                        if key != es[i as int].0@ && exists|j: int| 0 <= j < old_es.len() && (#[trigger] old_es[j]).0@ == key {
                            let j = choose|j: int| 0 <= j < old_es.len() && (#[trigger] old_es[j]).0@ == key;
                            assert(es[j] == old_es[j]);
                        }
                        if exists|j: int| 0 <= j < es.len() && (#[trigger] es[j]).0@ == key {
                            let j = choose|j: int| 0 <= j < es.len() && (#[trigger] es[j]).0@ == key;
                            if j != i {
                                assert(old_es[j] == es[j]);
                            }
                        }
                    }
                    assert forall|j: int| 0 <= j < es.len() implies m.dom().contains((#[trigger] es[j]).0@) && m[es[j].0@] == es[j].1 by {
                        if j != i {
                            assert(es[j] == old_es[j]);
                            lemma_entries_at(old_es, j);
                        }
                    }
                    lemma_entries_same(es, es, m);
                }
            },
            None => {
                self.entries.push((k, v));
                proof {
                    let es = self.entries@;
                    assert(es.drop_last() =~= old_es);
                    assert forall|a: int, b: int| 0 <= a < es.len() && 0 <= b < es.len() && a != b implies es[a].0@
                        != es[b].0@ by {
                        if a < old_es.len() {
                            assert(es[a] == old_es[a]);
                        }
                        if b < old_es.len() {
                            assert(es[b] == old_es[b]);
                        }
                    }
                }
            },
        }
    }

    /// Drops what is stored under `k`.
    pub fn remove(&mut self, k: &str)
        requires
            old(self).wf(),
        ensures
            final(self).wf(),
            final(self)@ == old(self)@.remove(k@),
    {
        let ghost old_es = self.entries@;
        let ghost m = entries_map(old_es).remove(k@);
        match self.index_of(&to_chars(k)) {
            Some(i) => {
                let _ = self.entries.remove(i);
                proof {
                    let es = self.entries@;
                    assert(es == old_es.remove(i as int));
                    assert forall|j: int| 0 <= j < es.len() implies #[trigger] es[j] == if j < i {
                        old_es[j]
                    } else {
                        old_es[j + 1]
                    } by {}
                    assert forall|a: int, b: int| 0 <= a < es.len() && 0 <= b < es.len() && a != b implies es[a].0@
                        != es[b].0@ by {
                        let a2 = if a < i { a } else { a + 1 };
                        let b2 = if b < i { b } else { b + 1 };
                        assert(es[a] == old_es[a2] && es[b] == old_es[b2]);
                    }
                    assert forall|key: Seq<char>| #![trigger m.dom().contains(key)]
                        m.dom().contains(key) <==> exists|j: int| 0 <= j < es.len() && (#[trigger] es[j]).0@ == key by {
                        lemma_entries_keys(old_es, key);
                        if key != k@ && exists|j: int| 0 <= j < old_es.len() && (#[trigger] old_es[j]).0@ == key {
                            let j = choose|j: int| 0 <= j < old_es.len() && (#[trigger] old_es[j]).0@ == key;
                            assert(j != i);
                            let j2 = if j < i { j } else { j - 1 };
                            assert(es[j2] == old_es[j]);
                        }
                        if exists|j: int| 0 <= j < es.len() && (#[trigger] es[j]).0@ == key {
                            let j = choose|j: int| 0 <= j < es.len() && (#[trigger] es[j]).0@ == key;
                            let j2 = if j < i { j } else { j + 1 };
                            assert(es[j] == old_es[j2]);
                            assert(j2 != i);
                        }
                    }
                    assert forall|j: int| 0 <= j < es.len() implies m.dom().contains((#[trigger] es[j]).0@) && m[es[j].0@] == es[j].1 by {
                        let j2 = if j < i { j } else { j + 1 };
                        assert(es[j] == old_es[j2]);
                        lemma_entries_at(old_es, j2);
                    }
                    lemma_entries_same(es, es, m);
                }
            },
            None => {
                proof {
                    lemma_entries_absent(old_es, k@);
                    assert(m =~= entries_map(old_es));
                }
            },
        }
    }

    /// Drops everything.
    pub fn clear(&mut self)
        ensures
            final(self).wf(),
            final(self)@ == Map::<Seq<char>, V>::empty(),
    {
        self.entries = Vec::new();
    }
}

} // verus!
