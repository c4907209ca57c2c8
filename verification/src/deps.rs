//! An insertion-ordered map from dependency names to version requirements.
use vstd::prelude::*;

verus! {

/// A dependency table viewed as its entries: (name, version) pairs in insertion order.
pub type EntriesView = Seq<(Seq<char>, Seq<char>)>;

/// No name occurs twice among the entries.
pub open spec fn keys_distinct(es: EntriesView) -> bool {
    forall|i: int, j: int| 0 <= i < j < es.len() ==> (#[trigger] es[i]).0 != (#[trigger] es[j]).0
}

/// Whether some entry is named `k`.
pub open spec fn has_key(es: EntriesView, k: Seq<char>) -> bool {
    exists|i: int| 0 <= i < es.len() && (#[trigger] es[i]).0 == k
}

/// The position of the entry named `k` (meaningful where `has_key(es, k)`).
pub open spec fn key_pos(es: EntriesView, k: Seq<char>) -> int {
    choose|i: int| 0 <= i < es.len() && (#[trigger] es[i]).0 == k
}

/// The version recorded under `k`, if any.
pub open spec fn lookup(es: EntriesView, k: Seq<char>) -> Option<Seq<char>> {
    if has_key(es, k) {
        Some(es[key_pos(es, k)].1)
    } else {
        None
    }
}

/// The entries after recording `v` under `k`: an existing entry keeps its place and
/// takes the new version, a new name goes last.
pub open spec fn insert_entry(es: EntriesView, k: Seq<char>, v: Seq<char>) -> EntriesView {
    if has_key(es, k) {
        es.update(key_pos(es, k), (k, v))
    } else {
        es.push((k, v))
    }
}

/// The view of one stored entry.
pub open spec fn entry_view(e: (String, String)) -> (Seq<char>, Seq<char>) {
    (e.0@, e.1@)
}

/// The view of a list of stored entries.
pub open spec fn entries_view(s: Seq<(String, String)>) -> EntriesView {
    s.map_values(|e: (String, String)| entry_view(e))
}

/// Dependencies of a package: names mapped to version requirements, each name once.
#[derive(Debug)]
pub struct Dependencies {
    entries: Vec<(String, String)>,
}

impl View for Dependencies {
    type V = EntriesView;

    closed spec fn view(&self) -> EntriesView {
        entries_view(self.entries@)
    }
}

impl Dependencies {
    #[verifier::type_invariant]
    closed spec fn wf(&self) -> bool {
        keys_distinct(self@)
    }

    /// An empty table.
    pub fn new() -> (d: Dependencies)
        ensures
            d@ == Seq::<(Seq<char>, Seq<char>)>::empty(),
    {
        let d = Dependencies { entries: Vec::new() };
        assert(d@ =~= Seq::<(Seq<char>, Seq<char>)>::empty());
        d
    }

    /// The number of dependencies.
    pub fn len(&self) -> (n: usize)
        ensures
            n == self@.len(),
    {
        self.entries.len()
    }

    /// Whether there are no dependencies.
    pub fn is_empty(&self) -> (b: bool)
        ensures
            b == (self@.len() == 0),
    {
        self.entries.len() == 0
    }

    /// The stored entries, in insertion order.
    pub fn entries(&self) -> (es: &Vec<(String, String)>)
        ensures
            entries_view(es@) == self@,
            keys_distinct(self@),
    {
        proof {
            use_type_invariant(self);
        }
        &self.entries
    }

    /// The position of the entry named `key`, if there is one.
    fn position(&self, key: &String) -> (r: Option<usize>)
        ensures
            match r {
                Some(i) => i < self@.len() && self@[i as int].0 == key@ && has_key(self@, key@)
                    && key_pos(self@, key@) == i,
                None => !has_key(self@, key@),
            },
    {
        proof {
            use_type_invariant(self);
        }
        let mut i: usize = 0;
        while i < self.entries.len()
            invariant
                0 <= i <= self.entries.len(),
                self@.len() == self.entries.len(),
                keys_distinct(self@),
                forall|j: int| 0 <= j < i ==> (#[trigger] self@[j]).0 != key@,
            decreases self.entries.len() - i,
        {
            assert(self@[i as int] == entry_view(self.entries@[i as int]));
            if self.entries[i].0 == *key {
                proof {
                    assert(has_key(self@, key@));
                    let p = key_pos(self@, key@);
                    assert(self@[p].0 == key@);
                    assert(p == i);
                }
                return Some(i);
            }
            i = i + 1;
        }
        None
    }

    /// Records `version` under `name`, replacing the version of an existing entry.
    pub fn insert(&mut self, name: String, version: String)
        ensures
            final(self)@ == insert_entry(old(self)@, name@, version@),
    {
        proof {
            use_type_invariant(&*self);
        }
        let ghost old_view = self@;
        let ghost k = name@;
        let ghost v = version@;
        let pos = self.position(&name);
        proof {
            lemma_insert_distinct(old_view, k, v);
        }
        let mut es: Vec<(String, String)> = Vec::new();
        std::mem::swap(&mut es, &mut self.entries);
        match pos {
            Some(i) => {
                es.set(i, (name, version));
            },
            None => {
                es.push((name, version));
            },
        }
        assert(entries_view(es@) =~= insert_entry(
            old_view,
            k,
            v,
        ));
        self.entries = es;
    }

    /// The version recorded under `name`, if any.
    pub fn get(&self, name: &str) -> (r: Option<&String>)
        ensures
            match r {
                Some(v) => lookup(self@, name@) == Some(v@),
                None => lookup(self@, name@) is None,
            },
    {
        let key = name.to_owned();
        match self.position(&key) {
            Some(i) => {
                assert(self@[i as int] == entry_view(self.entries@[i as int]));
                Some(&self.entries[i].1)
            },
            None => None,
        }
    }

    /// Whether some entry is named `name`.
    pub fn contains_key(&self, name: &str) -> (b: bool)
        ensures
            b == has_key(self@, name@),
    {
        let key = name.to_owned();
        self.position(&key).is_some()
    }
}

impl Clone for Dependencies {
    /// A copy of the table, entry for entry.
    fn clone(&self) -> (r: Self)
        ensures
            r@ == self@,
    {
        proof {
            use_type_invariant(self);
        }
        let mut entries: Vec<(String, String)> = Vec::new();
        let mut i: usize = 0;
        while i < self.entries.len()
            invariant
                0 <= i <= self.entries.len(),
                entries_view(entries@) == self@.take(i as int),
            decreases self.entries.len() - i,
        {
            let ghost before = entries@;
            assert(self@.len() == self.entries@.len());
            assert(entries_view(before).len() == before.len());
            assert(before.len() == i);
            let e = (self.entries[i].0.clone(), self.entries[i].1.clone());
            entries.push(e);
            assert(entries_view(entries@) =~= self@.take(i + 1)) by {
                assert(self@[i as int] == entry_view(self.entries@[i as int]));
                assert forall|x: int| 0 <= x < i implies entries_view(entries@)[x] == entries_view(
                    before,
                )[x] by {
                    assert(entries@[x] == before[x]);
                }
            }
            i = i + 1;
        }
        assert(self@.take(self.entries.len() as int) =~= self@);
        Dependencies { entries }
    }
}

/// In a table with distinct names, the entry at position `i` is the one `lookup` finds.
pub proof fn lemma_lookup_at(es: EntriesView, i: int)
    requires
        keys_distinct(es),
        0 <= i < es.len(),
    ensures
        has_key(es, es[i].0),
        key_pos(es, es[i].0) == i,
        lookup(es, es[i].0) == Some(es[i].1),
{
    assert(has_key(es, es[i].0));
    let p = key_pos(es, es[i].0);
    if p != i {
        if p < i {
            assert(es[p].0 != es[i].0);
        } else {
            assert(es[i].0 != es[p].0);
        }
    }
}

/// Recording a version keeps the names distinct.
pub proof fn lemma_insert_distinct(es: EntriesView, k: Seq<char>, v: Seq<char>)
    requires
        keys_distinct(es),
    ensures
        keys_distinct(insert_entry(es, k, v)),
{
    let r = insert_entry(es, k, v);
    if has_key(es, k) {
        let p = key_pos(es, k);
        assert forall|i: int, j: int| 0 <= i < j < r.len() implies (#[trigger] r[i]).0 != (
        #[trigger] r[j]).0 by {
            assert(es[i].0 != es[j].0);
        }
    } else {
        assert forall|i: int, j: int| 0 <= i < j < r.len() implies (#[trigger] r[i]).0 != (
        #[trigger] r[j]).0 by {
            if j < es.len() {
                assert(es[i].0 != es[j].0);
            } else {
                assert(r[j].0 == k);
                assert(r[i] == es[i]);
            }
        }
    }
}

/// What a read gives back after a write: the version just recorded under `k`, and for
/// every other name what it gave before. A table only ever gains names.
pub proof fn law_lookup_after_insert(es: EntriesView, k: Seq<char>, v: Seq<char>, other: Seq<char>)
    requires
        keys_distinct(es),
        other != k,
    ensures
        lookup(insert_entry(es, k, v), k) == Some(v),
        lookup(insert_entry(es, k, v), other) == lookup(es, other),
        insert_entry(es, k, v).len() == es.len() + (if has_key(es, k) { 0int } else { 1int }),
        forall|n: Seq<char>| has_key(es, n) ==> has_key(insert_entry(es, k, v), n),
{
    let r = insert_entry(es, k, v);
    lemma_insert_distinct(es, k, v);
    if has_key(es, k) {
        let p = key_pos(es, k);
        lemma_lookup_at(r, p);
        if has_key(es, other) {
            let q = key_pos(es, other);
            lemma_lookup_at(r, q);
        } else {
            if has_key(r, other) {
                let q = key_pos(r, other);
                assert(r[q] == es[q]);
            }
        }
        assert forall|n: Seq<char>| has_key(es, n) implies has_key(r, n) by {
            let q = key_pos(es, n);
            if q == p {
                assert(r[p].0 == n);
            } else {
                assert(r[q] == es[q]);
            }
        }
    } else {
        lemma_lookup_at(r, es.len() as int);
        if has_key(es, other) {
            let q = key_pos(es, other);
            lemma_lookup_at(r, q);
        } else {
            if has_key(r, other) {
                let q = key_pos(r, other);
                assert(q < es.len());
                assert(r[q] == es[q]);
            }
        }
        assert forall|n: Seq<char>| has_key(es, n) implies has_key(r, n) by {
            let q = key_pos(es, n);
            assert(r[q] == es[q]);
        }
    }
}

} // verus!
