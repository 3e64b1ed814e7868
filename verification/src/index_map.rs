//! Small association list keyed by farm index.
//!
//! Entries keep the order in which keys were first inserted; a key occurs at
//! most once.
use crate::ids::FarmIndex;
use vstd::prelude::*;

verus! {

/// Keys of an entry sequence are pairwise distinct.
pub open spec fn keys_distinct<V>(s: Seq<(FarmIndex, V)>) -> bool {
    forall|i: int, j: int| 0 <= i < j < s.len() ==> #[trigger] s[i].0 != #[trigger] s[j].0
}

/// Position of the last entry with key `k`, or -1.
pub open spec fn key_index<V>(s: Seq<(FarmIndex, V)>, k: FarmIndex) -> int
    decreases s.len(),
{
    if s.len() == 0 {
        -1
    } else if s.last().0 == k {
        s.len() - 1
    } else {
        key_index(s.drop_last(), k)
    }
}

/// Whether some entry has key `k`.
pub open spec fn has_key<V>(s: Seq<(FarmIndex, V)>, k: FarmIndex) -> bool {
    exists|i: int| 0 <= i < s.len() && #[trigger] s[i].0 == k
}

/// Map from keys to values described by an entry sequence.
pub open spec fn entries_map<V>(s: Seq<(FarmIndex, V)>) -> Map<FarmIndex, V> {
    Map::new(|k: FarmIndex| key_index(s, k) >= 0, |k: FarmIndex| s[key_index(s, k)].1)
}

/// Entries after setting `k` to `v`: replaced in place, or appended.
pub open spec fn entries_insert<V>(s: Seq<(FarmIndex, V)>, k: FarmIndex, v: V) -> Seq<(FarmIndex, V)> {
    let j = key_index(s, k);
    if j >= 0 {
        s.update(j, (k, v))
    } else {
        s.push((k, v))
    }
}

/// Entries after removing key `k`, the others keeping their order.
pub open spec fn entries_remove<V>(s: Seq<(FarmIndex, V)>, k: FarmIndex) -> Seq<(FarmIndex, V)> {
    let j = key_index(s, k);
    if j >= 0 {
        s.remove(j)
    } else {
        s
    }
}

/// `key_index` finds the last occurrence, and with distinct keys the only one.
pub proof fn lemma_key_index<V>(s: Seq<(FarmIndex, V)>, k: FarmIndex)
    ensures
        -1 <= key_index(s, k) < s.len(),
        key_index(s, k) >= 0 ==> s[key_index(s, k)].0 == k,
        key_index(s, k) >= 0 <==> has_key(s, k),
        keys_distinct(s) ==> forall|i: int| 0 <= i < s.len() && s[i].0 == k ==> i == key_index(s, k),
    decreases s.len(),
{
    if s.len() > 0 {
        let t = s.drop_last();
        lemma_key_index(t, k);
        if s.last().0 != k {
            if has_key(s, k) {
                let i = choose|i: int| 0 <= i < s.len() && #[trigger] s[i].0 == k;
                assert(t[i].0 == k);
            }
            if has_key(t, k) {
                let i = choose|i: int| 0 <= i < t.len() && #[trigger] t[i].0 == k;
                assert(s[i].0 == k);
            }
        } else {
            assert(s[s.len() - 1].0 == k);
        }
    }
}

/// Inserting keeps keys distinct and updates the described map.
pub proof fn lemma_entries_insert<V>(s: Seq<(FarmIndex, V)>, k: FarmIndex, v: V)
    requires
        keys_distinct(s),
    ensures
        keys_distinct(entries_insert(s, k, v)),
        entries_map(entries_insert(s, k, v)) == entries_map(s).insert(k, v),
{
    let r = entries_insert(s, k, v);
    lemma_key_index(s, k);
    let j = key_index(s, k);
    if j < 0 {
        assert forall|a: int, b: int| 0 <= a < b < r.len() implies #[trigger] r[a].0 != #[trigger] r[b].0 by {
            if b == s.len() {
                assert(s[a].0 == r[a].0);
            }
        }
    }
    assert forall|q: FarmIndex| #![trigger entries_map(r).dom().contains(q)] #![trigger entries_map(r)[q]] entries_map(r).contains_key(q) == entries_map(s).insert(k, v).contains_key(q)
        && (entries_map(r).contains_key(q) ==> entries_map(r)[q] == entries_map(s).insert(k, v)[q]) by {
        lemma_key_index(s, q);
        lemma_key_index(r, q);
        if q == k {
            if j >= 0 {
                assert(r[j].0 == k);
            } else {
                assert(r[s.len() as int].0 == k);
            }
        } else {
            if key_index(s, q) >= 0 {
                let i = key_index(s, q);
                assert(r[i].0 == q);
            }
            if key_index(r, q) >= 0 {
                let i = key_index(r, q);
                assert(s[i].0 == q);
            }
        }
    }
    assert(entries_map(r) =~= entries_map(s).insert(k, v));
}

/// Removing keeps keys distinct and updates the described map.
pub proof fn lemma_entries_remove<V>(s: Seq<(FarmIndex, V)>, k: FarmIndex)
    requires
        keys_distinct(s),
    ensures
        keys_distinct(entries_remove(s, k)),
        entries_map(entries_remove(s, k)) == entries_map(s).remove(k),
{
    let r = entries_remove(s, k);
    lemma_key_index(s, k);
    let j = key_index(s, k);
    if j >= 0 {
        assert forall|a: int, b: int| 0 <= a < b < r.len() implies #[trigger] r[a].0 != #[trigger] r[b].0 by {
            let a2 = if a < j { a } else { a + 1 };
            let b2 = if b < j { b } else { b + 1 };
            assert(r[a] == s[a2]);
            assert(r[b] == s[b2]);
        }
    }
    assert forall|q: FarmIndex| #![trigger entries_map(r).dom().contains(q)] #![trigger entries_map(r)[q]] entries_map(r).contains_key(q) == entries_map(s).remove(k).contains_key(q)
        && (entries_map(r).contains_key(q) ==> entries_map(r)[q] == entries_map(s).remove(k)[q]) by {
        lemma_key_index(s, q);
        lemma_key_index(r, q);
        if key_index(s, q) >= 0 && q != k {
            let i = key_index(s, q);
            if j >= 0 && i > j {
                assert(r[i - 1].0 == q);
            } else {
                assert(r[i].0 == q);
            }
        }
        if key_index(r, q) >= 0 {
            let i = key_index(r, q);
            if j >= 0 && i >= j {
                assert(s[i + 1].0 == q);
                assert(i + 1 != j);
            } else {
                assert(s[i].0 == q);
            }
        }
    }
    assert(entries_map(r) =~= entries_map(s).remove(k));
}

/// Association list from farm index to `V` with distinct keys.
pub struct FarmIndexMap<V> {
    entries: Vec<(FarmIndex, V)>,
}

impl<V> View for FarmIndexMap<V> {
    type V = Map<FarmIndex, V>;

    open spec fn view(&self) -> Map<FarmIndex, V> {
        entries_map(self.entries())
    }
}

impl<V> FarmIndexMap<V> {
    /// The entries in order.
    pub closed spec fn entries(&self) -> Seq<(FarmIndex, V)> {
        self.entries@
    }

    /// Keys are distinct.
    pub open spec fn wf(&self) -> bool {
        keys_distinct(self.entries())
    }

    /// An empty map.
    pub fn new() -> (m: Self)
        ensures
            m.wf(),
            m.entries() == Seq::<(FarmIndex, V)>::empty(),
            m@ == Map::<FarmIndex, V>::empty(),
    {
        let m = FarmIndexMap { entries: Vec::new() };
        assert(m@ =~= Map::<FarmIndex, V>::empty());
        m
    }

    /// Number of entries.
    pub fn len(&self) -> (n: usize)
        ensures
            n == self.entries().len(),
    {
        self.entries.len()
    }

    /// Key and value of the entry at `i`.
    pub fn entry(&self, i: usize) -> (e: &(FarmIndex, V))
        requires
            i < self.entries().len(),
        ensures
            *e == self.entries()[i as int],
    {
        &self.entries[i]
    }

    /// Position of key `k`, searched from the end.
    fn position(&self, k: FarmIndex) -> (r: Option<usize>)
        ensures
            match r {
                Some(j) => j == key_index(self.entries(), k) && j < self.entries().len(),
                None => key_index(self.entries(), k) == -1,
            },
    {
        proof {
            lemma_key_index(self.entries(), k);
        }
        let mut i = self.entries.len();
        assert(self.entries@.take(i as int) =~= self.entries@);
        while i > 0
            invariant
                i <= self.entries@.len(),
                key_index(self.entries@, k) == key_index(self.entries@.take(i as int), k),
            decreases i,
        {
            assert(self.entries@.take(i as int).drop_last() =~= self.entries@.take(i - 1));
            if self.entries[i - 1].0 == k {
                return Some(i - 1);
            }
            i = i - 1;
        }
        None
    }

    /// Whether key `k` is present.
    pub fn contains_key(&self, k: FarmIndex) -> (b: bool)
        ensures
            b == self@.contains_key(k),
            b == has_key(self.entries(), k),
    {
        proof {
            lemma_key_index(self.entries(), k);
        }
        self.position(k).is_some()
    }

    /// Sets `k` to `v`, giving back the value it replaced.
    pub fn insert(&mut self, k: FarmIndex, v: V) -> (r: Option<V>)
        requires
            old(self).wf(),
        ensures
            final(self).wf(),
            final(self).entries() == entries_insert(old(self).entries(), k, v),
            final(self)@ == old(self)@.insert(k, v),
            r == (if old(self)@.contains_key(k) { Some(old(self)@[k]) } else { None::<V> }),
    {
        proof {
            lemma_entries_insert(old(self).entries(), k, v);
        }
        match self.position(k) {
            Some(j) => {
                let (_, prev) = self.entries.remove(j);
                self.entries.insert(j, (k, v));
                assert(self.entries@ =~= old(self).entries@.update(j as int, (k, v)));
                Some(prev)
            },
            None => {
                self.entries.push((k, v));
                None
            },
        }
    }

    /// Removes key `k`, giving back its value.
    pub fn remove(&mut self, k: FarmIndex) -> (r: Option<V>)
        requires
            old(self).wf(),
        ensures
            final(self).wf(),
            final(self).entries() == entries_remove(old(self).entries(), k),
            final(self)@ == old(self)@.remove(k),
            r == (if old(self)@.contains_key(k) { Some(old(self)@[k]) } else { None::<V> }),
    {
        proof {
            lemma_entries_remove(old(self).entries(), k);
        }
        match self.position(k) {
            Some(j) => {
                let (_, prev) = self.entries.remove(j);
                Some(prev)
            },
            None => None,
        }
    }

    /// Removes every entry, giving them back in order.
    pub fn take_entries(&mut self) -> (r: Vec<(FarmIndex, V)>)
        ensures
            r@ == old(self).entries(),
            final(self).entries() == Seq::<(FarmIndex, V)>::empty(),
            final(self).wf(),
    {
        let mut taken: Vec<(FarmIndex, V)> = Vec::new();
        std::mem::swap(&mut taken, &mut self.entries);
        taken
    }

    /// Builds a map from entries with distinct keys.
    pub fn from_entries(entries: Vec<(FarmIndex, V)>) -> (m: Self)
        requires
            keys_distinct(entries@),
        ensures
            m.entries() == entries@,
            m.wf(),
    {
        FarmIndexMap { entries }
    }
}

} // verus!
