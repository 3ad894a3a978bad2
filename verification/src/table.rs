//! An insertion-ordered table keyed by strings, modelled as an association
//! list without repeated keys.

use vstd::prelude::*;
use crate::text::to_string;

verus! {

/// The index of the entry with key `k` in `s`, or -1 when there is none
/// (the last such entry, which is the only one when keys do not repeat).
pub open spec fn key_index<T>(s: Seq<(Seq<char>, T)>, k: Seq<char>) -> int
    decreases s.len(),
{
    if s.len() == 0 {
        -1
    } else if s.last().0 == k {
        s.len() - 1
    } else {
        key_index(s.drop_last(), k)
    }
}

/// The keys of an association list, in order.
pub open spec fn keys_of<T>(s: Seq<(Seq<char>, T)>) -> Seq<Seq<char>> {
    s.map_values(|e: (Seq<char>, T)| e.0)
}

/// Whether no key repeats.
pub open spec fn unique_keys<T>(s: Seq<(Seq<char>, T)>) -> bool {
    forall|i: int, j: int| 0 <= i < s.len() && 0 <= j < s.len() && i != j ==> s[i].0 != s[j].0
}

/// The value stored under `k`, if any.
pub open spec fn lookup<T>(s: Seq<(Seq<char>, T)>, k: Seq<char>) -> Option<T> {
    if key_index(s, k) >= 0 {
        Some(s[key_index(s, k)].1)
    } else {
        None
    }
}

/// `s` with the value under `k` replaced by `v`, or `(k, v)` appended when
/// `k` is absent.
pub open spec fn upsert<T>(s: Seq<(Seq<char>, T)>, k: Seq<char>, v: T) -> Seq<(Seq<char>, T)> {
    if key_index(s, k) >= 0 {
        s.update(key_index(s, k), (k, v))
    } else {
        s.push((k, v))
    }
}

/// `s` without the entry under `k`.
pub open spec fn remove_key<T>(s: Seq<(Seq<char>, T)>, k: Seq<char>) -> Seq<(Seq<char>, T)> {
    if key_index(s, k) >= 0 {
        s.remove(key_index(s, k))
    } else {
        s
    }
}

pub proof fn lemma_key_index<T>(s: Seq<(Seq<char>, T)>, k: Seq<char>)
    ensures
        -1 <= key_index(s, k) < s.len(),
        key_index(s, k) >= 0 ==> s[key_index(s, k)].0 == k,
        key_index(s, k) == -1 ==> forall|i: int| 0 <= i < s.len() ==> s[i].0 != k,
        unique_keys(s) ==> forall|i: int| 0 <= i < s.len() && s[i].0 == k ==> i == key_index(s, k),
    decreases s.len(),
{
    if s.len() > 0 {
        lemma_key_index(s.drop_last(), k);
        if s.last().0 != k {
            assert forall|i: int| 0 <= i < s.len() - 1 implies s.drop_last()[i] == s[i] by {}
        }
    }
}

pub proof fn lemma_upsert<T>(s: Seq<(Seq<char>, T)>, k: Seq<char>, v: T)
    requires
        unique_keys(s),
    ensures
        unique_keys(upsert(s, k, v)),
        lookup(upsert(s, k, v), k) == Some(v),
        forall|k2: Seq<char>| k2 != k ==> lookup(upsert(s, k, v), k2) == lookup(s, k2),
        keys_of(upsert(s, k, v)).to_set() == keys_of(s).to_set().insert(k),
{
    lemma_key_index(s, k);
    let t = upsert(s, k, v);
    lemma_key_index(t, k);
    if key_index(s, k) >= 0 {
        assert(t[key_index(s, k)].0 == k);
    } else {
        assert(t[s.len() as int].0 == k);
    }
    assert(key_index(t, k) >= 0);
    assert forall|i: int, j: int| 0 <= i < t.len() && 0 <= j < t.len() && i != j implies t[i].0
        != t[j].0 by {
        if key_index(s, k) < 0 {
            if i < s.len() && j < s.len() {
                assert(t[i] == s[i] && t[j] == s[j]);
            }
        }
    }
    assert forall|k2: Seq<char>| k2 != k implies lookup(t, k2) == lookup(s, k2) by {
        lemma_key_index(s, k2);
        lemma_key_index(t, k2);
        if key_index(s, k2) >= 0 {
            assert(t[key_index(s, k2)].0 == k2);
        }
        if key_index(t, k2) >= 0 {
            assert(s[key_index(t, k2)].0 == k2);
        }
    }
    assert(keys_of(t).to_set() =~= keys_of(s).to_set().insert(k)) by {
        assert forall|x: Seq<char>| keys_of(t).to_set().contains(x) implies keys_of(
            s,
        ).to_set().insert(k).contains(x) by {
            let i = choose|i: int| 0 <= i < keys_of(t).len() && keys_of(t)[i] == x;
            if x != k {
                assert(keys_of(s)[i] == x);
            }
        }
        assert forall|x: Seq<char>| keys_of(s).to_set().insert(k).contains(x) implies keys_of(
            t,
        ).to_set().contains(x) by {
            if x == k {
                assert(keys_of(t)[key_index(t, k)] == k);
                assert(keys_of(t).contains(k));
            } else {
                let i = choose|i: int| 0 <= i < keys_of(s).len() && keys_of(s)[i] == x;
                assert(keys_of(t)[i] == x);
                assert(keys_of(t).contains(x));
            }
        }
    }
}

pub proof fn lemma_remove_key<T>(s: Seq<(Seq<char>, T)>, k: Seq<char>)
    requires
        unique_keys(s),
    ensures
        unique_keys(remove_key(s, k)),
        lookup(remove_key(s, k), k) is None,
        forall|k2: Seq<char>| k2 != k ==> lookup(remove_key(s, k), k2) == lookup(s, k2),
{
    lemma_key_index(s, k);
    let t = remove_key(s, k);
    lemma_key_index(t, k);
    assert forall|k2: Seq<char>| k2 != k implies lookup(t, k2) == lookup(s, k2) by {
        lemma_key_index(s, k2);
        lemma_key_index(t, k2);
        if key_index(s, k2) >= 0 {
            let i = key_index(s, k2);
            if key_index(s, k) >= 0 && i > key_index(s, k) {
                assert(t[i - 1] == s[i]);
            } else {
                assert(t[i] == s[i]);
            }
        }
        if key_index(t, k2) >= 0 {
            let j = key_index(t, k2);
            if key_index(s, k) >= 0 && j >= key_index(s, k) {
                assert(t[j] == s[j + 1]);
            } else {
                assert(t[j] == s[j]);
            }
        }
    }
}

/// The elements of `s` whose position is marked `true` in `m`, in order.
pub open spec fn filter_mask<T>(s: Seq<T>, m: Seq<bool>) -> Seq<T>
    decreases s.len(),
{
    if s.len() == 0 {
        Seq::empty()
    } else if m[s.len() - 1] {
        filter_mask(s.drop_last(), m).push(s.last())
    } else {
        filter_mask(s.drop_last(), m)
    }
}

pub proof fn lemma_filter_mask_len<T>(s: Seq<T>, m: Seq<bool>)
    ensures
        filter_mask(s, m).len() <= s.len(),
    decreases s.len(),
{
    if s.len() > 0 {
        lemma_filter_mask_len(s.drop_last(), m);
    }
}

pub proof fn lemma_filter_mask_unique<T>(s: Seq<(Seq<char>, T)>, m: Seq<bool>)
    requires
        unique_keys(s),
    ensures
        unique_keys(filter_mask(s, m)),
        forall|a: int| 0 <= a < filter_mask(s, m).len() ==> exists|j: int| 0 <= j < s.len() && s[j] == #[trigger] filter_mask(s, m)[a],
    decreases s.len(),
{
    if s.len() > 0 {
        let d = s.drop_last();
        assert(unique_keys(d)) by {
            assert forall|i: int, j: int| 0 <= i < d.len() && 0 <= j < d.len() && i != j implies d[i].0 != d[j].0 by {
                assert(d[i] == s[i] && d[j] == s[j]);
            }
        }
        lemma_filter_mask_unique(d, m);
        let fd = filter_mask(d, m);
        let f = filter_mask(s, m);
        if m[s.len() - 1] {
            assert(f == fd.push(s.last()));
        } else {
            assert(f == fd);
        }
        assert forall|a: int| 0 <= a < f.len() implies exists|j: int| 0 <= j < s.len() && s[j] == #[trigger] f[a] by {
            if a < fd.len() {
                let j = choose|j: int| 0 <= j < d.len() && #[trigger] d[j] == fd[a];
                assert(s[j] == f[a]);
            } else {
                assert(s[s.len() - 1] == f[a]);
            }
            assert(0 <= a < f.len());
        }
        if m[s.len() - 1] {
            assert forall|a: int, b: int| 0 <= a < f.len() && 0 <= b < f.len() && a != b implies f[a].0 != f[b].0 by {
                if a == f.len() - 1 && b < fd.len() {
                    let j = choose|j: int| 0 <= j < d.len() && #[trigger] d[j] == fd[b];
                    assert(s[j] == d[j]);
                } else if b == f.len() - 1 && a < fd.len() {
                    let j = choose|j: int| 0 <= j < d.len() && #[trigger] d[j] == fd[a];
                    assert(s[j] == d[j]);
                }
            }
        }
    }
}

/// A table of values keyed by strings, kept in insertion order.
#[derive(Debug, Clone)]
pub struct Table<V> {
    entries: Vec<(String, V)>,
}

impl<V: View> View for Table<V> {
    type V = Seq<(Seq<char>, V::V)>;

    closed spec fn view(&self) -> Seq<(Seq<char>, V::V)> {
        self.entries@.map_values(|e: (String, V)| (e.0@, e.1@))
    }
}

impl<V: View> Table<V> {
    /// Keys never repeat.
    pub open spec fn wf(&self) -> bool {
        unique_keys(self@)
    }

    /// An empty table.
    pub fn new() -> (r: Self)
        ensures
            r@ == Seq::<(Seq<char>, V::V)>::empty(),
            r.wf(),
    {
        let r = Table { entries: Vec::new() };
        assert(r@ =~= Seq::<(Seq<char>, V::V)>::empty());
        r
    }

    /// Number of entries.
    pub fn len(&self) -> (r: usize)
        ensures
            r == self@.len(),
    {
        self.entries.len()
    }

    /// Whether the table has no entries.
    pub fn is_empty(&self) -> (r: bool)
        ensures
            r == (self@.len() == 0),
    {
        self.entries.len() == 0
    }

    /// The key of entry `i`.
    pub fn key_at(&self, i: usize) -> (r: &String)
        requires
            i < self@.len(),
        ensures
            r@ == self@[i as int].0,
    {
        &self.entries[i].0
    }

    /// The value of entry `i`.
    pub fn value_at(&self, i: usize) -> (r: &V)
        requires
            i < self@.len(),
        ensures
            r@ == self@[i as int].1,
    {
        &self.entries[i].1
    }

    /// The position of key `k`, if present.
    pub fn index_of(&self, k: &str) -> (r: Option<usize>)
        requires
            self.wf(),
        ensures
            match r {
                Some(i) => i == key_index(self@, k@) && i < self@.len(),
                None => key_index(self@, k@) == -1,
            },
    {
        proof {
            lemma_key_index(self@, k@);
        }
        let key = to_string(k);
        let mut i: usize = 0;
        while i < self.entries.len()
            invariant
                i <= self.entries.len(),
                self.wf(),
                key@ == k@,
                forall|j: int| 0 <= j < i ==> self@[j].0 != k@,
            decreases self.entries.len() - i,
        {
            if self.entries[i].0 == key {
                assert(self@[i as int].0 == k@);
                proof {
                    lemma_key_index(self@, k@);
                }
                assert(i == key_index(self@, k@));
                return Some(i);
            }
            i = i + 1;
        }
        None
    }

    /// Whether key `k` is present.
    pub fn contains_key(&self, k: &str) -> (r: bool)
        requires
            self.wf(),
        ensures
            r == (lookup(self@, k@) is Some),
    {
        self.index_of(k).is_some()
    }

    /// The value stored under `k`.
    pub fn get(&self, k: &str) -> (r: Option<&V>)
        requires
            self.wf(),
        ensures
            match r {
                Some(v) => lookup(self@, k@) == Some(v@),
                None => lookup(self@, k@) is None,
            },
    {
        proof {
            lemma_key_index(self@, k@);
        }
        match self.index_of(k) {
            Some(i) => Some(&self.entries[i].1),
            None => None,
        }
    }

    /// Replaces the value of entry `i`, keeping its key and position.
    pub fn set_value_at(&mut self, i: usize, v: V)
        requires
            old(self).wf(),
            i < old(self)@.len(),
        ensures
            final(self).wf(),
            final(self)@ == old(self)@.update(i as int, (old(self)@[i as int].0, v@)),
    {
        let k = self.entries[i].0.clone();
        self.entries.set(i, (k, v));
        assert(self@ =~= old(self)@.update(i as int, (old(self)@[i as int].0, v@)));
    }

    /// Stores `v` under `k`: replaces the value in place when `k` is present,
    /// else appends the entry.
    pub fn insert(&mut self, k: String, v: V)
        requires
            old(self).wf(),
        ensures
            final(self).wf(),
            final(self)@ == upsert(old(self)@, k@, v@),
    {
        proof {
            lemma_upsert(self@, k@, v@);
        }
        match self.index_of(k.as_str()) {
            Some(i) => {
                self.entries.set(i, (k, v));
                assert(self@ =~= upsert(old(self)@, k@, v@));
            },
            None => {
                self.entries.push((k, v));
                assert(self@ =~= upsert(old(self)@, k@, v@));
            },
        }
    }

    /// Removes the entry under `k`, returning its value.
    pub fn remove(&mut self, k: &str) -> (r: Option<V>)
        requires
            old(self).wf(),
        ensures
            final(self).wf(),
            final(self)@ == remove_key(old(self)@, k@),
            match r {
                Some(v) => lookup(old(self)@, k@) == Some(v@),
                None => lookup(old(self)@, k@) is None,
            },
    {
        proof {
            lemma_remove_key(self@, k@);
        }
        match self.index_of(k) {
            Some(i) => {
                let (_, v) = self.entries.remove(i);
                assert(self@ =~= remove_key(old(self)@, k@));
                Some(v)
            },
            None => None,
        }
    }

    /// Removes every entry.
    pub fn clear(&mut self)
        ensures
            final(self)@ == Seq::<(Seq<char>, V::V)>::empty(),
            final(self).wf(),
    {
        self.entries.clear();
        assert(self@ =~= Seq::<(Seq<char>, V::V)>::empty());
    }
}

impl<V: View> Table<V> {
    /// Keeps the entries whose position is marked `true` in `keep`.
    pub fn retain_mask(&mut self, keep: &Vec<bool>)
        requires
            old(self).wf(),
            keep@.len() == old(self)@.len(),
        ensures
            final(self).wf(),
            final(self)@ == filter_mask(old(self)@, keep@),
    {
        let ghost src = old(self)@;
        let ghost target = filter_mask(src, keep@);
        proof {
            lemma_filter_mask_unique(src, keep@);
        }
        let mut rest: Vec<(String, V)> = Vec::new();
        std::mem::swap(&mut rest, &mut self.entries);
        // Take the entries from the back, keeping the marked ones (in reverse).
        let mut kept_rev: Vec<(String, V)> = Vec::new();
        let mut i: usize = rest.len();
        assert(src.take(i as int) =~= src);
        assert(target =~= filter_mask(src.take(i as int), keep@) + Seq::<(Seq<char>, V::V)>::empty());
        while i > 0
            invariant
                i <= src.len(),
                keep@.len() == src.len(),
                rest@.len() == i,
                forall|j: int| 0 <= j < i ==> (#[trigger] rest@[j].0@, rest@[j].1@) == src[j],
                target == filter_mask(src.take(i as int), keep@) + kept_rev@.map_values(
                    |e: (String, V)| (e.0@, e.1@),
                ).reverse(),
            decreases i,
        {
            let e = rest.pop().unwrap();
            i = i - 1;
            proof {
                assert((e.0@, e.1@) == src[i as int]);
                assert(src.take(i as int + 1).drop_last() =~= src.take(i as int));
                assert(src.take(i as int + 1).last() == src[i as int]);
            }
            if keep[i] {
                let ghost before = kept_rev@;
                kept_rev.push(e);
                proof {
                    let f = |e: (String, V)| (e.0@, e.1@);
                    assert(kept_rev@.map_values(f).reverse() =~= seq![src[i as int]] + before.map_values(f).reverse());
                }
            }
        }
        assert(src.take(0) =~= Seq::<(Seq<char>, V::V)>::empty());
        // Restore the order.
        let mut kept: Vec<(String, V)> = Vec::new();
        let ghost total = kept_rev@.len();
        assert(target =~= kept_rev@.map_values(|e: (String, V)| (e.0@, e.1@)).reverse());
        while kept_rev.len() > 0
            invariant
                total == kept_rev@.len() + kept@.len(),
                target.len() == total,
                forall|j: int| 0 <= j < kept_rev@.len() ==> (#[trigger] kept_rev@[j].0@, kept_rev@[j].1@) == target[total - 1 - j],
                kept@.map_values(|e: (String, V)| (e.0@, e.1@)) == target.take(kept@.len() as int),
            decreases kept_rev@.len(),
        {
            let ghost before = kept@;
            let e = kept_rev.pop().unwrap();
            kept.push(e);
            proof {
                let f = |e: (String, V)| (e.0@, e.1@);
                assert(kept@.map_values(f) =~= target.take(kept@.len() as int));
            }
        }
        assert(target.take(total as int) =~= target);
        self.entries = kept;
    }

    /// Takes the value of entry `i` out, leaving `v` in its place.
    pub fn take_value_at(&mut self, i: usize, v: V) -> (r: V)
        requires
            old(self).wf(),
            i < old(self)@.len(),
        ensures
            final(self).wf(),
            r@ == old(self)@[i as int].1,
            final(self)@ == old(self)@.update(i as int, (old(self)@[i as int].0, v@)),
    {
        let (k, old_v) = self.entries.remove(i);
        self.entries.insert(i, (k, v));
        assert(self@ =~= old(self)@.update(i as int, (old(self)@[i as int].0, v@)));
        old_v
    }

    /// Appends an entry whose key is not present.
    pub fn push_new(&mut self, k: String, v: V)
        requires
            old(self).wf(),
            lookup(old(self)@, k@) is None,
        ensures
            final(self).wf(),
            final(self)@ == old(self)@.push((k@, v@)),
    {
        proof {
            lemma_key_index(self@, k@);
        }
        self.entries.push((k, v));
        assert(self@ =~= old(self)@.push((k@, v@)));
    }
}

} // verus!
