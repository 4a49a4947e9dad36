//! A small map that is searched from front to back.
//!
//! The window tells its keys apart by their byte images, so its maps are keyed
//! by images too. The entries are kept in a vector in which no key occurs
//! twice; the view is the map from each key's image to its value's image.

use crate::hash;
use vstd::prelude::*;

verus! {

/// Some entry of `s` has the key `k`.
pub open spec fn has_key(s: Seq<(Seq<u8>, Seq<u8>)>, k: Seq<u8>) -> bool {
    exists|i: int| 0 <= i < s.len() && (#[trigger] s[i]).0 == k
}

/// Where the key `k` stands in `s`.
pub open spec fn index_of_key(s: Seq<(Seq<u8>, Seq<u8>)>, k: Seq<u8>) -> int {
    choose|i: int| 0 <= i < s.len() && (#[trigger] s[i]).0 == k
}

/// No key occurs twice.
pub open spec fn distinct_keys(s: Seq<(Seq<u8>, Seq<u8>)>) -> bool {
    forall|i: int, j: int|
        0 <= i < s.len() && 0 <= j < s.len() && i != j ==> (#[trigger] s[i]).0 != (
        #[trigger] s[j]).0
}

/// The map that a list of entries with distinct keys stands for.
pub open spec fn as_map(s: Seq<(Seq<u8>, Seq<u8>)>) -> Map<Seq<u8>, Seq<u8>> {
    Map::new(|k: Seq<u8>| has_key(s, k), |k: Seq<u8>| s[index_of_key(s, k)].1)
}

/// The list after `e` was put into it: in the place of the entry with the
/// same key where there is one, at the end where there is none.
pub open spec fn upsert(s: Seq<(Seq<u8>, Seq<u8>)>, e: (Seq<u8>, Seq<u8>)) -> Seq<
    (Seq<u8>, Seq<u8>),
> {
    if has_key(s, e.0) {
        s.update(index_of_key(s, e.0), e)
    } else {
        s.push(e)
    }
}

/// The list without the entry of key `k`.
pub open spec fn without_key(s: Seq<(Seq<u8>, Seq<u8>)>, k: Seq<u8>) -> Seq<(Seq<u8>, Seq<u8>)> {
    if has_key(s, k) {
        s.remove(index_of_key(s, k))
    } else {
        s
    }
}

/// The entries of a vector of entries, key and value taken as their images.
pub open spec fn entries_view<K: hash::Hash, V: hash::Hash>(s: Seq<(K, V)>) -> Seq<
    (Seq<u8>, Seq<u8>),
> {
    Seq::new(s.len(), |i: int| (s[i].0@, s[i].1@))
}

/// An entry of a list with distinct keys is an entry of its map.
pub proof fn lemma_as_map_at(s: Seq<(Seq<u8>, Seq<u8>)>, i: int)
    requires
        distinct_keys(s),
        0 <= i < s.len(),
    ensures
        as_map(s).contains_key(s[i].0),
        as_map(s)[s[i].0] == s[i].1,
{
    assert(has_key(s, s[i].0));
}

/// An entry with a new key at the end of the list is a new entry of the map.
pub proof fn lemma_as_map_push(s: Seq<(Seq<u8>, Seq<u8>)>, e: (Seq<u8>, Seq<u8>))
    requires
        distinct_keys(s),
        !has_key(s, e.0),
    ensures
        distinct_keys(s.push(e)),
        as_map(s.push(e)) == as_map(s).insert(e.0, e.1),
{
    let t = s.push(e);
    assert forall|k: Seq<u8>| has_key(t, k) <==> (k == e.0 || has_key(s, k)) by {
        if has_key(t, k) {
            let i = index_of_key(t, k);
            if i < s.len() {
                assert(s[i].0 == k);
            }
        }
        if has_key(s, k) {
            let i = index_of_key(s, k);
            assert(t[i].0 == k);
        }
        if k == e.0 {
            assert(t[s.len() as int].0 == k);
        }
    }
    assert forall|k: Seq<u8>| has_key(t, k) implies #[trigger] as_map(t)[k] == as_map(s).insert(
        e.0,
        e.1,
    )[k] by {
        let i = index_of_key(t, k);
        if k != e.0 {
            let j = index_of_key(s, k);
            assert(t[j].0 == k);
        }
    }
    assert(as_map(t) =~= as_map(s).insert(e.0, e.1));
}

/// A new value in the place of an entry is a new value in the map.
pub proof fn lemma_as_map_update(s: Seq<(Seq<u8>, Seq<u8>)>, i: int, v: Seq<u8>)
    requires
        distinct_keys(s),
        0 <= i < s.len(),
    ensures
        distinct_keys(s.update(i, (s[i].0, v))),
        as_map(s.update(i, (s[i].0, v))) == as_map(s).insert(s[i].0, v),
{
    let t = s.update(i, (s[i].0, v));
    assert forall|k: Seq<u8>| has_key(t, k) <==> has_key(s, k) by {
        if has_key(t, k) {
            let j = index_of_key(t, k);
            assert(s[j].0 == k);
        }
        if has_key(s, k) {
            let j = index_of_key(s, k);
            assert(t[j].0 == k);
        }
    }
    assert(has_key(s, s[i].0));
    assert forall|k: Seq<u8>| has_key(t, k) implies #[trigger] as_map(t)[k] == as_map(s).insert(
        s[i].0,
        v,
    )[k] by {
        let j = index_of_key(t, k);
        let l = index_of_key(s, k);
        assert(t[l].0 == k);
    }
    assert(as_map(t) =~= as_map(s).insert(s[i].0, v));
}

/// An entry taken out of the list is a key taken out of the map.
pub proof fn lemma_as_map_remove(s: Seq<(Seq<u8>, Seq<u8>)>, i: int)
    requires
        distinct_keys(s),
        0 <= i < s.len(),
    ensures
        distinct_keys(s.remove(i)),
        as_map(s.remove(i)) == as_map(s).remove(s[i].0),
{
    let t = s.remove(i);
    assert forall|a: int, b: int| 0 <= a < t.len() && 0 <= b < t.len() && a != b implies (
    #[trigger] t[a]).0 != (#[trigger] t[b]).0 by {
        let a2 = if a < i { a } else { a + 1 };
        let b2 = if b < i { b } else { b + 1 };
        assert(t[a] == s[a2] && t[b] == s[b2]);
    }
    assert forall|k: Seq<u8>| has_key(t, k) <==> (k != s[i].0 && has_key(s, k)) by {
        if has_key(t, k) {
            let j = index_of_key(t, k);
            let j2 = if j < i { j } else { j + 1 };
            assert(s[j2].0 == k);
        }
        if k != s[i].0 && has_key(s, k) {
            let j = index_of_key(s, k);
            let j2 = if j < i { j } else { j - 1 };
            assert(t[j2].0 == k);
        }
    }
    assert forall|k: Seq<u8>| has_key(t, k) implies #[trigger] as_map(t)[k] == as_map(s).remove(
        s[i].0,
    )[k] by {
        let j = index_of_key(t, k);
        let j2 = if j < i { j } else { j + 1 };
        assert(s[j2].0 == k);
        let l = index_of_key(s, k);
    }
    assert(as_map(t) =~= as_map(s).remove(s[i].0));
}

/// A list with distinct keys stands for a map with as many entries.
pub proof fn lemma_as_map_len(s: Seq<(Seq<u8>, Seq<u8>)>)
    requires
        distinct_keys(s),
    ensures
        as_map(s).dom().finite(),
        as_map(s).len() == s.len(),
    decreases s.len(),
{
    if s.len() == 0 {
        assert(as_map(s) =~= Map::empty());
    } else {
        let front = s.drop_last();
        assert forall|i: int, j: int|
            0 <= i < front.len() && 0 <= j < front.len() && i != j implies (#[trigger] front[i]).0
            != (#[trigger] front[j]).0 by {
            assert(front[i] == s[i] && front[j] == s[j]);
        }
        lemma_as_map_len(front);
        if has_key(front, s.last().0) {
            let i = index_of_key(front, s.last().0);
            assert(s[i].0 == s[s.len() - 1].0);
        }
        lemma_as_map_push(front, s.last());
        assert(front.push(s.last()) =~= s);
        assert(!as_map(front).dom().contains(s.last().0));
    }
}

/// A map from keys to values, both told apart by their images.
pub struct LinearMap<K: hash::Hash, V: hash::Hash> {
    entries: Vec<(K, V)>,
}

impl<K: hash::Hash, V: hash::Hash> View for LinearMap<K, V> {
    type V = Map<Seq<u8>, Seq<u8>>;

    open spec fn view(&self) -> Map<Seq<u8>, Seq<u8>> {
        as_map(self.entries())
    }
}

impl<K: hash::Hash, V: hash::Hash> LinearMap<K, V> {
    /// The entries in the order in which their keys first came.
    pub closed spec fn entries(&self) -> Seq<(Seq<u8>, Seq<u8>)> {
        entries_view(self.entries@)
    }

    /// No key is held twice.
    #[verifier::type_invariant]
    pub open spec fn wf(&self) -> bool {
        distinct_keys(self.entries())
    }

    /// A map without entries.
    pub fn new() -> (m: Self)
        ensures
            m.entries() == Seq::<(Seq<u8>, Seq<u8>)>::empty(),
            m@ == Map::<Seq<u8>, Seq<u8>>::empty(),
    {
        let entries: Vec<(K, V)> = Vec::new();
        assert(entries_view(entries@) =~= Seq::empty());
        let m = LinearMap { entries };
        assert(m@ =~= Map::empty());
        m
    }

    /// The number of entries.
    pub fn len(&self) -> (n: usize)
        ensures
            n == self@.len(),
            n == self.entries().len(),
            self@.dom().finite(),
    {
        proof {
            use_type_invariant(self);
            lemma_as_map_len(entries_view(self.entries@));
        }
        self.entries.len()
    }

    /// Whether the map has no entry.
    pub fn is_empty(&self) -> (b: bool)
        ensures
            b == (self@ == Map::<Seq<u8>, Seq<u8>>::empty()),
    {
        proof {
            use_type_invariant(self);
            lemma_as_map_len(entries_view(self.entries@));
            if self.entries@.len() == 0 {
                assert(self@ =~= Map::empty());
            }
        }
        self.entries.len() == 0
    }

    fn position(&self, key: &K) -> (r: Option<usize>)
        ensures
            match r {
                Some(i) => i < self.entries@.len() && self.entries@[i as int].0@ == key@,
                None => !has_key(entries_view(self.entries@), key@),
            },
    {
        let mut i: usize = 0;
        while i < self.entries.len()
            invariant
                i <= self.entries.len(),
                forall|j: int| 0 <= j < i ==> self.entries@[j].0@ != key@,
            decreases self.entries.len() - i,
        {
            if self.entries[i].0.same(key) {
                return Some(i);
            }
            i += 1;
        }
        proof {
            let s = entries_view(self.entries@);
            if has_key(s, key@) {
                let j = index_of_key(s, key@);
                assert(self.entries@[j].0@ == key@);
            }
        }
        None
    }

    /// Whether the map holds the key.
    pub fn contains_key(&self, key: &K) -> (b: bool)
        ensures
            b == self@.contains_key(key@),
    {
        match self.position(key) {
            Some(i) => {
                assert(entries_view(self.entries@)[i as int].0 == key@);
                true
            },
            None => false,
        }
    }

    /// The value of the key, where the map holds it.
    pub fn get(&self, key: &K) -> (r: Option<&V>)
        ensures
            match r {
                Some(v) => self@.contains_key(key@) && self@[key@] == v@,
                None => !self@.contains_key(key@),
            },
    {
        match self.position(key) {
            Some(i) => {
                proof {
                    use_type_invariant(self);
                    lemma_as_map_at(entries_view(self.entries@), i as int);
                }
                Some(&self.entries[i].1)
            },
            None => None,
        }
    }

    /// Sets the value of `key`, whether or not the map held it.
    pub fn insert(&mut self, key: K, value: V)
        ensures
            final(self).entries() == upsert(old(self).entries(), (key@, value@)),
            final(self)@ == old(self)@.insert(key@, value@),
    {
        let ghost before = entries_view(self.entries@);
        proof {
            use_type_invariant(&*self);
        }
        let found = self.position(&key);
        let mut entries: Vec<(K, V)> = Vec::new();
        assert(entries_view(entries@) =~= Seq::empty());
        std::mem::swap(&mut self.entries, &mut entries);
        match found {
            Some(i) => {
                proof {
                    assert(before[i as int].0 == key@);
                    assert(index_of_key(before, key@) == i);
                    lemma_as_map_update(before, i as int, value@);
                }
                entries[i] = (key, value);
                assert(entries_view(entries@) =~= before.update(
                    i as int,
                    (before[i as int].0, value@),
                ));
            },
            None => {
                proof {
                    lemma_as_map_push(before, (key@, value@));
                }
                entries.push((key, value));
                assert(entries_view(entries@) =~= before.push((key@, value@)));
            },
        }
        std::mem::swap(&mut self.entries, &mut entries);
    }

    /// Takes `key` out of the map; says whether the map held it.
    pub fn remove(&mut self, key: &K) -> (held: bool)
        ensures
            final(self).entries() == without_key(old(self).entries(), key@),
            final(self)@ == old(self)@.remove(key@),
            held == old(self)@.contains_key(key@),
    {
        let ghost before = entries_view(self.entries@);
        proof {
            use_type_invariant(&*self);
        }
        match self.position(key) {
            Some(i) => {
                let mut entries: Vec<(K, V)> = Vec::new();
                assert(entries_view(entries@) =~= Seq::empty());
                std::mem::swap(&mut self.entries, &mut entries);
                proof {
                    assert(before[i as int].0 == key@);
                    assert(index_of_key(before, key@) == i);
                    lemma_as_map_remove(before, i as int);
                }
                entries.remove(i);
                assert(entries_view(entries@) =~= before.remove(i as int));
                std::mem::swap(&mut self.entries, &mut entries);
                true
            },
            None => {
                assert(self@ =~= old(self)@.remove(key@));
                false
            },
        }
    }

    /// The entries as a vector, in their order.
    pub fn into_vec(self) -> (v: Vec<(K, V)>)
        ensures
            entries_view(v@) == self.entries(),
    {
        self.entries
    }

    /// Whether both maps hold the same entries in the same order.
    pub fn same_entries(&self, other: &Self) -> (b: bool)
        ensures
            b == (self.entries() == other.entries()),
    {
        if self.entries.len() != other.entries.len() {
            assert(self.entries().len() != other.entries().len());
            return false;
        }
        let mut i: usize = 0;
        while i < self.entries.len()
            invariant
                i <= self.entries.len(),
                self.entries.len() == other.entries.len(),
                forall|j: int| 0 <= j < i ==> self.entries()[j] == other.entries()[j],
            decreases self.entries.len() - i,
        {
            if !self.entries[i].0.same(&other.entries[i].0) || !self.entries[i].1.same(
                &other.entries[i].1,
            ) {
                assert(self.entries()[i as int] != other.entries()[i as int]);
                return false;
            }
            i += 1;
        }
        assert(self.entries() =~= other.entries());
        true
    }

    /// Whether both maps hold the same keys with the same values.
    pub fn same_as(&self, other: &Self) -> (b: bool)
        ensures
            b == (self@ == other@),
    {
        proof {
            use_type_invariant(self);
            use_type_invariant(other);
            lemma_as_map_len(entries_view(self.entries@));
            lemma_as_map_len(entries_view(other.entries@));
        }
        if self.entries.len() != other.entries.len() {
            return false;
        }
        let mut i: usize = 0;
        while i < self.entries.len()
            invariant
                i <= self.entries.len(),
                distinct_keys(entries_view(self.entries@)),
                distinct_keys(entries_view(other.entries@)),
                self@.len() == other@.len(),
                self@.dom().finite(),
                other@.dom().finite(),
                forall|j: int|
                    0 <= j < i ==> other@.contains_key(#[trigger] self.entries@[j].0@)
                        && other@[self.entries@[j].0@] == self.entries@[j].1@,
            decreases self.entries.len() - i,
        {
            proof {
                lemma_as_map_at(entries_view(self.entries@), i as int);
            }
            match other.get(&self.entries[i].0) {
                None => {
                    return false;
                },
                Some(v) => {
                    if !v.same(&self.entries[i].1) {
                        return false;
                    }
                },
            }
            i += 1;
        }
        proof {
            let s = entries_view(self.entries@);
            assert forall|k: Seq<u8>| self@.contains_key(k) implies other@.contains_key(k)
                && other@[k] == self@[k] by {
                let j = index_of_key(s, k);
                assert(self.entries@[j].0@ == k);
                lemma_as_map_at(s, j);
            }
            assert(self@.dom().subset_of(other@.dom()));
            vstd::set_lib::lemma_subset_equality(self@.dom(), other@.dom());
            assert(self@ =~= other@);
        }
        true
    }
}

} // verus!
