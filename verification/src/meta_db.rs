//! The store that the window is rebuilt from.

use crate::changes::{insert_all, remove_all, ChangeSet, CommitSet};
use crate::codec::{keys_view, pairs_view, DBValue};
use crate::hash;
use crate::linear_map::LinearMap;
use vstd::prelude::*;
use vstd::slice::slice_to_vec;

verus! {

/// A store of the window's records that can be read.
///
/// While a window is built from a store, the store has to stand still: what
/// it answers is what `meta` holds, so asking twice for a key gives the same
/// answer.
pub trait MetaDb {
    type Error;

    /// Whether the store answers every question. A store that does not say
    /// so may fail.
    open spec fn answers(&self) -> bool {
        false
    }

    /// What the store holds, keys and values as their bytes. A store that
    /// does not say what it holds holds something that is not known.
    open spec fn meta(&self) -> Map<Seq<u8>, Seq<u8>> {
        arbitrary()
    }

    /// Get meta value, such as the journal. An answer tells what the store
    /// holds under the key.
    fn get_meta(&self, key: &[u8]) -> (r: Result<Option<DBValue>, Self::Error>)
        ensures
            match r {
                Ok(Some(value)) => self.meta().contains_key(key@) && self.meta()[key@] == value@,
                Ok(None) => !self.meta().contains_key(key@),
                Err(_) => !self.answers(),
            },
    ;
}

/// A store that is held in memory.
pub struct MemoryDb<H: hash::Hash> {
    data: LinearMap<H, DBValue>,
    meta: LinearMap<Vec<u8>, DBValue>,
}

/// Writes a set of changes to one namespace: first the inserts, then the
/// deletes.
fn apply<K: hash::Hash>(space: &mut LinearMap<K, DBValue>, changes: &ChangeSet<K>)
    ensures
        final(space)@ == changes@.applied_to(old(space)@),
{
    let ghost start = space@;
    let ghost inserted = pairs_view(changes.inserted@);
    let ghost deleted = keys_view(changes.deleted@);
    let mut i: usize = 0;
    while i < changes.inserted.len()
        invariant
            i <= changes.inserted.len(),
            inserted == pairs_view(changes.inserted@),
            space@ == insert_all(start, inserted.take(i as int)),
        decreases changes.inserted.len() - i,
    {
        let key = changes.inserted[i].0.duplicate();
        let value = slice_to_vec(changes.inserted[i].1.as_slice());
        space.insert(key, value);
        proof {
            let done = inserted.take(i + 1);
            assert(done.drop_last() =~= inserted.take(i as int));
            assert(done.last() == (changes.inserted@[i as int].0@, changes.inserted@[i as int].1@));
        }
        i += 1;
    }
    assert(inserted.take(i as int) =~= inserted);
    let ghost middle = space@;
    let mut j: usize = 0;
    while j < changes.deleted.len()
        invariant
            j <= changes.deleted.len(),
            deleted == keys_view(changes.deleted@),
            space@ == remove_all(middle, deleted.take(j as int)),
        decreases changes.deleted.len() - j,
    {
        space.remove(&changes.deleted[j]);
        proof {
            let done = deleted.take(j + 1);
            assert(done.drop_last() =~= deleted.take(j as int));
            assert(done.last() == changes.deleted@[j as int]@);
        }
        j += 1;
    }
    assert(deleted.take(j as int) =~= deleted);
}

impl<H: hash::Hash> MemoryDb<H> {
    /// What the data namespace holds.
    pub closed spec fn data(&self) -> Map<Seq<u8>, Seq<u8>> {
        self.data@
    }

    /// A store that holds nothing.
    pub fn new() -> (db: Self)
        ensures
            db.data() == Map::<Seq<u8>, Seq<u8>>::empty(),
            db.meta() == Map::<Seq<u8>, Seq<u8>>::empty(),
    {
        MemoryDb { data: LinearMap::new(), meta: LinearMap::new() }
    }

    /// Writes a set of changes to both namespaces.
    pub fn commit(&mut self, commit: &CommitSet<H>)
        ensures
            final(self).data() == commit@.data.applied_to(old(self).data()),
            final(self).meta() == commit@.meta.applied_to(old(self).meta()),
    {
        apply(&mut self.data, &commit.data);
        apply(&mut self.meta, &commit.meta);
    }

    /// The value of `key` in the data namespace.
    pub fn get(&self, key: &H) -> (value: Option<DBValue>)
        ensures
            match value {
                Some(v) => self.data().contains_key(key@) && self.data()[key@] == v@,
                None => !self.data().contains_key(key@),
            },
    {
        match self.data.get(key) {
            Some(v) => Some(slice_to_vec(v.as_slice())),
            None => None,
        }
    }

    /// Whether both stores hold the same data.
    pub fn data_eq(&self, other: &Self) -> (same: bool)
        ensures
            same == (self.data() == other.data()),
    {
        self.data.same_as(&other.data)
    }

    /// The number of keys in the data namespace.
    pub fn data_len(&self) -> (n: usize)
        ensures
            n == self.data().len(),
    {
        self.data.len()
    }

    /// The number of keys in the meta namespace.
    pub fn meta_len(&self) -> (n: usize)
        ensures
            n == self.meta().len(),
    {
        self.meta.len()
    }
}

impl<H: hash::Hash> MetaDb for MemoryDb<H> {
    type Error = ();

    /// A store in memory never fails.
    open spec fn answers(&self) -> bool {
        true
    }

    closed spec fn meta(&self) -> Map<Seq<u8>, Seq<u8>> {
        self.meta@
    }

    fn get_meta(&self, key: &[u8]) -> (r: Result<Option<DBValue>, ()>) {
        let key = slice_to_vec(key);
        match self.meta.get(&key) {
            Some(v) => Ok(Some(slice_to_vec(v.as_slice()))),
            None => Ok(None),
        }
    }
}

} // verus!
