//! What the window takes in and hands out: sets of changes to the store.

use crate::codec::{keys_view, pairs_view, DBValue};
use crate::hash;
use vstd::prelude::*;

verus! {

/// Failure to build a window from a store.
#[derive(Debug)]
pub enum Error<E> {
    /// The store failed to answer.
    Db(E),
    /// What the store holds under a key of the window is not what the window
    /// writes there.
    Decoding,
}

/// Inserts and deletes in one namespace of the store.
#[derive(Debug, Clone)]
pub struct ChangeSet<H: hash::Hash> {
    /// Keys with their new values, in the order they were given.
    pub inserted: Vec<(H, DBValue)>,
    /// Keys to delete.
    pub deleted: Vec<H>,
}

/// A `ChangeSet` with every key and value taken as its bytes.
pub ghost struct ChangeSetView {
    pub inserted: Seq<(Seq<u8>, Seq<u8>)>,
    pub deleted: Seq<Seq<u8>>,
}

/// The map after the inserts were made, in their order.
pub open spec fn insert_all(
    m: Map<Seq<u8>, Seq<u8>>,
    inserted: Seq<(Seq<u8>, Seq<u8>)>,
) -> Map<Seq<u8>, Seq<u8>>
    decreases inserted.len(),
{
    if inserted.len() == 0 {
        m
    } else {
        insert_all(m, inserted.drop_last()).insert(inserted.last().0, inserted.last().1)
    }
}

/// The map without the keys of the list.
pub open spec fn remove_all(m: Map<Seq<u8>, Seq<u8>>, deleted: Seq<Seq<u8>>) -> Map<
    Seq<u8>,
    Seq<u8>,
>
    decreases deleted.len(),
{
    if deleted.len() == 0 {
        m
    } else {
        remove_all(m, deleted.drop_last()).remove(deleted.last())
    }
}

impl ChangeSetView {
    /// No change.
    pub open spec fn empty() -> Self {
        ChangeSetView { inserted: Seq::empty(), deleted: Seq::empty() }
    }

    /// A namespace of the store after the changes were written to it: first
    /// the inserts, then the deletes.
    pub open spec fn applied_to(self, m: Map<Seq<u8>, Seq<u8>>) -> Map<Seq<u8>, Seq<u8>> {
        remove_all(insert_all(m, self.inserted), self.deleted)
    }
}

impl<H: hash::Hash> View for ChangeSet<H> {
    type V = ChangeSetView;

    open spec fn view(&self) -> ChangeSetView {
        ChangeSetView { inserted: pairs_view(self.inserted@), deleted: keys_view(self.deleted@) }
    }
}

impl<H: hash::Hash> ChangeSet<H> {
    /// A set without changes.
    pub fn new() -> (set: Self)
        ensures
            set@ == ChangeSetView::empty(),
    {
        let set = ChangeSet { inserted: Vec::new(), deleted: Vec::new() };
        assert(set@.inserted =~= Seq::empty());
        assert(set@.deleted =~= Seq::empty());
        set
    }
}

impl<H: hash::Hash> Default for ChangeSet<H> {
    fn default() -> (set: Self)
        ensures
            set@ == ChangeSetView::empty(),
    {
        ChangeSet::new()
    }
}

/// What the embedder has to write to the store, as one unit: changes to the
/// data of the store, and changes to the window's own records.
#[derive(Debug, Clone)]
pub struct CommitSet<H: hash::Hash> {
    /// Changes to the data namespace.
    pub data: ChangeSet<H>,
    /// Changes to the meta namespace.
    pub meta: ChangeSet<Vec<u8>>,
}

/// A `CommitSet` with every key and value taken as its bytes.
pub ghost struct CommitSetView {
    pub data: ChangeSetView,
    pub meta: ChangeSetView,
}

impl<H: hash::Hash> View for CommitSet<H> {
    type V = CommitSetView;

    open spec fn view(&self) -> CommitSetView {
        CommitSetView { data: self.data@, meta: self.meta@ }
    }
}

impl<H: hash::Hash> CommitSet<H> {
    /// A set without changes.
    pub fn new() -> (set: Self)
        ensures
            set@.data == ChangeSetView::empty(),
            set@.meta == ChangeSetView::empty(),
    {
        CommitSet { data: ChangeSet::new(), meta: ChangeSet::new() }
    }
}

impl<H: hash::Hash> Default for CommitSet<H> {
    fn default() -> (set: Self)
        ensures
            set@.data == ChangeSetView::empty(),
            set@.meta == ChangeSetView::empty(),
    {
        CommitSet::new()
    }
}

} // verus!
