//! Finalization window.
//! Maintains trees of block overlays and allows discarding trees/roots.

use crate::changes::{ChangeSet, CommitSet, Error};
use crate::codec::{keys_view, pairs_view, DBValue};
use crate::chains::{lemma_finalize_keeps_chained, lemma_insert_keeps_chained};
use crate::forest::{
    doomed_by, hashes_of, is_doomed, is_first, journal_keys_of, lemma_first_is_one, level_value,
    levels_value, materialize, spared_by, ForestView, OverlayView, Pruning,
};
use crate::hash;
use crate::invariants::{lemma_finalize_keeps_wf, lemma_insert_keeps_wf};
use crate::journal::{
    decode_pointer, encode_pointer, last_finalized_key, read_pointer, to_journal_key,
    to_last_finalized_key, JournalRecord, RecordView,
};
use crate::laws::lemma_insert_keeps_aligned;
use crate::linear_map::LinearMap;
use crate::meta_db::MetaDb;
use crate::replay::{
    key_at, lemma_journal_holds_none, lemma_recorded_level_started, lemma_recorded_next,
    lemma_restored_is_wf, recorded, restores,
};
use std::collections::VecDeque;
use vstd::prelude::*;
use vstd::slice::slice_to_vec;

verus! {

/// One block that is not final yet: what it changes in the store.
pub struct BlockOverlay<BlockHash: hash::Hash, Key: hash::Hash> {
    hash: BlockHash,
    journal_key: Vec<u8>,
    values: LinearMap<Key, DBValue>,
    deleted: Vec<Key>,
}

impl<BlockHash: hash::Hash, Key: hash::Hash> View for BlockOverlay<BlockHash, Key> {
    type V = OverlayView;

    closed spec fn view(&self) -> OverlayView {
        OverlayView {
            hash: self.hash@,
            journal_key: self.journal_key@,
            values: self.values.entries(),
            deleted: keys_view(self.deleted@),
        }
    }
}

/// The overlays of a level as values of the model.
pub open spec fn level_view<BlockHash: hash::Hash, Key: hash::Hash>(
    level: Seq<BlockOverlay<BlockHash, Key>>,
) -> Seq<OverlayView> {
    Seq::new(level.len(), |j: int| level[j]@)
}

/// The levels of a window as values of the model.
pub open spec fn levels_view<BlockHash: hash::Hash, Key: hash::Hash>(
    levels: Seq<Vec<BlockOverlay<BlockHash, Key>>>,
) -> Seq<Seq<OverlayView>> {
    Seq::new(levels.len(), |i: int| level_view(levels[i]@))
}

/// See module documentation.
pub struct UnfinalizedOverlay<BlockHash: hash::Hash, Key: hash::Hash> {
    last_finalized: Option<(BlockHash, u64)>,
    levels: VecDeque<Vec<BlockOverlay<BlockHash, Key>>>,
    parents: LinearMap<BlockHash, BlockHash>,
}

impl<BlockHash: hash::Hash, Key: hash::Hash> View for UnfinalizedOverlay<BlockHash, Key> {
    type V = ForestView;

    closed spec fn view(&self) -> ForestView {
        ForestView {
            last_finalized: match self.last_finalized {
                Some((hash, number)) => Some((hash@, number)),
                None => None,
            },
            levels: levels_view(self.levels@),
            parents: self.parents@,
        }
    }
}

/// The inserts of a change set as a map.
pub fn collect_values<Key: hash::Hash>(inserted: &Vec<(Key, DBValue)>) -> (values: LinearMap<
    Key,
    DBValue,
>)
    ensures
        values.entries() == materialize(pairs_view(inserted@)),
{
    let mut values: LinearMap<Key, DBValue> = LinearMap::new();
    let ghost all = pairs_view(inserted@);
    let mut i: usize = 0;
    while i < inserted.len()
        invariant
            i <= inserted.len(),
            all == pairs_view(inserted@),
            values.entries() == materialize(all.take(i as int)),
        decreases inserted.len() - i,
    {
        let key = inserted[i].0.duplicate();
        let value = slice_to_vec(inserted[i].1.as_slice());
        values.insert(key, value);
        proof {
            let done = all.take(i + 1);
            assert(done.drop_last() =~= all.take(i as int));
            assert(done.last() == (inserted@[i as int].0@, inserted@[i as int].1@));
        }
        i += 1;
    }
    assert(all.take(i as int) =~= all);
    values
}

/// A copy of a list of keys.
fn duplicate_keys<Key: hash::Hash>(keys: &Vec<Key>) -> (copy: Vec<Key>)
    ensures
        keys_view(copy@) == keys_view(keys@),
{
    let mut copy: Vec<Key> = Vec::new();
    let mut i: usize = 0;
    while i < keys.len()
        invariant
            i <= keys.len(),
            keys_view(copy@) == keys_view(keys@).take(i as int),
        decreases keys.len() - i,
    {
        let ghost before = keys_view(copy@);
        copy.push(keys[i].duplicate());
        assert(keys_view(copy@) =~= before.push(keys@[i as int]@));
        assert(keys_view(keys@).take(i + 1) =~= before.push(keys@[i as int]@));
        i += 1;
    }
    assert(keys_view(keys@).take(i as int) =~= keys_view(keys@));
    copy
}

/// Whether two lists of keys hold the same keys in the same order.
fn same_keys<Key: hash::Hash>(a: &Vec<Key>, b: &Vec<Key>) -> (same: bool)
    ensures
        same == (keys_view(a@) == keys_view(b@)),
{
    if a.len() != b.len() {
        assert(keys_view(a@).len() != keys_view(b@).len());
        return false;
    }
    let mut i: usize = 0;
    while i < a.len()
        invariant
            i <= a.len(),
            a.len() == b.len(),
            forall|j: int| 0 <= j < i ==> a@[j]@ == b@[j]@,
        decreases a.len() - i,
    {
        if !a[i].same(&b[i]) {
            assert(keys_view(a@)[i as int] != keys_view(b@)[i as int]);
            return false;
        }
        i += 1;
    }
    assert(keys_view(a@) =~= keys_view(b@));
    true
}

impl<BlockHash: hash::Hash, Key: hash::Hash> BlockOverlay<BlockHash, Key> {
    /// Whether both overlays are of the same block, under the same journal
    /// key, with the same changes.
    pub fn same_as(&self, other: &Self) -> (same: bool)
        ensures
            same == (self@ == other@),
    {
        self.hash.same(&other.hash) && hash::Hash::same(&self.journal_key, &other.journal_key)
            && self.values.same_entries(&other.values) && same_keys(&self.deleted, &other.deleted)
    }
}

/// Whether two levels hold the same overlays in the same order.
fn same_level<BlockHash: hash::Hash, Key: hash::Hash>(
    a: &Vec<BlockOverlay<BlockHash, Key>>,
    b: &Vec<BlockOverlay<BlockHash, Key>>,
) -> (same: bool)
    ensures
        same == (level_view(a@) == level_view(b@)),
{
    if a.len() != b.len() {
        assert(level_view(a@).len() != level_view(b@).len());
        return false;
    }
    let mut i: usize = 0;
    while i < a.len()
        invariant
            i <= a.len(),
            a.len() == b.len(),
            forall|j: int| 0 <= j < i ==> a@[j]@ == b@[j]@,
        decreases a.len() - i,
    {
        if !a[i].same_as(&b[i]) {
            assert(level_view(a@)[i as int] != level_view(b@)[i as int]);
            return false;
        }
        i += 1;
    }
    assert(level_view(a@) =~= level_view(b@));
    true
}

/// Whether `hash` is one of the hashes of `list`.
fn contains_hash<BlockHash: hash::Hash>(list: &Vec<BlockHash>, hash: &BlockHash) -> (found: bool)
    ensures
        found == keys_view(list@).contains(hash@),
{
    let mut i: usize = 0;
    while i < list.len()
        invariant
            i <= list.len(),
            forall|j: int| 0 <= j < i ==> list@[j]@ != hash@,
        decreases list.len() - i,
    {
        if list[i].same(hash) {
            assert(keys_view(list@)[i as int] == hash@);
            return true;
        }
        i += 1;
    }
    proof {
        if keys_view(list@).contains(hash@) {
            let j = choose|j: int| 0 <= j < keys_view(list@).len() && keys_view(list@)[j] == hash@;
            assert(list@[j]@ == hash@);
        }
    }
    false
}

/// Cuts from one level the overlays whose parent is in `discard`. What is
/// cut joins `discard`, leaves `parents`, and has its journal key noted.
fn sweep_level<BlockHash: hash::Hash, Key: hash::Hash>(
    level: Vec<BlockOverlay<BlockHash, Key>>,
    parents: &mut LinearMap<BlockHash, BlockHash>,
    discard: &mut Vec<BlockHash>,
    discarded_journals: &mut Vec<Vec<u8>>,
) -> (kept: Vec<BlockOverlay<BlockHash, Key>>)
    ensures
        ({
            let doomed = doomed_by(old(parents)@, keys_view(old(discard)@));
            let spared = spared_by(old(parents)@, keys_view(old(discard)@));
            let gone = level_view(level@).filter(doomed);
            &&& level_view(kept@) == level_view(level@).filter(spared)
            &&& final(parents)@ == old(parents)@.remove_keys(hashes_of(gone).to_set())
            &&& keys_view(final(discard)@) == keys_view(old(discard)@) + hashes_of(gone)
            &&& keys_view(final(discarded_journals)@) == keys_view(old(discarded_journals)@)
                + journal_keys_of(gone)
        }),
{
    let ghost lv = level_view(level@);
    let ghost parents0 = parents@;
    let ghost discard0 = keys_view(discard@);
    let ghost journals0 = keys_view(discarded_journals@);
    let ghost doomed = doomed_by(parents0, discard0);
    let ghost spared = spared_by(parents0, discard0);
    let ghost items = level@;
    let mut kept: Vec<BlockOverlay<BlockHash, Key>> = Vec::new();
    let mut gone_hashes: Vec<BlockHash> = Vec::new();
    proof {
        reveal(Seq::filter);
        assert(lv.take(0) =~= Seq::empty());
        assert(level_view(kept@) =~= lv.take(0).filter(spared));
        assert(keys_view(gone_hashes@) =~= hashes_of(lv.take(0).filter(doomed)));
        assert(keys_view(discarded_journals@) =~= journals0 + journal_keys_of(
            lv.take(0).filter(doomed),
        ));
    }
    for overlay in it: level
        invariant
            it.seq() == items,
            lv == level_view(items),
            parents@ == parents0,
            keys_view(discard@) == discard0,
            doomed == doomed_by(parents0, discard0),
            spared == spared_by(parents0, discard0),
            level_view(kept@) == lv.take(it.index() as int).filter(spared),
            keys_view(gone_hashes@) == hashes_of(lv.take(it.index() as int).filter(doomed)),
            keys_view(discarded_journals@) == journals0 + journal_keys_of(
                lv.take(it.index() as int).filter(doomed),
            ),
    {
        let ghost idx = it.index() as int;
        let ghost o = overlay@;
        let ghost kept0 = level_view(kept@);
        let ghost gone0 = lv.take(idx).filter(doomed);
        let ghost hashes0 = keys_view(gone_hashes@);
        let ghost journals1 = keys_view(discarded_journals@);
        assert(lv[idx] == o);
        let goes = match parents.get(&overlay.hash) {
            Some(parent) => contains_hash(discard, parent),
            None => false,
        };
        assert(goes == is_doomed(o, parents0, discard0));
        proof {
            assert(lv.take(idx + 1) =~= lv.take(idx).push(o));
            lv.take(idx).lemma_filter_push(o, doomed);
            lv.take(idx).lemma_filter_push(o, spared);
        }
        if goes {
            let BlockOverlay { hash, journal_key, values: _, deleted: _ } = overlay;
            discarded_journals.push(journal_key);
            gone_hashes.push(hash);
            proof {
                assert(keys_view(gone_hashes@) =~= hashes0.push(o.hash));
                assert(hashes_of(gone0.push(o)) =~= hashes_of(gone0).push(o.hash));
                assert(keys_view(discarded_journals@) =~= journals1.push(o.journal_key));
                assert(journal_keys_of(gone0.push(o)) =~= journal_keys_of(gone0).push(
                    o.journal_key,
                ));
                assert(journals0 + journal_keys_of(gone0).push(o.journal_key) =~= (journals0
                    + journal_keys_of(gone0)).push(o.journal_key));
            }
        } else {
            kept.push(overlay);
            assert(level_view(kept@) =~= kept0.push(o));
        }
    }
    assert(lv.take(lv.len() as int) =~= lv);
    let ghost gone_list = keys_view(gone_hashes@);
    let ghost hash_items = gone_hashes@;
    proof {
        assert(gone_list.take(0) =~= Seq::empty());
        assert(parents@ =~= parents0.remove_keys(gone_list.take(0).to_set()));
        assert(keys_view(discard@) =~= discard0 + gone_list.take(0));
    }
    for hash in it: gone_hashes
        invariant
            it.seq() == hash_items,
            gone_list == keys_view(hash_items),
            parents@ == parents0.remove_keys(gone_list.take(it.index() as int).to_set()),
            keys_view(discard@) == discard0 + gone_list.take(it.index() as int),
    {
        let ghost idx = it.index() as int;
        let ghost before = keys_view(discard@);
        let ghost h = hash@;
        assert(gone_list[idx] == h);
        parents.remove(&hash);
        discard.push(hash);
        proof {
            assert(gone_list.take(idx + 1) =~= gone_list.take(idx).push(h));
            assert(keys_view(discard@) =~= before.push(h));
            assert(keys_view(discard@) =~= discard0 + gone_list.take(idx + 1));
            let t0 = gone_list.take(idx);
            let t1 = gone_list.take(idx + 1);
            let s0 = t0.to_set();
            let s1 = t1.to_set();
            assert forall|x: Seq<u8>| s1.contains(x) <==> (s0.contains(x) || x == h) by {
                if s0.contains(x) {
                    let j = choose|j: int| 0 <= j < t0.len() && t0[j] == x;
                    assert(t1[j] == x);
                }
                if x == h {
                    assert(t1[idx] == x);
                }
                if s1.contains(x) {
                    let j = choose|j: int| 0 <= j < t1.len() && t1[j] == x;
                    if j < idx {
                        assert(t0[j] == x);
                    }
                }
            }
            assert(parents@ =~= parents0.remove_keys(s1));
        }
    }
    assert(gone_list.take(gone_list.len() as int) =~= gone_list);
    kept
}

/// Reads from the journal the level of the block number `block`: the
/// records under the indices from 0 on, as far as there are any. `done` are
/// the levels read before, and `last` is the pointer of the journal.
fn read_level<BlockHash: hash::Hash, Key: hash::Hash, D: MetaDb>(
    db: &D,
    block: u64,
    parents: &mut LinearMap<BlockHash, BlockHash>,
    Ghost(done): Ghost<Seq<Seq<OverlayView>>>,
    Ghost(last): Ghost<(Seq<u8>, u64)>,
) -> (r: Result<Vec<BlockOverlay<BlockHash, Key>>, Error<D::Error>>)
    requires
        old(parents)@.dom().finite(),
        last.1 + 1 + done.len() == block,
        db.meta().contains_key(last_finalized_key()),
        decode_pointer::<BlockHash>(db.meta()[last_finalized_key()]) == Some(last),
        recorded::<BlockHash, Key>(db.meta(), done, old(parents)@, last.1 + 1),
        forall|i: int| 0 <= i < done.len() ==> (#[trigger] done[i]).len() > 0,
    ensures
        match r {
            Ok(level) => {
                &&& final(parents)@.dom().finite()
                &&& level@.len() <= u64::MAX
                &&& recorded::<BlockHash, Key>(
                    db.meta(),
                    done.push(level_view(level@)),
                    final(parents)@,
                    last.1 + 1,
                )
                &&& !db.meta().contains_key(
                    key_at(last.1 + 1, done.len() as int, level@.len() as int),
                )
            },
            Err(Error::Decoding) => forall|f: ForestView|
                !restores::<BlockHash, Key>(f, db.meta()),
            Err(Error::Db(_)) => !db.answers(),
        },
{
    let ghost meta = db.meta();
    let ghost front = last.1 + 1;
    let ghost n = done.len() as int;
    let mut level: Vec<BlockOverlay<BlockHash, Key>> = Vec::new();
    let mut index: u64 = 0;
    let mut more = true;
    proof {
        assert(level_view(level@) =~= Seq::empty());
        lemma_recorded_level_started::<BlockHash, Key>(meta, done, parents@, front);
    }
    while more
        invariant
            meta == db.meta(),
            front == last.1 + 1,
            n == done.len(),
            front + n == block,
            parents@.dom().finite(),
            index == level@.len(),
            meta.contains_key(last_finalized_key()),
            decode_pointer::<BlockHash>(meta[last_finalized_key()]) == Some(last),
            forall|i: int| 0 <= i < done.len() ==> (#[trigger] done[i]).len() > 0,
            recorded::<BlockHash, Key>(meta, done.push(level_view(level@)), parents@, front),
            !more ==> !meta.contains_key(key_at(front, n, index as int)),
        decreases u64::MAX - index + (if more { 1int } else { 0int }),
    {
        let ghost read = level_view(level@);
        let journal_key = to_journal_key(block, index);
        assert(journal_key@ == key_at(front, n, index as int));
        match db.get_meta(journal_key.as_slice()) {
            Err(e) => {
                return Err(Error::Db(e));
            },
            Ok(None) => {
                more = false;
            },
            Ok(Some(bytes)) => {
                let record = match JournalRecord::<BlockHash, Key>::decode(bytes.as_slice()) {
                    None => {
                        proof {
                            lemma_journal_holds_none::<BlockHash, Key>(
                                meta,
                                done,
                                read,
                                parents@,
                                last,
                            );
                        }
                        return Err(Error::Decoding);
                    },
                    Some(record) => record,
                };
                if parents.contains_key(&record.hash) {
                    proof {
                        lemma_journal_holds_none::<BlockHash, Key>(
                            meta,
                            done,
                            read,
                            parents@,
                            last,
                        );
                    }
                    return Err(Error::Decoding);
                }
                proof {
                    lemma_recorded_next::<BlockHash, Key>(meta, done, read, parents@, front);
                }
                let JournalRecord { hash, parent_hash, inserted, deleted } = record;
                let overlay = BlockOverlay {
                    hash: hash.duplicate(),
                    journal_key,
                    values: collect_values(&inserted),
                    deleted,
                };
                assert(level_view(level@.push(overlay)) =~= read.push(overlay@));
                level.push(overlay);
                parents.insert(hash, parent_hash);
                index = level.len() as u64;
            },
        }
    }
    Ok(level)
}

impl<BlockHash: hash::Hash, Key: hash::Hash> UnfinalizedOverlay<BlockHash, Key> {
    /// What always holds of a window: see [`ForestView::wf`].
    pub open spec fn wf(&self) -> bool {
        self@.wf()
    }

    /// A window into which nothing was ever inserted.
    pub fn empty() -> (window: Self)
        ensures
            window.wf(),
            window@ == ForestView::empty(),
    {
        let window = UnfinalizedOverlay {
            last_finalized: None,
            levels: VecDeque::new(),
            parents: LinearMap::new(),
        };
        assert(window@.levels =~= Seq::empty());
        window
    }

    /// Creates a new instance: the window that the journal in the store holds,
    /// which is empty where the store holds none.
    ///
    /// A store that does not answer is an error. So is a journal that holds
    /// no window: one whose pointer or one of whose records cannot be read,
    /// or one with two records of one block.
    pub fn new<D: MetaDb>(db: &D) -> (r: Result<
        UnfinalizedOverlay<BlockHash, Key>,
        Error<D::Error>,
    >)
        ensures
            match r {
                Ok(window) => window.wf() && restores::<BlockHash, Key>(window@, db.meta()),
                Err(Error::Decoding) => forall|f: ForestView|
                    !restores::<BlockHash, Key>(f, db.meta()),
                Err(Error::Db(_)) => !db.answers(),
            },
    {
        let ghost meta = db.meta();
        let pointer = match db.get_meta(to_last_finalized_key().as_slice()) {
            Err(e) => {
                return Err(Error::Db(e));
            },
            Ok(pointer) => pointer,
        };
        let (hash, number) = match pointer {
            None => {
                return Ok(Self::empty());
            },
            Some(buffer) => match read_pointer::<BlockHash>(buffer.as_slice()) {
                None => {
                    return Err(Error::Decoding);
                },
                Some(last) => last,
            },
        };
        let ghost last = (hash@, number);
        let ghost front = number + 1;
        let mut levels: VecDeque<Vec<BlockOverlay<BlockHash, Key>>> = VecDeque::new();
        let mut parents: LinearMap<BlockHash, BlockHash> = LinearMap::new();
        let mut block: u64 = number;
        let mut more = number < u64::MAX;
        if more {
            block = number + 1;
        }
        assert(levels_view(levels@) =~= Seq::empty());
        // read the journal
        while more
            invariant
                meta == db.meta(),
                last == (hash@, number),
                front == number + 1,
                parents@.dom().finite(),
                meta.contains_key(last_finalized_key()),
                decode_pointer::<BlockHash>(meta[last_finalized_key()]) == Some(last),
                more ==> front + levels@.len() == block,
                levels@.len() > 0 ==> front + levels@.len() - 1 <= u64::MAX,
                recorded::<BlockHash, Key>(meta, levels_view(levels@), parents@, front),
                forall|i: int|
                    0 <= i < levels@.len() ==> 0 < (#[trigger] levels_view(levels@)[i]).len()
                        <= u64::MAX,
                forall|i: int|
                    0 <= i < levels@.len() ==> !meta.contains_key(
                        #[trigger] key_at(front, i, levels_view(levels@)[i].len() as int),
                    ),
                !more && front + levels@.len() <= u64::MAX ==> !meta.contains_key(
                    key_at(front, levels@.len() as int, 0),
                ),
            decreases u64::MAX - block + (if more { 1int } else { 0int }),
        {
            let ghost done = levels_view(levels@);
            let level = match read_level::<BlockHash, Key, D>(
                db,
                block,
                &mut parents,
                Ghost(done),
                Ghost(last),
            ) {
                Err(e) => {
                    return Err(e);
                },
                Ok(level) => level,
            };
            if level.len() == 0 {
                more = false;
                proof {
                    assert(level_view(level@) =~= Seq::empty());
                    lemma_recorded_level_started::<BlockHash, Key>(meta, done, parents@, front);
                }
            } else {
                assert(levels_view(levels@.push(level)) =~= done.push(level_view(level@)));
                levels.push_back(level);
                if block == u64::MAX {
                    more = false;
                } else {
                    block += 1;
                }
            }
        }
        let window = UnfinalizedOverlay { last_finalized: Some((hash, number)), levels, parents };
        proof {
            lemma_restored_is_wf::<BlockHash, Key>(window@, meta);
        }
        Ok(window)
    }

    /// The last final block and its number, where the window has one.
    pub fn last_finalized(&self) -> (last: Option<(BlockHash, u64)>)
        ensures
            match last {
                Some((hash, number)) => self@.last_finalized == Some((hash@, number)),
                None => self@.last_finalized is None,
            },
    {
        match &self.last_finalized {
            Some((hash, number)) => Some((hash.duplicate(), *number)),
            None => None,
        }
    }

    /// The number of levels.
    pub fn levels_len(&self) -> (n: usize)
        ensures
            n == self@.levels.len(),
    {
        self.levels.len()
    }

    /// The number of overlays on level `i`.
    pub fn level_len(&self, i: usize) -> (n: usize)
        requires
            i < self@.levels.len(),
        ensures
            n == self@.levels[i as int].len(),
    {
        self.levels[i].len()
    }

    /// The number of blocks that have a parent in the window.
    pub fn parents_len(&self) -> (n: usize)
        ensures
            n == self@.parents.len(),
    {
        self.parents.len()
    }

    /// Whether both windows have the same last final block, the same
    /// overlays on the same levels in the same order, and the same parents.
    pub fn same_as(&self, other: &Self) -> (same: bool)
        ensures
            same == (self@ == other@),
    {
        let same_last = match (&self.last_finalized, &other.last_finalized) {
            (Some((h1, n1)), Some((h2, n2))) => h1.same(h2) && *n1 == *n2,
            (None, None) => true,
            _ => false,
        };
        if !same_last {
            return false;
        }
        if self.levels.len() != other.levels.len() {
            assert(self@.levels.len() != other@.levels.len());
            return false;
        }
        let mut i: usize = 0;
        while i < self.levels.len()
            invariant
                i <= self.levels@.len(),
                self.levels@.len() == other.levels@.len(),
                forall|j: int| 0 <= j < i ==> self@.levels[j] == other@.levels[j],
            decreases self.levels@.len() - i,
        {
            if !same_level(&self.levels[i], &other.levels[i]) {
                assert(self@.levels[i as int] != other@.levels[i as int]);
                return false;
            }
            i += 1;
        }
        assert(self@.levels =~= other@.levels);
        self.parents.same_as(&other.parents)
    }

    /// Whether `insert` may be called with these arguments.
    pub fn can_insert(&self, hash: &BlockHash, number: u64, parent_hash: &BlockHash) -> (ok: bool)
        ensures
            ok == self@.can_insert(hash@, number, parent_hash@),
    {
        if self.parents.contains_key(hash) {
            return false;
        }
        match &self.last_finalized {
            None => number >= 1,
            Some((last, last_number)) => {
                if *last_number == u64::MAX || number <= *last_number {
                    return false;
                }
                let front = *last_number + 1;
                if number - front > self.levels.len() as u64 {
                    return false;
                }
                if number == front {
                    last.same(parent_hash)
                } else {
                    self.parents.contains_key(parent_hash)
                }
            },
        }
    }

    /// Whether `finalize` may be called with this hash.
    pub fn can_finalize(&self, hash: &BlockHash) -> (ok: bool)
        ensures
            ok == self@.can_finalize(hash@),
    {
        if self.levels.len() == 0 {
            return false;
        }
        let level = &self.levels[0];
        let ghost front = self@.levels[0];
        let mut i: usize = 0;
        while i < level.len()
            invariant
                i <= level@.len(),
                level == self.levels@[0],
                self.levels@.len() > 0,
                front == self@.levels[0],
                forall|j: int| 0 <= j < i ==> (#[trigger] front[j]).hash != hash@,
            decreases level@.len() - i,
        {
            assert(front[i as int] == level@[i as int]@);
            if level[i].hash.same(hash) {
                assert(is_first(front, hash@, i as int));
                return true;
            }
            i += 1;
        }
        assert(forall|w: int| !is_first(front, hash@, w));
        false
    }

    /// The block number of the front level.
    pub fn front_block_number(&self) -> (number: u64)
        requires
            self@.front() <= u64::MAX,
        ensures
            number == self@.front(),
    {
        match &self.last_finalized {
            Some((_, number)) => *number + 1,
            None => 0,
        }
    }

    /// Get a value from the node overlay. This searches in every existing changeset.
    pub fn get(&self, key: &Key) -> (value: Option<DBValue>)
        ensures
            match value {
                Some(v) => self@.value_of(key@) == Some(v@),
                None => self@.value_of(key@) is None,
            },
    {
        let ghost levels = self@.levels;
        assert(levels.skip(0) =~= levels);
        let mut i: usize = 0;
        while i < self.levels.len()
            invariant
                i <= self.levels@.len(),
                levels == self@.levels,
                levels_value(levels, key@) == levels_value(levels.skip(i as int), key@),
            decreases self.levels@.len() - i,
        {
            let level = &self.levels[i];
            let ghost lv = levels[i as int];
            assert(levels.skip(i as int)[0] == lv);
            assert(levels.skip(i as int).drop_first() =~= levels.skip(i + 1));
            assert(lv.skip(0) =~= lv);
            let mut j: usize = 0;
            while j < level.len()
                invariant
                    j <= level@.len(),
                    i < self.levels@.len(),
                    level == self.levels@[i as int],
                    levels == self@.levels,
                    lv == levels[i as int],
                    levels.skip(i as int).len() > 0,
                    levels.skip(i as int)[0] == lv,
                    levels_value(levels, key@) == levels_value(levels.skip(i as int), key@),
                    level_value(lv, key@) == level_value(lv.skip(j as int), key@),
                decreases level@.len() - j,
            {
                assert(lv.skip(j as int)[0] == lv[j as int]);
                assert(lv.skip(j as int).drop_first() =~= lv.skip(j + 1));
                assert(lv[j as int] == level@[j as int]@);
                match level[j].values.get(key) {
                    Some(v) => {
                        return Some(slice_to_vec(v.as_slice()));
                    },
                    None => {},
                }
                j += 1;
            }
            i += 1;
        }
        None
    }

    /// Cuts the subtree below the block `hash` out of `levels`: on each level,
    /// from the front, what has its parent among the blocks cut so far.
    fn discard(
        levels: &mut VecDeque<Vec<BlockOverlay<BlockHash, Key>>>,
        parents: &mut LinearMap<BlockHash, BlockHash>,
        discarded_journals: &mut Vec<Vec<u8>>,
        hash: &BlockHash,
    )
        ensures
            ({
                let end = Pruning {
                    levels: levels_view(old(levels)@),
                    parents: old(parents)@,
                    discard: seq![hash@],
                    keys: keys_view(old(discarded_journals)@),
                }.sweep(old(levels)@.len());
                &&& levels_view(final(levels)@) == end.levels
                &&& final(parents)@ == end.parents
                &&& keys_view(final(discarded_journals)@) == end.keys
            }),
    {
        let ghost start = Pruning {
            levels: levels_view(levels@),
            parents: parents@,
            discard: seq![hash@],
            keys: keys_view(discarded_journals@),
        };
        let ghost n = levels@.len();
        let mut done: VecDeque<Vec<BlockOverlay<BlockHash, Key>>> = VecDeque::new();
        let mut discard_set: Vec<BlockHash> = Vec::new();
        discard_set.push(hash.duplicate());
        proof {
            assert(keys_view(discard_set@) =~= seq![hash@]);
            assert(levels_view(done@) + levels_view(levels@) =~= start.levels);
        }
        while levels.len() > 0
            invariant
                done@.len() + levels@.len() == n,
                n == start.levels.len(),
                start.sweep(done@.len() as nat).levels == levels_view(done@) + levels_view(
                    levels@,
                ),
                start.sweep(done@.len() as nat).parents == parents@,
                start.sweep(done@.len() as nat).discard == keys_view(discard_set@),
                start.sweep(done@.len() as nat).keys == keys_view(discarded_journals@),
            decreases levels@.len(),
        {
            let ghost i = done@.len() as int;
            let ghost cur = start.sweep(i as nat);
            let ghost done0 = levels_view(done@);
            let ghost rest0 = levels_view(levels@);
            let level = levels.pop_front().unwrap();
            assert(cur.levels[i] == level_view(level@)) by {
                assert((done0 + rest0)[i] == rest0[0]);
            }
            let kept = sweep_level(level, parents, &mut discard_set, discarded_journals);
            done.push_back(kept);
            proof {
                assert(start.sweep((i + 1) as nat) == cur.sweep_level(i));
                assert(levels_view(done@) =~= done0.push(level_view(kept@)));
                assert(levels_view(levels@) =~= rest0.drop_first());
                assert(cur.levels.update(i, level_view(kept@)) =~= levels_view(done@)
                    + levels_view(levels@));
            }
        }
        assert(levels_view(levels@) =~= Seq::empty());
        assert(levels_view(done@) + levels_view(levels@) =~= levels_view(done@));
        *levels = done;
    }

    /// Select a top-level root and finalized it. Discards all sibling subtrees and the root.
    /// Returns a set of changes that need to be added to the DB.
    pub fn finalize(&mut self, hash: &BlockHash) -> (commit: CommitSet<Key>)
        requires
            old(self).wf(),
            old(self)@.can_finalize(hash@),
        ensures
            final(self).wf(),
            final(self)@ == old(self)@.finalized(hash@),
            commit@ == old(self)@.finalize_commit(hash@),
            old(self)@.chained() ==> final(self)@.chained(),
    {
        let ghost before = self@;
        proof {
            lemma_finalize_keeps_wf(before, hash@);
            if before.chained() {
                lemma_finalize_keeps_chained(before, hash@);
            }
        }
        let ghost front = before.levels[0];
        let ghost winner = before.winner(hash@);
        assert(is_first(front, hash@, winner));
        let number = self.front_block_number();
        let level = self.levels.pop_front().unwrap();
        assert(level_view(level@) == front);
        let ghost start = Pruning {
            levels: before.levels.drop_first(),
            parents: before.parents,
            discard: Seq::empty(),
            keys: Seq::empty(),
        };
        assert(levels_view(self.levels@) =~= start.levels);

        // the place of the block to finalize
        let mut index: usize = 0;
        while index < level.len() && !level[index].hash.same(hash)
            invariant
                index <= level@.len(),
                front == level_view(level@),
                is_first(front, hash@, winner),
                forall|j: int| 0 <= j < index ==> (#[trigger] front[j]).hash != hash@,
            decreases level@.len() - index,
        {
            assert(front[index as int].hash == level@[index as int].hash@);
            index += 1;
        }
        proof {
            if index as int > winner {
                assert(front[winner].hash == hash@);
            }
            assert(front[index as int].hash == level@[index as int].hash@);
            lemma_first_is_one(front, hash@, index as int, winner);
        }

        let mut discarded_journals: Vec<Vec<u8>> = Vec::new();
        let mut data_inserted: Vec<(Key, DBValue)> = Vec::new();
        let mut data_deleted: Vec<Key> = Vec::new();
        let ghost items = level@;
        let count = level.len();
        let mut i: usize = 0;
        assert(keys_view(discarded_journals@) =~= Seq::empty());
        for overlay in it: level
            invariant
                i == it.index(),
                it.seq() == items,
                count == items.len(),
                front == level_view(items),
                index < items.len(),
                winner == index,
                levels_view(self.levels@) == start.retire_front(front, winner, i as nat).levels,
                self.parents@ == start.retire_front(front, winner, i as nat).parents,
                keys_view(discarded_journals@) == start.retire_front(
                    front,
                    winner,
                    i as nat,
                ).keys,
                i > index ==> pairs_view(data_inserted@) == front[winner].values && keys_view(
                    data_deleted@,
                ) == front[winner].deleted,
        {
            let ghost o = overlay@;
            let ghost cur = start.retire_front(front, winner, i as nat);
            assert(i < count);
            assert(front[i as int] == o);
            assert(start.retire_front(front, winner, (i + 1) as nat) == cur.retire(
                o,
                i as int == winner,
            ));
            let BlockOverlay { hash: overlay_hash, journal_key, values, deleted } = overlay;
            self.parents.remove(&overlay_hash);
            if i == index {
                // that's the one we need to finalize
                data_inserted = values.into_vec();
                data_deleted = deleted;
                assert(pairs_view(data_inserted@) =~= o.values);
            } else {
                Self::discard(
                    &mut self.levels,
                    &mut self.parents,
                    &mut discarded_journals,
                    &overlay_hash,
                );
            }
            // cleanup journal entry
            let ghost journals1 = keys_view(discarded_journals@);
            discarded_journals.push(journal_key);
            assert(keys_view(discarded_journals@) =~= journals1.push(o.journal_key));
            i += 1;
        }
        let mut meta_inserted: Vec<(Vec<u8>, DBValue)> = Vec::new();
        meta_inserted.push((to_last_finalized_key(), encode_pointer(hash, number)));
        self.last_finalized = Some((hash.duplicate(), number));
        let commit = CommitSet {
            data: ChangeSet { inserted: data_inserted, deleted: data_deleted },
            meta: ChangeSet { inserted: meta_inserted, deleted: discarded_journals },
        };
        proof {
            assert(commit@.meta.inserted =~~= before.finalize_commit(hash@).meta.inserted);
        }
        commit
    }

    /// Insert a new block into the overlay. If inserted on the second level or lower expects
    /// parent to be present in the window.
    pub fn insert(
        &mut self,
        hash: &BlockHash,
        number: u64,
        parent_hash: &BlockHash,
        changeset: ChangeSet<Key>,
    ) -> (commit: CommitSet<Key>)
        requires
            old(self).wf(),
            old(self)@.can_insert(hash@, number, parent_hash@),
        ensures
            final(self).wf(),
            final(self)@ == old(self)@.inserted(hash@, number, parent_hash@, changeset@),
            commit@ == old(self)@.insert_commit(hash@, number, parent_hash@, changeset@),
            old(self)@.aligned() ==> final(self)@.aligned(),
            old(self)@.chained() && old(self)@.parent_is_near(number, parent_hash@)
                ==> final(self)@.chained(),
            old(self)@.next_index(number) < u64::MAX,
            (RecordView {
                hash: hash@,
                parent_hash: parent_hash@,
                inserted: changeset@.inserted,
                deleted: changeset@.deleted,
            }).fits::<BlockHash, Key>(),
    {
        let ghost before = self@;
        let mut meta_inserted: Vec<(Vec<u8>, DBValue)> = Vec::new();
        let at = self.level_of(number);
        if self.last_finalized.is_none() {
            //  assume that parent was finalized
            meta_inserted.push((to_last_finalized_key(), encode_pointer(parent_hash, number - 1)));
            self.last_finalized = Some((parent_hash.duplicate(), number - 1));
        }
        let index = level_len(&self.levels, at) as u64;
        let journal_key = to_journal_key(number, index);
        let overlay = BlockOverlay {
            hash: hash.duplicate(),
            journal_key: slice_to_vec(journal_key.as_slice()),
            values: collect_values(&changeset.inserted),
            deleted: duplicate_keys(&changeset.deleted),
        };
        push_overlay(&mut self.levels, at, overlay);
        self.parents.insert(hash.duplicate(), parent_hash.duplicate());
        let journal_record = JournalRecord {
            hash: hash.duplicate(),
            parent_hash: parent_hash.duplicate(),
            inserted: changeset.inserted,
            deleted: changeset.deleted,
        };
        meta_inserted.push((journal_key, journal_record.encode()));
        let commit = CommitSet {
            data: ChangeSet::new(),
            meta: ChangeSet { inserted: meta_inserted, deleted: Vec::new() },
        };
        proof {
            let after = before.inserted(hash@, number, parent_hash@, changeset@);
            let asked = before.insert_commit(hash@, number, parent_hash@, changeset@);
            assert(self@.levels == after.levels);
            assert(self@.parents == after.parents);
            assert(self@.last_finalized == after.last_finalized);
            assert(commit@.meta.inserted =~~= asked.meta.inserted);
            assert(commit@.meta.deleted =~= Seq::empty());
            lemma_insert_keeps_wf(before, hash@, number, parent_hash@, changeset@);
            if before.aligned() {
                lemma_insert_keeps_aligned(before, hash@, number, parent_hash@, changeset@);
            }
            if before.chained() && before.parent_is_near(number, parent_hash@) {
                lemma_insert_keeps_chained(before, hash@, number, parent_hash@, changeset@);
            }
        }
        commit
    }

    /// The level that a block of this number goes to: the number of levels
    /// where it is the first of a new level.
    fn level_of(&self, number: u64) -> (at: usize)
        requires
            self@.last_finalized is Some ==> self@.front() <= number <= self@.front()
                + self@.levels.len(),
        ensures
            at == self@.level_of(number),
            at <= self@.levels.len(),
    {
        match &self.last_finalized {
            None => 0,
            Some((_, last)) => {
                let offset = number - (*last + 1);
                let depth = self.levels.len();
                if offset >= depth as u64 {
                    depth
                } else {
                    offset as usize
                }
            },
        }
    }
}

/// The number of overlays on level `at`, which is 0 for the level behind the
/// last.
fn level_len<BlockHash: hash::Hash, Key: hash::Hash>(
    levels: &VecDeque<Vec<BlockOverlay<BlockHash, Key>>>,
    at: usize,
) -> (n: usize)
    ensures
        n == if at < levels@.len() {
            levels_view(levels@)[at as int].len()
        } else {
            0
        },
{
    if at < levels.len() {
        levels[at].len()
    } else {
        0
    }
}

/// Puts an overlay at the end of level `at`, which becomes a new level where
/// it is the level behind the last.
fn push_overlay<BlockHash: hash::Hash, Key: hash::Hash>(
    levels: &mut VecDeque<Vec<BlockOverlay<BlockHash, Key>>>,
    at: usize,
    overlay: BlockOverlay<BlockHash, Key>,
)
    requires
        at <= old(levels)@.len(),
    ensures
        levels_view(final(levels)@) == if at < old(levels)@.len() {
            levels_view(old(levels)@).update(
                at as int,
                levels_view(old(levels)@)[at as int].push(overlay@),
            )
        } else {
            levels_view(old(levels)@).push(seq![overlay@])
        },
        at < old(levels)@.len() ==> levels_view(old(levels)@)[at as int].len() < usize::MAX,
{
    let ghost before = levels_view(levels@);
    if at < levels.len() {
        let mut level = levels.remove(at).unwrap();
        level.push(overlay);
        assert(level@.len() <= usize::MAX) by {
            assert(level@.len() == level.len());
        }
        assert(level_view(level@) =~= before[at as int].push(overlay@));
        levels.insert(at, level);
        assert(levels_view(levels@) =~= before.update(
            at as int,
            before[at as int].push(overlay@),
        ));
    } else {
        let mut level: Vec<BlockOverlay<BlockHash, Key>> = Vec::new();
        level.push(overlay);
        assert(level_view(level@) =~= seq![overlay@]);
        levels.push_back(level);
        assert(levels_view(levels@) =~= before.push(seq![overlay@]));
    }
}

} // verus!
