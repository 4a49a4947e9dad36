//! The forest of overlays as a mathematical value, and what each operation of
//! the window does to it.
//!
//! Hashes, keys and values appear here as their byte images. Level `i` of a
//! forest holds the blocks of number `front() + i`, in the order in which
//! they were inserted.

use crate::changes::{ChangeSetView, CommitSetView};
use crate::journal::{
    journal_key, last_finalized_key, parse_journal_key, pointer_bytes, record_bytes, RecordView,
};
use crate::linear_map::{as_map, distinct_keys, upsert};
use vstd::prelude::*;

verus! {

/// One block that is not final yet.
pub ghost struct OverlayView {
    pub hash: Seq<u8>,
    /// The key of the meta store under which the block's journal record lies.
    pub journal_key: Seq<u8>,
    /// The block's inserts as a map, in the order in which the keys first came.
    pub values: Seq<(Seq<u8>, Seq<u8>)>,
    pub deleted: Seq<Seq<u8>>,
}

/// The window.
pub ghost struct ForestView {
    /// The last final block and its number.
    pub last_finalized: Option<(Seq<u8>, u64)>,
    pub levels: Seq<Seq<OverlayView>>,
    /// The parent of every block of the forest.
    pub parents: Map<Seq<u8>, Seq<u8>>,
}

/// A list of inserts as a map: a later insert of a key replaces the value of
/// an earlier one and keeps its place.
pub open spec fn materialize(inserted: Seq<(Seq<u8>, Seq<u8>)>) -> Seq<(Seq<u8>, Seq<u8>)>
    decreases inserted.len(),
{
    if inserted.len() == 0 {
        Seq::empty()
    } else {
        upsert(materialize(inserted.drop_last()), inserted.last())
    }
}

/// The overlay that a journal record stands for.
pub open spec fn overlay_of(record: RecordView, key: Seq<u8>) -> OverlayView {
    OverlayView {
        hash: record.hash,
        journal_key: key,
        values: materialize(record.inserted),
        deleted: record.deleted,
    }
}

/// The value of `key` in the first overlay of the level that has one.
pub open spec fn level_value(level: Seq<OverlayView>, key: Seq<u8>) -> Option<Seq<u8>>
    decreases level.len(),
{
    if level.len() == 0 {
        None
    } else if as_map(level[0].values).contains_key(key) {
        Some(as_map(level[0].values)[key])
    } else {
        level_value(level.drop_first(), key)
    }
}

/// The value of `key` in the first level that has one.
pub open spec fn levels_value(levels: Seq<Seq<OverlayView>>, key: Seq<u8>) -> Option<Seq<u8>>
    decreases levels.len(),
{
    if levels.len() == 0 {
        None
    } else {
        match level_value(levels[0], key) {
            Some(v) => Some(v),
            None => levels_value(levels.drop_first(), key),
        }
    }
}

/// `i` is the first place of the level at which `hash` stands.
pub open spec fn is_first(level: Seq<OverlayView>, hash: Seq<u8>, i: int) -> bool {
    &&& 0 <= i < level.len()
    &&& level[i].hash == hash
    &&& forall|j: int| 0 <= j < i ==> (#[trigger] level[j]).hash != hash
}

/// A hash has at most one first place.
pub proof fn lemma_first_is_one(level: Seq<OverlayView>, hash: Seq<u8>, a: int, b: int)
    requires
        is_first(level, hash, a),
        is_first(level, hash, b),
    ensures
        a == b,
{
    if a < b {
        assert(level[a].hash == hash);
    }
    if b < a {
        assert(level[b].hash == hash);
    }
}

/// Whether an overlay goes when the blocks of `discard` go: it does when its
/// parent is one of them.
pub open spec fn is_doomed(
    o: OverlayView,
    parents: Map<Seq<u8>, Seq<u8>>,
    discard: Seq<Seq<u8>>,
) -> bool {
    parents.contains_key(o.hash) && discard.contains(parents[o.hash])
}

/// The overlays that go when the blocks of `discard` go.
pub open spec fn doomed_by(parents: Map<Seq<u8>, Seq<u8>>, discard: Seq<Seq<u8>>) -> spec_fn(
    OverlayView,
) -> bool {
    |o: OverlayView| is_doomed(o, parents, discard)
}

/// The overlays that stay when the blocks of `discard` go.
pub open spec fn spared_by(parents: Map<Seq<u8>, Seq<u8>>, discard: Seq<Seq<u8>>) -> spec_fn(
    OverlayView,
) -> bool {
    |o: OverlayView| !is_doomed(o, parents, discard)
}

/// The hashes of the overlays of a level, in their order.
pub open spec fn hashes_of(level: Seq<OverlayView>) -> Seq<Seq<u8>> {
    level.map_values(|o: OverlayView| o.hash)
}

/// The journal keys of the overlays of a level, in their order.
pub open spec fn journal_keys_of(level: Seq<OverlayView>) -> Seq<Seq<u8>> {
    level.map_values(|o: OverlayView| o.journal_key)
}

/// The overlays of level `i` of `f` that descend from the block `root` of
/// the front level.
pub open spec fn descends(f: ForestView, i: int, root: Seq<u8>) -> spec_fn(OverlayView) -> bool {
    |o: OverlayView| f.root_of(i, o.hash) == root
}

/// Some overlay of the levels has this hash.
pub open spec fn occurs(levels: Seq<Seq<OverlayView>>, hash: Seq<u8>) -> bool {
    exists|i: int, j: int|
        0 <= i < levels.len() && 0 <= j < levels[i].len() && (#[trigger] levels[i][j]).hash
            == hash
}

/// The parents are those of the overlays of the levels and of nothing else,
/// and no two overlays have the same hash.
pub open spec fn linked(levels: Seq<Seq<OverlayView>>, parents: Map<Seq<u8>, Seq<u8>>) -> bool {
    &&& parents.dom().finite()
    &&& forall|i: int, j: int|
        0 <= i < levels.len() && 0 <= j < levels[i].len() ==> parents.contains_key(
            (#[trigger] levels[i][j]).hash,
        )
    &&& forall|i: int, j: int, i2: int, j2: int|
        0 <= i < levels.len() && 0 <= j < levels[i].len() && 0 <= i2 < levels.len() && 0 <= j2
            < levels[i2].len() && (i != i2 || j != j2) ==> (#[trigger] levels[i][j]).hash != (
        #[trigger] levels[i2][j2]).hash
    &&& forall|h: Seq<u8>| #[trigger] parents.contains_key(h) ==> occurs(levels, h)
}

/// The number of overlays of the levels.
pub open spec fn count(levels: Seq<Seq<OverlayView>>) -> nat
    decreases levels.len(),
{
    if levels.len() == 0 {
        0
    } else {
        count(levels.drop_last()) + levels.last().len()
    }
}

/// Some overlay of the level has this hash.
pub open spec fn on_level(level: Seq<OverlayView>, hash: Seq<u8>) -> bool {
    exists|k: int| 0 <= k < level.len() && (#[trigger] level[k]).hash == hash
}

/// The state of a finalization under way.
pub ghost struct Pruning {
    /// The levels behind the front level.
    pub levels: Seq<Seq<OverlayView>>,
    pub parents: Map<Seq<u8>, Seq<u8>>,
    /// The blocks that go with the subtree that is being cut.
    pub discard: Seq<Seq<u8>>,
    /// The journal keys of what has gone so far.
    pub keys: Seq<Seq<u8>>,
}

impl Pruning {
    /// Cuts from level `i` the overlays whose parent goes; they go too.
    pub open spec fn sweep_level(self, i: int) -> Pruning {
        let gone = self.levels[i].filter(doomed_by(self.parents, self.discard));
        let kept = self.levels[i].filter(spared_by(self.parents, self.discard));
        Pruning {
            levels: self.levels.update(i, kept),
            parents: self.parents.remove_keys(hashes_of(gone).to_set()),
            discard: self.discard + hashes_of(gone),
            keys: self.keys + journal_keys_of(gone),
        }
    }

    /// Sweeps the first `k` levels, front to back.
    pub open spec fn sweep(self, k: nat) -> Pruning
        decreases k,
    {
        if k == 0 {
            self
        } else {
            self.sweep((k - 1) as nat).sweep_level(k - 1)
        }
    }

    /// Takes one overlay of the front level out of the window. Where it is
    /// not the winner, everything that descends from it goes first.
    pub open spec fn retire(self, o: OverlayView, wins: bool) -> Pruning {
        let start = Pruning {
            levels: self.levels,
            parents: self.parents.remove(o.hash),
            discard: seq![o.hash],
            keys: self.keys,
        };
        let swept = if wins {
            start
        } else {
            start.sweep(start.levels.len())
        };
        Pruning {
            levels: swept.levels,
            parents: swept.parents,
            discard: swept.discard,
            keys: swept.keys.push(o.journal_key),
        }
    }

    /// Retires the first `k` overlays of the front level, in their order.
    pub open spec fn retire_front(self, front: Seq<OverlayView>, winner: int, k: nat) -> Pruning
        decreases k,
    {
        if k == 0 {
            self
        } else {
            self.retire_front(front, winner, (k - 1) as nat).retire(front[k - 1], k - 1 == winner)
        }
    }
}

impl ForestView {
    /// The window that was never used.
    pub open spec fn empty() -> ForestView {
        ForestView { last_finalized: None, levels: Seq::empty(), parents: Map::empty() }
    }

    /// The block number of the front level.
    pub open spec fn front(self) -> int {
        match self.last_finalized {
            Some((_, number)) => number + 1,
            None => 0,
        }
    }

    /// What always holds of a window: a window that was never used is empty;
    /// the block numbers of its levels are numbers of 64 bits; `parents` has
    /// one entry for each overlay and no other, and no hash occurs twice;
    /// each journal key is one of the block number of its level; each
    /// overlay's inserts have distinct keys.
    ///
    /// Every constructor of a window establishes this and every operation
    /// keeps it.
    pub open spec fn wf(self) -> bool {
        &&& self.last_finalized is None ==> self.levels.len() == 0
        &&& self.levels.len() > 0 ==> self.front() + self.levels.len() - 1 <= u64::MAX
        &&& linked(self.levels, self.parents)
        &&& forall|i: int, j: int|
            0 <= i < self.levels.len() && 0 <= j < self.levels[i].len() ==> self.names_level(
                i,
                (#[trigger] self.levels[i][j]).journal_key,
            )
        &&& forall|i: int, j: int|
            0 <= i < self.levels.len() && 0 <= j < self.levels[i].len() ==> distinct_keys(
                (#[trigger] self.levels[i][j]).values,
            )
    }

    /// Every journal key is that of the block number of its level and of the
    /// place of its overlay on the level.
    ///
    /// This holds of a window that was rebuilt from its journal, and an
    /// insert keeps it. A finalization keeps it only where what stays of
    /// every level is the beginning of the level: an overlay keeps its
    /// journal key when overlays before it go (see `laws`).
    pub open spec fn aligned(self) -> bool {
        forall|i: int, j: int|
            0 <= i < self.levels.len() && 0 <= j < self.levels[i].len() ==> self.names_place(
                i,
                j,
                (#[trigger] self.levels[i][j]).journal_key,
            )
    }

    /// `key` is the journal key of the block number of level `i` and of the
    /// index `j`.
    pub open spec fn names_place(self, i: int, j: int, key: Seq<u8>) -> bool {
        match parse_journal_key(key) {
            Some((number, index)) => number == self.front() + i && index == j,
            None => false,
        }
    }

    /// The parent of every block of the front level is the last final block,
    /// and the parent of every block behind is a block of the level before.
    ///
    /// `insert` takes any block of the window as the parent of a block
    /// behind the front level, so a window need not be chained. One that is
    /// stays so under every finalization, and under every insert of a block
    /// whose parent is on the level before its own (see `chains`).
    pub open spec fn chained(self) -> bool {
        forall|i: int, j: int|
            0 <= i < self.levels.len() && 0 <= j < self.levels[i].len() ==> self.hangs(
                i,
                (#[trigger] self.levels[i][j]).hash,
            )
    }

    /// The block of the front level from which the block `hash` of level `i`
    /// descends: its parent's parent and so on, `i` times.
    pub open spec fn root_of(self, i: int, hash: Seq<u8>) -> Seq<u8>
        decreases i,
    {
        if i <= 0 {
            hash
        } else {
            self.root_of(i - 1, self.parents[hash])
        }
    }

    /// A block of this number with this parent has its parent where it
    /// belongs: the block goes to the front level, or its parent is on the
    /// level before its own.
    pub open spec fn parent_is_near(self, number: u64, parent_hash: Seq<u8>) -> bool {
        self.last_finalized is Some && number > self.front() ==> 0 <= self.level_of(number) - 1
            < self.levels.len() && on_level(self.levels[self.level_of(number) - 1], parent_hash)
    }

    /// The block `hash` of level `i` has its parent where it belongs.
    pub open spec fn hangs(self, i: int, hash: Seq<u8>) -> bool {
        if i == 0 {
            match self.last_finalized {
                Some((last, _)) => self.parents[hash] == last,
                None => false,
            }
        } else {
            on_level(self.levels[i - 1], self.parents[hash])
        }
    }

    /// `key` is a journal key of the block number of level `i`.
    pub open spec fn names_level(self, i: int, key: Seq<u8>) -> bool {
        match parse_journal_key(key) {
            Some((number, _)) => number == self.front() + i,
            None => false,
        }
    }

    // ------------------------------------------------------------- insert

    /// Whether a block may be inserted: its hash is new, its number is that
    /// of a level of the window or of the level behind the last, and its
    /// parent is the last final block (on the front level) or a block of the
    /// window (behind it). Into a window that was never used any block of a
    /// number from 1 on may be inserted; its parent is then taken as final.
    pub open spec fn can_insert(self, hash: Seq<u8>, number: u64, parent_hash: Seq<u8>) -> bool {
        &&& !self.parents.contains_key(hash)
        &&& match self.last_finalized {
            None => number >= 1,
            Some((last, _)) => {
                &&& self.front() <= number <= self.front() + self.levels.len()
                &&& if number == self.front() {
                    parent_hash == last
                } else {
                    self.parents.contains_key(parent_hash)
                }
            },
        }
    }

    /// The level that a block of this number goes to.
    pub open spec fn level_of(self, number: u64) -> int {
        match self.last_finalized {
            None => 0,
            Some(_) => number - self.front(),
        }
    }

    /// The place that the next block of this number gets on its level.
    pub open spec fn next_index(self, number: u64) -> int {
        let at = self.level_of(number);
        if 0 <= at < self.levels.len() {
            self.levels[at].len() as int
        } else {
            0
        }
    }

    /// The window after the insert.
    pub open spec fn inserted(
        self,
        hash: Seq<u8>,
        number: u64,
        parent_hash: Seq<u8>,
        changes: ChangeSetView,
    ) -> ForestView {
        let at = self.level_of(number);
        let overlay = OverlayView {
            hash,
            journal_key: journal_key(number, self.next_index(number) as u64),
            values: materialize(changes.inserted),
            deleted: changes.deleted,
        };
        ForestView {
            last_finalized: match self.last_finalized {
                None => Some((parent_hash, (number - 1) as u64)),
                Some(last) => Some(last),
            },
            levels: if at < self.levels.len() {
                self.levels.update(at, self.levels[at].push(overlay))
            } else {
                self.levels.push(seq![overlay])
            },
            parents: self.parents.insert(hash, parent_hash),
        }
    }

    /// What the insert asks the embedder to write: the journal record of the
    /// block, and before it the pointer where the window had none.
    pub open spec fn insert_commit(
        self,
        hash: Seq<u8>,
        number: u64,
        parent_hash: Seq<u8>,
        changes: ChangeSetView,
    ) -> CommitSetView {
        let record = RecordView {
            hash,
            parent_hash,
            inserted: changes.inserted,
            deleted: changes.deleted,
        };
        let entry = (journal_key(number, self.next_index(number) as u64), record_bytes(record));
        CommitSetView {
            data: ChangeSetView::empty(),
            meta: ChangeSetView {
                inserted: match self.last_finalized {
                    None => seq![
                        (last_finalized_key(), pointer_bytes(parent_hash, (number - 1) as u64)),
                        entry,
                    ],
                    Some(_) => seq![entry],
                },
                deleted: Seq::empty(),
            },
        }
    }

    // ---------------------------------------------------------------- get

    /// The value of `key` in the first overlay that has one, levels from the
    /// front, each level in the order of insertion.
    pub open spec fn value_of(self, key: Seq<u8>) -> Option<Seq<u8>> {
        levels_value(self.levels, key)
    }

    // ----------------------------------------------------------- finalize

    /// Whether `hash` may be finalized: it is a block of the front level.
    pub open spec fn can_finalize(self, hash: Seq<u8>) -> bool {
        self.levels.len() > 0 && exists|i: int| is_first(self.levels[0], hash, i)
    }

    /// The place of the block `hash` on the front level.
    pub open spec fn winner(self, hash: Seq<u8>) -> int {
        choose|i: int| is_first(self.levels[0], hash, i)
    }

    /// The finalization of `hash` when every overlay of the front level has
    /// been retired.
    pub open spec fn pruned(self, hash: Seq<u8>) -> Pruning {
        let start = Pruning {
            levels: self.levels.drop_first(),
            parents: self.parents,
            discard: Seq::empty(),
            keys: Seq::empty(),
        };
        start.retire_front(self.levels[0], self.winner(hash), self.levels[0].len())
    }

    /// The window after `hash` was finalized: the overlays of the front level
    /// are retired one after another, and with each but the winner goes what
    /// hangs below it. Of a chained window this leaves the descendants of the
    /// winner (see `descendants`).
    pub open spec fn finalized(self, hash: Seq<u8>) -> ForestView {
        let end = self.pruned(hash);
        ForestView {
            last_finalized: Some((hash, self.front() as u64)),
            levels: end.levels,
            parents: end.parents,
        }
    }

    /// What the finalization asks the embedder to write: the winner's changes
    /// to the data, the new pointer, and the removal of the journal records
    /// of everything that left the window.
    pub open spec fn finalize_commit(self, hash: Seq<u8>) -> CommitSetView {
        let won = self.levels[0][self.winner(hash)];
        CommitSetView {
            data: ChangeSetView { inserted: won.values, deleted: won.deleted },
            meta: ChangeSetView {
                inserted: seq![(last_finalized_key(), pointer_bytes(hash, self.front() as u64))],
                deleted: self.pruned(hash).keys,
            },
        }
    }
}

} // verus!
