//! The journal follows the window.
//!
//! Where the store holds the journal of a window and the writes that an
//! operation asks for are made, the store holds the journal of the window
//! after the operation. So a window that is rebuilt from the store is the
//! window that was in memory.
//!
//! This holds of every insert. It holds of a finalization where what stays
//! of every level is the beginning of the level and no level is left empty:
//! an overlay that stays behind one that went keeps the journal key of the
//! place that it left, and reading a level stops at the first index without a
//! record.

use crate::changes::{insert_all, remove_all, ChangeSetView};
use crate::codec::is_image;
use crate::forest::{
    doomed_by, hashes_of, is_first, journal_keys_of, linked, occurs, overlay_of, ForestView,
    OverlayView, Pruning,
};
use crate::hash;
use crate::invariants::{
    distinct_hashes, lemma_filter_keeps_distinct, lemma_finalize_keeps_wf,
    lemma_insert_keeps_wf, lemma_retire_ok, lemma_sweep_level_ok, lemma_sweep_ok, pruning_ok,
};
use crate::journal::{
    journal_key, last_finalized_key, lemma_decode_pointer, lemma_decode_record,
    lemma_journal_key, lemma_journal_key_injective, pointer_bytes, record_bytes, RecordView,
};
use crate::laws::{keeps_beginnings, lemma_finalize_aligned_iff, lemma_restored_is_aligned};
use crate::replay::{key_at, lemma_restores_unique, mirrors, restores};
use vstd::prelude::*;

verus! {

/// Every journal record of the store is that of an overlay of the window.
pub open spec fn sealed(f: ForestView, meta: Map<Seq<u8>, Seq<u8>>) -> bool {
    forall|block: u64, index: u64|
        meta.contains_key(#[trigger] journal_key(block, index)) ==> {
            &&& f.last_finalized is Some
            &&& f.front() <= block < f.front() + f.levels.len()
            &&& index < f.levels[block - f.front()].len()
        }
}

/// The store holds the journal of the window, and no other journal record.
pub open spec fn journal_of<B: hash::Hash, K: hash::Hash>(
    f: ForestView,
    meta: Map<Seq<u8>, Seq<u8>>,
) -> bool {
    restores::<B, K>(f, meta) && sealed(f, meta)
}

/// A window that is rebuilt from a store that holds the journal of `f` is
/// `f`.
pub proof fn lemma_rebuilt_is_same<B: hash::Hash, K: hash::Hash>(
    f: ForestView,
    g: ForestView,
    meta: Map<Seq<u8>, Seq<u8>>,
)
    requires
        journal_of::<B, K>(f, meta),
        restores::<B, K>(g, meta),
    ensures
        g == f,
{
    lemma_restores_unique::<B, K>(f, g, meta);
}

/// A store without records holds the journal of the window that was never
/// used.
pub proof fn lemma_empty_journal<B: hash::Hash, K: hash::Hash>()
    ensures
        journal_of::<B, K>(ForestView::empty(), Map::<Seq<u8>, Seq<u8>>::empty()),
{
}

/// No level is empty.
pub open spec fn no_level_empty(f: ForestView) -> bool {
    forall|i: int| 0 <= i < f.levels.len() ==> (#[trigger] f.levels[i]).len() > 0
}

/// What is left after a list of keys was removed.
pub proof fn lemma_remove_all(m: Map<Seq<u8>, Seq<u8>>, deleted: Seq<Seq<u8>>)
    ensures
        forall|k: Seq<u8>|
            #[trigger] remove_all(m, deleted).contains_key(k) <==> m.contains_key(k)
                && !deleted.contains(k),
        forall|k: Seq<u8>|
            remove_all(m, deleted).contains_key(k) ==> #[trigger] remove_all(m, deleted)[k]
                == m[k],
    decreases deleted.len(),
{
    if deleted.len() > 0 {
        let front = deleted.drop_last();
        let before = remove_all(m, front);
        let after = remove_all(m, deleted);
        lemma_remove_all(m, front);
        assert(after == before.remove(deleted.last()));
        assert forall|k: Seq<u8>| #[trigger]
            after.contains_key(k) <==> m.contains_key(k) && !deleted.contains(k) by {
            assert(before.contains_key(k) <==> m.contains_key(k) && !front.contains(k));
            if deleted.contains(k) {
                let c = choose|c: int| 0 <= c < deleted.len() && deleted[c] == k;
                if c < front.len() {
                    assert(front[c] == k);
                }
            }
            if front.contains(k) {
                let c = choose|c: int| 0 <= c < front.len() && front[c] == k;
                assert(deleted[c] == k);
            }
            if k == deleted.last() {
                assert(deleted[deleted.len() - 1] == k);
            }
        }
        assert forall|k: Seq<u8>| after.contains_key(k) implies #[trigger] after[k] == m[k] by {
            assert(before.contains_key(k));
            assert(before[k] == m[k]);
        }
    }
}

// ------------------------------------------------------------------ insert

/// After an insert whose writes were made, the store holds the journal of
/// the window.
pub proof fn lemma_insert_keeps_journal<B: hash::Hash, K: hash::Hash>(
    f: ForestView,
    meta: Map<Seq<u8>, Seq<u8>>,
    hash: Seq<u8>,
    number: u64,
    parent_hash: Seq<u8>,
    changes: ChangeSetView,
)
    requires
        f.wf(),
        journal_of::<B, K>(f, meta),
        f.can_insert(hash, number, parent_hash),
        (RecordView {
            hash,
            parent_hash,
            inserted: changes.inserted,
            deleted: changes.deleted,
        }).fits::<B, K>(),
        f.next_index(number) < u64::MAX,
    ensures
        journal_of::<B, K>(
            f.inserted(hash, number, parent_hash, changes),
            f.insert_commit(hash, number, parent_hash, changes).meta.applied_to(meta),
        ),
{
    let g = f.inserted(hash, number, parent_hash, changes);
    let commit = f.insert_commit(hash, number, parent_hash, changes);
    let meta2 = commit.meta.applied_to(meta);
    let record = RecordView {
        hash,
        parent_hash,
        inserted: changes.inserted,
        deleted: changes.deleted,
    };
    let at = f.level_of(number);
    let idx = f.next_index(number);
    let key = journal_key(number, idx as u64);
    let front = g.front();
    lemma_insert_keeps_wf(f, hash, number, parent_hash, changes);
    lemma_journal_key(number, idx as u64);
    lemma_decode_record::<B, K>(record);
    lemma_decode_pointer::<B>(parent_hash, (number - 1) as u64);
    reveal_with_fuel(insert_all, 3);
    reveal_with_fuel(remove_all, 1);
    let entry = (key, record_bytes(record));
    let pointer = (last_finalized_key(), pointer_bytes(parent_hash, (number - 1) as u64));
    // what the store holds after the writes
    if f.last_finalized is None {
        assert(commit.meta.inserted =~= seq![pointer, entry]);
        assert(seq![pointer, entry].drop_last() =~= seq![pointer]);
        assert(seq![pointer].drop_last() =~= Seq::<(Seq<u8>, Seq<u8>)>::empty());
        assert(meta2 == meta.insert(pointer.0, pointer.1).insert(key, entry.1));
    } else {
        assert(commit.meta.inserted =~= seq![entry]);
        assert(seq![entry].drop_last() =~= Seq::<(Seq<u8>, Seq<u8>)>::empty());
        assert(meta2 == meta.insert(key, entry.1));
    }
    assert(key_at(front, at, idx) == key);
    assert(g.levels[at][idx] == overlay_of(record, key));

    assert forall|i: int, j: int| 0 <= i < g.levels.len() && 0 <= j < g.levels[i].len() implies (i
        == at && j == idx) || (0 <= i < f.levels.len() && 0 <= j < f.levels[i].len()
        && #[trigger] g.levels[i][j] == f.levels[i][j]) by {}

    // the records of the other overlays are where they were
    assert forall|i: int, j: int|
        0 <= i < g.levels.len() && 0 <= j < g.levels[i].len() implies mirrors::<B, K>(
        meta2,
        g.parents,
        #[trigger] g.levels[i][j],
        key_at(front, i, j),
    ) by {
        if !(i == at && j == idx) {
            assert(g.levels[i][j] == f.levels[i][j]);
            assert(mirrors::<B, K>(meta, f.parents, f.levels[i][j], key_at(front, i, j)));
            assert(f.levels[i].len() <= u64::MAX);
            lemma_journal_key((front + i) as u64, j as u64);
            if key_at(front, i, j) == key {
                lemma_journal_key_injective((front + i) as u64, j as u64, number, idx as u64);
            }
        }
    }
    assert forall|i: int| 0 <= i < g.levels.len() implies 0 < (#[trigger] g.levels[i]).len()
        <= u64::MAX by {
        if i != at {
            assert(g.levels[i] == f.levels[i]);
        }
    }
    assert forall|i: int| 0 <= i < g.levels.len() implies !meta2.contains_key(
        #[trigger] key_at(front, i, g.levels[i].len() as int),
    ) by {
        let l = g.levels[i].len() as int;
        lemma_journal_key((front + i) as u64, l as u64);
        if key_at(front, i, l) == key {
            lemma_journal_key_injective((front + i) as u64, l as u64, number, idx as u64);
        }
        if i != at {
            assert(g.levels[i] == f.levels[i]);
            assert(!meta.contains_key(key_at(f.front(), i, f.levels[i].len() as int)));
        } else {
            if meta.contains_key(journal_key((front + i) as u64, l as u64)) {
                assert(false);
            }
        }
    }
    if front + g.levels.len() <= u64::MAX {
        let l = g.levels.len() as int;
        lemma_journal_key((front + l) as u64, 0);
        if key_at(front, l, 0) == key {
            lemma_journal_key_injective((front + l) as u64, 0, number, idx as u64);
        }
        if meta.contains_key(journal_key((front + l) as u64, 0)) {
            assert(false);
        }
    }
    assert forall|block: u64, index: u64|
        meta2.contains_key(#[trigger] journal_key(block, index)) implies {
        &&& g.last_finalized is Some
        &&& g.front() <= block < g.front() + g.levels.len()
        &&& index < g.levels[block - g.front()].len()
    } by {
        lemma_journal_key(block, index);
        if journal_key(block, index) == key {
            lemma_journal_key_injective(block, index, number, idx as u64);
        } else {
            assert(meta.contains_key(journal_key(block, index)));
            let i = block - f.front();
            if i != at {
                assert(g.levels[i] == f.levels[i]);
            }
        }
    }
}

// ---------------------------------------------------------------- finalize

/// Some overlay of the levels with the journal key `key` has left the
/// parents.
pub open spec fn lost(
    levels: Seq<Seq<OverlayView>>,
    parents: Map<Seq<u8>, Seq<u8>>,
    key: Seq<u8>,
) -> bool {
    exists|i: int, j: int|
        0 <= i < levels.len() && 0 <= j < levels[i].len() && (#[trigger] levels[i][j]).journal_key
            == key && !parents.contains_key(levels[i][j].hash)
}

/// What holds of the journal keys while the front level is taken apart: the
/// keys noted are those of the overlays of the window that have left the
/// parents, but for the one that is being retired, whose key is noted last.
pub open spec fn keys_ok(
    p: Pruning,
    pending: Seq<OverlayView>,
    all: Seq<Seq<OverlayView>>,
    origin: Map<Seq<u8>, Seq<u8>>,
    owed: Set<Seq<u8>>,
) -> bool {
    &&& pruning_ok(p, pending, all.drop_first())
    &&& all.len() > 0
    &&& linked(all, origin)
    &&& forall|j: int| 0 <= j < pending.len() ==> all[0].contains(#[trigger] pending[j])
    &&& forall|h: Seq<u8>|
        #[trigger] p.parents.contains_key(h) ==> origin.contains_key(h) && p.parents[h] == origin[h]
    &&& forall|h: Seq<u8>| owed.contains(h) ==> !p.parents.contains_key(h)
    &&& forall|i: int, j: int|
        0 <= i < all.len() && 0 <= j < all[i].len() && !p.parents.contains_key(
            (#[trigger] all[i][j]).hash,
        ) && !owed.contains(all[i][j].hash) ==> p.keys.contains(all[i][j].journal_key)
    &&& forall|k: Seq<u8>| p.keys.contains(k) ==> lost(all, p.parents, k)
}

proof fn lemma_sweep_level_keys(
    p: Pruning,
    pending: Seq<OverlayView>,
    all: Seq<Seq<OverlayView>>,
    origin: Map<Seq<u8>, Seq<u8>>,
    owed: Set<Seq<u8>>,
    i: int,
)
    requires
        keys_ok(p, pending, all, origin, owed),
        0 <= i < p.levels.len(),
    ensures
        keys_ok(p.sweep_level(i), pending, all, origin, owed),
{
    let q = p.sweep_level(i);
    let level = p.levels[i];
    let cut = doomed_by(p.parents, p.discard);
    let gone = level.filter(cut);
    let cut_hashes = hashes_of(gone);
    let cut_keys = journal_keys_of(gone);
    let now = seq![pending] + p.levels;
    lemma_sweep_level_ok(p, pending, all.drop_first(), i);
    assert(distinct_hashes(level)) by {
        assert forall|a: int, b: int|
            0 <= a < level.len() && 0 <= b < level.len() && a != b implies (#[trigger] level[a]).hash
            != (#[trigger] level[b]).hash by {
            assert(now[i + 1][a].hash != now[i + 1][b].hash);
        }
    }
    lemma_filter_keeps_distinct(level, cut);
    // what is cut is an overlay of the window, on the level behind the front
    assert forall|c: int| 0 <= c < gone.len() implies all[i + 1].contains(#[trigger] gone[c]) by {
        assert(level.contains(gone[c]));
        let d = choose|d: int| 0 <= d < level.len() && level[d] == gone[c];
        let behind = all.drop_first()[i];
        assert(behind.contains(p.levels[i][d]));
        let b = choose|b: int| 0 <= b < behind.len() && behind[b] == level[d];
        assert(all[i + 1][b] == gone[c]);
    }
    assert forall|h: Seq<u8>| #[trigger] q.parents.contains_key(h) implies origin.contains_key(h)
        && q.parents[h] == origin[h] by {
        assert(p.parents.contains_key(h));
    }
    assert forall|h: Seq<u8>| owed.contains(h) implies !q.parents.contains_key(h) by {
        if q.parents.contains_key(h) {
            assert(p.parents.contains_key(h));
        }
    }
    assert forall|a: int, b: int|
        0 <= a < all.len() && 0 <= b < all[a].len() && !q.parents.contains_key(
            (#[trigger] all[a][b]).hash,
        ) && !owed.contains(all[a][b].hash) implies q.keys.contains(all[a][b].journal_key) by {
        let x = all[a][b];
        if !p.parents.contains_key(x.hash) {
            assert(p.keys.contains(all[a][b].journal_key));
            let c = choose|c: int| 0 <= c < p.keys.len() && p.keys[c] == x.journal_key;
            assert(q.keys[c] == x.journal_key);
        } else {
            assert(cut_hashes.to_set().contains(x.hash));
            let c = choose|c: int| 0 <= c < cut_hashes.len() && cut_hashes[c] == x.hash;
            assert(gone[c].hash == x.hash);
            let behind = all[i + 1];
            assert(behind.contains(gone[c]));
            let b1 = choose|b1: int| 0 <= b1 < behind.len() && behind[b1] == gone[c];
            assert(all[i + 1][b1].hash == all[a][b].hash);
            assert(a == i + 1 && b == b1);
            assert(cut_keys[c] == x.journal_key);
            assert(q.keys[p.keys.len() + c] == x.journal_key);
        }
    }
    assert forall|k: Seq<u8>| q.keys.contains(k) implies lost(all, q.parents, k) by {
        let c = choose|c: int| 0 <= c < q.keys.len() && q.keys[c] == k;
        if c < p.keys.len() {
            assert(p.keys[c] == k);
            assert(p.keys.contains(k));
            assert(lost(all, p.parents, k));
            let (a, b) = choose|a: int, b: int|
                0 <= a < all.len() && 0 <= b < all[a].len() && (#[trigger] all[a][b]).journal_key
                    == k && !p.parents.contains_key(all[a][b].hash);
            assert(all[a][b].journal_key == k && !q.parents.contains_key(all[a][b].hash));
        } else {
            let c1 = c - p.keys.len();
            assert(cut_keys[c1] == k);
            let behind = all[i + 1];
            assert(behind.contains(gone[c1]));
            let b1 = choose|b1: int| 0 <= b1 < behind.len() && behind[b1] == gone[c1];
            assert(cut_hashes[c1] == gone[c1].hash);
            assert(cut_hashes.to_set().contains(gone[c1].hash));
            assert(all[i + 1][b1].journal_key == k && !q.parents.contains_key(
                all[i + 1][b1].hash,
            ));
        }
    }
}

proof fn lemma_sweep_keys(
    p: Pruning,
    pending: Seq<OverlayView>,
    all: Seq<Seq<OverlayView>>,
    origin: Map<Seq<u8>, Seq<u8>>,
    owed: Set<Seq<u8>>,
    k: nat,
)
    requires
        keys_ok(p, pending, all, origin, owed),
        k <= p.levels.len(),
    ensures
        keys_ok(p.sweep(k), pending, all, origin, owed),
    decreases k,
{
    if k > 0 {
        lemma_sweep_keys(p, pending, all, origin, owed, (k - 1) as nat);
        lemma_sweep_level_keys(p.sweep((k - 1) as nat), pending, all, origin, owed, k - 1);
    }
}

proof fn lemma_retire_keys(
    p: Pruning,
    pending: Seq<OverlayView>,
    all: Seq<Seq<OverlayView>>,
    origin: Map<Seq<u8>, Seq<u8>>,
    wins: bool,
)
    requires
        keys_ok(p, pending, all, origin, Set::empty()),
        pending.len() > 0,
    ensures
        keys_ok(p.retire(pending[0], wins), pending.drop_first(), all, origin, Set::empty()),
{
    let o = pending[0];
    let rest = pending.drop_first();
    let owed = set![o.hash];
    let start = Pruning {
        levels: p.levels,
        parents: p.parents.remove(o.hash),
        discard: seq![o.hash],
        keys: p.keys,
    };
    lemma_retire_ok(p, pending, all.drop_first(), true);
    assert(pruning_ok(start, rest, all.drop_first()));
    assert(all[0].contains(pending[0]));
    let b0 = choose|b0: int| 0 <= b0 < all[0].len() && all[0][b0] == o;
    assert forall|j: int| 0 <= j < rest.len() implies all[0].contains(#[trigger] rest[j]) by {
        assert(rest[j] == pending[j + 1]);
    }
    assert forall|k: Seq<u8>| start.keys.contains(k) implies lost(all, start.parents, k) by {
        assert(lost(all, p.parents, k));
        let (a, b) = choose|a: int, b: int|
            0 <= a < all.len() && 0 <= b < all[a].len() && (#[trigger] all[a][b]).journal_key == k
                && !p.parents.contains_key(all[a][b].hash);
        assert(all[a][b].journal_key == k && !start.parents.contains_key(all[a][b].hash));
    }
    assert(keys_ok(start, rest, all, origin, owed));
    let swept = if wins {
        start
    } else {
        start.sweep(start.levels.len())
    };
    if !wins {
        lemma_sweep_keys(start, rest, all, origin, owed, start.levels.len());
        lemma_sweep_ok(start, rest, all.drop_first(), start.levels.len());
    }
    let q = p.retire(o, wins);
    assert(q.keys == swept.keys.push(o.journal_key));
    assert(!swept.parents.contains_key(o.hash)) by {
        assert(owed.contains(o.hash));
    }
    assert forall|a: int, b: int|
        0 <= a < all.len() && 0 <= b < all[a].len() && !q.parents.contains_key(
            (#[trigger] all[a][b]).hash,
        ) && !Set::<Seq<u8>>::empty().contains(all[a][b].hash) implies q.keys.contains(
        all[a][b].journal_key,
    ) by {
        let x = all[a][b];
        if x.hash == o.hash {
            assert(all[a][b].hash == all[0][b0].hash);
            assert(a == 0 && b == b0);
            assert(q.keys[swept.keys.len() as int] == x.journal_key);
        } else {
            assert(!owed.contains(x.hash));
            assert(swept.keys.contains(all[a][b].journal_key));
            let c = choose|c: int| 0 <= c < swept.keys.len() && swept.keys[c] == x.journal_key;
            assert(q.keys[c] == x.journal_key);
        }
    }
    assert forall|k: Seq<u8>| q.keys.contains(k) implies lost(all, q.parents, k) by {
        let c = choose|c: int| 0 <= c < q.keys.len() && q.keys[c] == k;
        if c < swept.keys.len() {
            assert(swept.keys[c] == k);
            assert(swept.keys.contains(k));
            assert(lost(all, swept.parents, k));
        } else {
            assert(all[0][b0].journal_key == k && !q.parents.contains_key(all[0][b0].hash));
        }
    }
}

proof fn lemma_retire_front_keys(
    start: Pruning,
    front: Seq<OverlayView>,
    winner: int,
    all: Seq<Seq<OverlayView>>,
    origin: Map<Seq<u8>, Seq<u8>>,
    k: nat,
)
    requires
        keys_ok(start, front, all, origin, Set::empty()),
        k <= front.len(),
    ensures
        keys_ok(
            start.retire_front(front, winner, k),
            front.skip(k as int),
            all,
            origin,
            Set::empty(),
        ),
    decreases k,
{
    if k == 0 {
        assert(front.skip(0) =~= front);
    } else {
        lemma_retire_front_keys(start, front, winner, all, origin, (k - 1) as nat);
        let p = start.retire_front(front, winner, (k - 1) as nat);
        let pending = front.skip(k - 1);
        assert(pending[0] == front[k - 1]);
        lemma_retire_keys(p, pending, all, origin, k - 1 == winner);
        assert(pending.drop_first() =~= front.skip(k as int));
    }
}

/// What a finalization deletes from the journal: the records of the overlays
/// that have left the window, and no others. The parents that stay are as
/// they were.
pub proof fn lemma_finalize_deletes(f: ForestView, hash: Seq<u8>)
    requires
        f.wf(),
        f.can_finalize(hash),
    ensures
        forall|h: Seq<u8>|
            #[trigger] f.finalized(hash).parents.contains_key(h) ==> f.parents.contains_key(h)
                && f.finalized(hash).parents[h] == f.parents[h],
        forall|i: int, j: int|
            0 <= i < f.levels.len() && 0 <= j < f.levels[i].len() && !f.finalized(
                hash,
            ).parents.contains_key((#[trigger] f.levels[i][j]).hash)
                ==> f.finalize_commit(hash).meta.deleted.contains(f.levels[i][j].journal_key),
        forall|k: Seq<u8>|
            f.finalize_commit(hash).meta.deleted.contains(k) ==> lost(
                f.levels,
                f.finalized(hash).parents,
                k,
            ),
{
    let front = f.levels[0];
    let start = Pruning {
        levels: f.levels.drop_first(),
        parents: f.parents,
        discard: Seq::empty(),
        keys: Seq::empty(),
    };
    assert(seq![front] + start.levels =~= f.levels);
    assert forall|i: int, j: int|
        0 <= i < start.levels.len() && 0 <= j < start.levels[i].len()
        implies f.levels.drop_first()[i].contains(#[trigger] start.levels[i][j]) by {}
    assert forall|j: int| 0 <= j < front.len() implies f.levels[0].contains(
        #[trigger] front[j],
    ) by {}
    assert forall|i: int, j: int|
        0 <= i < f.levels.len() && 0 <= j < f.levels[i].len() && !start.parents.contains_key(
            (#[trigger] f.levels[i][j]).hash,
        ) implies start.keys.contains(f.levels[i][j].journal_key) by {
        assert(f.parents.contains_key(f.levels[i][j].hash));
    }
    lemma_retire_front_keys(start, front, f.winner(hash), f.levels, f.parents, front.len());
}

/// After a finalization whose writes were made, the store holds the journal
/// of the window exactly when what stays of every level is the beginning of
/// the level and no level is left empty.
pub proof fn lemma_finalize_keeps_journal<B: hash::Hash, K: hash::Hash>(
    f: ForestView,
    meta: Map<Seq<u8>, Seq<u8>>,
    hash: Seq<u8>,
)
    requires
        f.wf(),
        journal_of::<B, K>(f, meta),
        f.can_finalize(hash),
    ensures
        journal_of::<B, K>(f.finalized(hash), f.finalize_commit(hash).meta.applied_to(meta))
            <==> keeps_beginnings(f, f.finalized(hash)) && no_level_empty(f.finalized(hash)),
{
    let g = f.finalized(hash);
    let commit = f.finalize_commit(hash);
    let meta2 = commit.meta.applied_to(meta);
    let keys = commit.meta.deleted;
    lemma_finalize_keeps_wf(f, hash);
    lemma_restored_is_aligned::<B, K>(f, meta);
    lemma_finalize_aligned_iff(f, hash);
    if journal_of::<B, K>(g, meta2) {
        lemma_restored_is_aligned::<B, K>(g, meta2);
    }
    if keeps_beginnings(f, g) && no_level_empty(g) {
        let front = f.front();
        let pointer = (last_finalized_key(), pointer_bytes(hash, front as u64));
        reveal_with_fuel(insert_all, 2);
        assert(commit.meta.inserted =~= seq![pointer]);
        assert(seq![pointer].drop_last() =~= Seq::<(Seq<u8>, Seq<u8>)>::empty());
        let middle = meta.insert(pointer.0, pointer.1);
        assert(insert_all(meta, commit.meta.inserted) == middle);
        lemma_remove_all(middle, keys);
        lemma_finalize_deletes(f, hash);

        // a key that goes is not the key of the pointer
        assert forall|k: Seq<u8>| keys.contains(k) implies k != last_finalized_key() by {
            assert(lost(f.levels, g.parents, k));
            let (a, b) = choose|a: int, b: int|
                0 <= a < f.levels.len() && 0 <= b < f.levels[a].len() && (
                #[trigger] f.levels[a][b]).journal_key == k && !g.parents.contains_key(
                    f.levels[a][b].hash,
                );
            assert(mirrors::<B, K>(meta, f.parents, f.levels[a][b], key_at(front, a, b)));
            lemma_journal_key((front + a) as u64, b as u64);
        }
        // the winner is an overlay of the front level, so its hash is an image
        let w = f.winner(hash);
        assert(is_first(f.levels[0], hash, w));
        assert(mirrors::<B, K>(meta, f.parents, f.levels[0][w], key_at(front, 0, w)));
        assert(is_image::<B>(hash));
        lemma_decode_pointer::<B>(hash, front as u64);
        assert(meta2.contains_key(last_finalized_key()));
        assert(meta2[last_finalized_key()] == pointer.1);

        // an overlay that stays is where it was, and so is its record
        assert forall|i: int, j: int|
            0 <= i < g.levels.len() && 0 <= j < g.levels[i].len() implies #[trigger] g.levels[i][j]
            == f.levels[i + 1][j] && j < f.levels[i + 1].len() by {
            assert(g.levels[i].is_prefix_of(f.levels[i + 1]));
            assert(g.levels[i][j] == f.levels[i + 1].subrange(0, g.levels[i].len() as int)[j]);
        }
        assert forall|i: int, j: int|
            0 <= i < g.levels.len() && 0 <= j < g.levels[i].len() implies mirrors::<B, K>(
            meta2,
            g.parents,
            #[trigger] g.levels[i][j],
            key_at(g.front(), i, j),
        ) by {
            let x = g.levels[i][j];
            let key = key_at(front, i + 1, j);
            assert(x == f.levels[i + 1][j]);
            assert(mirrors::<B, K>(meta, f.parents, f.levels[i + 1][j], key));
            assert(key_at(g.front(), i, j) == key);
            assert(g.parents.contains_key(g.levels[i][j].hash));
            lemma_journal_key((front + i + 1) as u64, j as u64);
            if keys.contains(key) {
                assert(lost(f.levels, g.parents, key));
                let (a, b) = choose|a: int, b: int|
                    0 <= a < f.levels.len() && 0 <= b < f.levels[a].len() && (
                    #[trigger] f.levels[a][b]).journal_key == key && !g.parents.contains_key(
                        f.levels[a][b].hash,
                    );
                assert(mirrors::<B, K>(meta, f.parents, f.levels[a][b], key_at(front, a, b)));
                assert(f.levels[a].len() <= u64::MAX);
                lemma_journal_key_injective(
                    (front + a) as u64,
                    b as u64,
                    (front + i + 1) as u64,
                    j as u64,
                );
                assert(false);
            }
            assert(meta2.contains_key(key) && meta2[key] == meta[key]);
        }
        assert forall|i: int| 0 <= i < g.levels.len() implies 0 < (#[trigger] g.levels[i]).len()
            <= u64::MAX by {
            assert(g.levels[i].is_prefix_of(f.levels[i + 1]));
            assert(f.levels[i + 1].len() <= u64::MAX);
        }
        // an overlay of the window that has stayed is where it was
        assert forall|a: int, b: int|
            0 <= a < f.levels.len() && 0 <= b < f.levels[a].len() && g.parents.contains_key(
                (#[trigger] f.levels[a][b]).hash,
            ) implies a >= 1 && b < g.levels[a - 1].len() by {
            let h = f.levels[a][b].hash;
            assert(occurs(g.levels, h));
            let (a1, b1) = choose|a1: int, b1: int|
                0 <= a1 < g.levels.len() && 0 <= b1 < g.levels[a1].len() && (
                #[trigger] g.levels[a1][b1]).hash == h;
            assert(g.levels[a1][b1] == f.levels[a1 + 1][b1]);
            assert(f.levels[a1 + 1][b1].hash == f.levels[a][b].hash);
        }
        assert forall|i: int| 0 <= i < g.levels.len() implies !meta2.contains_key(
            #[trigger] key_at(g.front(), i, g.levels[i].len() as int),
        ) by {
            let l = g.levels[i].len() as int;
            let key = key_at(front, i + 1, l);
            assert(key_at(g.front(), i, l) == key);
            assert(g.levels[i].is_prefix_of(f.levels[i + 1]));
            lemma_journal_key((front + i + 1) as u64, l as u64);
            if l < f.levels[i + 1].len() {
                let y = f.levels[i + 1][l];
                assert(mirrors::<B, K>(meta, f.parents, f.levels[i + 1][l], key));
                if g.parents.contains_key(f.levels[i + 1][l].hash) {
                    assert(false);
                }
                assert(keys.contains(f.levels[i + 1][l].journal_key));
            } else {
                assert(!meta.contains_key(key_at(front, i + 1, f.levels[i + 1].len() as int)));
            }
        }
        if g.front() + g.levels.len() <= u64::MAX {
            let l = g.levels.len() as int;
            assert(key_at(g.front(), l, 0) == key_at(front, l + 1, 0));
            lemma_journal_key((front + l + 1) as u64, 0);
        }
        assert forall|block: u64, index: u64|
            meta2.contains_key(#[trigger] journal_key(block, index)) implies {
            &&& g.last_finalized is Some
            &&& g.front() <= block < g.front() + g.levels.len()
            &&& index < g.levels[block - g.front()].len()
        } by {
            lemma_journal_key(block, index);
            let key = journal_key(block, index);
            assert(middle.contains_key(key) && !keys.contains(key));
            assert(meta.contains_key(key));
            let a = block - front;
            let b = index as int;
            assert(mirrors::<B, K>(meta, f.parents, f.levels[a][b], key_at(front, a, b)));
            assert(f.levels[a][b].journal_key == key);
            if !g.parents.contains_key(f.levels[a][b].hash) {
                assert(keys.contains(f.levels[a][b].journal_key));
            }
        }
    }
}

} // verus!
