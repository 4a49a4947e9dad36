//! Laws of the window: what follows from the contracts of its operations.

use crate::changes::{insert_all, ChangeSetView};
use crate::forest::{
    count, hashes_of, is_first, materialize, occurs, ForestView, OverlayView, Pruning,
};
use crate::hash;
use crate::invariants::{lemma_finalize_keeps_wf, lemma_materialize_distinct};
use crate::linear_map::{
    as_map, distinct_keys, has_key, index_of_key, lemma_as_map_push, lemma_as_map_update,
};
use crate::journal::{lemma_journal_key, parse_journal_key};
use crate::replay::{key_at, mirrors, restores};
use vstd::prelude::*;
use vstd::seq_lib::lemma_no_dup_in_concat;

verus! {

// ------------------------------------------------------- one parent each

/// The hashes of all overlays, level after level.
pub open spec fn all_hashes(levels: Seq<Seq<OverlayView>>) -> Seq<Seq<u8>>
    decreases levels.len(),
{
    if levels.len() == 0 {
        Seq::empty()
    } else {
        all_hashes(levels.drop_last()) + hashes_of(levels.last())
    }
}

proof fn lemma_all_hashes(levels: Seq<Seq<OverlayView>>)
    ensures
        all_hashes(levels).len() == count(levels),
        forall|h: Seq<u8>| all_hashes(levels).contains(h) <==> occurs(levels, h),
    decreases levels.len(),
{
    if levels.len() > 0 {
        let front = levels.drop_last();
        let last = levels.last();
        let n = front.len() as int;
        lemma_all_hashes(front);
        let a = all_hashes(front);
        let b = hashes_of(last);
        assert forall|h: Seq<u8>| all_hashes(levels).contains(h) <==> occurs(levels, h) by {
            if all_hashes(levels).contains(h) {
                let k = choose|k: int| 0 <= k < (a + b).len() && (a + b)[k] == h;
                if k < a.len() {
                    assert(a.contains(h));
                    assert(occurs(front, h));
                    let (i, j) = choose|i: int, j: int|
                        0 <= i < front.len() && 0 <= j < front[i].len() && (
                        #[trigger] front[i][j]).hash == h;
                    assert(levels[i][j].hash == h);
                } else {
                    assert(levels[n][k - a.len()].hash == h);
                }
            }
            if occurs(levels, h) {
                let (i, j) = choose|i: int, j: int|
                    0 <= i < levels.len() && 0 <= j < levels[i].len() && (
                    #[trigger] levels[i][j]).hash == h;
                if i < n {
                    assert(front[i][j].hash == h);
                    assert(occurs(front, h));
                    let k = choose|k: int| 0 <= k < a.len() && a[k] == h;
                    assert((a + b)[k] == h);
                } else {
                    assert(b[j] == h);
                    assert((a + b)[a.len() + j] == h);
                }
            }
        }
    }
}

proof fn lemma_all_hashes_distinct(levels: Seq<Seq<OverlayView>>)
    requires
        forall|i: int, j: int, i2: int, j2: int|
            0 <= i < levels.len() && 0 <= j < levels[i].len() && 0 <= i2 < levels.len() && 0 <= j2
                < levels[i2].len() && (i != i2 || j != j2) ==> (#[trigger] levels[i][j]).hash != (
            #[trigger] levels[i2][j2]).hash,
    ensures
        all_hashes(levels).no_duplicates(),
    decreases levels.len(),
{
    if levels.len() > 0 {
        let front = levels.drop_last();
        let last = levels.last();
        let n = front.len() as int;
        assert forall|i: int, j: int, i2: int, j2: int|
            0 <= i < front.len() && 0 <= j < front[i].len() && 0 <= i2 < front.len() && 0 <= j2
                < front[i2].len() && (i != i2 || j != j2) implies (#[trigger] front[i][j]).hash
            != (#[trigger] front[i2][j2]).hash by {
            assert(levels[i][j].hash != levels[i2][j2].hash);
        }
        lemma_all_hashes_distinct(front);
        lemma_all_hashes(front);
        let a = all_hashes(front);
        let b = hashes_of(last);
        assert forall|j: int, j2: int| 0 <= j < b.len() && 0 <= j2 < b.len() && j != j2 implies b[j]
            != b[j2] by {
            assert(levels[n][j].hash != levels[n][j2].hash);
        }
        assert forall|k: int, j: int| 0 <= k < a.len() && 0 <= j < b.len() implies a[k]
            != b[j] by {
            if a[k] == b[j] {
                assert(a.contains(b[j]));
                assert(occurs(front, b[j]));
                let (i, j0) = choose|i: int, j0: int|
                    0 <= i < front.len() && 0 <= j0 < front[i].len() && (
                    #[trigger] front[i][j0]).hash == b[j];
                assert(levels[i][j0].hash == levels[n][j].hash);
            }
        }
        lemma_no_dup_in_concat(a, b);
    }
}

/// A window has as many parents as it has overlays.
pub proof fn lemma_one_parent_each(f: ForestView)
    requires
        f.wf(),
    ensures
        f.parents.len() == count(f.levels),
{
    lemma_all_hashes(f.levels);
    lemma_all_hashes_distinct(f.levels);
    let all = all_hashes(f.levels);
    all.unique_seq_to_set();
    assert forall|h: Seq<u8>| all.to_set().contains(h) <==> f.parents.dom().contains(h) by {
        if occurs(f.levels, h) {
            let (i, j) = choose|i: int, j: int|
                0 <= i < f.levels.len() && 0 <= j < f.levels[i].len() && (
                #[trigger] f.levels[i][j]).hash == h;
            assert(f.parents.contains_key(f.levels[i][j].hash));
        }
    }
    assert(all.to_set() =~= f.parents.dom());
}

// ------------------------------------------------------- inserts as a map

/// Writing the inserts of a block as the window keeps them is writing them
/// as they were given: of two inserts of one key the later one counts.
pub proof fn lemma_later_insert_wins(m: Map<Seq<u8>, Seq<u8>>, inserted: Seq<(Seq<u8>, Seq<u8>)>)
    ensures
        as_map(materialize(inserted)) == insert_all(Map::empty(), inserted),
        insert_all(m, materialize(inserted)) == insert_all(m, inserted),
{
    lemma_materialize_as_map(inserted);
    lemma_materialize_distinct(inserted);
    lemma_insert_all_distinct(m, materialize(inserted));
    lemma_insert_all_over(m, inserted);
}

proof fn lemma_materialize_as_map(inserted: Seq<(Seq<u8>, Seq<u8>)>)
    ensures
        as_map(materialize(inserted)) == insert_all(Map::empty(), inserted),
    decreases inserted.len(),
{
    if inserted.len() == 0 {
        assert(as_map(materialize(inserted)) =~= Map::empty());
    } else {
        let front = materialize(inserted.drop_last());
        let e = inserted.last();
        lemma_materialize_as_map(inserted.drop_last());
        lemma_materialize_distinct(inserted.drop_last());
        if has_key(front, e.0) {
            let i = index_of_key(front, e.0);
            lemma_as_map_update(front, i, e.1);
        } else {
            lemma_as_map_push(front, e);
        }
    }
}

/// Writing inserts with distinct keys is laying their map over the store.
proof fn lemma_insert_all_distinct(m: Map<Seq<u8>, Seq<u8>>, entries: Seq<(Seq<u8>, Seq<u8>)>)
    requires
        distinct_keys(entries),
    ensures
        insert_all(m, entries) == m.union_prefer_right(as_map(entries)),
    decreases entries.len(),
{
    if entries.len() == 0 {
        assert(as_map(entries) =~= Map::empty());
        assert(m.union_prefer_right(Map::empty()) =~= m);
    } else {
        let front = entries.drop_last();
        let e = entries.last();
        assert forall|i: int, j: int|
            0 <= i < front.len() && 0 <= j < front.len() && i != j implies (#[trigger] front[i]).0
            != (#[trigger] front[j]).0 by {
            assert(front[i] == entries[i] && front[j] == entries[j]);
        }
        lemma_insert_all_distinct(m, front);
        if has_key(front, e.0) {
            let i = index_of_key(front, e.0);
            assert(entries[i].0 == entries[entries.len() - 1].0);
        }
        lemma_as_map_push(front, e);
        assert(front.push(e) =~= entries);
        assert(m.union_prefer_right(as_map(front)).insert(e.0, e.1) =~= m.union_prefer_right(
            as_map(front).insert(e.0, e.1),
        ));
    }
}

/// Writing inserts is laying over the store what they make of an empty one.
proof fn lemma_insert_all_over(m: Map<Seq<u8>, Seq<u8>>, inserted: Seq<(Seq<u8>, Seq<u8>)>)
    ensures
        insert_all(m, inserted) == m.union_prefer_right(insert_all(Map::empty(), inserted)),
    decreases inserted.len(),
{
    if inserted.len() == 0 {
        assert(m.union_prefer_right(Map::empty()) =~= m);
    } else {
        let e = inserted.last();
        lemma_insert_all_over(m, inserted.drop_last());
        let under = insert_all(Map::<Seq<u8>, Seq<u8>>::empty(), inserted.drop_last());
        assert(m.union_prefer_right(under).insert(e.0, e.1) =~= m.union_prefer_right(
            under.insert(e.0, e.1),
        ));
    }
}

// ------------------------------------------------------- levels and numbers

/// Level `i` of a window is the level of the block number `front() + i`:
/// that is the number in the journal key of each of its overlays, and it is
/// a number of 64 bits.
pub proof fn lemma_levels_are_numbered(f: ForestView, i: int, j: int)
    requires
        f.wf(),
        0 <= i < f.levels.len(),
        0 <= j < f.levels[i].len(),
    ensures
        f.front() + i <= u64::MAX,
        parse_journal_key(f.levels[i][j].journal_key) is Some,
        parse_journal_key(f.levels[i][j].journal_key).unwrap().0 == f.front() + i,
{
    assert(f.names_level(i, f.levels[i][j].journal_key));
}

/// An insert puts a block on the level of its number.
pub proof fn lemma_insert_goes_to_its_level(
    f: ForestView,
    hash: Seq<u8>,
    number: u64,
    parent_hash: Seq<u8>,
    changes: ChangeSetView,
)
    requires
        f.wf(),
        f.can_insert(hash, number, parent_hash),
    ensures
        ({
            let g = f.inserted(hash, number, parent_hash, changes);
            let i = number - g.front();
            &&& 0 <= i < g.levels.len()
            &&& g.levels[i].len() > 0
            &&& g.levels[i].last().hash == hash
        }),
{
}

// ------------------------------------------------------- the last of a level

/// Finalizing the only block of the front level takes that level away and
/// the block out of the parents, and nothing else; its journal record is
/// the only one to go. Where the front level was the only level, nothing is
/// left.
pub proof fn lemma_finalize_only_child(f: ForestView, hash: Seq<u8>)
    requires
        f.wf(),
        f.levels.len() > 0,
        f.levels[0].len() == 1,
        f.levels[0][0].hash == hash,
    ensures
        f.can_finalize(hash),
        f.finalized(hash).levels == f.levels.drop_first(),
        f.finalized(hash).parents == f.parents.remove(hash),
        f.finalize_commit(hash).meta.deleted == seq![f.levels[0][0].journal_key],
        f.levels.len() == 1 ==> f.finalized(hash).levels.len() == 0 && f.finalized(hash).parents
            == Map::<Seq<u8>, Seq<u8>>::empty(),
{
    let front = f.levels[0];
    assert(is_first(front, hash, 0));
    let w = f.winner(hash);
    assert(is_first(front, hash, w));
    assert(w == 0);
    reveal_with_fuel(Pruning::retire_front, 2);
    let end = f.pruned(hash);
    assert(end.keys =~= seq![front[0].journal_key]);
    if f.levels.len() == 1 {
        lemma_finalize_keeps_wf(f, hash);
        let g = f.finalized(hash);
        assert(g.levels.len() == 0);
        assert forall|h: Seq<u8>| !g.parents.contains_key(h) by {
            if g.parents.contains_key(h) {
                assert(occurs(g.levels, h));
            }
        }
        assert(g.parents =~= Map::<Seq<u8>, Seq<u8>>::empty());
    }
}

// ------------------------------------------------------- journal keys

/// A window that was never used has its journal keys in their places.
pub proof fn lemma_empty_is_aligned()
    ensures
        ForestView::empty().wf(),
        ForestView::empty().aligned(),
{
    assert(ForestView::empty().parents.dom() =~= Set::empty());
}

/// A window that a journal holds has its journal keys in their places.
pub proof fn lemma_restored_is_aligned<B: hash::Hash, K: hash::Hash>(
    f: ForestView,
    meta: Map<Seq<u8>, Seq<u8>>,
)
    requires
        restores::<B, K>(f, meta),
    ensures
        f.aligned(),
{
    if f.last_finalized is Some {
        assert forall|i: int, j: int|
            0 <= i < f.levels.len() && 0 <= j < f.levels[i].len() implies f.names_place(
            i,
            j,
            (#[trigger] f.levels[i][j]).journal_key,
        ) by {
            assert(f.levels[i].len() <= u64::MAX);
            assert(mirrors::<B, K>(meta, f.parents, f.levels[i][j], key_at(f.front(), i, j)));
            lemma_journal_key((f.front() + i) as u64, j as u64);
        }
    }
}

/// An insert puts the journal key of the new block in its place and leaves
/// the others in theirs.
pub proof fn lemma_insert_keeps_aligned(
    f: ForestView,
    hash: Seq<u8>,
    number: u64,
    parent_hash: Seq<u8>,
    changes: ChangeSetView,
)
    requires
        f.wf(),
        f.aligned(),
        f.can_insert(hash, number, parent_hash),
        f.next_index(number) <= u64::MAX,
    ensures
        f.inserted(hash, number, parent_hash, changes).aligned(),
{
    let g = f.inserted(hash, number, parent_hash, changes);
    let at = f.level_of(number);
    let idx = f.next_index(number);
    lemma_journal_key(number, idx as u64);
    assert forall|i: int, j: int|
        0 <= i < g.levels.len() && 0 <= j < g.levels[i].len() implies g.names_place(
        i,
        j,
        (#[trigger] g.levels[i][j]).journal_key,
    ) by {
        if !(i == at && j == idx) {
            assert(g.levels[i][j] == f.levels[i][j]);
            assert(f.names_place(i, j, f.levels[i][j].journal_key));
        }
    }
}

/// What stays of every level is the beginning of the level.
pub open spec fn keeps_beginnings(f: ForestView, g: ForestView) -> bool {
    &&& g.levels.len() + 1 == f.levels.len()
    &&& forall|i: int|
        0 <= i < g.levels.len() ==> (#[trigger] g.levels[i]).is_prefix_of(f.levels[i + 1])
}

/// After a finalization the journal keys are in their places exactly when
/// what stays of every level is the beginning of the level: an overlay that
/// stays behind one that went keeps a journal key of the place that it left.
pub proof fn lemma_finalize_aligned_iff(f: ForestView, hash: Seq<u8>)
    requires
        f.wf(),
        f.aligned(),
        f.can_finalize(hash),
    ensures
        f.finalized(hash).aligned() <==> keeps_beginnings(f, f.finalized(hash)),
{
    let g = f.finalized(hash);
    lemma_finalize_keeps_wf(f, hash);
    let origin = f.levels.drop_first();
    assert(g.front() == f.front() + 1);
    if keeps_beginnings(f, g) {
        assert forall|i: int, j: int|
            0 <= i < g.levels.len() && 0 <= j < g.levels[i].len() implies g.names_place(
            i,
            j,
            (#[trigger] g.levels[i][j]).journal_key,
        ) by {
            assert(g.levels[i].is_prefix_of(f.levels[i + 1]));
            assert(g.levels[i][j] == f.levels[i + 1].subrange(0, g.levels[i].len() as int)[j]);
            assert(f.names_place(i + 1, j, f.levels[i + 1][j].journal_key));
        }
    }
    if g.aligned() {
        assert forall|i: int| 0 <= i < g.levels.len() implies (#[trigger] g.levels[i]).is_prefix_of(
            f.levels[i + 1],
        ) by {
            let a = g.levels[i];
            let b = f.levels[i + 1];
            assert forall|j: int| 0 <= j < a.len() implies j < b.len() && #[trigger] a[j]
                == b[j] by {
                assert(origin[i].contains(g.levels[i][j]));
                let j0 = choose|j0: int| 0 <= j0 < origin[i].len() && origin[i][j0] == a[j];
                assert(f.levels[i + 1][j0] == a[j]);
                assert(f.names_place(i + 1, j0, f.levels[i + 1][j0].journal_key));
                assert(g.names_place(i, j, g.levels[i][j].journal_key));
            }
            if a.len() > b.len() {
                assert(a[b.len() as int] == b[b.len() as int]);
            }
            assert(a =~= b.subrange(0, a.len() as int));
        }
    }
}

} // verus!
