//! What it means to rebuild the window from its journal.
//!
//! The journal of a window is the pointer to the last final block and, for
//! every level, the records of its blocks under the indices 0, 1, 2 and so
//! on. Reading goes on while records are found: the first index without a
//! record ends a level, and the first level without a record ends the forest.

use crate::forest::{occurs, overlay_of, ForestView, OverlayView};
use crate::hash;
use crate::invariants::lemma_materialize_distinct;
use crate::journal::{
    decode_pointer, decode_record, journal_key, last_finalized_key, lemma_journal_key,
};
use crate::linear_map::distinct_keys;
use vstd::prelude::*;

verus! {

/// The journal key of the overlay at index `j` of level `i` of a window whose
/// front level has the block number `front`.
pub open spec fn key_at(front: int, i: int, j: int) -> Seq<u8> {
    journal_key((front + i) as u64, j as u64)
}

/// The store holds under `key` the record of the overlay `x`, and `parents`
/// has the parent that the record names.
pub open spec fn mirrors<B: hash::Hash, K: hash::Hash>(
    meta: Map<Seq<u8>, Seq<u8>>,
    parents: Map<Seq<u8>, Seq<u8>>,
    x: OverlayView,
    key: Seq<u8>,
) -> bool {
    &&& meta.contains_key(key)
    &&& match decode_record::<B, K>(meta[key]) {
        Some(record) => {
            &&& x == overlay_of(record, key)
            &&& parents.contains_key(record.hash)
            &&& parents[record.hash] == record.parent_hash
        },
        None => false,
    }
}

/// Every overlay of the levels is that of the record under its level and
/// index, `parents` has the parents that the records name and no others, and
/// no two overlays have the same hash.
pub open spec fn recorded<B: hash::Hash, K: hash::Hash>(
    meta: Map<Seq<u8>, Seq<u8>>,
    levels: Seq<Seq<OverlayView>>,
    parents: Map<Seq<u8>, Seq<u8>>,
    front: int,
) -> bool {
    &&& forall|i: int, j: int|
        0 <= i < levels.len() && 0 <= j < levels[i].len() ==> mirrors::<B, K>(
            meta,
            parents,
            #[trigger] levels[i][j],
            key_at(front, i, j),
        )
    &&& forall|h: Seq<u8>| #[trigger] parents.contains_key(h) ==> occurs(levels, h)
    &&& forall|i: int, j: int, i2: int, j2: int|
        0 <= i < levels.len() && 0 <= j < levels[i].len() && 0 <= i2 < levels.len() && 0 <= j2
            < levels[i2].len() && (i != i2 || j != j2) ==> (#[trigger] levels[i][j]).hash != (
        #[trigger] levels[i2][j2]).hash
}

/// `f` is the window that the journal in `meta` holds: the store has no
/// pointer and `f` is empty; or the pointer names the last final block of
/// `f`, every overlay of `f` is that of the record under its level and index,
/// every level and the forest end where the records end, `f` has the parents
/// that the records name, and no two of its overlays have the same hash.
pub open spec fn restores<B: hash::Hash, K: hash::Hash>(
    f: ForestView,
    meta: Map<Seq<u8>, Seq<u8>>,
) -> bool {
    match f.last_finalized {
        None => {
            &&& !meta.contains_key(last_finalized_key())
            &&& f.levels.len() == 0
            &&& f.parents == Map::<Seq<u8>, Seq<u8>>::empty()
        },
        Some(last) => {
            &&& meta.contains_key(last_finalized_key())
            &&& decode_pointer::<B>(meta[last_finalized_key()]) == Some(last)
            &&& f.levels.len() > 0 ==> f.front() + f.levels.len() - 1 <= u64::MAX
            &&& forall|i: int|
                0 <= i < f.levels.len() ==> 0 < (#[trigger] f.levels[i]).len() <= u64::MAX
            &&& recorded::<B, K>(meta, f.levels, f.parents, f.front())
            &&& forall|i: int|
                0 <= i < f.levels.len() ==> !meta.contains_key(
                    #[trigger] key_at(f.front(), i, f.levels[i].len() as int),
                )
            &&& f.front() + f.levels.len() <= u64::MAX ==> !meta.contains_key(
                key_at(f.front(), f.levels.len() as int, 0),
            )
        },
    }
}

/// A journal holds at most one window.
pub proof fn lemma_restores_unique<B: hash::Hash, K: hash::Hash>(
    f: ForestView,
    g: ForestView,
    meta: Map<Seq<u8>, Seq<u8>>,
)
    requires
        restores::<B, K>(f, meta),
        restores::<B, K>(g, meta),
    ensures
        f == g,
{
    if f.last_finalized is Some {
        let front = f.front();
        assert(g.front() == front);
        // the forests end at the same level
        if f.levels.len() < g.levels.len() {
            let l = f.levels.len() as int;
            assert(mirrors::<B, K>(meta, g.parents, g.levels[l][0], key_at(front, l, 0)));
            assert(false);
        }
        if g.levels.len() < f.levels.len() {
            let l = g.levels.len() as int;
            assert(mirrors::<B, K>(meta, f.parents, f.levels[l][0], key_at(front, l, 0)));
            assert(false);
        }
        assert forall|i: int| 0 <= i < f.levels.len() implies #[trigger] f.levels[i]
            =~= g.levels[i] by {
            let a = f.levels[i];
            let b = g.levels[i];
            if a.len() < b.len() {
                let l = a.len() as int;
                assert(mirrors::<B, K>(meta, g.parents, g.levels[i][l], key_at(front, i, l)));
                assert(!meta.contains_key(key_at(front, i, f.levels[i].len() as int)));
                assert(false);
            }
            if b.len() < a.len() {
                let l = b.len() as int;
                assert(mirrors::<B, K>(meta, f.parents, f.levels[i][l], key_at(front, i, l)));
                assert(!meta.contains_key(key_at(front, i, g.levels[i].len() as int)));
                assert(false);
            }
            assert forall|j: int| 0 <= j < a.len() implies a[j] == b[j] by {
                assert(mirrors::<B, K>(meta, f.parents, f.levels[i][j], key_at(front, i, j)));
                assert(mirrors::<B, K>(meta, g.parents, g.levels[i][j], key_at(front, i, j)));
            }
        }
        assert(f.levels =~= g.levels);
        lemma_same_parents::<B, K>(f, g, meta);
        lemma_same_parents::<B, K>(g, f, meta);
        assert(f.parents =~= g.parents);
    } else {
        assert(f.levels =~= g.levels);
    }
}

proof fn lemma_same_parents<B: hash::Hash, K: hash::Hash>(
    f: ForestView,
    g: ForestView,
    meta: Map<Seq<u8>, Seq<u8>>,
)
    requires
        restores::<B, K>(f, meta),
        restores::<B, K>(g, meta),
        f.last_finalized is Some,
        f.levels == g.levels,
        f.front() == g.front(),
    ensures
        forall|h: Seq<u8>|
            f.parents.contains_key(h) ==> g.parents.contains_key(h) && g.parents[h]
                == f.parents[h],
{
    assert forall|h: Seq<u8>| f.parents.contains_key(h) implies g.parents.contains_key(h)
        && g.parents[h] == f.parents[h] by {
        assert(occurs(f.levels, h));
        let (i, j) = choose|i: int, j: int|
            0 <= i < f.levels.len() && 0 <= j < f.levels[i].len() && (
            #[trigger] f.levels[i][j]).hash == h;
        assert(mirrors::<B, K>(meta, f.parents, f.levels[i][j], key_at(f.front(), i, j)));
        assert(mirrors::<B, K>(meta, g.parents, g.levels[i][j], key_at(g.front(), i, j)));
    }
}

/// What a journal holds is a window, given that it has finitely many
/// parents.
pub proof fn lemma_restored_is_wf<B: hash::Hash, K: hash::Hash>(
    f: ForestView,
    meta: Map<Seq<u8>, Seq<u8>>,
)
    requires
        restores::<B, K>(f, meta),
        f.parents.dom().finite(),
    ensures
        f.wf(),
{
    if f.last_finalized is Some {
        assert forall|i: int, j: int|
            0 <= i < f.levels.len() && 0 <= j < f.levels[i].len() implies f.parents.contains_key(
            (#[trigger] f.levels[i][j]).hash,
        ) && f.names_level(i, f.levels[i][j].journal_key) && distinct_keys(
            f.levels[i][j].values,
        ) by {
            let key = key_at(f.front(), i, j);
            assert(mirrors::<B, K>(meta, f.parents, f.levels[i][j], key));
            let record = decode_record::<B, K>(meta[key]).unwrap();
            lemma_materialize_distinct(record.inserted);
            lemma_journal_key((f.front() + i) as u64, j as u64);
        }
    }
}

/// A window that a journal holds reaches as far as the records do: where
/// `done` and `partial` were read from the journal and one more record
/// follows, the window has all of them, and the next one too.
pub proof fn lemma_journal_reaches<B: hash::Hash, K: hash::Hash>(
    f: ForestView,
    meta: Map<Seq<u8>, Seq<u8>>,
    done: Seq<Seq<OverlayView>>,
    partial: Seq<OverlayView>,
    parents: Map<Seq<u8>, Seq<u8>>,
)
    requires
        restores::<B, K>(f, meta),
        f.last_finalized is Some,
        recorded::<B, K>(meta, done.push(partial), parents, f.front()),
        forall|i: int| 0 <= i < done.len() ==> (#[trigger] done[i]).len() > 0,
        meta.contains_key(key_at(f.front(), done.len() as int, partial.len() as int)),
        f.front() + done.len() <= u64::MAX,
    ensures
        f.levels.len() > done.len(),
        f.levels[done.len() as int].len() > partial.len(),
        forall|i: int|
            0 <= i <= done.len() ==> (#[trigger] done.push(partial)[i]).len() <= f.levels[i].len(),
        forall|i: int, j: int|
            0 <= i <= done.len() && 0 <= j < done.push(partial)[i].len() ==> f.levels[i][j]
                == #[trigger] done.push(partial)[i][j],
{
    let front = f.front();
    let read = done.push(partial);
    let n = done.len() as int;
    // some record lies under index 0 of every level that was read
    assert forall|i: int| 0 <= i <= n implies meta.contains_key(#[trigger] key_at(front, i, 0)) by {
        if read[i].len() > 0 {
            assert(mirrors::<B, K>(meta, parents, read[i][0], key_at(front, i, 0)));
        }
    }
    if f.levels.len() <= n {
        assert(meta.contains_key(key_at(front, f.levels.len() as int, 0)));
        assert(false);
    }
    if f.levels[n].len() <= partial.len() {
        let l = f.levels[n].len() as int;
        if l < partial.len() {
            assert(mirrors::<B, K>(meta, parents, read[n][l], key_at(front, n, l)));
        }
        assert(!meta.contains_key(key_at(front, n, f.levels[n].len() as int)));
        assert(false);
    }
    assert forall|i: int| 0 <= i <= done.len() implies (#[trigger] done.push(partial)[i]).len()
        <= f.levels[i].len() by {
        if f.levels[i].len() < read[i].len() {
            let l = f.levels[i].len() as int;
            assert(mirrors::<B, K>(meta, parents, read[i][l], key_at(front, i, l)));
            assert(!meta.contains_key(key_at(front, i, f.levels[i].len() as int)));
            assert(false);
        }
    }
    assert forall|i: int, j: int|
        0 <= i <= done.len() && 0 <= j < done.push(partial)[i].len() implies f.levels[i][j]
        == #[trigger] done.push(partial)[i][j] by {
        assert(read[i].len() <= f.levels[i].len());
        assert(mirrors::<B, K>(meta, parents, read[i][j], key_at(front, i, j)));
        assert(mirrors::<B, K>(meta, f.parents, f.levels[i][j], key_at(front, i, j)));
    }
}

/// A level of which nothing was read yet adds nothing to what was read.
pub proof fn lemma_recorded_level_started<B: hash::Hash, K: hash::Hash>(
    meta: Map<Seq<u8>, Seq<u8>>,
    done: Seq<Seq<OverlayView>>,
    parents: Map<Seq<u8>, Seq<u8>>,
    front: int,
)
    ensures
        recorded::<B, K>(meta, done, parents, front) <==> recorded::<B, K>(
            meta,
            done.push(Seq::empty()),
            parents,
            front,
        ),
{
    let read = done.push(Seq::<OverlayView>::empty());
    assert forall|i: int, j: int| 0 <= i < read.len() && 0 <= j < read[i].len() implies 0 <= i
        < done.len() && #[trigger] read[i][j] == done[i][j] by {}
    if recorded::<B, K>(meta, done, parents, front) {
        assert forall|h: Seq<u8>| #[trigger] parents.contains_key(h) implies occurs(read, h) by {
            let (i, j) = choose|i: int, j: int|
                0 <= i < done.len() && 0 <= j < done[i].len() && (#[trigger] done[i][j]).hash
                    == h;
            assert(read[i][j].hash == h);
        }
        assert forall|i: int, j: int|
            0 <= i < read.len() && 0 <= j < read[i].len() implies mirrors::<B, K>(
            meta,
            parents,
            #[trigger] read[i][j],
            key_at(front, i, j),
        ) by {
            assert(mirrors::<B, K>(meta, parents, done[i][j], key_at(front, i, j)));
        }
        assert forall|i: int, j: int, i2: int, j2: int|
            0 <= i < read.len() && 0 <= j < read[i].len() && 0 <= i2 < read.len() && 0 <= j2
                < read[i2].len() && (i != i2 || j != j2) implies (#[trigger] read[i][j]).hash != (
        #[trigger] read[i2][j2]).hash by {
            assert(done[i][j].hash != done[i2][j2].hash);
        }
    }
    if recorded::<B, K>(meta, read, parents, front) {
        assert forall|i: int, j: int|
            0 <= i < done.len() && 0 <= j < done[i].len() implies #[trigger] done[i][j]
            == read[i][j] by {}
        assert forall|i: int, j: int|
            0 <= i < done.len() && 0 <= j < done[i].len() implies mirrors::<B, K>(
            meta,
            parents,
            #[trigger] done[i][j],
            key_at(front, i, j),
        ) by {
            assert(mirrors::<B, K>(meta, parents, read[i][j], key_at(front, i, j)));
        }
        assert forall|h: Seq<u8>| #[trigger] parents.contains_key(h) implies occurs(done, h) by {
            assert(occurs(read, h));
            let (a, b) = choose|a: int, b: int|
                0 <= a < read.len() && 0 <= b < read[a].len() && (#[trigger] read[a][b]).hash
                    == h;
            assert(done[a][b].hash == h);
        }
        assert forall|i: int, j: int, i2: int, j2: int|
            0 <= i < done.len() && 0 <= j < done[i].len() && 0 <= i2 < done.len() && 0 <= j2
                < done[i2].len() && (i != i2 || j != j2) implies (#[trigger] done[i][j]).hash != (
        #[trigger] done[i2][j2]).hash by {
            assert(read[i][j].hash != read[i2][j2].hash);
        }
    }
}

/// One more record was read: its overlay joins the level, and its parent
/// the parents.
pub proof fn lemma_recorded_next<B: hash::Hash, K: hash::Hash>(
    meta: Map<Seq<u8>, Seq<u8>>,
    done: Seq<Seq<OverlayView>>,
    partial: Seq<OverlayView>,
    parents: Map<Seq<u8>, Seq<u8>>,
    front: int,
)
    requires
        recorded::<B, K>(meta, done.push(partial), parents, front),
        meta.contains_key(key_at(front, done.len() as int, partial.len() as int)),
        decode_record::<B, K>(
            meta[key_at(front, done.len() as int, partial.len() as int)],
        ) is Some,
        !parents.contains_key(
            decode_record::<B, K>(
                meta[key_at(front, done.len() as int, partial.len() as int)],
            ).unwrap().hash,
        ),
    ensures
        ({
            let key = key_at(front, done.len() as int, partial.len() as int);
            let record = decode_record::<B, K>(meta[key]).unwrap();
            recorded::<B, K>(
                meta,
                done.push(partial.push(overlay_of(record, key))),
                parents.insert(record.hash, record.parent_hash),
                front,
            )
        }),
{
    let n = done.len() as int;
    let index = partial.len() as int;
    let key = key_at(front, n, index);
    let record = decode_record::<B, K>(meta[key]).unwrap();
    let x = overlay_of(record, key);
    let read = done.push(partial);
    let next = done.push(partial.push(x));
    let parents2 = parents.insert(record.hash, record.parent_hash);
    assert forall|i: int, j: int| 0 <= i < next.len() && 0 <= j < next[i].len() implies (i == n
        && j == index) || (0 <= i < read.len() && 0 <= j < read[i].len() && #[trigger] next[i][j]
        == read[i][j]) by {}
    assert(next[n][index] == x);
    // what was read before does not have the new hash
    assert forall|i: int, j: int| 0 <= i < read.len() && 0 <= j < read[i].len() implies (
    #[trigger] read[i][j]).hash != record.hash by {
        assert(mirrors::<B, K>(meta, parents, read[i][j], key_at(front, i, j)));
    }
    assert forall|i: int, j: int|
        0 <= i < next.len() && 0 <= j < next[i].len() implies mirrors::<B, K>(
        meta,
        parents2,
        #[trigger] next[i][j],
        key_at(front, i, j),
    ) by {
        if !(i == n && j == index) {
            assert(next[i][j] == read[i][j]);
            assert(mirrors::<B, K>(meta, parents, read[i][j], key_at(front, i, j)));
        }
    }
    assert forall|h: Seq<u8>| #[trigger] parents2.contains_key(h) implies occurs(next, h) by {
        if h == record.hash {
            assert(next[n][index].hash == h);
        } else {
            assert(occurs(read, h));
            let (a, b) = choose|a: int, b: int|
                0 <= a < read.len() && 0 <= b < read[a].len() && (#[trigger] read[a][b]).hash
                    == h;
            assert(next[a][b] == read[a][b]);
            assert(next[a][b].hash == h);
        }
    }
    assert forall|i: int, j: int, i2: int, j2: int|
        0 <= i < next.len() && 0 <= j < next[i].len() && 0 <= i2 < next.len() && 0 <= j2
            < next[i2].len() && (i != i2 || j != j2) implies (#[trigger] next[i][j]).hash != (
    #[trigger] next[i2][j2]).hash by {
        if i == n && j == index {
            assert(next[i2][j2] == read[i2][j2]);
        } else if i2 == n && j2 == index {
            assert(next[i][j] == read[i][j]);
        } else {
            assert(next[i][j] == read[i][j]);
            assert(next[i2][j2] == read[i2][j2]);
        }
    }
}

/// A journal with a record that cannot be read, or with a record of a block
/// that an earlier record is of, holds no window.
pub proof fn lemma_journal_holds_none<B: hash::Hash, K: hash::Hash>(
    meta: Map<Seq<u8>, Seq<u8>>,
    done: Seq<Seq<OverlayView>>,
    partial: Seq<OverlayView>,
    parents: Map<Seq<u8>, Seq<u8>>,
    last: (Seq<u8>, u64),
)
    requires
        meta.contains_key(last_finalized_key()),
        decode_pointer::<B>(meta[last_finalized_key()]) == Some(last),
        last.1 + 1 + done.len() <= u64::MAX,
        recorded::<B, K>(meta, done.push(partial), parents, last.1 + 1),
        forall|i: int| 0 <= i < done.len() ==> (#[trigger] done[i]).len() > 0,
        meta.contains_key(key_at(last.1 + 1, done.len() as int, partial.len() as int)),
        match decode_record::<B, K>(
            meta[key_at(last.1 + 1, done.len() as int, partial.len() as int)],
        ) {
            Some(record) => parents.contains_key(record.hash),
            None => true,
        },
    ensures
        forall|f: ForestView| !restores::<B, K>(f, meta),
{
    let front = last.1 + 1;
    let n = done.len() as int;
    let index = partial.len() as int;
    let key = key_at(front, n, index);
    let read = done.push(partial);
    assert forall|f: ForestView| !restores::<B, K>(f, meta) by {
        if restores::<B, K>(f, meta) {
            lemma_journal_reaches::<B, K>(f, meta, done, partial, parents);
            assert(mirrors::<B, K>(meta, f.parents, f.levels[n][index], key));
            let record = decode_record::<B, K>(meta[key]).unwrap();
            assert(occurs(read, record.hash));
            let (a, b) = choose|a: int, b: int|
                0 <= a < read.len() && 0 <= b < read[a].len() && (#[trigger] read[a][b]).hash
                    == record.hash;
            assert(f.levels[a][b] == read[a][b]);
            assert(f.levels[a][b].hash == f.levels[n][index].hash);
        }
    }
}

} // verus!
