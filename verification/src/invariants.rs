//! What the operations of the window keep.

use crate::changes::ChangeSetView;
use crate::forest::{
    doomed_by, hashes_of, linked, materialize, occurs, spared_by, ForestView, OverlayView, Pruning,
};
use crate::journal::lemma_journal_key;
use crate::linear_map::{
    distinct_keys, has_key, index_of_key, lemma_as_map_push, lemma_as_map_update,
};
use vstd::prelude::*;

verus! {

/// The inserts of a block as a map have distinct keys.
pub proof fn lemma_materialize_distinct(inserted: Seq<(Seq<u8>, Seq<u8>)>)
    ensures
        distinct_keys(materialize(inserted)),
    decreases inserted.len(),
{
    if inserted.len() > 0 {
        let front = materialize(inserted.drop_last());
        let e = inserted.last();
        lemma_materialize_distinct(inserted.drop_last());
        if has_key(front, e.0) {
            let i = index_of_key(front, e.0);
            lemma_as_map_update(front, i, e.1);
        } else {
            lemma_as_map_push(front, e);
        }
    }
}

/// An insert that is allowed leaves a window a window.
pub proof fn lemma_insert_keeps_wf(
    f: ForestView,
    hash: Seq<u8>,
    number: u64,
    parent_hash: Seq<u8>,
    changes: ChangeSetView,
)
    requires
        f.wf(),
        f.can_insert(hash, number, parent_hash),
    ensures
        f.inserted(hash, number, parent_hash, changes).wf(),
{
    let g = f.inserted(hash, number, parent_hash, changes);
    let at = f.level_of(number);
    let idx = f.next_index(number);
    lemma_journal_key(number, idx as u64);
    lemma_materialize_distinct(changes.inserted);
    assert(g.levels.len() == if at < f.levels.len() { f.levels.len() } else { f.levels.len() + 1 });
    assert forall|i: int, j: int| 0 <= i < g.levels.len() && 0 <= j < g.levels[i].len() implies (i
        == at && j == idx) || (0 <= i < f.levels.len() && 0 <= j < f.levels[i].len()
        && #[trigger] g.levels[i][j] == f.levels[i][j]) by {}
    assert(g.levels[at][idx].hash == hash);
    assert forall|h: Seq<u8>| #[trigger] g.parents.contains_key(h) implies occurs(g.levels, h) by {
        if h == hash {
            assert(g.levels[at][idx].hash == h);
        } else {
            assert(occurs(f.levels, h));
            let (i, j) = choose|i: int, j: int|
                0 <= i < f.levels.len() && 0 <= j < f.levels[i].len() && (
                #[trigger] f.levels[i][j]).hash == h;
            assert(g.levels[i][j] == f.levels[i][j]);
        }
    }
    assert forall|i: int, j: int, i2: int, j2: int|
        0 <= i < g.levels.len() && 0 <= j < g.levels[i].len() && 0 <= i2 < g.levels.len() && 0
            <= j2 < g.levels[i2].len() && (i != i2 || j != j2) implies (
    #[trigger] g.levels[i][j]).hash != (#[trigger] g.levels[i2][j2]).hash by {
        if i == at && j == idx {
            assert(g.levels[i2][j2] == f.levels[i2][j2]);
        } else if i2 == at && j2 == idx {
            assert(g.levels[i][j] == f.levels[i][j]);
        } else {
            assert(g.levels[i][j] == f.levels[i][j]);
            assert(g.levels[i2][j2] == f.levels[i2][j2]);
        }
    }
    assert forall|i: int, j: int|
        0 <= i < g.levels.len() && 0 <= j < g.levels[i].len() implies g.names_level(
        i,
        (#[trigger] g.levels[i][j]).journal_key,
    ) by {
        if !(i == at && j == idx) {
            assert(g.levels[i][j] == f.levels[i][j]);
            assert(f.names_level(i, f.levels[i][j].journal_key));
        }
    }
}

/// No two overlays of the level have the same hash.
pub open spec fn distinct_hashes(level: Seq<OverlayView>) -> bool {
    forall|a: int, b: int|
        0 <= a < level.len() && 0 <= b < level.len() && a != b ==> (#[trigger] level[a]).hash != (
        #[trigger] level[b]).hash
}

/// What is left of a level after a cut is part of the level, and its hashes
/// are still distinct.
pub proof fn lemma_filter_keeps_distinct(s: Seq<OverlayView>, pred: spec_fn(OverlayView) -> bool)
    requires
        distinct_hashes(s),
    ensures
        distinct_hashes(s.filter(pred)),
        forall|a: int|
            0 <= a < s.filter(pred).len() ==> s.contains(#[trigger] s.filter(pred)[a]) && pred(
                s.filter(pred)[a],
            ),
    decreases s.len(),
{
    reveal(Seq::filter);
    if s.len() > 0 {
        let front = s.drop_last();
        let f = front.filter(pred);
        assert forall|a: int, b: int|
            0 <= a < front.len() && 0 <= b < front.len() && a != b implies (#[trigger] front[a]).hash
            != (#[trigger] front[b]).hash by {
            assert(front[a] == s[a] && front[b] == s[b]);
        }
        lemma_filter_keeps_distinct(front, pred);
        assert forall|a: int| 0 <= a < f.len() implies s.contains(#[trigger] f[a]) && f[a].hash
            != s.last().hash by {
            assert(front.contains(f[a]));
            let i = choose|i: int| 0 <= i < front.len() && front[i] == f[a];
            assert(s[i] == f[a]);
        }
        if pred(s.last()) {
            let g = s.filter(pred);
            assert(g == f.push(s.last()));
            assert(s[s.len() - 1] == s.last());
            assert forall|a: int| 0 <= a < g.len() implies s.contains(#[trigger] g[a]) && pred(
                g[a],
            ) by {
                if a < f.len() {
                    assert(g[a] == f[a]);
                }
            }
            assert forall|a: int, b: int|
                0 <= a < g.len() && 0 <= b < g.len() && a != b implies (#[trigger] g[a]).hash != (
            #[trigger] g[b]).hash by {
                if a < f.len() {
                    assert(g[a] == f[a]);
                }
                if b < f.len() {
                    assert(g[b] == f[b]);
                }
            }
        }
    }
}

/// Cutting overlays out of one level, and their entries out of `parents`,
/// keeps levels and parents linked.
pub proof fn lemma_cut_keeps_linked(
    levels: Seq<Seq<OverlayView>>,
    parents: Map<Seq<u8>, Seq<u8>>,
    i: int,
    keep: spec_fn(OverlayView) -> bool,
    cut: spec_fn(OverlayView) -> bool,
)
    requires
        linked(levels, parents),
        0 <= i < levels.len(),
        forall|o: OverlayView| #[trigger] keep(o) == !cut(o),
    ensures
        linked(
            levels.update(i, levels[i].filter(keep)),
            parents.remove_keys(hashes_of(levels[i].filter(cut)).to_set()),
        ),
{
    let level = levels[i];
    let kept = level.filter(keep);
    let gone = level.filter(cut);
    let cut_set = hashes_of(gone).to_set();
    let levels2 = levels.update(i, kept);
    let parents2 = parents.remove_keys(cut_set);
    assert(distinct_hashes(level)) by {
        assert forall|a: int, b: int|
            0 <= a < level.len() && 0 <= b < level.len() && a != b implies (#[trigger] level[a]).hash
            != (#[trigger] level[b]).hash by {
            assert(levels[i][a].hash != levels[i][b].hash);
        }
    }
    lemma_filter_keeps_distinct(level, keep);
    lemma_filter_keeps_distinct(level, cut);
    assert(parents2.dom() =~= parents.dom().difference(cut_set));

    // a hash of the cut set is the hash of an overlay of the level that is cut
    assert forall|h: Seq<u8>| cut_set.contains(h) implies exists|d: int|
        0 <= d < level.len() && (#[trigger] level[d]).hash == h && cut(level[d]) by {
        let c = choose|c: int| 0 <= c < hashes_of(gone).len() && hashes_of(gone)[c] == h;
        assert(gone[c].hash == h);
        assert(level.contains(gone[c]));
        let d = choose|d: int| 0 <= d < level.len() && level[d] == gone[c];
        assert(level[d].hash == h && cut(level[d]));
    }

    assert forall|a: int, b: int|
        0 <= a < levels2.len() && 0 <= b < levels2[a].len() implies parents2.contains_key(
        (#[trigger] levels2[a][b]).hash,
    ) by {
        let x = levels2[a][b];
        if cut_set.contains(x.hash) {
            let d = choose|d: int|
                0 <= d < level.len() && (#[trigger] level[d]).hash == x.hash && cut(level[d]);
            if a == i {
                assert(level.contains(kept[b]));
                let b0 = choose|b0: int| 0 <= b0 < level.len() && level[b0] == x;
                assert(keep(x));
                assert(levels[i][b0].hash == levels[i][d].hash);
            } else {
                assert(levels[a][b] == x);
                assert(levels[a][b].hash == levels[i][d].hash);
            }
            assert(false);
        }
        if a == i {
            assert(level.contains(kept[b]));
            let b0 = choose|b0: int| 0 <= b0 < level.len() && level[b0] == x;
            assert(parents.contains_key(levels[i][b0].hash));
        } else {
            assert(parents.contains_key(levels[a][b].hash));
        }
    }

    assert forall|a: int, b: int, a2: int, b2: int|
        0 <= a < levels2.len() && 0 <= b < levels2[a].len() && 0 <= a2 < levels2.len() && 0 <= b2
            < levels2[a2].len() && (a != a2 || b != b2) implies (#[trigger] levels2[a][b]).hash
        != (#[trigger] levels2[a2][b2]).hash by {
        let x = levels2[a][b];
        let y = levels2[a2][b2];
        if a == i && a2 == i {
            assert(kept[b].hash != kept[b2].hash);
        } else if a == i {
            assert(level.contains(kept[b]));
            let b0 = choose|b0: int| 0 <= b0 < level.len() && level[b0] == x;
            assert(levels[i][b0].hash != levels[a2][b2].hash);
        } else if a2 == i {
            assert(level.contains(kept[b2]));
            let b0 = choose|b0: int| 0 <= b0 < level.len() && level[b0] == y;
            assert(levels[a][b].hash != levels[i][b0].hash);
        } else {
            assert(levels[a][b].hash != levels[a2][b2].hash);
        }
    }

    assert forall|h: Seq<u8>| #[trigger] parents2.contains_key(h) implies occurs(levels2, h) by {
        assert(parents.contains_key(h));
        assert(occurs(levels, h));
        let (a0, b0) = choose|a0: int, b0: int|
            0 <= a0 < levels.len() && 0 <= b0 < levels[a0].len() && (
            #[trigger] levels[a0][b0]).hash == h;
        if a0 == i {
            let x = level[b0];
            if cut(x) {
                level.lemma_filter_contains(cut, b0);
                let c = choose|c: int| 0 <= c < gone.len() && gone[c] == x;
                assert(hashes_of(gone)[c] == h);
                assert(false);
            }
            assert(keep(x));
            level.lemma_filter_contains(keep, b0);
            let c = choose|c: int| 0 <= c < kept.len() && kept[c] == x;
            assert(levels2[i][c].hash == h);
        } else {
            assert(levels2[a0][b0].hash == h);
        }
    }
}

/// Every overlay of `now` is an overlay of the same level of `origin`.
pub open spec fn within(now: Seq<Seq<OverlayView>>, origin: Seq<Seq<OverlayView>>) -> bool {
    &&& now.len() == origin.len()
    &&& forall|i: int, j: int|
        0 <= i < now.len() && 0 <= j < now[i].len() ==> origin[i].contains(#[trigger] now[i][j])
}

/// What holds while the front level is taken apart: the overlays that are
/// still to be retired, and the levels behind, are linked with the parents,
/// and the levels behind hold nothing that they did not hold at the start.
pub open spec fn pruning_ok(
    p: Pruning,
    pending: Seq<OverlayView>,
    origin: Seq<Seq<OverlayView>>,
) -> bool {
    linked(seq![pending] + p.levels, p.parents) && within(p.levels, origin)
}

/// The cut of one level keeps what holds while the front level is taken
/// apart.
pub proof fn lemma_sweep_level_ok(
    p: Pruning,
    pending: Seq<OverlayView>,
    origin: Seq<Seq<OverlayView>>,
    i: int,
)
    requires
        pruning_ok(p, pending, origin),
        0 <= i < p.levels.len(),
    ensures
        pruning_ok(p.sweep_level(i), pending, origin),
{
    let all = seq![pending] + p.levels;
    let keep = spared_by(p.parents, p.discard);
    let cut = doomed_by(p.parents, p.discard);
    let q = p.sweep_level(i);
    assert(all[i + 1] == p.levels[i]);
    lemma_cut_keeps_linked(all, p.parents, i + 1, keep, cut);
    assert(all.update(i + 1, all[i + 1].filter(keep)) =~= seq![pending] + q.levels);
    assert(distinct_hashes(p.levels[i])) by {
        assert forall|a: int, b: int|
            0 <= a < p.levels[i].len() && 0 <= b < p.levels[i].len() && a != b implies (
        #[trigger] p.levels[i][a]).hash != (#[trigger] p.levels[i][b]).hash by {
            assert(all[i + 1][a].hash != all[i + 1][b].hash);
        }
    }
    lemma_filter_keeps_distinct(p.levels[i], keep);
    assert forall|a: int, b: int|
        0 <= a < q.levels.len() && 0 <= b < q.levels[a].len() implies origin[a].contains(
        #[trigger] q.levels[a][b],
    ) by {
        if a == i {
            let x = q.levels[a][b];
            assert(p.levels[i].contains(x));
            let b0 = choose|b0: int| 0 <= b0 < p.levels[i].len() && p.levels[i][b0] == x;
            assert(origin[i].contains(p.levels[i][b0]));
        } else {
            assert(q.levels[a][b] == p.levels[a][b]);
        }
    }
}

/// The cut of the first `k` levels keeps it.
pub proof fn lemma_sweep_ok(
    p: Pruning,
    pending: Seq<OverlayView>,
    origin: Seq<Seq<OverlayView>>,
    k: nat,
)
    requires
        pruning_ok(p, pending, origin),
        k <= p.levels.len(),
    ensures
        pruning_ok(p.sweep(k), pending, origin),
    decreases k,
{
    if k > 0 {
        lemma_sweep_ok(p, pending, origin, (k - 1) as nat);
        lemma_sweep_level_ok(p.sweep((k - 1) as nat), pending, origin, k - 1);
    }
}

/// Retiring the next overlay of the front level keeps it.
pub proof fn lemma_retire_ok(
    p: Pruning,
    pending: Seq<OverlayView>,
    origin: Seq<Seq<OverlayView>>,
    wins: bool,
)
    requires
        pruning_ok(p, pending, origin),
        pending.len() > 0,
    ensures
        pruning_ok(p.retire(pending[0], wins), pending.drop_first(), origin),
{
    let o = pending[0];
    let old_all = seq![pending] + p.levels;
    let rest = pending.drop_first();
    let start = Pruning {
        levels: p.levels,
        parents: p.parents.remove(o.hash),
        discard: seq![o.hash],
        keys: p.keys,
    };
    let all = seq![rest] + start.levels;
    assert(old_all[0][0] == o);
    assert forall|a: int, b: int| 0 <= a < all.len() && 0 <= b < all[a].len() implies {
        let b0 = if a == 0 { b + 1 } else { b };
        0 <= b0 < old_all[a].len() && #[trigger] all[a][b] == old_all[a][b0]
    } by {}
    assert forall|a: int, b: int|
        0 <= a < all.len() && 0 <= b < all[a].len() implies start.parents.contains_key(
        (#[trigger] all[a][b]).hash,
    ) by {
        let b0 = if a == 0 { b + 1 } else { b };
        assert(all[a][b] == old_all[a][b0]);
        assert(old_all[a][b0].hash != old_all[0][0].hash);
        assert(p.parents.contains_key(old_all[a][b0].hash));
    }
    assert forall|a: int, b: int, a2: int, b2: int|
        0 <= a < all.len() && 0 <= b < all[a].len() && 0 <= a2 < all.len() && 0 <= b2
            < all[a2].len() && (a != a2 || b != b2) implies (#[trigger] all[a][b]).hash != (
    #[trigger] all[a2][b2]).hash by {
        let b0 = if a == 0 { b + 1 } else { b };
        let b02 = if a2 == 0 { b2 + 1 } else { b2 };
        assert(all[a][b] == old_all[a][b0]);
        assert(all[a2][b2] == old_all[a2][b02]);
        assert(old_all[a][b0].hash != old_all[a2][b02].hash);
    }
    assert forall|h: Seq<u8>| #[trigger] start.parents.contains_key(h) implies occurs(all, h) by {
        assert(p.parents.contains_key(h));
        assert(occurs(old_all, h));
        let (a0, b0) = choose|a0: int, b0: int|
            0 <= a0 < old_all.len() && 0 <= b0 < old_all[a0].len() && (
            #[trigger] old_all[a0][b0]).hash == h;
        if a0 == 0 {
            assert(b0 != 0);
            assert(all[0][b0 - 1] == old_all[0][b0]);
            assert(all[0][b0 - 1].hash == h);
        } else {
            assert(all[a0][b0] == old_all[a0][b0]);
            assert(all[a0][b0].hash == h);
        }
    }
    assert(pruning_ok(start, rest, origin));
    if !wins {
        lemma_sweep_ok(start, rest, origin, start.levels.len());
    }
}

/// Retiring the first `k` overlays of the front level keeps it.
pub proof fn lemma_retire_front_ok(
    start: Pruning,
    front: Seq<OverlayView>,
    winner: int,
    origin: Seq<Seq<OverlayView>>,
    k: nat,
)
    requires
        pruning_ok(start, front, origin),
        k <= front.len(),
    ensures
        pruning_ok(start.retire_front(front, winner, k), front.skip(k as int), origin),
    decreases k,
{
    if k == 0 {
        assert(front.skip(0) =~= front);
    } else {
        lemma_retire_front_ok(start, front, winner, origin, (k - 1) as nat);
        let p = start.retire_front(front, winner, (k - 1) as nat);
        let pending = front.skip(k - 1);
        assert(pending[0] == front[k - 1]);
        lemma_retire_ok(p, pending, origin, k - 1 == winner);
        assert(pending.drop_first() =~= front.skip(k as int));
    }
}

/// A finalization that is allowed leaves a window a window, and every
/// overlay that stays is on the level on which it was.
pub proof fn lemma_finalize_keeps_wf(f: ForestView, hash: Seq<u8>)
    requires
        f.wf(),
        f.can_finalize(hash),
    ensures
        f.finalized(hash).wf(),
        within(f.finalized(hash).levels, f.levels.drop_first()),
{
    let g = f.finalized(hash);
    let front = f.levels[0];
    let origin = f.levels.drop_first();
    let start = Pruning {
        levels: origin,
        parents: f.parents,
        discard: Seq::empty(),
        keys: Seq::empty(),
    };
    assert(seq![front] + origin =~= f.levels);
    assert forall|i: int, j: int|
        0 <= i < origin.len() && 0 <= j < origin[i].len() implies origin[i].contains(
        #[trigger] origin[i][j],
    ) by {}
    lemma_retire_front_ok(start, front, f.winner(hash), origin, front.len());
    let end = f.pruned(hash);
    let pending = front.skip(front.len() as int);
    let all = seq![pending] + end.levels;
    assert(pending.len() == 0);
    assert forall|i: int, j: int| 0 <= i < g.levels.len() && 0 <= j < g.levels[i].len() implies (
    #[trigger] g.levels[i][j]) == all[i + 1][j] by {}
    assert forall|i: int, j: int|
        0 <= i < g.levels.len() && 0 <= j < g.levels[i].len() implies g.parents.contains_key(
        (#[trigger] g.levels[i][j]).hash,
    ) by {
        assert(g.parents.contains_key(all[i + 1][j].hash));
    }
    assert forall|i: int, j: int, i2: int, j2: int|
        0 <= i < g.levels.len() && 0 <= j < g.levels[i].len() && 0 <= i2 < g.levels.len() && 0
            <= j2 < g.levels[i2].len() && (i != i2 || j != j2) implies (
    #[trigger] g.levels[i][j]).hash != (#[trigger] g.levels[i2][j2]).hash by {
        assert(all[i + 1][j].hash != all[i2 + 1][j2].hash);
    }
    assert forall|h: Seq<u8>| #[trigger] g.parents.contains_key(h) implies occurs(g.levels, h) by {
        assert(occurs(all, h));
        let (a0, b0) = choose|a0: int, b0: int|
            0 <= a0 < all.len() && 0 <= b0 < all[a0].len() && (#[trigger] all[a0][b0]).hash == h;
        assert(a0 > 0);
        assert(g.levels[a0 - 1][b0] == all[a0][b0]);
        assert(g.levels[a0 - 1][b0].hash == h);
    }
    assert forall|i: int, j: int|
        0 <= i < g.levels.len() && 0 <= j < g.levels[i].len() implies g.names_level(
        i,
        (#[trigger] g.levels[i][j]).journal_key,
    ) && distinct_keys(g.levels[i][j].values) by {
        let x = g.levels[i][j];
        assert(origin[i].contains(x));
        let j0 = choose|j0: int| 0 <= j0 < origin[i].len() && origin[i][j0] == x;
        assert(f.levels[i + 1][j0] == x);
        assert(f.names_level(i + 1, f.levels[i + 1][j0].journal_key));
        assert(distinct_keys(f.levels[i + 1][j0].values));
    }
}

} // verus!
