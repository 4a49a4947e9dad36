//! Parents and levels: a block's parent is the last final block or a block of
//! the level before.
//!
//! `insert` lets a block name any block of the window as its parent, so a
//! window need not be chained. One that is stays so under every insert that
//! names a parent on the level before, and under every finalization.

use crate::changes::ChangeSetView;
use crate::forest::{
    doomed_by, hashes_of, is_first, linked, occurs, on_level, spared_by, ForestView,
    OverlayView, Pruning,
};
use crate::invariants::{
    distinct_hashes, lemma_filter_keeps_distinct, lemma_finalize_keeps_wf, lemma_retire_ok,
    lemma_sweep_level_ok, pruning_ok,
};
use vstd::prelude::*;

verus! {

/// The overlay `levels[i][j]` is the only one with the hash `hash`.
pub open spec fn is_the_place_of(
    levels: Seq<Seq<OverlayView>>,
    hash: Seq<u8>,
    i: int,
    j: int,
) -> bool {
    &&& 0 <= i < levels.len()
    &&& 0 <= j < levels[i].len()
    &&& levels[i][j].hash == hash
    &&& forall|i2: int, j2: int|
        0 <= i2 < levels.len() && 0 <= j2 < levels[i2].len() && (#[trigger] levels[i2][j2]).hash
            == hash ==> i2 == i && j2 == j
}

/// In a chained window every block that has a parent is the block of one
/// overlay and of no other, and its parent is the last final block or a
/// block of the level before its own.
pub proof fn lemma_parent_of(f: ForestView, hash: Seq<u8>) -> (place: (int, int))
    requires
        f.wf(),
        f.chained(),
        f.parents.contains_key(hash),
    ensures
        is_the_place_of(f.levels, hash, place.0, place.1),
        place.0 == 0 ==> f.last_finalized is Some && f.parents[hash] == f.last_finalized.unwrap().0,
        place.0 > 0 ==> on_level(f.levels[place.0 - 1], f.parents[hash]),
{
    assert(occurs(f.levels, hash));
    let (i, j) = choose|i: int, j: int|
        0 <= i < f.levels.len() && 0 <= j < f.levels[i].len() && (#[trigger] f.levels[i][j]).hash
            == hash;
    assert(f.hangs(i, f.levels[i][j].hash));
    assert forall|i2: int, j2: int|
        0 <= i2 < f.levels.len() && 0 <= j2 < f.levels[i2].len() && (
        #[trigger] f.levels[i2][j2]).hash == hash implies i2 == i && j2 == j by {
        if i2 != i || j2 != j {
            assert(f.levels[i][j].hash != f.levels[i2][j2].hash);
        }
    }
    (i, j)
}

/// A window that was never used is chained.
pub proof fn lemma_empty_is_chained()
    ensures
        ForestView::empty().chained(),
{
}

/// An insert on the front level, or with a parent on the level before, keeps
/// a window chained.
pub proof fn lemma_insert_keeps_chained(
    f: ForestView,
    hash: Seq<u8>,
    number: u64,
    parent_hash: Seq<u8>,
    changes: ChangeSetView,
)
    requires
        f.wf(),
        f.chained(),
        f.can_insert(hash, number, parent_hash),
        f.parent_is_near(number, parent_hash),
    ensures
        f.inserted(hash, number, parent_hash, changes).chained(),
{
    let g = f.inserted(hash, number, parent_hash, changes);
    let at = f.level_of(number);
    let idx = f.next_index(number);
    assert forall|i: int, j: int|
        0 <= i < g.levels.len() && 0 <= j < g.levels[i].len() implies g.hangs(
        i,
        (#[trigger] g.levels[i][j]).hash,
    ) by {
        if i == at && j == idx {
            if at > 0 {
                let below = f.levels[at - 1];
                let k = choose|k: int|
                    0 <= k < below.len() && (#[trigger] below[k]).hash == parent_hash;
                assert(g.levels[at - 1][k].hash == parent_hash);
            }
        } else {
            let x = f.levels[i][j];
            assert(g.levels[i][j] == x);
            assert(f.hangs(i, f.levels[i][j].hash));
            assert(f.parents.contains_key(f.levels[i][j].hash));
            if i > 0 {
                let below = f.levels[i - 1];
                let k = choose|k: int|
                    0 <= k < below.len() && (#[trigger] below[k]).hash == f.parents[x.hash];
                assert(g.levels[i - 1][k] == below[k]);
                assert(g.levels[i - 1][k].hash == f.parents[x.hash]);
            }
        }
    }
}

/// Where the parent `p` of a block of level `i` may be: among the roots for
/// the level behind the front, on the level before for the levels behind it.
pub open spec fn at_home(
    levels: Seq<Seq<OverlayView>>,
    roots: Set<Seq<u8>>,
    i: int,
    p: Seq<u8>,
) -> bool {
    if i == 0 {
        roots.contains(p)
    } else {
        on_level(levels[i - 1], p)
    }
}

/// Every block has its parent at home, or its parent goes.
pub open spec fn rooted(
    levels: Seq<Seq<OverlayView>>,
    parents: Map<Seq<u8>, Seq<u8>>,
    roots: Set<Seq<u8>>,
    discard: Seq<Seq<u8>>,
) -> bool {
    forall|i: int, j: int|
        0 <= i < levels.len() && 0 <= j < levels[i].len() ==> discard.contains(
            parents[(#[trigger] levels[i][j]).hash],
        ) || at_home(levels, roots, i, parents[levels[i][j].hash])
}

/// On the first `k` levels no block is left whose parent goes.
pub open spec fn clean(
    levels: Seq<Seq<OverlayView>>,
    parents: Map<Seq<u8>, Seq<u8>>,
    discard: Seq<Seq<u8>>,
    k: int,
) -> bool {
    forall|i: int, j: int|
        0 <= i < levels.len() && i < k && 0 <= j < levels[i].len() ==> !discard.contains(
            parents[(#[trigger] levels[i][j]).hash],
        )
}

/// The parents that are left are those that the window had.
pub open spec fn agrees(now: Map<Seq<u8>, Seq<u8>>, origin: Map<Seq<u8>, Seq<u8>>) -> bool {
    forall|h: Seq<u8>|
        #[trigger] now.contains_key(h) ==> origin.contains_key(h) && now[h] == origin[h]
}

/// A root is a block that is still to be retired, or one that has left the
/// parents.
pub open spec fn roots_ok(
    roots: Set<Seq<u8>>,
    pending: Seq<OverlayView>,
    parents: Map<Seq<u8>, Seq<u8>>,
) -> bool {
    forall|r: Seq<u8>|
        #[trigger] roots.contains(r) ==> on_level(pending, r) || !parents.contains_key(r)
}

/// What holds of the parents while one subtree is cut.
pub open spec fn chain_ok(
    p: Pruning,
    pending: Seq<OverlayView>,
    origin: Map<Seq<u8>, Seq<u8>>,
    roots: Set<Seq<u8>>,
    k: int,
) -> bool {
    &&& linked(seq![pending] + p.levels, p.parents)
    &&& agrees(p.parents, origin)
    &&& rooted(p.levels, origin, roots, p.discard)
    &&& clean(p.levels, origin, p.discard, k)
    &&& roots_ok(roots, pending, p.parents)
    &&& forall|d: Seq<u8>| p.discard.contains(d) ==> !p.parents.contains_key(d)
}

proof fn lemma_sweep_level_chain(
    p: Pruning,
    pending: Seq<OverlayView>,
    origin: Map<Seq<u8>, Seq<u8>>,
    roots: Set<Seq<u8>>,
    i: int,
)
    requires
        chain_ok(p, pending, origin, roots, i),
        0 <= i < p.levels.len(),
    ensures
        chain_ok(p.sweep_level(i), pending, origin, roots, i + 1),
{
    let q = p.sweep_level(i);
    let all = seq![pending] + p.levels;
    let level = p.levels[i];
    let keep = spared_by(p.parents, p.discard);
    let cut = doomed_by(p.parents, p.discard);
    let kept = level.filter(keep);
    let gone = level.filter(cut);
    let cut_hashes = hashes_of(gone);

    // the levels stay linked
    assert(pruning_ok(p, pending, p.levels)) by {
        assert forall|a: int, b: int|
            0 <= a < p.levels.len() && 0 <= b < p.levels[a].len() implies p.levels[a].contains(
            #[trigger] p.levels[a][b],
        ) by {}
    }
    lemma_sweep_level_ok(p, pending, p.levels, i);

    // the overlays of the level, and what becomes of them
    assert forall|b: int| 0 <= b < level.len() implies p.parents.contains_key(
        (#[trigger] level[b]).hash,
    ) && p.parents[level[b].hash] == origin[level[b].hash] by {
        assert(all[i + 1][b] == level[b]);
        assert(p.parents.contains_key(all[i + 1][b].hash));
    }
    assert(distinct_hashes(level)) by {
        assert forall|a: int, b: int|
            0 <= a < level.len() && 0 <= b < level.len() && a != b implies (#[trigger] level[a]).hash
            != (#[trigger] level[b]).hash by {
            assert(all[i + 1][a].hash != all[i + 1][b].hash);
        }
    }
    lemma_filter_keeps_distinct(level, keep);
    lemma_filter_keeps_distinct(level, cut);

    // a hash that is cut is the hash of an overlay of the level
    assert forall|h: Seq<u8>| cut_hashes.contains(h) implies on_level(level, h) by {
        let c = choose|c: int| 0 <= c < cut_hashes.len() && cut_hashes[c] == h;
        assert(gone[c].hash == h);
        assert(level.contains(gone[c]));
        let d = choose|d: int| 0 <= d < level.len() && level[d] == gone[c];
        assert(level[d].hash == h);
    }

    // every overlay of the new levels is one of the old levels, on its level
    assert forall|a: int, b: int| 0 <= a < q.levels.len() && 0 <= b < q.levels[a].len() implies {
        &&& p.levels[a].contains(#[trigger] q.levels[a][b])
        &&& a == i ==> !p.discard.contains(origin[q.levels[a][b].hash])
    } by {
        if a == i {
            let x = kept[b];
            assert(level.contains(x));
            let b0 = choose|b0: int| 0 <= b0 < level.len() && level[b0] == x;
            assert(keep(x));
            assert(p.parents.contains_key(level[b0].hash));
        } else {
            assert(q.levels[a][b] == p.levels[a][b]);
        }
    }

    assert forall|h: Seq<u8>| #[trigger] q.parents.contains_key(h) implies origin.contains_key(h)
        && q.parents[h] == origin[h] by {
        assert(p.parents.contains_key(h));
    }

    assert forall|d: Seq<u8>| q.discard.contains(d) implies !q.parents.contains_key(d) by {
        let c = choose|c: int| 0 <= c < q.discard.len() && q.discard[c] == d;
        if c < p.discard.len() {
            assert(p.discard[c] == d);
            assert(p.discard.contains(d));
        } else {
            assert(cut_hashes[c - p.discard.len()] == d);
        }
    }

    assert forall|r: Seq<u8>| #[trigger] roots.contains(r) implies on_level(pending, r)
        || !q.parents.contains_key(r) by {
        if q.parents.contains_key(r) {
            assert(p.parents.contains_key(r));
        }
    }

    // a parent that was at home and does not go is at home still
    assert forall|a: int, b: int|
        0 <= a < q.levels.len() && 0 <= b < q.levels[a].len() implies q.discard.contains(
        origin[(#[trigger] q.levels[a][b]).hash],
    ) || at_home(q.levels, roots, a, origin[q.levels[a][b].hash]) by {
        let x = q.levels[a][b];
        let par = origin[x.hash];
        assert(p.levels[a].contains(x));
        let b0 = choose|b0: int| 0 <= b0 < p.levels[a].len() && p.levels[a][b0] == x;
        assert(p.discard.contains(origin[p.levels[a][b0].hash]) || at_home(
            p.levels,
            roots,
            a,
            origin[p.levels[a][b0].hash],
        ));
        if p.discard.contains(par) {
            let c = choose|c: int| 0 <= c < p.discard.len() && p.discard[c] == par;
            assert(q.discard[c] == par);
        } else if a == i + 1 {
            // the parent was on level `i`: it stays, or it goes with this cut
            let k = choose|k: int| 0 <= k < level.len() && (#[trigger] level[k]).hash == par;
            if cut(level[k]) {
                level.lemma_filter_contains(cut, k);
                let c = choose|c: int| 0 <= c < gone.len() && gone[c] == level[k];
                assert(cut_hashes[c] == par);
                assert(q.discard[p.discard.len() + c] == par);
            } else {
                assert(keep(level[k]));
                level.lemma_filter_contains(keep, k);
                let c = choose|c: int| 0 <= c < kept.len() && kept[c] == level[k];
                assert(q.levels[i][c].hash == par);
            }
        } else if a > 0 {
            let below = p.levels[a - 1];
            let k = choose|k: int| 0 <= k < below.len() && (#[trigger] below[k]).hash == par;
            assert(q.levels[a - 1][k].hash == par);
        }
    }

    // what is clean stays clean: what goes now is of level `i`, and no parent
    // of a block of the levels up to `i` is
    assert forall|a: int, b: int|
        0 <= a < q.levels.len() && a < i + 1 && 0 <= b < q.levels[a].len()
        implies !q.discard.contains(origin[(#[trigger] q.levels[a][b]).hash]) by {
        let x = q.levels[a][b];
        let par = origin[x.hash];
        assert(p.levels[a].contains(x));
        let b0 = choose|b0: int| 0 <= b0 < p.levels[a].len() && p.levels[a][b0] == x;
        assert(!p.discard.contains(origin[p.levels[a][b0].hash]));
        assert(at_home(p.levels, roots, a, origin[p.levels[a][b0].hash]));
        if q.discard.contains(par) {
            let c = choose|c: int| 0 <= c < q.discard.len() && q.discard[c] == par;
            if c < p.discard.len() {
                assert(p.discard[c] == par);
                assert(false);
            }
            assert(cut_hashes[c - p.discard.len()] == par);
            assert(cut_hashes.contains(par));
            let d = choose|d: int| 0 <= d < level.len() && (#[trigger] level[d]).hash == par;
            assert(all[i + 1][d].hash == par);
            if a == 0 {
                assert(roots.contains(par));
                if on_level(pending, par) {
                    let k = choose|k: int|
                        0 <= k < pending.len() && (#[trigger] pending[k]).hash == par;
                    assert(all[0][k].hash == par);
                    assert(false);
                } else {
                    assert(p.parents.contains_key(all[i + 1][d].hash));
                    assert(false);
                }
            } else {
                let below = p.levels[a - 1];
                let k = choose|k: int| 0 <= k < below.len() && (#[trigger] below[k]).hash == par;
                assert(all[a][k].hash == par);
                assert(false);
            }
        }
    }
}

proof fn lemma_sweep_chain(
    p: Pruning,
    pending: Seq<OverlayView>,
    origin: Map<Seq<u8>, Seq<u8>>,
    roots: Set<Seq<u8>>,
    k: nat,
)
    requires
        chain_ok(p, pending, origin, roots, 0),
        k <= p.levels.len(),
    ensures
        chain_ok(p.sweep(k), pending, origin, roots, k as int),
        p.sweep(k).levels.len() == p.levels.len(),
    decreases k,
{
    if k > 0 {
        lemma_sweep_chain(p, pending, origin, roots, (k - 1) as nat);
        lemma_sweep_level_chain(p.sweep((k - 1) as nat), pending, origin, roots, k - 1);
    }
}

/// Between two cuts: every block has its parent at home.
pub open spec fn settled(
    p: Pruning,
    pending: Seq<OverlayView>,
    origin: Map<Seq<u8>, Seq<u8>>,
    roots: Set<Seq<u8>>,
) -> bool {
    &&& linked(seq![pending] + p.levels, p.parents)
    &&& agrees(p.parents, origin)
    &&& rooted(p.levels, origin, roots, Seq::empty())
    &&& roots_ok(roots, pending, p.parents)
}

proof fn lemma_retire_chain(
    p: Pruning,
    pending: Seq<OverlayView>,
    origin: Map<Seq<u8>, Seq<u8>>,
    roots: Set<Seq<u8>>,
    wins: bool,
)
    requires
        settled(p, pending, origin, roots),
        pending.len() > 0,
    ensures
        settled(
            p.retire(pending[0], wins),
            pending.drop_first(),
            origin,
            if wins {
                roots
            } else {
                roots.remove(pending[0].hash)
            },
        ),
{
    let o = pending[0];
    let rest = pending.drop_first();
    let all = seq![pending] + p.levels;
    let roots2 = if wins {
        roots
    } else {
        roots.remove(o.hash)
    };
    let start = Pruning {
        levels: p.levels,
        parents: p.parents.remove(o.hash),
        discard: seq![o.hash],
        keys: p.keys,
    };
    assert(pruning_ok(p, pending, p.levels)) by {
        assert forall|a: int, b: int|
            0 <= a < p.levels.len() && 0 <= b < p.levels[a].len() implies p.levels[a].contains(
            #[trigger] p.levels[a][b],
        ) by {}
    }
    lemma_retire_ok(p, pending, p.levels, true);
    assert(linked(seq![rest] + start.levels, start.parents));
    assert(all[0][0] == o);
    assert forall|r: Seq<u8>| #[trigger] roots2.contains(r) implies on_level(rest, r)
        || !start.parents.contains_key(r) by {
        if start.parents.contains_key(r) {
            assert(p.parents.contains_key(r));
            assert(on_level(pending, r));
            let k = choose|k: int| 0 <= k < pending.len() && (#[trigger] pending[k]).hash == r;
            assert(k != 0);
            assert(rest[k - 1].hash == r);
        }
    }
    assert forall|a: int, b: int|
        0 <= a < start.levels.len() && 0 <= b < start.levels[a].len()
        implies start.discard.contains(origin[(#[trigger] start.levels[a][b]).hash]) || at_home(
        start.levels,
        roots2,
        a,
        origin[start.levels[a][b].hash],
    ) by {
        let par = origin[start.levels[a][b].hash];
        assert(Seq::<Seq<u8>>::empty().contains(origin[p.levels[a][b].hash]) || at_home(
            p.levels,
            roots,
            a,
            origin[p.levels[a][b].hash],
        ));
        if a == 0 && par == o.hash {
            assert(start.discard[0] == par);
        }
    }
    assert forall|d: Seq<u8>| start.discard.contains(d) implies !start.parents.contains_key(d) by {
        let c = choose|c: int| 0 <= c < start.discard.len() && start.discard[c] == d;
        assert(d == o.hash);
    }
    if wins {
        assert forall|a: int, b: int|
            0 <= a < start.levels.len() && 0 <= b < start.levels[a].len() implies Seq::<
            Seq<u8>,
        >::empty().contains(origin[(#[trigger] start.levels[a][b]).hash]) || at_home(
            start.levels,
            roots2,
            a,
            origin[start.levels[a][b].hash],
        ) by {
            assert(Seq::<Seq<u8>>::empty().contains(origin[p.levels[a][b].hash]) || at_home(
                p.levels,
                roots,
                a,
                origin[p.levels[a][b].hash],
            ));
        }
    } else {
        assert(chain_ok(start, rest, origin, roots2, 0));
        lemma_sweep_chain(start, rest, origin, roots2, start.levels.len());
        let end = start.sweep(start.levels.len());
        assert forall|a: int, b: int|
            0 <= a < end.levels.len() && 0 <= b < end.levels[a].len() implies Seq::<
            Seq<u8>,
        >::empty().contains(origin[(#[trigger] end.levels[a][b]).hash]) || at_home(
            end.levels,
            roots2,
            a,
            origin[end.levels[a][b].hash],
        ) by {
            assert(!end.discard.contains(origin[end.levels[a][b].hash]));
            assert(end.discard.contains(origin[end.levels[a][b].hash]) || at_home(
                end.levels,
                roots2,
                a,
                origin[end.levels[a][b].hash],
            ));
        }
    }
}

/// The blocks that a block behind the front level may have as its parent
/// when the first `k` overlays of the front level are retired: those that
/// are still to be retired, and the winner.
pub open spec fn roots_after(front: Seq<OverlayView>, winner: int, k: int) -> Set<Seq<u8>> {
    Set::new(
        |h: Seq<u8>|
            (exists|a: int| k <= a < front.len() && (#[trigger] front[a]).hash == h) || (0
                <= winner < k && winner < front.len() && front[winner].hash == h),
    )
}

proof fn lemma_retire_front_chain(
    start: Pruning,
    front: Seq<OverlayView>,
    winner: int,
    origin: Map<Seq<u8>, Seq<u8>>,
    k: nat,
)
    requires
        settled(start, front, origin, roots_after(front, winner, 0)),
        0 <= winner < front.len(),
        k <= front.len(),
    ensures
        settled(
            start.retire_front(front, winner, k),
            front.skip(k as int),
            origin,
            roots_after(front, winner, k as int),
        ),
    decreases k,
{
    if k == 0 {
        assert(front.skip(0) =~= front);
    } else {
        lemma_retire_front_chain(start, front, winner, origin, (k - 1) as nat);
        let p = start.retire_front(front, winner, (k - 1) as nat);
        let pending = front.skip(k - 1);
        let o = front[k - 1];
        let wins = k - 1 == winner;
        assert(pending[0] == o);
        let roots = roots_after(front, winner, k - 1);
        lemma_retire_chain(p, pending, origin, roots, wins);
        assert(pending.drop_first() =~= front.skip(k as int));
        let roots2 = if wins {
            roots
        } else {
            roots.remove(o.hash)
        };
        let q = p.retire(o, wins);
        // the roots after this step are among those that the cut has left
        let next = roots_after(front, winner, k as int);
        assert forall|h: Seq<u8>| next.contains(h) implies roots2.contains(h) by {
            if exists|a: int| k <= a < front.len() && (#[trigger] front[a]).hash == h {
                let a = choose|a: int| k <= a < front.len() && (#[trigger] front[a]).hash == h;
                assert(roots.contains(h));
                // the hash of a block that is still to be retired is not that of `o`
                let all = seq![pending] + p.levels;
                assert(all[0][a - (k - 1)] == front[a]);
                assert(all[0][0] == o);
                assert(all[0][a - (k - 1)].hash != all[0][0].hash);
            } else {
                assert(front[winner].hash == h);
                if wins {
                    assert(front[k - 1].hash == h);
                    assert(roots.contains(h));
                } else {
                    assert(roots.contains(h));
                    // the winner has left the parents; `o` has not
                    assert(!on_level(pending, h) ==> !p.parents.contains_key(h));
                    let all = seq![pending] + p.levels;
                    assert(all[0][0] == o);
                    assert(p.parents.contains_key(all[0][0].hash));
                    if on_level(pending, h) {
                        let b = choose|b: int|
                            0 <= b < pending.len() && (#[trigger] pending[b]).hash == h;
                        // the winner stood before `o` on the front level
                        assert(all[0][b] == pending[b]);
                        lemma_front_distinct(start, front, origin, roots_after(front, winner, 0));
                        assert(front[k - 1 + b] == pending[b]);
                        assert(false);
                    }
                }
            }
        }
        assert forall|h: Seq<u8>| roots2.contains(h) && !next.contains(h) implies false by {
            assert(roots.contains(h));
            if exists|a: int| k - 1 <= a < front.len() && (#[trigger] front[a]).hash == h {
                let a = choose|a: int| k - 1 <= a < front.len() && (#[trigger] front[a]).hash == h;
                if a == k - 1 {
                    if wins {
                        assert(next.contains(h));
                    }
                } else {
                    assert(next.contains(h));
                }
            }
        }
        assert(roots2 =~= next);
    }
}

/// The overlays of the front level have distinct hashes.
proof fn lemma_front_distinct(
    start: Pruning,
    front: Seq<OverlayView>,
    origin: Map<Seq<u8>, Seq<u8>>,
    roots: Set<Seq<u8>>,
)
    requires
        settled(start, front, origin, roots),
    ensures
        distinct_hashes(front),
{
    let all = seq![front] + start.levels;
    assert forall|a: int, b: int|
        0 <= a < front.len() && 0 <= b < front.len() && a != b implies (#[trigger] front[a]).hash
        != (#[trigger] front[b]).hash by {
        assert(all[0][a].hash != all[0][b].hash);
    }
}

/// A finalization keeps a window chained.
pub proof fn lemma_finalize_keeps_chained(f: ForestView, hash: Seq<u8>)
    requires
        f.wf(),
        f.chained(),
        f.can_finalize(hash),
    ensures
        f.finalized(hash).chained(),
{
    let g = f.finalized(hash);
    let front = f.levels[0];
    let winner = f.winner(hash);
    assert(is_first(front, hash, winner));
    let start = Pruning {
        levels: f.levels.drop_first(),
        parents: f.parents,
        discard: Seq::empty(),
        keys: Seq::empty(),
    };
    let roots = roots_after(front, winner, 0);
    assert(seq![front] + start.levels =~= f.levels);
    assert forall|r: Seq<u8>| #[trigger] roots.contains(r) implies on_level(front, r)
        || !start.parents.contains_key(r) by {
        let a = choose|a: int| 0 <= a < front.len() && (#[trigger] front[a]).hash == r;
        assert(front[a].hash == r);
    }
    assert forall|a: int, b: int|
        0 <= a < start.levels.len() && 0 <= b < start.levels[a].len() implies Seq::<
        Seq<u8>,
    >::empty().contains(f.parents[(#[trigger] start.levels[a][b]).hash]) || at_home(
        start.levels,
        roots,
        a,
        f.parents[start.levels[a][b].hash],
    ) by {
        let x = start.levels[a][b];
        assert(f.levels[a + 1][b] == x);
        assert(f.hangs(a + 1, f.levels[a + 1][b].hash));
        let par = f.parents[x.hash];
        let below = f.levels[a];
        let k = choose|k: int| 0 <= k < below.len() && (#[trigger] below[k]).hash == par;
        if a == 0 {
            assert(front[k].hash == par);
            assert(roots.contains(par));
        } else {
            assert(start.levels[a - 1][k].hash == par);
        }
    }
    lemma_retire_front_chain(start, front, winner, f.parents, front.len());
    lemma_finalize_keeps_wf(f, hash);
    let end = f.pruned(hash);
    let last = roots_after(front, winner, front.len() as int);
    assert forall|i: int, j: int|
        0 <= i < g.levels.len() && 0 <= j < g.levels[i].len() implies g.hangs(
        i,
        (#[trigger] g.levels[i][j]).hash,
    ) by {
        let x = g.levels[i][j];
        assert(g.parents.contains_key(g.levels[i][j].hash));
        assert(g.parents[x.hash] == f.parents[x.hash]);
        assert(Seq::<Seq<u8>>::empty().contains(f.parents[end.levels[i][j].hash]) || at_home(
            end.levels,
            last,
            i,
            f.parents[end.levels[i][j].hash],
        ));
        if i == 0 {
            assert(last.contains(f.parents[x.hash]));
        }
    }
}

} // verus!
