//! What a finalization leaves of a chained window: the descendants of the
//! winner, each on its level, in their order.

use crate::chains::agrees;
use crate::forest::{
    descends, doomed_by, hashes_of, is_doomed, is_first, occurs, on_level, spared_by, ForestView,
    OverlayView, Pruning,
};
use crate::invariants::{
    distinct_hashes, lemma_filter_keeps_distinct, lemma_finalize_keeps_wf, lemma_retire_ok,
    lemma_sweep_level_ok, pruning_ok,
};
use vstd::prelude::*;

verus! {

/// Two conditions that agree on the overlays of a level pick the same.
pub proof fn lemma_filter_same(
    s: Seq<OverlayView>,
    p: spec_fn(OverlayView) -> bool,
    q: spec_fn(OverlayView) -> bool,
)
    requires
        forall|i: int| 0 <= i < s.len() ==> p(#[trigger] s[i]) == q(s[i]),
    ensures
        s.filter(p) == s.filter(q),
    decreases s.len(),
{
    reveal(Seq::filter);
    if s.len() > 0 {
        let front = s.drop_last();
        assert forall|i: int| 0 <= i < front.len() implies p(#[trigger] front[i]) == q(
            front[i],
        ) by {
            assert(front[i] == s[i]);
        }
        lemma_filter_same(front, p, q);
        assert(s.last() == s[s.len() - 1]);
    }
}

/// Picking twice is picking by both conditions.
pub proof fn lemma_filter_twice(
    s: Seq<OverlayView>,
    p: spec_fn(OverlayView) -> bool,
    q: spec_fn(OverlayView) -> bool,
    both: spec_fn(OverlayView) -> bool,
)
    requires
        forall|o: OverlayView| #[trigger] both(o) == (p(o) && q(o)),
    ensures
        s.filter(p).filter(q) == s.filter(both),
    decreases s.len(),
{
    reveal(Seq::filter);
    if s.len() > 0 {
        let front = s.drop_last();
        lemma_filter_twice(front, p, q, both);
        if p(s.last()) {
            front.filter(p).lemma_filter_push(s.last(), q);
        }
    }
}

/// In a chained window every block descends from a block of the front
/// level.
pub proof fn lemma_root_is_at_the_front(f: ForestView, i: int, hash: Seq<u8>)
    requires
        f.wf(),
        f.chained(),
        0 <= i < f.levels.len(),
        on_level(f.levels[i], hash),
    ensures
        on_level(f.levels[0], f.root_of(i, hash)),
    decreases i,
{
    if i > 0 {
        let level = f.levels[i];
        let j = choose|j: int| 0 <= j < level.len() && (#[trigger] level[j]).hash == hash;
        assert(f.hangs(i, f.levels[i][j].hash));
        lemma_root_is_at_the_front(f, i - 1, f.parents[hash]);
    }
}

/// The overlays of level `i` that descend from none of the blocks of `cut`.
pub open spec fn outside(f: ForestView, i: int, cut: Set<Seq<u8>>) -> spec_fn(OverlayView) -> bool {
    |o: OverlayView| !cut.contains(f.root_of(i, o.hash))
}

/// The levels behind the front hold what descends from none of the blocks of
/// `cut`.
pub open spec fn thinned(levels: Seq<Seq<OverlayView>>, f: ForestView, cut: Set<Seq<u8>>) -> bool {
    &&& levels.len() + 1 == f.levels.len()
    &&& forall|a: int|
        0 <= a < levels.len() ==> #[trigger] levels[a] == f.levels[a + 1].filter(
            outside(f, a + 1, cut),
        )
}

/// The block `h` is one of the first `k` levels and descends from `root`.
pub open spec fn below(
    levels: Seq<Seq<OverlayView>>,
    f: ForestView,
    root: Seq<u8>,
    k: int,
    h: Seq<u8>,
) -> bool {
    exists|a: int, b: int|
        0 <= a < k && a < levels.len() && 0 <= b < levels[a].len() && (
        #[trigger] levels[a][b]).hash == h && f.root_of(a + 1, h) == root
}

/// While the subtree of `root` is cut: the first `k` levels have lost what
/// descends from `root`, the others are as they were, and what goes is
/// `root` and what descended from it on the first `k` levels.
pub open spec fn sweeping(
    q: Pruning,
    start: Pruning,
    f: ForestView,
    root: Seq<u8>,
    k: int,
) -> bool {
    &&& q.levels.len() == start.levels.len()
    &&& forall|a: int|
        0 <= a < q.levels.len() ==> #[trigger] q.levels[a] == if a < k {
            start.levels[a].filter(outside(f, a + 1, set![root]))
        } else {
            start.levels[a]
        }
    &&& forall|h: Seq<u8>|
        #[trigger] q.discard.contains(h) <==> (h == root || below(start.levels, f, root, k, h))
}

proof fn lemma_sweep_level_descendants(
    q: Pruning,
    start: Pruning,
    pending: Seq<OverlayView>,
    f: ForestView,
    cut: Set<Seq<u8>>,
    root: Seq<u8>,
    k: int,
)
    requires
        f.wf(),
        f.chained(),
        thinned(start.levels, f, cut),
        !cut.contains(root),
        on_level(f.levels[0], root),
        pruning_ok(q, pending, f.levels.drop_first()),
        agrees(q.parents, f.parents),
        sweeping(q, start, f, root, k),
        0 <= k < q.levels.len(),
    ensures
        pruning_ok(q.sweep_level(k), pending, f.levels.drop_first()),
        agrees(q.sweep_level(k).parents, f.parents),
        sweeping(q.sweep_level(k), start, f, root, k + 1),
{
    let r = q.sweep_level(k);
    let level = q.levels[k];
    let keep = spared_by(q.parents, q.discard);
    let cut_now = doomed_by(q.parents, q.discard);
    let gone = level.filter(cut_now);
    let away = outside(f, k + 1, set![root]);
    let now = seq![pending] + q.levels;
    let whole = f.levels[k + 1];
    lemma_sweep_level_ok(q, pending, f.levels.drop_first(), k);
    assert forall|h: Seq<u8>| #[trigger] r.parents.contains_key(h) implies f.parents.contains_key(
        h,
    ) && r.parents[h] == f.parents[h] by {
        assert(q.parents.contains_key(h));
    }
    assert(level == start.levels[k]);
    assert(start.levels[k] == whole.filter(outside(f, k + 1, cut)));
    assert(distinct_hashes(whole)) by {
        assert forall|a: int, b: int|
            0 <= a < whole.len() && 0 <= b < whole.len() && a != b implies (#[trigger] whole[a]).hash
            != (#[trigger] whole[b]).hash by {
            assert(f.levels[k + 1][a].hash != f.levels[k + 1][b].hash);
        }
    }
    lemma_filter_keeps_distinct(whole, outside(f, k + 1, cut));
    lemma_filter_keeps_distinct(level, cut_now);

    // an overlay of the level goes exactly when it descends from the root
    assert forall|b: int| 0 <= b < level.len() implies is_doomed(
        #[trigger] level[b],
        q.parents,
        q.discard,
    ) == (f.root_of(k + 1, level[b].hash) == root) by {
        let x = level[b];
        assert(whole.contains(x));
        let b0 = choose|b0: int| 0 <= b0 < whole.len() && whole[b0] == x;
        assert(f.levels[k + 1][b0] == x);
        assert(f.hangs(k + 1, f.levels[k + 1][b0].hash));
        assert(now[k + 1][b] == x);
        assert(q.parents.contains_key(now[k + 1][b].hash));
        let par = f.parents[x.hash];
        assert(q.parents[x.hash] == par);
        assert(f.root_of(k + 1, x.hash) == f.root_of(k, par));
        if k == 0 {
            assert(f.root_of(0, par) == par);
            assert(!below(start.levels, f, root, 0, par));
        } else {
            let under = f.levels[k];
            let c = choose|c: int| 0 <= c < under.len() && (#[trigger] under[c]).hash == par;
            let y = under[c];
            assert(f.levels[k][c] == y);
            if q.discard.contains(par) {
                // the parent is behind the front level, so it is not the root
                let top = f.levels[0];
                let t = choose|t: int| 0 <= t < top.len() && (#[trigger] top[t]).hash == root;
                assert(f.levels[0][t].hash != f.levels[k][c].hash);
                assert(below(start.levels, f, root, k, par));
                let (a1, b1) = choose|a1: int, b1: int|
                    0 <= a1 < k && a1 < start.levels.len() && 0 <= b1 < start.levels[a1].len() && (
                    #[trigger] start.levels[a1][b1]).hash == par && f.root_of(a1 + 1, par) == root;
                let z = start.levels[a1][b1];
                let upper = f.levels[a1 + 1];
                assert(start.levels[a1] == upper.filter(outside(f, a1 + 1, cut)));
                assert(distinct_hashes(upper)) by {
                    assert forall|u: int, v: int|
                        0 <= u < upper.len() && 0 <= v < upper.len() && u != v implies (
                    #[trigger] upper[u]).hash != (#[trigger] upper[v]).hash by {
                        assert(f.levels[a1 + 1][u].hash != f.levels[a1 + 1][v].hash);
                    }
                }
                lemma_filter_keeps_distinct(upper, outside(f, a1 + 1, cut));
                assert(upper.contains(z));
                let b2 = choose|b2: int| 0 <= b2 < upper.len() && upper[b2] == z;
                assert(f.levels[a1 + 1][b2].hash == f.levels[k][c].hash);
                assert(a1 + 1 == k);
            }
            if f.root_of(k, par) == root {
                // the parent has stayed so far, so it is among what goes
                let kept_under = start.levels[k - 1];
                assert(kept_under == under.filter(outside(f, k, cut)));
                assert(outside(f, k, cut)(under[c]));
                under.lemma_filter_contains(outside(f, k, cut), c);
                let d = choose|d: int| 0 <= d < kept_under.len() && kept_under[d] == y;
                assert(start.levels[k - 1][d].hash == par);
                assert(below(start.levels, f, root, k, par));
            }
        }
    }
    assert forall|b: int| 0 <= b < level.len() implies keep(#[trigger] level[b]) == away(
        level[b],
    ) by {
        assert(is_doomed(level[b], q.parents, q.discard) == (f.root_of(k + 1, level[b].hash)
            == root));
    }
    lemma_filter_same(level, keep, away);
    assert forall|a: int| 0 <= a < r.levels.len() implies #[trigger] r.levels[a] == if a < k + 1 {
        start.levels[a].filter(outside(f, a + 1, set![root]))
    } else {
        start.levels[a]
    } by {
        if a != k {
            assert(r.levels[a] == q.levels[a]);
        }
    }
    assert forall|h: Seq<u8>| #[trigger]
        r.discard.contains(h) <==> (h == root || below(start.levels, f, root, k + 1, h)) by {
        let more = hashes_of(gone);
        if r.discard.contains(h) {
            let c = choose|c: int| 0 <= c < r.discard.len() && r.discard[c] == h;
            if c < q.discard.len() {
                assert(q.discard[c] == h);
                assert(q.discard.contains(h));
                if h != root {
                    assert(below(start.levels, f, root, k, h));
                    let (a1, b1) = choose|a1: int, b1: int|
                        0 <= a1 < k && a1 < start.levels.len() && 0 <= b1
                            < start.levels[a1].len() && (#[trigger] start.levels[a1][b1]).hash == h
                            && f.root_of(a1 + 1, h) == root;
                    assert(start.levels[a1][b1].hash == h);
                }
            } else {
                let c1 = c - q.discard.len();
                assert(more[c1] == h);
                assert(gone[c1].hash == h);
                assert(level.contains(gone[c1]));
                let d = choose|d: int| 0 <= d < level.len() && level[d] == gone[c1];
                assert(cut_now(level[d]));
                assert(is_doomed(level[d], q.parents, q.discard));
                assert(start.levels[k][d].hash == h);
            }
        }
        if h == root {
            assert(q.discard.contains(h));
            let c = choose|c: int| 0 <= c < q.discard.len() && q.discard[c] == h;
            assert(r.discard[c] == h);
        } else if below(start.levels, f, root, k + 1, h) {
            let (a1, b1) = choose|a1: int, b1: int|
                0 <= a1 < k + 1 && a1 < start.levels.len() && 0 <= b1 < start.levels[a1].len() && (
                #[trigger] start.levels[a1][b1]).hash == h && f.root_of(a1 + 1, h) == root;
            if a1 < k {
                assert(start.levels[a1][b1].hash == h);
                assert(below(start.levels, f, root, k, h));
                assert(q.discard.contains(h));
                let c = choose|c: int| 0 <= c < q.discard.len() && q.discard[c] == h;
                assert(r.discard[c] == h);
            } else {
                assert(level[b1].hash == h);
                assert(is_doomed(level[b1], q.parents, q.discard));
                level.lemma_filter_contains(cut_now, b1);
                let c = choose|c: int| 0 <= c < gone.len() && gone[c] == level[b1];
                assert(more[c] == h);
                assert(r.discard[q.discard.len() + c] == h);
            }
        }
    }
}

proof fn lemma_sweep_descendants(
    start: Pruning,
    pending: Seq<OverlayView>,
    f: ForestView,
    cut: Set<Seq<u8>>,
    k: nat,
)
    requires
        f.wf(),
        f.chained(),
        thinned(start.levels, f, cut),
        start.discard.len() == 1,
        !cut.contains(start.discard[0]),
        on_level(f.levels[0], start.discard[0]),
        pruning_ok(start, pending, f.levels.drop_first()),
        agrees(start.parents, f.parents),
        k <= start.levels.len(),
    ensures
        pruning_ok(start.sweep(k), pending, f.levels.drop_first()),
        agrees(start.sweep(k).parents, f.parents),
        sweeping(start.sweep(k), start, f, start.discard[0], k as int),
    decreases k,
{
    let root = start.discard[0];
    if k == 0 {
        assert forall|h: Seq<u8>| #[trigger]
            start.discard.contains(h) <==> (h == root || below(start.levels, f, root, 0, h)) by {
            if start.discard.contains(h) {
                let c = choose|c: int| 0 <= c < start.discard.len() && start.discard[c] == h;
            }
        }
    } else {
        lemma_sweep_descendants(start, pending, f, cut, (k - 1) as nat);
        lemma_sweep_level_descendants(
            start.sweep((k - 1) as nat),
            start,
            pending,
            f,
            cut,
            root,
            k - 1,
        );
    }
}

/// Between two cuts: the levels hold what descends from none of the blocks
/// that were cut.
pub open spec fn thinned_ok(
    p: Pruning,
    pending: Seq<OverlayView>,
    f: ForestView,
    cut: Set<Seq<u8>>,
) -> bool {
    &&& thinned(p.levels, f, cut)
    &&& pruning_ok(p, pending, f.levels.drop_first())
    &&& agrees(p.parents, f.parents)
}

proof fn lemma_retire_descendants(
    p: Pruning,
    pending: Seq<OverlayView>,
    f: ForestView,
    cut: Set<Seq<u8>>,
    wins: bool,
)
    requires
        f.wf(),
        f.chained(),
        thinned_ok(p, pending, f, cut),
        pending.len() > 0,
        on_level(f.levels[0], pending[0].hash),
        !cut.contains(pending[0].hash),
    ensures
        thinned_ok(
            p.retire(pending[0], wins),
            pending.drop_first(),
            f,
            if wins {
                cut
            } else {
                cut.insert(pending[0].hash)
            },
        ),
{
    let o = pending[0];
    let rest = pending.drop_first();
    let start = Pruning {
        levels: p.levels,
        parents: p.parents.remove(o.hash),
        discard: seq![o.hash],
        keys: p.keys,
    };
    lemma_retire_ok(p, pending, f.levels.drop_first(), true);
    assert(pruning_ok(start, rest, f.levels.drop_first()));
    assert forall|h: Seq<u8>| #[trigger] start.parents.contains_key(h) implies f.parents.contains_key(
        h,
    ) && start.parents[h] == f.parents[h] by {
        assert(p.parents.contains_key(h));
    }
    if !wins {
        let n = start.levels.len();
        lemma_sweep_descendants(start, rest, f, cut, n);
        let end = start.sweep(n);
        let more = cut.insert(o.hash);
        assert forall|a: int| 0 <= a < end.levels.len() implies #[trigger] end.levels[a]
            == f.levels[a + 1].filter(outside(f, a + 1, more)) by {
            let whole = f.levels[a + 1];
            assert(start.levels[a] == whole.filter(outside(f, a + 1, cut)));
            assert(end.levels[a] == start.levels[a].filter(outside(f, a + 1, set![o.hash])));
            lemma_filter_twice(
                whole,
                outside(f, a + 1, cut),
                outside(f, a + 1, set![o.hash]),
                outside(f, a + 1, more),
            );
        }
    }
}

/// The blocks of the front level that were cut when the first `k` overlays
/// of the front level are retired: all of them but the winner.
pub open spec fn cut_after(front: Seq<OverlayView>, winner: int, k: int) -> Set<Seq<u8>> {
    Set::new(
        |h: Seq<u8>|
            exists|a: int|
                0 <= a < k && a < front.len() && a != winner && (#[trigger] front[a]).hash
                    == h,
    )
}

proof fn lemma_retire_front_descendants(
    start: Pruning,
    f: ForestView,
    winner: int,
    k: nat,
)
    requires
        f.wf(),
        f.chained(),
        f.levels.len() > 0,
        thinned_ok(start, f.levels[0], f, Set::empty()),
        k <= f.levels[0].len(),
    ensures
        thinned_ok(
            start.retire_front(f.levels[0], winner, k),
            f.levels[0].skip(k as int),
            f,
            cut_after(f.levels[0], winner, k as int),
        ),
    decreases k,
{
    let front = f.levels[0];
    if k == 0 {
        assert(front.skip(0) =~= front);
        assert(cut_after(front, winner, 0) =~= Set::empty());
    } else {
        lemma_retire_front_descendants(start, f, winner, (k - 1) as nat);
        let p = start.retire_front(front, winner, (k - 1) as nat);
        let pending = front.skip(k - 1);
        let o = front[k - 1];
        let wins = k - 1 == winner;
        let cut = cut_after(front, winner, k - 1);
        assert(pending[0] == o);
        assert(f.levels[0][k - 1].hash == o.hash);
        assert(!cut.contains(o.hash)) by {
            if cut.contains(o.hash) {
                let a = choose|a: int|
                    0 <= a < k - 1 && a < front.len() && a != winner && (#[trigger] front[a]).hash
                        == o.hash;
                assert(f.levels[0][a].hash != f.levels[0][k - 1].hash);
            }
        }
        lemma_retire_descendants(p, pending, f, cut, wins);
        assert(pending.drop_first() =~= front.skip(k as int));
        let next = cut_after(front, winner, k as int);
        let grown = if wins {
            cut
        } else {
            cut.insert(o.hash)
        };
        assert forall|h: Seq<u8>| next.contains(h) <==> grown.contains(h) by {
            if next.contains(h) {
                let a = choose|a: int|
                    0 <= a < k && a < front.len() && a != winner && (#[trigger] front[a]).hash == h;
                if a < k - 1 {
                    assert(cut.contains(h));
                }
            }
            if cut.contains(h) {
                let a = choose|a: int|
                    0 <= a < k - 1 && a < front.len() && a != winner && (#[trigger] front[a]).hash
                        == h;
                assert(front[a].hash == h);
            }
            if !wins && h == o.hash {
                assert(front[k - 1].hash == h);
            }
        }
        assert(next =~= grown);
    }
}

/// What a finalization leaves of a chained window: on every level the
/// overlays that descend from the winner, in their order, with the parents
/// that they had.
pub proof fn lemma_finalize_keeps_descendants(f: ForestView, hash: Seq<u8>)
    requires
        f.wf(),
        f.chained(),
        f.can_finalize(hash),
    ensures
        f.finalized(hash).levels.len() + 1 == f.levels.len(),
        forall|i: int|
            0 <= i < f.finalized(hash).levels.len() ==> #[trigger] f.finalized(hash).levels[i]
                == f.levels[i + 1].filter(descends(f, i + 1, hash)),
        forall|h: Seq<u8>|
            #[trigger] f.finalized(hash).parents.contains_key(h) <==> occurs(
                f.finalized(hash).levels,
                h,
            ),
        forall|h: Seq<u8>|
            f.finalized(hash).parents.contains_key(h) ==> #[trigger] f.finalized(hash).parents[h]
                == f.parents[h],
{
    let g = f.finalized(hash);
    let front = f.levels[0];
    let winner = f.winner(hash);
    assert(is_first(front, hash, winner));
    let start = Pruning {
        levels: f.levels.drop_first(),
        parents: f.parents,
        discard: Seq::empty(),
        keys: Seq::empty(),
    };
    assert(seq![front] + start.levels =~= f.levels);
    assert forall|a: int, b: int|
        0 <= a < start.levels.len() && 0 <= b < start.levels[a].len()
        implies f.levels.drop_first()[a].contains(#[trigger] start.levels[a][b]) by {}
    assert forall|a: int| 0 <= a < start.levels.len() implies #[trigger] start.levels[a]
        == f.levels[a + 1].filter(outside(f, a + 1, Set::empty())) by {
        let whole = f.levels[a + 1];
        let all = |o: OverlayView| true;
        assert(whole.filter(all) == whole) by {
            lemma_filter_all(whole);
        }
        lemma_filter_same(whole, outside(f, a + 1, Set::empty()), all);
    }
    lemma_retire_front_descendants(start, f, winner, front.len());
    lemma_finalize_keeps_wf(f, hash);
    let cut = cut_after(front, winner, front.len() as int);
    assert forall|i: int| 0 <= i < g.levels.len() implies #[trigger] g.levels[i] == f.levels[i
        + 1].filter(descends(f, i + 1, hash)) by {
        let whole = f.levels[i + 1];
        assert forall|b: int| 0 <= b < whole.len() implies outside(f, i + 1, cut)(
            #[trigger] whole[b],
        ) == descends(f, i + 1, hash)(whole[b]) by {
            let x = whole[b];
            assert(f.levels[i + 1][b] == x);
            assert(on_level(f.levels[i + 1], x.hash));
            lemma_root_is_at_the_front(f, i + 1, x.hash);
            let root = f.root_of(i + 1, x.hash);
            let t = choose|t: int| 0 <= t < front.len() && (#[trigger] front[t]).hash == root;
            if root == hash {
                if cut.contains(root) {
                    let a = choose|a: int|
                        0 <= a < front.len() && a < front.len() && a != winner && (
                        #[trigger] front[a]).hash == root;
                    assert(f.levels[0][a].hash != f.levels[0][winner].hash);
                }
            } else {
                assert(t != winner);
                assert(front[t].hash == root);
                assert(cut.contains(root));
            }
        }
        lemma_filter_same(whole, outside(f, i + 1, cut), descends(f, i + 1, hash));
    }
    assert forall|h: Seq<u8>| #[trigger] g.parents.contains_key(h) <==> occurs(g.levels, h) by {
        if occurs(g.levels, h) {
            let (a, b) = choose|a: int, b: int|
                0 <= a < g.levels.len() && 0 <= b < g.levels[a].len() && (
                #[trigger] g.levels[a][b]).hash == h;
            assert(g.parents.contains_key(g.levels[a][b].hash));
        }
    }
}

/// Picking everything leaves everything.
proof fn lemma_filter_all(s: Seq<OverlayView>)
    ensures
        s.filter(|o: OverlayView| true) == s,
    decreases s.len(),
{
    reveal(Seq::filter);
    if s.len() > 0 {
        lemma_filter_all(s.drop_last());
        assert(s.drop_last().push(s.last()) =~= s);
    }
}

} // verus!
