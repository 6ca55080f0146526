//! That no bend is missed: a clear bend over one edge is found, at the price of its
//! detour, but for stronger ones.

use crate::arith::Calc;
use crate::mesh::{DiffractionEdge, Mesh, Point};
use crate::params::ONE;
use crate::paths::{
    bounds, clear_ones, edge_pool, is_blocked, is_clear, passed, path_gains, single_bend,
    single_candidates, single_carried, single_key, single_paths, strongest_paths, survey, PathBudget,
    PathModel, SingleBend, CARRIES_NOTHING, PREFILTER,
};
use crate::priced::{
    a_clear_bend_costs_its_detour, all_bent, all_found, is_clear_leg, leaves_alone, over_point,
};
use crate::rank::{is_top, lemma_sorted, precedes, the_strongest_are_listed, top, top_is_the_one};
use crate::single::{lemma_grid_increases, Single};
use vstd::prelude::*;

verus! {

/// An entry that is not among the strongest gave way to as many as asked for, none of
/// them weaker.
proof fn lemma_left_out(keys: Seq<Single>, max: nat, k: usize)
    requires
        keys.len() <= usize::MAX,
        k < keys.len(),
        !top(keys, max).contains(k),
    ensures
        top(keys, max).len() == max,
        forall|i: int|
            0 <= i < max ==> keys[k as int].total_rank() <= keys[#[trigger] top(
                keys,
                max,
            )[i] as int].total_rank(),
{
    the_strongest_are_listed(keys, max);
    let picks = top(keys, max);
    if keys.len() <= max {
        let all = lemma_sorted(keys, keys.len() as int);
        assert(is_top(keys, max, all));
        top_is_the_one(keys, max, all);
        assert(all.contains(k));
    }
    assert forall|i: int| 0 <= i < max implies keys[k as int].total_rank() <= keys[#[trigger] picks[
    i] as int].total_rank() by {
        assert(precedes(keys, picks[i] as int, k as int));
    }
}

proof fn lemma_clear_listed(bend: spec_fn(usize) -> SingleBend, pool: Seq<usize>, n: int, j: int)
    requires
        0 <= j < n <= pool.len(),
        is_clear(bend(pool[j])),
    ensures
        exists|q: int|
            0 <= q < clear_ones(bend, pool, n).len() && #[trigger] clear_ones(bend, pool, n)[q] == pool[j],
    decreases n,
{
    let rest = clear_ones(bend, pool, n - 1);
    let all = clear_ones(bend, pool, n);
    if j == n - 1 {
        assert(all[rest.len() as int] == pool[j]);
    } else {
        lemma_clear_listed(bend, pool, n - 1, j);
        let q = choose|q: int| 0 <= q < rest.len() && #[trigger] rest[q] == pool[j];
        assert(all[q] == pool[j]);
    }
}

proof fn lemma_clear_len(bend: spec_fn(usize) -> SingleBend, pool: Seq<usize>, n: int)
    requires
        0 <= n <= pool.len(),
    ensures
        clear_ones(bend, pool, n).len() <= n,
    decreases n,
{
    if n > 0 {
        lemma_clear_len(bend, pool, n - 1);
    }
}

/// The path over a bend, as it is listed.
pub open spec fn bent_over(f: Calc, mesh: Mesh, e: DiffractionEdge, k: usize, src: Point, lis: Point) -> PathModel {
    let b = single_bend(f, e, src, lis);
    let c = single_carried(f, mesh, b, src, lis);
    PathModel {
        points: seq![src, b.point, lis],
        length: c.length,
        gains: c.gains,
        key: single_key(k),
    }
}

proof fn lemma_path_listed(
    f: Calc,
    mesh: Mesh,
    edges: Seq<DiffractionEdge>,
    src: Point,
    lis: Point,
    ids: Seq<usize>,
    n: int,
    j: int,
)
    requires
        0 <= j < n <= ids.len(),
        ({
            let b = single_bend(f, edges[ids[j] as int], src, lis);
            !single_carried(f, mesh, b, src, lis).low.below(Single(CARRIES_NOTHING))
        }),
    ensures
        ({
            let s = survey(f, mesh, edges, src, lis);
            let all = single_paths(src, lis, s.bend, s.carry, ids, n);
            exists|q: int|
                0 <= q < all.len() && #[trigger] all[q] == bent_over(
                    f,
                    mesh,
                    edges[ids[j] as int],
                    ids[j],
                    src,
                    lis,
                )
        }),
    decreases n,
{
    let s = survey(f, mesh, edges, src, lis);
    let rest = single_paths(src, lis, s.bend, s.carry, ids, n - 1);
    let all = single_paths(src, lis, s.bend, s.carry, ids, n);
    let goal = bent_over(f, mesh, edges[ids[j] as int], ids[j], src, lis);
    if j == n - 1 {
        assert(all[rest.len() as int] == goal);
    } else {
        lemma_path_listed(f, mesh, edges, src, lis, ids, n - 1, j);
        let q = choose|q: int| 0 <= q < rest.len() && #[trigger] rest[q] == goal;
        assert(all[q] == goal);
    }
}

/// The strongest candidates leave the edge out: there are as many as the budget has,
/// and none promises less.
pub open spec fn gave_way(
    f: Calc,
    mesh: Mesh,
    edges: Seq<DiffractionEdge>,
    src: Point,
    lis: Point,
    budget: PathBudget,
    k: usize,
) -> bool {
    let s = survey(f, mesh, edges, src, lis);
    let tried = single_candidates(s.corridor, s.bend, edges.len() as int, budget.edge_candidates as nat);
    &&& tried.len() == budget.edge_candidates
    &&& forall|i: int|
        0 <= i < tried.len() ==> single_bend(f, edges[k as int], src, lis).bound.total_rank()
            <= single_bend(f, edges[#[trigger] tried[i] as int], src, lis).bound.total_rank()
}

/// A clear edge is tried, or gave way.
proof fn lemma_tried(
    f: Calc,
    mesh: Mesh,
    edges: Seq<DiffractionEdge>,
    src: Point,
    lis: Point,
    budget: PathBudget,
    k: usize,
)
    requires
        k < edges.len() <= PREFILTER,
        is_clear(single_bend(f, edges[k as int], src, lis)),
    ensures
        ({
            let s = survey(f, mesh, edges, src, lis);
            let tried = single_candidates(
                s.corridor,
                s.bend,
                edges.len() as int,
                budget.edge_candidates as nat,
            );
            ||| exists|j: int| 0 <= j < tried.len() && #[trigger] tried[j] == k
            ||| gave_way(f, mesh, edges, src, lis, budget, k)
        }),
{
    let s = survey(f, mesh, edges, src, lis);
    let n = edges.len() as int;
    let pool = edge_pool(s.corridor, n);
    assert(pool[k as int] == k);
    let b = single_bend(f, edges[k as int], src, lis);
    assert((s.bend)(k) == b);
    let ids = clear_ones(s.bend, pool, n);
    assert(pool.len() == n);
    lemma_clear_listed(s.bend, pool, n, k as int);
    lemma_clear_len(s.bend, pool, n);
    let q = choose|q: int| 0 <= q < ids.len() && #[trigger] ids[q] == pool[k as int];
    let keys = bounds(s.bend, ids);
    let max = budget.edge_candidates as nat;
    let tried = single_candidates(s.corridor, s.bend, n, max);
    let picks = top(keys, max);
    the_strongest_are_listed(keys, max);
    if picks.contains(q as usize) {
        let j = choose|j: int| 0 <= j < picks.len() && picks[j] == q as usize;
        assert(tried[j] == k);
    } else {
        lemma_left_out(keys, max, q as usize);
        assert forall|i: int| 0 <= i < tried.len() implies b.bound.total_rank() <= single_bend(
            f,
            edges[#[trigger] tried[i] as int],
            src,
            lis,
        ).bound.total_rank() by {
            assert(tried[i] == ids[picks[i] as int]);
            assert(picks[i] < keys.len());
            assert(keys[picks[i] as int] == (s.bend)(tried[i]).bound);
        }
    }
}

/// A path that is weighed is found, or gave way.
proof fn lemma_kept(
    f: Calc,
    mesh: Mesh,
    edges: Seq<DiffractionEdge>,
    src: Point,
    lis: Point,
    budget: PathBudget,
    m: int,
)
    requires
        all_bent(f, mesh, edges, src, lis, budget).len() <= usize::MAX,
        is_blocked(passed(f, mesh, src, lis)),
        0 <= m < all_bent(f, mesh, edges, src, lis, budget).len(),
    ensures
        ({
            let r = all_found(f, mesh, edges, src, lis, budget);
            let p = all_bent(f, mesh, edges, src, lis, budget)[m];
            ||| exists|i: int| 0 < i < r.len() && #[trigger] r[i] == p
            ||| {
                &&& r.len() == budget.max_paths + 1
                &&& forall|i: int|
                    0 < i < r.len() ==> p.gains@[1].total_rank() <= (
                    #[trigger] r[i]).gains@[1].total_rank()
            }
        }),
{
    let all = all_bent(f, mesh, edges, src, lis, budget);
    let gains = path_gains(all);
    let most = budget.max_paths as nat;
    let kept = top(gains, most);
    the_strongest_are_listed(gains, most);
    let r = all_found(f, mesh, edges, src, lis, budget);
    if kept.contains(m as usize) {
        let w = choose|w: int| 0 <= w < kept.len() && kept[w] == m as usize;
        assert(r[w + 1] == strongest_paths(all, most)[w]);
        assert(r[w + 1] == all[m]);
    } else {
        lemma_left_out(gains, most, m as usize);
        assert forall|i: int| 0 < i < r.len() implies all[m].gains@[1].total_rank() <= (
        #[trigger] r[i]).gains@[1].total_rank() by {
            assert(r[i] == strongest_paths(all, most)[i - 1]);
            assert(kept[i - 1] < gains.len());
            assert(gains[kept[i - 1] as int] == r[i].gains@[1]);
        }
    }
}

/// A clear bend carries its detour's amplitudes, and its lows in full.
proof fn lemma_bent(f: Calc, mesh: Mesh, e: DiffractionEdge, k: usize, src: Point, lis: Point)
    requires
        leaves_alone(f),
        is_clear_leg(f, mesh, src, single_bend(f, e, src, lis).point),
        is_clear_leg(f, mesh, single_bend(f, e, src, lis).point, lis),
    ensures
        ({
            let b = single_bend(f, e, src, lis);
            let p = bent_over(f, mesh, e, k, src, lis);
            &&& !single_carried(f, mesh, b, src, lis).low.below(Single(CARRIES_NOTHING))
            &&& forall|i: int| 0 <= i < 3 ==> #[trigger] p.gains@[i] == over_point(f, src, b.point, lis, i)
        }),
{
    let b = single_bend(f, e, src, lis);
    let (l1, l2) = (passed(f, mesh, src, b.point), passed(f, mesh, b.point, lis));
    assert(l1@[0] == Single(ONE) && l2@[0] == Single(ONE));
    assert(single_carried(f, mesh, b, src, lis).low == Single(ONE));
    lemma_grid_increases(CARRIES_NOTHING as nat, ONE as nat);
    let p = bent_over(f, mesh, e, k, src, lis);
    assert forall|i: int| 0 <= i < 3 implies #[trigger] p.gains@[i] == over_point(
        f,
        src,
        b.point,
        lis,
        i,
    ) by {
        a_clear_bend_costs_its_detour(f, mesh, e, src, lis, i);
    }
}

/// Behind a blocked line, a bend over one edge that is clear of its neighbours and has
/// clear legs is found: over its edge, from the source to the listener, and in every
/// band with exactly the amplitude of how much longer its way is than the straight line.
/// It is left out only where as many as the budget has promise no less, or as many as
/// asked for are no weaker.
pub proof fn a_clear_bend_is_found(
    f: Calc,
    mesh: Mesh,
    edges: Seq<DiffractionEdge>,
    src: Point,
    lis: Point,
    budget: PathBudget,
    k: usize,
)
    requires
        k < edges.len() <= PREFILTER,
        all_bent(f, mesh, edges, src, lis, budget).len() <= usize::MAX,
        is_blocked(passed(f, mesh, src, lis)),
        leaves_alone(f),
        is_clear(single_bend(f, edges[k as int], src, lis)),
        is_clear_leg(f, mesh, src, single_bend(f, edges[k as int], src, lis).point),
        is_clear_leg(f, mesh, single_bend(f, edges[k as int], src, lis).point, lis),
    ensures
        ({
            let r = all_found(f, mesh, edges, src, lis, budget);
            let p = single_bend(f, edges[k as int], src, lis).point;
            ||| exists|i: int|
                {
                    &&& 0 < i < r.len()
                    &&& (#[trigger] r[i]).points == seq![src, p, lis]
                    &&& r[i].key == single_key(k)
                    &&& forall|b: int| 0 <= b < 3 ==> #[trigger] r[i].gains@[b] == over_point(f, src, p, lis, b)
                }
            ||| gave_way(f, mesh, edges, src, lis, budget, k)
            ||| {
                &&& r.len() == budget.max_paths + 1
                &&& forall|i: int|
                    0 < i < r.len() ==> over_point(f, src, p, lis, 1).total_rank() <= (
                    #[trigger] r[i]).gains@[1].total_rank()
            }
        }),
{
    lemma_tried(f, mesh, edges, src, lis, budget, k);
    if !gave_way(f, mesh, edges, src, lis, budget, k) {
        let s = survey(f, mesh, edges, src, lis);
        let n = edges.len() as int;
        let tried = single_candidates(s.corridor, s.bend, n, budget.edge_candidates as nat);
        let j = choose|j: int| 0 <= j < tried.len() && #[trigger] tried[j] == k;
        lemma_bent(f, mesh, edges[k as int], k, src, lis);
        lemma_path_listed(f, mesh, edges, src, lis, tried, tried.len() as int, j);
        let ones = single_paths(src, lis, s.bend, s.carry, tried, tried.len() as int);
        let goal = bent_over(f, mesh, edges[k as int], k, src, lis);
        let m = choose|m: int| 0 <= m < ones.len() && #[trigger] ones[m] == goal;
        assert(all_bent(f, mesh, edges, src, lis, budget)[m] == goal);
        lemma_kept(f, mesh, edges, src, lis, budget, m);
    }
}

} // verus!
