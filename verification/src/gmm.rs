//! Greedy remote-edge selection (farthest-point / greedy max-min): pick `k`
//! points of a `MetricView` so that the minimum pairwise distance among the
//! picked points is (greedily) maximized.
//!
//! The algorithm seeds the solution with index 0 and then, `k - 1` times,
//! adds the unselected point whose distance to the nearest selected point
//! (its "frontier distance") is largest, breaking ties by smallest index.
//! The whole selection is pinned down by the spec function `greedy_seq`, so
//! identical inputs always yield the identical solution.

use crate::metricdata::{dmin, ent, range_idx, submatrix, MetricView};
use vstd::prelude::*;

verus! {

/// The frontier distance of point `p` with respect to the selected points
/// `sel`: the distance from `p` to the nearest point of `sel`, or the
/// no-pair value `u64::MAX` when `sel` is empty.
pub open spec fn frontier(d: Seq<u64>, n: int, sel: Seq<usize>, p: usize) -> u64
    decreases sel.len(),
{
    if sel.len() == 0 {
        u64::MAX
    } else {
        dmin(frontier(d, n, sel.drop_last(), p), ent(d, n, p as int, sel.last() as int))
    }
}

/// The index the greedy rule picks next among the candidates `0..upto` not
/// yet in `sel`: the one with the largest frontier distance, ties broken by
/// smallest index; `-1` when every candidate is already selected.
pub open spec fn best_next(d: Seq<u64>, n: int, sel: Seq<usize>, upto: int) -> int
    decreases upto,
{
    if upto <= 0 {
        -1
    } else {
        let prev = best_next(d, n, sel, upto - 1);
        let i = upto - 1;
        if sel.contains(i as usize) {
            prev
        } else if prev == -1 {
            i
        } else if frontier(d, n, sel, i as usize) > frontier(d, n, sel, prev as usize) {
            i
        } else {
            prev
        }
    }
}

/// The greedy selection of `k` points: index 0, then `k - 1` times the
/// unselected point with the largest frontier distance.
pub open spec fn greedy_seq(d: Seq<u64>, n: int, k: int) -> Seq<usize>
    decreases k,
{
    if k <= 1 {
        seq![0usize]
    } else {
        let prev = greedy_seq(d, n, k - 1);
        prev.push(best_next(d, n, prev, n) as usize)
    }
}

/// The objective achieved by the greedy selection of `k` points: the
/// frontier distance recorded for the last point added, or the no-pair
/// value `u64::MAX` when only the seed is selected.
pub open spec fn greedy_objective(d: Seq<u64>, n: int, k: int) -> u64 {
    if k <= 1 {
        u64::MAX
    } else {
        let prev = greedy_seq(d, n, k - 1);
        frontier(d, n, prev, best_next(d, n, prev, n) as usize)
    }
}

/// The minimum of `ent(d, n, i, jj)` over `0 <= jj < j`.
pub open spec fn row_min(d: Seq<u64>, n: int, i: int, j: int) -> u64
    decreases j,
{
    if j <= 0 {
        u64::MAX
    } else {
        dmin(row_min(d, n, i, j - 1), ent(d, n, i, j - 1))
    }
}

/// The minimum pairwise distance among the first `i` points.
pub open spec fn min_pairwise_upto(d: Seq<u64>, n: int, i: int) -> u64
    decreases i,
{
    if i <= 0 {
        u64::MAX
    } else {
        dmin(min_pairwise_upto(d, n, i - 1), row_min(d, n, i - 1, i - 1))
    }
}

/// The minimum pairwise distance among all `n` points: the exact remote-edge
/// cost of the whole set, `u64::MAX` when there is no pair.
pub open spec fn min_pairwise(d: Seq<u64>, n: int) -> u64 {
    min_pairwise_upto(d, n, n)
}

/// Among distinct indices below `n`, fewer than `n` of them leave at least
/// one index unselected.
pub proof fn lemma_exists_unselected(sel: Seq<usize>, n: int)
    requires
        sel.no_duplicates(),
        forall|t: int| 0 <= t < sel.len() ==> (#[trigger] sel[t]) < n,
        sel.len() < n,
        n <= usize::MAX,
    ensures
        exists|q: usize| (q as int) < n && !sel.contains(q),
{
    broadcast use vstd::seq_lib::seq_to_set_is_finite;
    broadcast use vstd::set::group_set_axioms;

    let si = sel.map_values(|x: usize| x as int);
    assert(si.no_duplicates()) by {
        assert forall|i: int, j: int|
            0 <= i < si.len() && 0 <= j < si.len() && i != j implies si[i] != si[j] by {
            assert(sel[i] != sel[j]);
        }
    }
    si.unique_seq_to_set();
    if forall|q: usize| (q as int) < n ==> sel.contains(q) {
        let range = vstd::set_lib::set_int_range(0, n);
        vstd::set_lib::lemma_int_range(0, n);
        assert(range.subset_of(si.to_set())) by {
            assert forall|x: int| range.contains(x) implies si.to_set().contains(x) by {
                let q = x as usize;
                assert(sel.contains(q));
                let t = choose|t: int| 0 <= t < sel.len() && sel[t] == q;
                assert(si[t] == x);
                assert(si.contains(x));
            }
        }
        vstd::set_lib::lemma_len_subset(range, si.to_set());
        assert(n <= si.len());
        assert(false);
    }
}

/// What the greedy rule's pick satisfies: when a candidate exists the pick
/// is an unselected index below `upto`, and its frontier distance is at
/// least that of every unselected candidate.
pub proof fn lemma_best_next_props(d: Seq<u64>, n: int, sel: Seq<usize>, upto: int)
    requires
        upto <= usize::MAX,
    ensures
        best_next(d, n, sel, upto) == -1 ==> forall|q: usize|
            (q as int) < upto ==> #[trigger] sel.contains(q),
        best_next(d, n, sel, upto) == -1 || (0 <= best_next(d, n, sel, upto) < upto
            && !sel.contains(best_next(d, n, sel, upto) as usize)),
        forall|q: usize|
            (q as int) < upto && !(#[trigger] sel.contains(q)) ==> frontier(d, n, sel, q)
                <= frontier(d, n, sel, best_next(d, n, sel, upto) as usize),
    decreases upto,
{
    if upto <= 0 {
    } else {
        lemma_best_next_props(d, n, sel, upto - 1);
        let prev = best_next(d, n, sel, upto - 1);
        let b = best_next(d, n, sel, upto);
        let i = upto - 1;
        if b == -1 {
            assert(sel.contains(i as usize));
            assert forall|q: usize| (q as int) < upto implies #[trigger] sel.contains(q) by {
                if (q as int) < upto - 1 {
                } else {
                    assert(q == i as usize);
                }
            }
        }
        assert forall|q: usize|
            (q as int) < upto && !(#[trigger] sel.contains(q)) implies frontier(d, n, sel, q)
            <= frontier(d, n, sel, b as usize) by {
            if (q as int) < upto - 1 {
                if prev == -1 {
                    assert(sel.contains(q));
                    assert(false);
                }
                assert(frontier(d, n, sel, q) <= frontier(d, n, sel, prev as usize));
            } else {
                assert(q == i as usize);
            }
        }
    }
}

/// When fewer than `n` distinct indices below `n` are selected, the greedy
/// rule always finds an unselected candidate.
pub proof fn lemma_best_next_found(d: Seq<u64>, n: int, sel: Seq<usize>)
    requires
        sel.no_duplicates(),
        forall|t: int| 0 <= t < sel.len() ==> (#[trigger] sel[t]) < n,
        sel.len() < n,
        n <= usize::MAX,
    ensures
        0 <= best_next(d, n, sel, n) < n,
        !sel.contains(best_next(d, n, sel, n) as usize),
{
    lemma_exists_unselected(sel, n);
    lemma_best_next_props(d, n, sel, n);
    let q = choose|q: usize| (q as int) < n && !sel.contains(q);
    assert(!sel.contains(q));
}

/// The greedy selection of `k <= n` points consists of exactly `k` distinct
/// indices, each below `n`, and starts with the seed index 0.
pub proof fn lemma_greedy_seq_props(d: Seq<u64>, n: int, k: int)
    requires
        1 <= k <= n,
        n <= usize::MAX,
    ensures
        greedy_seq(d, n, k).len() == k,
        greedy_seq(d, n, k).no_duplicates(),
        forall|t: int| 0 <= t < k ==> (#[trigger] greedy_seq(d, n, k)[t]) < n,
        greedy_seq(d, n, k)[0] == 0,
    decreases k,
{
    if k <= 1 {
        assert(greedy_seq(d, n, k) =~= seq![0usize]);
    } else {
        lemma_greedy_seq_props(d, n, k - 1);
        let prev = greedy_seq(d, n, k - 1);
        lemma_best_next_found(d, n, prev);
        let b = best_next(d, n, prev, n);
        let bu = b as usize;
        let cur = greedy_seq(d, n, k);
        assert(cur == prev.push(bu));
        assert(cur.no_duplicates()) by {
            assert forall|i: int, j: int|
                0 <= i < cur.len() && 0 <= j < cur.len() && i != j implies cur[i] != cur[j] by {
                if i < k - 1 && j < k - 1 {
                    assert(prev[i] != prev[j]);
                } else if i == k - 1 && j < k - 1 {
                    assert(!prev.contains(bu));
                    assert(prev[j] == cur[j]);
                    if cur[j] == bu {
                        assert(prev.contains(bu));
                    }
                } else if j == k - 1 && i < k - 1 {
                    assert(!prev.contains(bu));
                    assert(prev[i] == cur[i]);
                    if cur[i] == bu {
                        assert(prev.contains(bu));
                    }
                }
            }
        }
    }
}

/// Determinism: the greedy solution is a function of the distance matrix,
/// the point count and `k` alone, so two runs on identical input data with
/// the identical metric and `k` return the identical solution and objective.
pub proof fn lemma_greedy_deterministic(
    d: Seq<u64>,
    n: int,
    k: int,
    r1: (Seq<usize>, u64),
    r2: (Seq<usize>, u64),
)
    requires
        r1.0 == greedy_seq(d, n, k),
        r1.1 == greedy_objective(d, n, k),
        r2.0 == greedy_seq(d, n, k),
        r2.1 == greedy_objective(d, n, k),
    ensures
        r1 == r2,
{
}

/// The greedy selection is incremental: the `k`-point solution is a prefix,
/// in selection order, of the `(k + 1)`-point solution on the same data;
/// consequently the achieved objective is non-increasing as `k` grows.
pub proof fn lemma_greedy_prefix(d: Seq<u64>, n: int, k: int)
    requires
        1 <= k,
        k + 1 <= n,
        n <= usize::MAX,
    ensures
        greedy_seq(d, n, k + 1).take(k) == greedy_seq(d, n, k),
        greedy_objective(d, n, k + 1) <= greedy_objective(d, n, k),
{
    let s = greedy_seq(d, n, k);
    lemma_greedy_seq_props(d, n, k);
    assert(greedy_seq(d, n, k + 1).take(k) =~= s);
    if k == 1 {
        assert(greedy_objective(d, n, k) == u64::MAX);
    } else {
        let sp = greedy_seq(d, n, k - 1);
        lemma_greedy_seq_props(d, n, k - 1);
        lemma_best_next_found(d, n, sp);
        lemma_best_next_props(d, n, sp, n);
        let b1 = best_next(d, n, sp, n);
        assert(s == sp.push(b1 as usize));
        lemma_best_next_found(d, n, s);
        let b2 = best_next(d, n, s, n);
        let b2u = b2 as usize;
        assert(!s.contains(b2u));
        // frontier against the longer prefix is no larger
        assert(s.drop_last() =~= sp);
        assert(s.last() == b1 as usize);
        assert(frontier(d, n, s, b2u) == dmin(
            frontier(d, n, sp, b2u),
            ent(d, n, b2u as int, b1 as int),
        ));
        // b2 was an unselected candidate already at the previous step
        assert(!sp.contains(b2u)) by {
            if sp.contains(b2u) {
                let t = choose|t: int| 0 <= t < sp.len() && sp[t] == b2u;
                assert(s[t] == b2u);
                assert(s.contains(b2u));
            }
        }
        assert(frontier(d, n, sp, b2u) <= frontier(d, n, sp, b1 as usize));
    }
}

/// Local indices into a selection `idx`, mapped back to the indices of the
/// parent point set.
pub open spec fn map_idx(idx: Seq<usize>, sel: Seq<usize>) -> Seq<usize> {
    sel.map_values(|x: usize| idx[x as int])
}

/// The greedy selection is incremental, so any earlier selection is the
/// matching prefix of a later one.
pub proof fn lemma_greedy_take(d: Seq<u64>, n: int, t: int, k: int)
    requires
        1 <= t <= k <= n,
        n <= usize::MAX,
    ensures
        greedy_seq(d, n, k).take(t) == greedy_seq(d, n, t),
    decreases k,
{
    lemma_greedy_seq_props(d, n, k);
    lemma_greedy_seq_props(d, n, t);
    if k <= t {
        assert(greedy_seq(d, n, k).take(t) =~= greedy_seq(d, n, t));
    } else {
        lemma_greedy_take(d, n, t, k - 1);
        lemma_greedy_seq_props(d, n, k - 1);
        assert(greedy_seq(d, n, k).take(t) =~= greedy_seq(d, n, k - 1).take(t));
    }
}

/// Frontier distances inside a selected submatrix are the frontier
/// distances of the parent, at the selected indices.
pub proof fn lemma_frontier_submatrix(
    d: Seq<u64>,
    n: int,
    idx: Seq<usize>,
    sel: Seq<usize>,
    p: usize,
)
    requires
        forall|t: int| 0 <= t < sel.len() ==> (#[trigger] sel[t]) < idx.len(),
        (p as int) < idx.len(),
    ensures
        frontier(submatrix(d, n, idx), idx.len() as int, sel, p) == frontier(
            d,
            n,
            map_idx(idx, sel),
            idx[p as int],
        ),
    decreases sel.len(),
{
    let m = idx.len() as int;
    let sub = submatrix(d, n, idx);
    let gsel = map_idx(idx, sel);
    if sel.len() == 0 {
        assert(gsel.len() == 0);
    } else {
        lemma_frontier_submatrix(d, n, idx, sel.drop_last(), p);
        assert(map_idx(idx, sel.drop_last()) =~= gsel.drop_last());
        crate::metricdata::lemma_submatrix_ent(d, n, idx, p as int, sel.last() as int);
        assert(gsel.last() == idx[sel.last() as int]);
    }
}

/// When the candidates below `q0` are all selected and no later candidate
/// beats `q0`'s frontier distance, the greedy rule picks exactly `q0`.
pub proof fn lemma_best_next_first(d: Seq<u64>, n: int, sel: Seq<usize>, upto: int, q0: usize)
    requires
        upto <= usize::MAX,
        (q0 as int) < upto,
        !sel.contains(q0),
        forall|q: usize| q < q0 ==> #[trigger] sel.contains(q),
        forall|q: usize|
            q0 < q && (q as int) < upto && !(#[trigger] sel.contains(q)) ==> frontier(d, n, sel, q)
                <= frontier(d, n, sel, q0),
    ensures
        best_next(d, n, sel, upto) == q0 as int,
    decreases upto,
{
    let i = upto - 1;
    if i == q0 as int {
        lemma_best_next_props(d, n, sel, i);
        let prev = best_next(d, n, sel, i);
        if prev != -1 {
            assert(!sel.contains(prev as usize));
            assert(sel.contains(prev as usize));
        }
    } else {
        lemma_best_next_first(d, n, sel, upto - 1, q0);
        if !sel.contains(i as usize) {
            assert(frontier(d, n, sel, i as usize) <= frontier(d, n, sel, q0));
        }
    }
}

/// Re-running the greedy rule on its own selection reproduces that
/// selection in place: the `k`-point selection over the submatrix of a
/// `kmax`-point greedy selection is the identity sequence 0, ..., k - 1.
/// This is what makes the merge step of a build-then-merge coreset
/// auditable against the sequential path.
pub proof fn lemma_greedy_idempotent(d: Seq<u64>, n: int, kmax: int, k: int)
    requires
        1 <= k <= kmax <= n,
        n <= usize::MAX,
    ensures
        greedy_seq(submatrix(d, n, greedy_seq(d, n, kmax)), kmax, k) == range_idx(0, k),
    decreases k,
{
    let g = greedy_seq(d, n, kmax);
    lemma_greedy_seq_props(d, n, kmax);
    let cm = submatrix(d, n, g);
    if k == 1 {
        assert(greedy_seq(cm, kmax, 1) =~= range_idx(0, 1));
    } else {
        lemma_greedy_idempotent(d, n, kmax, k - 1);
        let prev = greedy_seq(cm, kmax, k - 1);
        assert(prev == range_idx(0, k - 1));
        let t = k - 1;
        let tu = t as usize;
        // the local prefix maps back to the original greedy prefix
        let sp = greedy_seq(d, n, t);
        lemma_greedy_seq_props(d, n, t);
        lemma_greedy_take(d, n, t, kmax);
        assert(map_idx(g, prev) =~= sp) by {
            assert forall|w: int| 0 <= w < t implies map_idx(g, prev)[w] == sp[w] by {
                assert(prev[w] == w as usize);
                assert(g.take(t)[w] == g[w]);
            }
        }
        // the original run picks g[t] at this step
        lemma_greedy_take(d, n, t + 1, kmax);
        let b = best_next(d, n, sp, n);
        assert(g[t] == b as usize) by {
            assert(greedy_seq(d, n, t + 1) == sp.push(b as usize));
            assert(g.take(t + 1)[t] == g[t]);
        }
        lemma_best_next_found(d, n, sp);
        lemma_best_next_props(d, n, sp, n);
        // the merge step's candidates below t are all selected ...
        assert(!prev.contains(tu)) by {
            if prev.contains(tu) {
                let w = choose|w: int| 0 <= w < prev.len() && prev[w] == tu;
                assert(prev[w] == w as usize);
            }
        }
        assert forall|q: usize| q < tu implies #[trigger] prev.contains(q) by {
            assert(prev[q as int] == q);
        }
        // ... and no later candidate beats t's frontier distance, because
        // g[t] was the original argmax over the very same frontier values
        assert forall|q: usize|
            tu < q && (q as int) < kmax && !(#[trigger] prev.contains(q)) implies frontier(
            cm,
            kmax,
            prev,
            q,
        ) <= frontier(cm, kmax, prev, tu) by {
            lemma_frontier_submatrix(d, n, g, prev, q);
            lemma_frontier_submatrix(d, n, g, prev, tu);
            assert(frontier(cm, kmax, prev, q) == frontier(d, n, sp, g[q as int]));
            assert(frontier(cm, kmax, prev, tu) == frontier(d, n, sp, g[t]));
            assert(!sp.contains(g[q as int])) by {
                if sp.contains(g[q as int]) {
                    let w = choose|w: int| 0 <= w < sp.len() && sp[w] == g[q as int];
                    assert(g.take(t)[w] == g[w]);
                    assert(g[w] == g[q as int]);
                }
            }
            assert(frontier(d, n, sp, g[q as int]) <= frontier(d, n, sp, b as usize));
        }
        lemma_best_next_first(cm, kmax, prev, kmax, tu);
        assert(greedy_seq(cm, kmax, k) == prev.push(tu));
        assert(greedy_seq(cm, kmax, k) =~= range_idx(0, k));
    }
}

/// A row minimum only reads the entries of that row prefix, so it is the
/// same in any two matrices agreeing there.
pub proof fn lemma_row_min_congruent(
    d1: Seq<u64>,
    n1: int,
    d2: Seq<u64>,
    n2: int,
    a: int,
    j: int,
)
    requires
        forall|b: int| 0 <= b < j ==> #[trigger] ent(d1, n1, a, b) == ent(d2, n2, a, b),
    ensures
        row_min(d1, n1, a, j) == row_min(d2, n2, a, j),
    decreases j,
{
    if j > 0 {
        lemma_row_min_congruent(d1, n1, d2, n2, a, j - 1);
    }
}

/// The minimum pairwise distance among the first `i` points only reads the
/// top-left block of the matrix, so it is the same in any two matrices
/// agreeing there.
pub proof fn lemma_min_pairwise_upto_congruent(
    d1: Seq<u64>,
    n1: int,
    d2: Seq<u64>,
    n2: int,
    i: int,
)
    requires
        forall|a: int, b: int| 0 <= b < a < i ==> #[trigger] ent(d1, n1, a, b) == ent(
            d2,
            n2,
            a,
            b,
        ),
    ensures
        min_pairwise_upto(d1, n1, i) == min_pairwise_upto(d2, n2, i),
    decreases i,
{
    if i > 0 {
        lemma_min_pairwise_upto_congruent(d1, n1, d2, n2, i - 1);
        lemma_row_min_congruent(d1, n1, d2, n2, i - 1, i - 1);
    }
}

/// Row `a` of a selected submatrix, scanned up to column `j`, accumulates
/// exactly the frontier distance of point `idx[a]` against the first `j`
/// selected points.
pub proof fn lemma_row_min_is_frontier(d: Seq<u64>, n: int, idx: Seq<usize>, a: int, j: int)
    requires
        0 <= j <= idx.len(),
        0 <= a < idx.len(),
    ensures
        row_min(submatrix(d, n, idx), idx.len() as int, a, j) == frontier(
            d,
            n,
            idx.take(j),
            idx[a],
        ),
    decreases j,
{
    if j == 0 {
        assert(idx.take(0).len() == 0);
    } else {
        lemma_row_min_is_frontier(d, n, idx, a, j - 1);
        crate::metricdata::lemma_submatrix_ent(d, n, idx, a, j - 1);
        assert(idx.take(j).drop_last() =~= idx.take(j - 1));
        assert(idx.take(j).last() == idx[j - 1]);
    }
}

/// The greedy invariant: the objective the selector reports — the frontier
/// distance recorded for the last point added — is exactly the minimum
/// pairwise distance across the whole selected set.  Each newly chosen
/// point is at least as far from all previously chosen points as every
/// later choice is, so no closer pair exists among earlier selections.
pub proof fn lemma_objective_is_min_pairwise(d: Seq<u64>, n: int, k: int)
    requires
        1 <= k <= n,
        n <= usize::MAX,
    ensures
        min_pairwise(submatrix(d, n, greedy_seq(d, n, k)), k) == greedy_objective(d, n, k),
    decreases k,
{
    let g = greedy_seq(d, n, k);
    lemma_greedy_seq_props(d, n, k);
    let sub = submatrix(d, n, g);
    if k == 1 {
        assert(min_pairwise_upto(sub, 1, 0) == u64::MAX);
        assert(row_min(sub, 1, 0, 0) == u64::MAX);
        assert(min_pairwise(sub, 1) == dmin(u64::MAX, u64::MAX));
    } else {
        lemma_objective_is_min_pairwise(d, n, k - 1);
        let gp = greedy_seq(d, n, k - 1);
        lemma_greedy_seq_props(d, n, k - 1);
        let subp = submatrix(d, n, gp);
        lemma_greedy_take(d, n, k - 1, k);
        assert(gp == g.take(k - 1));
        assert forall|a: int, b: int| 0 <= b < a < k - 1 implies #[trigger] ent(sub, k, a, b)
            == ent(subp, k - 1, a, b) by {
            crate::metricdata::lemma_submatrix_ent(d, n, g, a, b);
            crate::metricdata::lemma_submatrix_ent(d, n, gp, a, b);
            assert(g.take(k - 1)[a] == g[a] && g.take(k - 1)[b] == g[b]);
        }
        lemma_min_pairwise_upto_congruent(sub, k, subp, k - 1, k - 1);
        lemma_row_min_is_frontier(d, n, g, k - 1, k - 1);
        let b = best_next(d, n, gp, n);
        assert(g == gp.push(b as usize));
        assert(g[k - 1] == b as usize);
        assert(row_min(sub, k, k - 1, k - 1) == greedy_objective(d, n, k));
        assert(min_pairwise(sub, k) == dmin(
            min_pairwise_upto(sub, k, k - 1),
            row_min(sub, k, k - 1, k - 1),
        ));
        lemma_greedy_prefix(d, n, k - 1);
        assert(greedy_objective(d, n, k) <= greedy_objective(d, n, k - 1));
    }
}

/// The row minimum is a lower bound on every entry it scans.
pub proof fn lemma_row_min_le(d: Seq<u64>, n: int, a: int, j: int, b: int)
    requires
        0 <= b < j,
    ensures
        row_min(d, n, a, j) <= ent(d, n, a, b),
    decreases j,
{
    if b < j - 1 {
        lemma_row_min_le(d, n, a, j - 1, b);
    }
}

/// The minimum pairwise distance is a lower bound on every pair it scans.
pub proof fn lemma_min_pairwise_upto_le(d: Seq<u64>, n: int, i: int, a: int, b: int)
    requires
        0 <= b < a < i,
    ensures
        min_pairwise_upto(d, n, i) <= ent(d, n, a, b),
    decreases i,
{
    if a < i - 1 {
        lemma_min_pairwise_upto_le(d, n, i - 1, a, b);
    } else {
        lemma_row_min_le(d, n, i - 1, i - 1, b);
    }
}

/// A non-trivial row minimum is attained at one of the scanned entries.
pub proof fn lemma_row_min_witness(d: Seq<u64>, n: int, a: int, j: int)
    requires
        j >= 1,
    ensures
        exists|b: int| 0 <= b < j && row_min(d, n, a, j) == #[trigger] ent(d, n, a, b),
    decreases j,
{
    if j == 1 {
        assert(row_min(d, n, a, 0) == u64::MAX);
        assert(0 <= 0 < j && row_min(d, n, a, j) == ent(d, n, a, 0));
    } else {
        lemma_row_min_witness(d, n, a, j - 1);
        if row_min(d, n, a, j) == row_min(d, n, a, j - 1) {
            let b0 = choose|b: int| 0 <= b < j - 1 && row_min(d, n, a, j - 1) == ent(d, n, a, b);
            assert(0 <= b0 < j && row_min(d, n, a, j) == ent(d, n, a, b0));
        } else {
            assert(0 <= j - 1 < j && row_min(d, n, a, j) == ent(d, n, a, j - 1));
        }
    }
}

/// A non-trivial minimum pairwise distance is attained at one of the pairs.
pub proof fn lemma_min_pairwise_upto_witness(d: Seq<u64>, n: int, i: int)
    requires
        i >= 2,
    ensures
        exists|a: int, b: int|
            0 <= b < a < i && min_pairwise_upto(d, n, i) == #[trigger] ent(d, n, a, b),
    decreases i,
{
    if i == 2 {
        assert(min_pairwise_upto(d, n, 0) == u64::MAX);
        assert(row_min(d, n, 0, 0) == u64::MAX);
        assert(min_pairwise_upto(d, n, 1) == u64::MAX);
        lemma_row_min_witness(d, n, 1, 1);
        let b0 = choose|b: int| 0 <= b < 1 && row_min(d, n, 1, 1) == ent(d, n, 1, b);
        assert(min_pairwise_upto(d, n, 2) == row_min(d, n, 1, 1));
        assert(0 <= b0 < 1 < 2 && min_pairwise_upto(d, n, 2) == ent(d, n, 1, b0));
    } else {
        lemma_min_pairwise_upto_witness(d, n, i - 1);
        lemma_row_min_witness(d, n, i - 1, i - 1);
        if min_pairwise_upto(d, n, i) == min_pairwise_upto(d, n, i - 1) {
            let (a0, b0) = choose|a0: int, b0: int|
                0 <= b0 < a0 < i - 1 && min_pairwise_upto(d, n, i - 1) == ent(d, n, a0, b0);
            assert(0 <= b0 < a0 < i && min_pairwise_upto(d, n, i) == ent(d, n, a0, b0));
        } else {
            let b0 = choose|b: int|
                0 <= b < i - 1 && row_min(d, n, i - 1, i - 1) == #[trigger] ent(d, n, i - 1, b);
            assert(0 <= b0 < i - 1 < i && min_pairwise_upto(d, n, i) == ent(d, n, i - 1, b0));
        }
    }
}

/// A selection of `n` distinct indices below `n` contains every index
/// below `n`.
pub proof fn lemma_permutation_contains(g: Seq<usize>, n: int)
    requires
        g.no_duplicates(),
        forall|t: int| 0 <= t < g.len() ==> (#[trigger] g[t]) < n,
        g.len() == n,
        n <= usize::MAX,
    ensures
        forall|v: usize| (v as int) < n ==> g.contains(v),
{
    broadcast use vstd::seq_lib::seq_to_set_is_finite;
    broadcast use vstd::set::group_set_axioms;

    let si = g.map_values(|x: usize| x as int);
    assert(si.no_duplicates()) by {
        assert forall|i: int, j: int|
            0 <= i < si.len() && 0 <= j < si.len() && i != j implies si[i] != si[j] by {
            assert(g[i] != g[j]);
        }
    }
    si.unique_seq_to_set();
    assert forall|v: usize| (v as int) < n implies g.contains(v) by {
        if !g.contains(v) {
            let range = vstd::set_lib::set_int_range(0, n);
            vstd::set_lib::lemma_int_range(0, n);
            let small = range.remove(v as int);
            assert(range.contains(v as int));
            assert(small.len() == n - 1);
            assert(si.to_set().subset_of(small)) by {
                assert forall|x: int| si.to_set().contains(x) implies small.contains(x) by {
                    let w = choose|w: int| 0 <= w < si.len() && si[w] == x;
                    assert(g[w] < n);
                    assert(si[w] == g[w] as int);
                    if x == v as int {
                        assert(g[w] == v);
                        assert(g.contains(v));
                    }
                }
            }
            vstd::set_lib::lemma_len_subset(si.to_set(), small);
            assert(false);
        }
    }
}

/// The minimum pairwise distance of a symmetric matrix is unchanged by
/// reordering the points: the submatrix under a permutation of all indices
/// has the same minimum pairwise distance as the matrix itself.
pub proof fn lemma_min_pairwise_permuted(d: Seq<u64>, n: int, g: Seq<usize>)
    requires
        forall|i: int, j: int|
            0 <= i < n && 0 <= j < n ==> #[trigger] ent(d, n, i, j) == ent(d, n, j, i),
        g.no_duplicates(),
        g.len() == n,
        forall|t: int| 0 <= t < n ==> (#[trigger] g[t]) < n,
        0 <= n <= usize::MAX,
    ensures
        min_pairwise(submatrix(d, n, g), n) == min_pairwise(d, n),
{
    let sub = submatrix(d, n, g);
    if n >= 2 {
        // the permuted minimum is no larger: the pair attaining the
        // original minimum appears, in some orientation, in the submatrix
        lemma_min_pairwise_upto_witness(d, n, n);
        let (a, b) = choose|a: int, b: int|
            0 <= b < a < n && min_pairwise_upto(d, n, n) == ent(d, n, a, b);
        lemma_permutation_contains(g, n);
        assert(g.contains(a as usize));
        assert(g.contains(b as usize));
        let i = choose|i: int| 0 <= i < g.len() && g[i] == a as usize;
        let j = choose|j: int| 0 <= j < g.len() && g[j] == b as usize;
        assert(i != j);
        if i > j {
            crate::metricdata::lemma_submatrix_ent(d, n, g, i, j);
            lemma_min_pairwise_upto_le(sub, n, n, i, j);
            assert(ent(sub, n, i, j) == ent(d, n, a, b));
        } else {
            crate::metricdata::lemma_submatrix_ent(d, n, g, j, i);
            lemma_min_pairwise_upto_le(sub, n, n, j, i);
            assert(ent(sub, n, j, i) == ent(d, n, b, a));
            assert(ent(d, n, b, a) == ent(d, n, a, b));
        }
        assert(min_pairwise(sub, n) <= min_pairwise(d, n));
        // and no smaller: the pair attaining the permuted minimum is a
        // pair of the original matrix
        lemma_min_pairwise_upto_witness(sub, n, n);
        let (i2, j2) = choose|i2: int, j2: int|
            0 <= j2 < i2 < n && min_pairwise_upto(sub, n, n) == ent(sub, n, i2, j2);
        crate::metricdata::lemma_submatrix_ent(d, n, g, i2, j2);
        let a2 = g[i2] as int;
        let b2 = g[j2] as int;
        assert(a2 != b2);
        if a2 > b2 {
            lemma_min_pairwise_upto_le(d, n, n, a2, b2);
        } else {
            lemma_min_pairwise_upto_le(d, n, n, b2, a2);
            assert(ent(d, n, b2, a2) == ent(d, n, a2, b2));
        }
        assert(min_pairwise(d, n) <= min_pairwise(sub, n));
    } else if n == 1 {
        assert(min_pairwise_upto(sub, n, 0) == u64::MAX);
        assert(row_min(sub, n, 0, 0) == u64::MAX);
        assert(min_pairwise_upto(d, n, 0) == u64::MAX);
        assert(row_min(d, n, 0, 0) == u64::MAX);
        assert(min_pairwise(sub, n) == u64::MAX);
        assert(min_pairwise(d, n) == u64::MAX);
    } else {
        assert(min_pairwise(sub, n) == u64::MAX);
        assert(min_pairwise(d, n) == u64::MAX);
    }
}

/// Selecting every point (`k == n`) achieves, as its objective, the whole
/// dataset's minimum pairwise distance.
pub proof fn lemma_full_selection_objective(d: Seq<u64>, n: int)
    requires
        forall|i: int, j: int|
            0 <= i < n && 0 <= j < n ==> #[trigger] ent(d, n, i, j) == ent(d, n, j, i),
        1 <= n <= usize::MAX,
    ensures
        greedy_objective(d, n, n) == min_pairwise(d, n),
{
    lemma_greedy_seq_props(d, n, n);
    lemma_objective_is_min_pairwise(d, n, n);
    lemma_min_pairwise_permuted(d, n, greedy_seq(d, n, n));
}

/// For a two-point set the minimum pairwise distance is exactly the single
/// pairwise distance between the two points.
pub proof fn lemma_min_pairwise_two_points(d: Seq<u64>)
    ensures
        min_pairwise(d, 2) == ent(d, 2, 1, 0),
{
    assert(min_pairwise_upto(d, 2, 0) == u64::MAX);
    assert(row_min(d, 2, 0, 0) == u64::MAX);
    assert(min_pairwise_upto(d, 2, 1) == u64::MAX);
    assert(row_min(d, 2, 1, 0) == u64::MAX);
    assert(row_min(d, 2, 1, 1) == dmin(u64::MAX, ent(d, 2, 1, 0)));
    assert(min_pairwise_upto(d, 2, 2) == dmin(u64::MAX, row_min(d, 2, 1, 1)));
}

/// Greedy remote-edge selection over a metric view.
///
/// Returns the ordered solution indices together with the achieved
/// objective: the frontier distance recorded for the last point added,
/// which equals the minimum pairwise distance across the whole selected
/// set (`u64::MAX` when `k == 1`, where the solution has no pair).
pub fn greedy_minimum_maximum(data: &MetricView, k: usize) -> (r: (Vec<usize>, u64))
    requires
        data.wf(),
        1 <= k <= data.n,
    ensures
        r.0@ == greedy_seq(data.d@, data.n as int, k as int),
        r.1 == greedy_objective(data.d@, data.n as int, k as int),
        r.1 == min_pairwise(submatrix(data.d@, data.n as int, r.0@), k as int),
        r.0@.len() == k,
        r.0@.no_duplicates(),
        forall|t: int| 0 <= t < k ==> (#[trigger] r.0@[t]) < data.n,
        r.0@[0] == 0,
{
    let n: usize = data.num_points();
    let ghost d = data.d@;
    let ghost ni = data.n as int;
    let mut sol: Vec<usize> = Vec::new();
    sol.push(0);
    let mut selected: Vec<bool> = Vec::new();
    let mut i: usize = 0;
    while i < n
        invariant
            i <= n,
            selected@.len() == i,
            forall|q: int| 0 <= q < i ==> !(#[trigger] selected@[q]),
        decreases n - i,
    {
        selected.push(false);
        i = i + 1;
    }
    selected.set(0, true);
    let mut front: Vec<u64> = Vec::new();
    let mut p: usize = 0;
    while p < n
        invariant
            data.wf(),
            d == data.d@,
            ni == data.n as int,
            n == data.n,
            n >= 1,
            p <= n,
            front@.len() == p,
            forall|q: usize| (q as int) < p ==> (#[trigger] front@[q as int]) == frontier(
                d,
                ni,
                seq![0usize],
                q,
            ),
        decreases n - p,
    {
        let dist: u64 = data.distance(p, 0);
        proof {
            let s0 = seq![0usize];
            assert(s0.drop_last() =~= Seq::<usize>::empty());
            assert(frontier(d, ni, Seq::<usize>::empty(), p) == u64::MAX);
            assert(s0.last() == 0usize);
            assert(frontier(d, ni, s0, p) == dmin(u64::MAX, ent(d, ni, p as int, 0)));
        }
        front.push(dist);
        p = p + 1;
    }
    let mut obj: u64 = u64::MAX;
    let mut t: usize = 1;
    proof {
        assert(sol@ =~= greedy_seq(d, ni, 1));
        assert forall|q: usize| (q as int) < n implies selected@[q as int] == sol@.contains(
            q,
        ) by {
            if q == 0 {
                assert(sol@[0] == 0);
            } else {
                if sol@.contains(q) {
                    let w = choose|w: int| 0 <= w < sol@.len() && sol@[w] == q;
                    assert(w == 0);
                }
            }
        }
    }
    while t < k
        invariant
            data.wf(),
            d == data.d@,
            ni == data.n as int,
            n == data.n,
            1 <= t <= k,
            k <= n,
            sol@.len() == t,
            sol@ == greedy_seq(d, ni, t as int),
            sol@.no_duplicates(),
            forall|w: int| 0 <= w < t ==> (#[trigger] sol@[w]) < n,
            selected@.len() == n,
            forall|q: usize| (q as int) < n ==> (#[trigger] selected@[q as int]) == sol@.contains(
                q,
            ),
            front@.len() == n,
            forall|q: usize| (q as int) < n ==> (#[trigger] front@[q as int]) == frontier(
                d,
                ni,
                sol@,
                q,
            ),
            obj == greedy_objective(d, ni, t as int),
        decreases k - t,
    {
        let ghost prev_sol = sol@;
        let mut best: usize = n;
        let mut p2: usize = 0;
        while p2 < n
            invariant
                data.wf(),
                d == data.d@,
                ni == data.n as int,
                n == data.n,
                p2 <= n,
                sol@ == prev_sol,
                selected@.len() == n,
                forall|q: usize| (q as int) < n ==> (#[trigger] selected@[q as int])
                    == sol@.contains(q),
                front@.len() == n,
                forall|q: usize| (q as int) < n ==> (#[trigger] front@[q as int]) == frontier(
                    d,
                    ni,
                    sol@,
                    q,
                ),
                best_next(d, ni, sol@, p2 as int) == -1 ==> best == n,
                best_next(d, ni, sol@, p2 as int) != -1 ==> best as int == best_next(
                    d,
                    ni,
                    sol@,
                    p2 as int,
                ) && best < n,
            decreases n - p2,
        {
            if !selected[p2] {
                if best == n {
                    best = p2;
                } else if front[p2] > front[best] {
                    best = p2;
                }
            }
            p2 = p2 + 1;
        }
        proof {
            lemma_best_next_found(d, ni, sol@);
        }
        obj = front[best];
        proof {
            assert(greedy_objective(d, ni, t as int + 1) == frontier(d, ni, sol@, best));
        }
        sol.push(best);
        selected.set(best, true);
        proof {
            assert(sol@ == prev_sol.push(best));
            assert(sol@ == greedy_seq(d, ni, t as int + 1));
            assert(sol@.no_duplicates()) by {
                assert(!prev_sol.contains(best));
                assert forall|w1: int, w2: int|
                    0 <= w1 < sol@.len() && 0 <= w2 < sol@.len() && w1 != w2 implies sol@[w1]
                    != sol@[w2] by {
                    if w1 < t && w2 < t {
                        assert(prev_sol[w1] != prev_sol[w2]);
                    } else if w1 == t && w2 < t {
                        if sol@[w2] == best {
                            assert(prev_sol[w2] == best);
                            assert(prev_sol.contains(best));
                        }
                    } else if w2 == t && w1 < t {
                        if sol@[w1] == best {
                            assert(prev_sol[w1] == best);
                            assert(prev_sol.contains(best));
                        }
                    }
                }
            }
            assert forall|q: usize| (q as int) < n implies (#[trigger] selected@[q as int])
                == sol@.contains(q) by {
                if q == best {
                    assert(sol@[t as int] == best);
                } else {
                    if prev_sol.contains(q) {
                        let w = choose|w: int| 0 <= w < prev_sol.len() && prev_sol[w] == q;
                        assert(sol@[w] == q);
                    }
                    if sol@.contains(q) {
                        let w = choose|w: int| 0 <= w < sol@.len() && sol@[w] == q;
                        assert(w < t);
                        assert(prev_sol[w] == q);
                    }
                }
            }
            assert(sol@.drop_last() =~= prev_sol);
            assert(sol@.last() == best);
        }
        let mut q2: usize = 0;
        while q2 < n
            invariant
                data.wf(),
                d == data.d@,
                ni == data.n as int,
                n == data.n,
                best < n,
                q2 <= n,
                sol@ == prev_sol.push(best),
                sol@.drop_last() == prev_sol,
                sol@.last() == best,
                front@.len() == n,
                forall|q: usize| (q as int) < q2 ==> (#[trigger] front@[q as int]) == frontier(
                    d,
                    ni,
                    sol@,
                    q,
                ),
                forall|q: usize| q2 <= (q as int) < n ==> (#[trigger] front@[q as int]) == frontier(
                    d,
                    ni,
                    prev_sol,
                    q,
                ),
            decreases n - q2,
        {
            let dq: u64 = data.distance(q2, best);
            proof {
                assert(frontier(d, ni, sol@, q2) == dmin(
                    frontier(d, ni, prev_sol, q2),
                    ent(d, ni, q2 as int, best as int),
                ));
            }
            if dq < front[q2] {
                front.set(q2, dq);
            }
            q2 = q2 + 1;
        }
        t = t + 1;
    }
    proof {
        lemma_greedy_seq_props(d, ni, k as int);
        lemma_objective_is_min_pairwise(d, ni, k as int);
    }
    (sol, obj)
}

} // verus!
