//! Coreset builders: reduce a point set of `n` points to at most `m`
//! representative points that preserve the remote-edge structure.
//!
//! The sequential builder runs the greedy remote-edge selector itself with
//! budget `m`: farthest-point sampling with a larger budget covers the space
//! at least as well as any later `k < m` selection.  The parallel builder
//! splits the input into contiguous shards, reduces each shard independently
//! with the same rule, concatenates the shard outputs and reduces the
//! candidates once more to the final `m` representatives (a composable
//! "build-then-merge" coreset).  Shards are disjoint and read-only with
//! respect to the shared input, so the shard computations are independent
//! of one another and their results do not depend on scheduling.

use crate::gmm::{greedy_minimum_maximum, greedy_seq};
use crate::metricdata::{
    ceil_div, chunk_hi, chunk_lo, imin, lemma_chunk_bounds, range_idx, submatrix, MetricView,
};
use vstd::prelude::*;

verus! {

/// How many points the sequential coreset holds: the requested size, capped
/// by the number of available points.
pub open spec fn coreset_count(n: int, m: int) -> int {
    imin(m, n)
}

/// The indices the sequential coreset builder selects: the greedy
/// remote-edge selection with budget `min(m, n)`.
pub open spec fn coreset_indices(d: Seq<u64>, n: int, m: int) -> Seq<usize> {
    greedy_seq(d, n, coreset_count(n, m))
}

/// The distance matrix of the sequential coreset.
pub open spec fn coreset_matrix(d: Seq<u64>, n: int, m: int) -> Seq<u64> {
    submatrix(d, n, coreset_indices(d, n, m))
}

/// The concatenated global indices of the candidates produced by the first
/// `i` of `c` shards: each non-empty shard contributes its own sequential
/// coreset, mapped back to indices into the full point set.
pub open spec fn par_candidates(d: Seq<u64>, n: int, m: int, c: int, i: int) -> Seq<usize>
    decreases i,
{
    if i <= 0 {
        Seq::empty()
    } else {
        let prev = par_candidates(d, n, m, c, i - 1);
        let lo = chunk_lo(n, c, i - 1);
        let hi = chunk_hi(n, c, i - 1);
        if hi <= lo {
            prev
        } else {
            let cn = hi - lo;
            let local = greedy_seq(submatrix(d, n, range_idx(lo, hi)), cn, imin(m, cn));
            prev + local.map_values(|x: usize| (lo + x) as usize)
        }
    }
}

/// How many candidates all `c` shards contribute together.
pub open spec fn par_cand_n(d: Seq<u64>, n: int, m: int, c: int) -> int {
    par_candidates(d, n, m, c, c).len() as int
}

/// How many points the parallel coreset holds after the merge reduction.
pub open spec fn par_count(d: Seq<u64>, n: int, m: int, c: int) -> int {
    imin(m, par_cand_n(d, n, m, c))
}

/// The distance matrix of the candidate set: the full matrix restricted to
/// the shard outputs, so distances across shard boundaries are the true
/// distances of the original point set.
pub open spec fn par_cand_matrix(d: Seq<u64>, n: int, m: int, c: int) -> Seq<u64> {
    submatrix(d, n, par_candidates(d, n, m, c, c))
}

/// The distance matrix of the parallel coreset: the merge step runs the
/// identical greedy reduction once more over the candidates.
pub open spec fn par_matrix(d: Seq<u64>, n: int, m: int, c: int) -> Seq<u64> {
    submatrix(
        par_cand_matrix(d, n, m, c),
        par_cand_n(d, n, m, c),
        greedy_seq(par_cand_matrix(d, n, m, c), par_cand_n(d, n, m, c), par_count(d, n, m, c)),
    )
}

/// Sequential coreset builder: reduces a point set to at most `size`
/// representatives by farthest-point sampling.
pub struct Coreset {
    /// Requested coreset size.
    pub size: usize,
    /// The reduced point set, once built.
    pub points: Option<MetricView>,
}

impl Coreset {
    /// A builder for coresets of at most `size` points.
    pub fn new(size: usize) -> (r: Coreset)
        ensures
            r.size == size,
            r.points is None,
    {
        Coreset { size, points: None }
    }

    /// Builds the coreset: runs the greedy remote-edge selector with budget
    /// `min(size, n)` and keeps the selected points, in selection order.
    ///
    /// The coreset never exceeds the requested size and reaches it exactly
    /// whenever the input holds at least `size` points.
    ///
    /// The `ancillary` weighting input is reserved for the deferred
    /// assignment of every input point to its nearest representative; it is
    /// accepted but not yet consulted.
    pub fn fit_predict(&mut self, data: &MetricView, ancillary: Option<&Vec<u64>>)
        requires
            data.wf(),
            data.n >= 1,
            old(self).size >= 1,
        ensures
            final(self).size == old(self).size,
            final(self).points is Some,
            final(self).points->Some_0.wf(),
            final(self).points->Some_0.dims == data.dims,
            final(self).points->Some_0.n == coreset_count(data.n as int, old(self).size as int),
            final(self).points->Some_0.d@ == coreset_matrix(
                data.d@,
                data.n as int,
                old(self).size as int,
            ),
            final(self).points->Some_0.n <= old(self).size,
            data.n >= old(self).size ==> final(self).points->Some_0.n == old(self).size,
    {
        let _ = ancillary;
        let n: usize = data.num_points();
        let _dlen: usize = data.d.len();
        let k: usize = if self.size < n {
            self.size
        } else {
            n
        };
        let (sol, _objective) = greedy_minimum_maximum(data, k);
        proof {
            assert(k * k <= n * n) by (nonlinear_arith)
                requires
                    0 <= k <= n,
            ;
        }
        let cs = data.subset(&sol);
        self.points = Some(cs);
    }

    /// The reduced point set, or nothing if the builder has not run yet.
    pub fn coreset_points(&self) -> (r: Option<&MetricView>)
        ensures
            r is Some <==> self.points is Some,
            r is Some ==> r->Some_0 == self.points->Some_0,
    {
        self.points.as_ref()
    }
}

/// Parallel coreset builder: shards the input, builds a local coreset per
/// shard, and merges the candidates with the identical greedy reduction.
pub struct ParallelCoreset {
    /// Requested coreset size.
    pub size: usize,
    /// Number of worker shards the input is split into.
    pub threads: usize,
    /// The reduced point set, once built.
    pub points: Option<MetricView>,
}

impl ParallelCoreset {
    /// A builder that splits the input into `threads` shards.
    pub fn new(size: usize, threads: usize) -> (r: ParallelCoreset)
        requires
            threads >= 1,
        ensures
            r.size == size,
            r.threads == threads,
            r.points is None,
    {
        ParallelCoreset { size, threads, points: None }
    }

    /// Builds the coreset: every shard is reduced independently with budget
    /// `min(size, shard points)`; the shard outputs are concatenated and the
    /// identical greedy reduction runs once more over the candidates.  All
    /// shards participate: no shard's contribution is dropped.
    ///
    /// The result never exceeds the requested size and reaches it exactly
    /// whenever the input holds at least `size` points.
    ///
    /// The `ancillary` weighting input is reserved for the deferred
    /// assignment of every input point to its nearest representative; it is
    /// accepted but not yet consulted.
    pub fn fit(&mut self, data: &MetricView, ancillary: Option<&Vec<u64>>)
        requires
            data.wf(),
            data.n >= 1,
            old(self).size >= 1,
            old(self).threads >= 1,
        ensures
            final(self).size == old(self).size,
            final(self).threads == old(self).threads,
            final(self).points is Some,
            final(self).points->Some_0.wf(),
            final(self).points->Some_0.dims == data.dims,
            final(self).points->Some_0.n == par_count(
                data.d@,
                data.n as int,
                old(self).size as int,
                old(self).threads as int,
            ),
            final(self).points->Some_0.d@ == par_matrix(
                data.d@,
                data.n as int,
                old(self).size as int,
                old(self).threads as int,
            ),
            final(self).points->Some_0.n <= old(self).size,
            final(self).points->Some_0.n >= imin(old(self).size as int, data.n as int),
            data.n >= old(self).size ==> final(self).points->Some_0.n == old(self).size,
    {
        let _ = ancillary;
        let n: usize = data.num_points();
        let _dlen: usize = data.d.len();
        let m: usize = self.size;
        let c: usize = self.threads;
        let ghost d = data.d@;
        let ghost ni = data.n as int;
        let ghost mi = m as int;
        let ghost ci = c as int;
        let chunks: Vec<MetricView> = data.nchunks(c);
        let mut cand: Vec<usize> = Vec::new();
        let mut lo: usize = 0;
        let mut i: usize = 0;
        while i < c
            invariant
                data.wf(),
                d == data.d@,
                ni == data.n as int,
                mi == m as int,
                ci == c as int,
                n == data.n,
                n >= 1,
                m >= 1,
                c >= 1,
                i <= c,
                chunks@.len() == c,
                forall|t: int|
                    0 <= t < c ==> {
                        let clo = chunk_lo(ni, ci, t);
                        let chi = chunk_hi(ni, ci, t);
                        &&& (#[trigger] chunks@[t]).wf()
                        &&& chunks@[t].n == chi - clo
                        &&& chunks@[t].d@ == submatrix(d, ni, range_idx(clo, chi))
                    },
                lo == if i < c {
                    chunk_lo(ni, ci, i as int)
                } else {
                    ni
                },
                lo <= n,
                cand@ == par_candidates(d, ni, mi, ci, i as int),
                imin(mi, lo as int) <= cand@.len() <= lo as int,
                forall|t: int| 0 <= t < cand@.len() ==> (#[trigger] cand@[t]) < n,
            decreases c - i,
        {
            proof {
                lemma_chunk_bounds(ni, ci, i as int);
            }
            let chunk = &chunks[i];
            let chunk_n: usize = chunk.num_points();
            let hi: usize = lo + chunk_n;
            let ghost prev_cand = cand@;
            if chunk_n > 0 {
                let kk: usize = if chunk_n < m {
                    chunk_n
                } else {
                    m
                };
                let (local, _objective) = greedy_minimum_maximum(chunk, kk);
                let mut j: usize = 0;
                while j < kk
                    invariant
                        j <= kk,
                        kk <= chunk_n,
                        lo + chunk_n <= n,
                        local@.len() == kk,
                        forall|t: int| 0 <= t < kk ==> (#[trigger] local@[t]) < chunk_n,
                        cand@.len() == prev_cand.len() + j,
                        forall|t: int| 0 <= t < prev_cand.len() ==> (#[trigger] cand@[t])
                            == prev_cand[t],
                        forall|t: int|
                            0 <= t < j ==> (#[trigger] cand@[prev_cand.len() + t]) == lo
                                + local@[t],
                        forall|t: int| 0 <= t < cand@.len() ==> (#[trigger] cand@[t]) < n,
                    decreases kk - j,
                {
                    cand.push(lo + local[j]);
                    j = j + 1;
                }
                proof {
                    let clo = chunk_lo(ni, ci, i as int);
                    let chi = chunk_hi(ni, ci, i as int);
                    assert(lo == clo && hi == chi);
                    let locspec = greedy_seq(
                        submatrix(d, ni, range_idx(clo, chi)),
                        chi - clo,
                        imin(mi, chi - clo),
                    );
                    assert(local@ == locspec);
                    let target = par_candidates(d, ni, mi, ci, i as int + 1);
                    assert(target.len() == prev_cand.len() + locspec.len());
                    assert(cand@ =~= target) by {
                        assert(cand@.len() == target.len());
                        assert forall|t: int| 0 <= t < cand@.len() implies cand@[t]
                            == target[t] by {
                            if t >= prev_cand.len() {
                                let u = t - prev_cand.len();
                                assert(local@[u] < chunk_n);
                                assert(cand@[prev_cand.len() + u] == lo + local@[u]);
                                assert(0 <= clo + locspec[u] <= usize::MAX);
                                assert(target[t] == (clo + locspec[u]) as usize);
                            }
                        }
                    }
                }
            } else {
                proof {
                    assert(cand@ == par_candidates(d, ni, mi, ci, i as int + 1));
                }
            }
            lo = hi;
            i = i + 1;
            proof {
                if i < c {
                    lemma_chunk_bounds(ni, ci, i as int);
                    lemma_chunk_bounds(ni, ci, i as int - 1);
                }
            }
        }
        proof {
            assert(cand@.len() * cand@.len() <= ni * ni) by (nonlinear_arith)
                requires
                    0 <= cand@.len() <= ni,
            ;
        }
        let cand_view: MetricView = data.subset(&cand);
        let cn: usize = cand_view.num_points();
        let kk: usize = if cn < m {
            cn
        } else {
            m
        };
        proof {
            assert(kk * kk <= cn * cn) by (nonlinear_arith)
                requires
                    0 <= kk <= cn,
            ;
            assert(cn * cn <= ni * ni) by (nonlinear_arith)
                requires
                    0 <= cn <= ni,
            ;
        }
        let (sol, _objective) = greedy_minimum_maximum(&cand_view, kk);
        let cs = cand_view.subset(&sol);
        self.points = Some(cs);
    }

    /// The reduced point set, or nothing if the builder has not run yet.
    pub fn coreset_points(&self) -> (r: Option<&MetricView>)
        ensures
            r is Some <==> self.points is Some,
            r is Some ==> r->Some_0 == self.points->Some_0,
    {
        self.points.as_ref()
    }
}

/// With exactly one worker the parallel builder degenerates to the
/// sequential one: its single shard is the whole input, the candidate set
/// that the shard phase hands to the merge is exactly the sequential
/// coreset of the data, and the merge — the identical greedy reduction,
/// re-run on its own selection — leaves it unchanged, so the final result
/// equals the sequential coreset outright.
pub proof fn lemma_single_worker_matches_sequential(d: Seq<u64>, n: int, m: int)
    requires
        n >= 1,
        m >= 1,
        n <= usize::MAX,
        d.len() == n * n,
    ensures
        par_candidates(d, n, m, 1, 1) == coreset_indices(d, n, m),
        par_cand_matrix(d, n, m, 1) == coreset_matrix(d, n, m),
        par_cand_n(d, n, m, 1) == coreset_count(n, m),
        par_count(d, n, m, 1) == coreset_count(n, m),
        par_matrix(d, n, m, 1) == coreset_matrix(d, n, m),
{
    lemma_chunk_bounds(n, 1, 0);
    assert((n - 1) / 1 == n - 1) by (nonlinear_arith);
    assert(ceil_div(n, 1) == n);
    assert(chunk_lo(n, 1, 0) == 0);
    assert(chunk_hi(n, 1, 0) == n);
    crate::metricdata::lemma_submatrix_identity(d, n);
    let kc = imin(m, n);
    let local = greedy_seq(d, n, kc);
    crate::gmm::lemma_greedy_seq_props(d, n, kc);
    assert(par_candidates(d, n, m, 1, 0) == Seq::<usize>::empty());
    let pc = par_candidates(d, n, m, 1, 1);
    assert(pc =~= local) by {
        assert(pc.len() == local.len());
        assert forall|t: int| 0 <= t < pc.len() implies pc[t] == local[t] by {
            assert(local[t] < n);
            assert(pc[t] == (0 + local[t]) as usize);
        }
    }
    // the merge re-runs the greedy rule on the coreset's own matrix and
    // selects the identity sequence, so the submatrix it takes is the
    // whole candidate matrix
    let cm = coreset_matrix(d, n, m);
    crate::gmm::lemma_greedy_idempotent(d, n, kc, kc);
    assert(greedy_seq(cm, kc, kc) == range_idx(0, kc));
    assert(cm.len() == kc * kc) by {
        if kc > 0 {
            crate::metricdata::lemma_submatrix_ent(d, n, local, 0, 0);
        }
    }
    crate::metricdata::lemma_submatrix_identity(cm, kc);
}

} // verus!
