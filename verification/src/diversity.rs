//! The diversity-maximization facade: a configuration (target size `k`,
//! objective kind, optional coreset size, worker count) that dispatches a
//! `fit` call to the greedy selector, optionally after building a
//! sequential or parallel coreset first.

use crate::coreset::{
    coreset_count, coreset_matrix, par_count, par_matrix, Coreset, ParallelCoreset,
};
use crate::gmm::{
    greedy_minimum_maximum, greedy_seq, min_pairwise, min_pairwise_upto, row_min,
};
use crate::metricdata::{dmin, MetricView};
use vstd::prelude::*;

verus! {

/// The diversity objectives this engine supports; the design is extensible
/// to further objectives as additional variants.
pub enum DiversityKind {
    /// Maximize the minimum pairwise distance among the selected points
    /// (the remote-edge objective).
    RemoteEdge,
}

impl DiversityKind {
    /// Selection under this objective: the greedy remote-edge rule.
    fn solve(&self, data: &MetricView, k: usize) -> (r: Vec<usize>)
        requires
            data.wf(),
            1 <= k <= data.n,
        ensures
            r@ == greedy_seq(data.d@, data.n as int, k as int),
            r@.len() == k,
            r@.no_duplicates(),
    {
        match self {
            DiversityKind::RemoteEdge => {
                let (sol, _objective) = greedy_minimum_maximum(data, k);
                sol
            },
        }
    }

    /// The exact cost of a whole point set under this objective: the
    /// minimum pairwise distance, found by scanning all pairs; the no-pair
    /// value `u64::MAX` when the set holds fewer than two points.
    fn cost(&self, data: &MetricView) -> (r: u64)
        requires
            data.wf(),
        ensures
            r == min_pairwise(data.d@, data.n as int),
    {
        match self {
            DiversityKind::RemoteEdge => {
                let n: usize = data.num_points();
                let ghost d = data.d@;
                let ghost ni = data.n as int;
                let mut best: u64 = u64::MAX;
                let mut i: usize = 0;
                while i < n
                    invariant
                        data.wf(),
                        d == data.d@,
                        ni == data.n as int,
                        n == data.n,
                        i <= n,
                        best == min_pairwise_upto(d, ni, i as int),
                    decreases n - i,
                {
                    let mut j: usize = 0;
                    while j < i
                        invariant
                            data.wf(),
                            d == data.d@,
                            ni == data.n as int,
                            n == data.n,
                            i < n,
                            j <= i,
                            best == dmin(
                                min_pairwise_upto(d, ni, i as int),
                                row_min(d, ni, i as int, j as int),
                            ),
                        decreases i - j,
                    {
                        let dist: u64 = data.distance(i, j);
                        if dist < best {
                            best = dist;
                        }
                        j = j + 1;
                    }
                    i = i + 1;
                }
                best
            },
        }
    }
}

/// Configuration and orchestration entry point for diversity maximization.
///
/// Built once and reused across `fit` calls; each `fit` overwrites the
/// stored solution.
pub struct DiversityMaximization {
    /// Target diversity set size.
    pub k: usize,
    /// The objective to maximize.
    pub kind: DiversityKind,
    /// The last solution computed by `fit`, if any.
    pub solution: Option<Vec<usize>>,
    /// Optional coreset size; when set it must exceed `k`.
    pub coreset_size: Option<usize>,
    /// Worker count for coreset construction; at least 1.
    pub threads: usize,
}

impl DiversityMaximization {
    /// Configuration invariants, enforced at construction time: a coreset
    /// size, when set, exceeds `k`, and the thread count is at least 1.
    pub open spec fn wf(self) -> bool {
        &&& self.threads >= 1
        &&& self.coreset_size is Some ==> self.coreset_size->Some_0 > self.k
    }

    /// The indices a `fit` call stores, as a function of the configuration
    /// and the input data: the greedy selection, run either directly on the
    /// input or on the (sequential or parallel) coreset built from it.
    pub open spec fn fit_indices(self, d: Seq<u64>, n: int) -> Seq<usize> {
        if self.coreset_size is None {
            greedy_seq(d, n, self.k as int)
        } else {
            let m = self.coreset_size->Some_0 as int;
            if self.threads == 1 {
                greedy_seq(coreset_matrix(d, n, m), coreset_count(n, m), self.k as int)
            } else {
                greedy_seq(
                    par_matrix(d, n, m, self.threads as int),
                    par_count(d, n, m, self.threads as int),
                    self.k as int,
                )
            }
        }
    }

    /// A configuration selecting `k` points under the given objective,
    /// single-threaded and without a coreset.
    pub fn new(k: usize, kind: DiversityKind) -> (r: Self)
        ensures
            r.k == k,
            r.kind == kind,
            r.solution is None,
            r.coreset_size is None,
            r.threads == 1,
            r.wf(),
    {
        Self { k, kind, solution: None, coreset_size: None, threads: 1 }
    }

    /// The same configuration with a coreset of the given size: `fit` will
    /// first reduce the input to at most `coreset_size` representative
    /// points.  The size must exceed `k`.
    pub fn with_coreset(self, coreset_size: usize) -> (r: Self)
        requires
            coreset_size > self.k,
        ensures
            r.k == self.k,
            r.kind == self.kind,
            r.solution == self.solution,
            r.coreset_size == Some(coreset_size),
            r.threads == self.threads,
            self.wf() ==> r.wf(),
    {
        Self { coreset_size: Some(coreset_size), ..self }
    }

    /// The same configuration with the given worker count (at least 1).
    /// More than one worker requires a coreset size to be set before `fit`.
    pub fn with_threads(self, threads: usize) -> (r: Self)
        requires
            threads >= 1,
        ensures
            r.k == self.k,
            r.kind == self.kind,
            r.solution == self.solution,
            r.coreset_size == self.coreset_size,
            r.threads == threads,
            self.wf() ==> r.wf(),
    {
        Self { threads, ..self }
    }

    /// The exact cost of the given point set under the configured
    /// objective, scanning all pairs: for the remote-edge objective, the
    /// minimum pairwise distance (`u64::MAX` when there is no pair).
    ///
    /// A standalone diagnostic: it ignores and keeps any stored solution.
    pub fn cost(&mut self, data: &MetricView) -> (r: u64)
        requires
            data.wf(),
        ensures
            *final(self) == *old(self),
            r == min_pairwise(data.d@, data.n as int),
    {
        self.kind.cost(data)
    }

    /// Runs the configured selection on `data` and stores the solution,
    /// overwriting any previous one.
    ///
    /// When a coreset is configured, the stored indices are
    /// **coreset-local**: they index into the reduced representative set,
    /// not into `data`.
    pub fn fit(&mut self, data: &MetricView)
        requires
            old(self).wf(),
            data.wf(),
            1 <= old(self).k <= data.n,
            old(self).threads > 1 ==> old(self).coreset_size is Some,
        ensures
            final(self).wf(),
            final(self).k == old(self).k,
            final(self).kind == old(self).kind,
            final(self).coreset_size == old(self).coreset_size,
            final(self).threads == old(self).threads,
            final(self).solution is Some,
            final(self).solution->Some_0@ == old(self).fit_indices(data.d@, data.n as int),
            final(self).solution->Some_0@.len() == old(self).k,
            final(self).solution->Some_0@.no_duplicates(),
    {
        let k: usize = self.k;
        match self.coreset_size {
            None => {
                let sol = self.kind.solve(data, k);
                self.solution = Some(sol);
            },
            Some(coreset_size) => {
                if self.threads == 1 {
                    let mut coreset = Coreset::new(coreset_size);
                    coreset.fit_predict(data, None);
                    let points = coreset.points.unwrap();
                    let sol = self.kind.solve(&points, k);
                    self.solution = Some(sol);
                } else {
                    let mut coreset = ParallelCoreset::new(coreset_size, self.threads);
                    coreset.fit(data, None);
                    let points = coreset.points.unwrap();
                    let sol = self.kind.solve(&points, k);
                    self.solution = Some(sol);
                }
            },
        }
    }

    /// A copy of the last solution's indices, or nothing if `fit` was never
    /// called.  When `fit` used a coreset, the indices are coreset-local.
    pub fn get_solution_indices(&self) -> (r: Option<Vec<usize>>)
        ensures
            r is Some <==> self.solution is Some,
            r is Some ==> r->Some_0@ == self.solution->Some_0@,
    {
        match &self.solution {
            None => None,
            Some(sol) => {
                let len: usize = sol.len();
                let mut out: Vec<usize> = Vec::new();
                let mut i: usize = 0;
                while i < len
                    invariant
                        i <= len,
                        len == sol@.len(),
                        out@.len() == i,
                        forall|t: int| 0 <= t < i ==> out@[t] == sol@[t],
                    decreases len - i,
                {
                    out.push(sol[i]);
                    i = i + 1;
                }
                proof {
                    assert(out@ =~= sol@);
                }
                Some(out)
            },
        }
    }
}

} // verus!
