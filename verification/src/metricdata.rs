//! The point-set model that every algorithm in this crate works on: a
//! square matrix of pairwise distances, stored row-major, together with the
//! number of points and the dimensionality of the underlying feature space.
//!
//! A `MetricView` is produced by a concrete metric realization (for example
//! angular/cosine distance over a matrix of feature vectors): the realization
//! evaluates its distance function on every pair of points and encodes each
//! value as a `u64` through any strictly monotone encoding.  The algorithms
//! only ever compare distances, so the encoding is irrelevant to them.

use vstd::prelude::*;

verus! {

/// The smaller of two encoded distances.
pub open spec fn dmin(a: u64, b: u64) -> u64 {
    if a <= b {
        a
    } else {
        b
    }
}

/// The smaller of two integers.
pub open spec fn imin(a: int, b: int) -> int {
    if a <= b {
        a
    } else {
        b
    }
}

/// Entry (i, j) of a flat row-major n-by-n matrix.
pub open spec fn ent(d: Seq<u64>, n: int, i: int, j: int) -> u64 {
    d[i * n + j]
}

/// The matrix restricted to the given rows (and the matching columns), in
/// the given order.  Duplicate indices are allowed: the corresponding rows
/// simply appear several times.
pub open spec fn submatrix(d: Seq<u64>, n: int, idx: Seq<usize>) -> Seq<u64> {
    let m = idx.len() as int;
    Seq::new((m * m) as nat, |t: int| ent(d, n, idx[t / m] as int, idx[t % m] as int))
}

/// Entry (a, b) of a submatrix is the parent entry at the selected indices.
pub proof fn lemma_submatrix_ent(d: Seq<u64>, n: int, idx: Seq<usize>, a: int, b: int)
    requires
        0 <= a < idx.len(),
        0 <= b < idx.len(),
    ensures
        submatrix(d, n, idx).len() == idx.len() * idx.len(),
        0 <= a * idx.len() + b < idx.len() * idx.len(),
        ent(submatrix(d, n, idx), idx.len() as int, a, b) == ent(
            d,
            n,
            idx[a] as int,
            idx[b] as int,
        ),
{
    let m = idx.len() as int;
    assert(0 <= a * m + b < m * m) by (nonlinear_arith)
        requires
            0 <= a < m,
            0 <= b < m,
    ;
    assert((a * m + b) / m == a && (a * m + b) % m == b) by (nonlinear_arith)
        requires
            0 <= a < m,
            0 <= b < m,
    ;
}

/// Selecting all rows in their original order leaves a matrix unchanged.
pub proof fn lemma_submatrix_identity(d: Seq<u64>, n: int)
    requires
        0 <= n <= usize::MAX,
        d.len() == n * n,
    ensures
        submatrix(d, n, range_idx(0, n)) == d,
{
    let idn = range_idx(0, n);
    assert(submatrix(d, n, idn) =~= d) by {
        assert forall|t: int| 0 <= t < n * n implies submatrix(d, n, idn)[t] == d[t] by {
            assert(n >= 1);
            vstd::arithmetic::div_mod::lemma_fundamental_div_mod(t, n);
            assert(0 <= t / n < n && 0 <= t % n < n) by (nonlinear_arith)
                requires
                    0 <= t < n * n,
                    n >= 1,
                    n * (t / n) + t % n == t,
                    0 <= t % n < n,
            ;
            assert(idn[t / n] == t / n && idn[t % n] == t % n);
        }
    }
}

/// The number of rows of a chunk when a matrix of `n` rows is split into
/// `c` near-equal contiguous chunks: every chunk but the last holds
/// ceil(n / c) rows.
pub open spec fn ceil_div(n: int, c: int) -> int {
    if n <= 0 {
        0
    } else {
        (n - 1) / c + 1
    }
}

/// First row (inclusive) of chunk `i` when splitting `n` rows into `c` chunks.
pub open spec fn chunk_lo(n: int, c: int, i: int) -> int {
    imin(i * ceil_div(n, c), n)
}

/// Last row (exclusive) of chunk `i` when splitting `n` rows into `c` chunks.
pub open spec fn chunk_hi(n: int, c: int, i: int) -> int {
    imin((i + 1) * ceil_div(n, c), n)
}

/// The consecutive indices `lo`, `lo + 1`, ..., `hi - 1`.
pub open spec fn range_idx(lo: int, hi: int) -> Seq<usize> {
    Seq::new(if hi >= lo { (hi - lo) as nat } else { 0 as nat }, |t: int| (lo + t) as usize)
}

/// Chunks tile the rows: each chunk starts where the previous one ended,
/// chunk 0 starts at row 0, and the last chunk ends at row n.
pub proof fn lemma_chunk_bounds(n: int, c: int, i: int)
    requires
        n >= 0,
        c >= 1,
        0 <= i < c,
    ensures
        0 <= chunk_lo(n, c, i) <= chunk_hi(n, c, i) <= n,
        chunk_hi(n, c, i) == imin(chunk_lo(n, c, i) + ceil_div(n, c), n),
        chunk_lo(n, c, 0) == 0,
        i + 1 < c ==> chunk_lo(n, c, i + 1) == chunk_hi(n, c, i),
        i == c - 1 ==> chunk_hi(n, c, i) == n,
{
    let s = ceil_div(n, c);
    assert(s >= 0);
    assert(i * s >= 0 && (i + 1) * s == i * s + s && i * s <= (i + 1) * s) by (nonlinear_arith)
        requires
            i >= 0,
            s >= 0,
    ;
    if i == c - 1 && n > 0 {
        // c * ceil(n / c) >= n, so the last chunk reaches row n.
        assert(c * ((n - 1) / c) + (n - 1) % c == n - 1 && 0 <= (n - 1) % c < c) by {
            vstd::arithmetic::div_mod::lemma_fundamental_div_mod(n - 1, c);
        }
        assert(c * s >= n) by (nonlinear_arith)
            requires
                s == (n - 1) / c + 1,
                c * ((n - 1) / c) + (n - 1) % c == n - 1,
                0 <= (n - 1) % c < c,
        ;
        assert(i * s + s == c * s) by (nonlinear_arith)
            requires
                i == c - 1,
        ;
    }
}

/// A point set abstracted to what the selection and coreset algorithms
/// read from it: the full matrix of pairwise encoded distances.
///
/// Well-formedness (`wf`) asks that the matrix is square over `n` points
/// and symmetric, matching the metric contract (a symmetric, non-negative
/// dissimilarity).  Non-negativity is inherent in the unsigned encoding.
pub struct MetricView {
    /// Number of points.
    pub n: usize,
    /// Dimensionality of the feature space the distances came from.
    pub dims: usize,
    /// Row-major n-by-n matrix of encoded pairwise distances.
    pub d: Vec<u64>,
}

impl MetricView {
    /// The encoded distance between points `i` and `j`.
    pub open spec fn sdist(self, i: int, j: int) -> u64 {
        ent(self.d@, self.n as int, i, j)
    }

    /// The matrix is square and symmetric.
    pub open spec fn wf(self) -> bool {
        &&& self.d@.len() == self.n * self.n
        &&& forall|i: int, j: int|
            0 <= i < self.n && 0 <= j < self.n ==> #[trigger] self.sdist(i, j) == self.sdist(j, i)
    }

    /// Builds a view from a precomputed distance matrix.
    pub fn new(n: usize, dims: usize, d: Vec<u64>) -> (r: MetricView)
        requires
            d@.len() == n * n,
            forall|i: int, j: int|
                0 <= i < n && 0 <= j < n ==> #[trigger] ent(d@, n as int, i, j) == ent(
                    d@,
                    n as int,
                    j,
                    i,
                ),
        ensures
            r.wf(),
            r.n == n,
            r.dims == dims,
            r.d@ == d@,
    {
        MetricView { n, dims, d }
    }

    /// How many points the view holds.
    pub fn num_points(&self) -> (r: usize)
        ensures
            r == self.n,
    {
        self.n
    }

    /// Dimensionality of the underlying feature space.
    pub fn dimensions(&self) -> (r: usize)
        ensures
            r == self.dims,
    {
        self.dims
    }

    /// The encoded distance between points `i` and `j`.
    pub fn distance(&self, i: usize, j: usize) -> (r: u64)
        requires
            self.wf(),
            i < self.n,
            j < self.n,
        ensures
            r == self.sdist(i as int, j as int),
    {
        let _len: usize = self.d.len();
        proof {
            assert(i * self.n + j < self.n * self.n) by (nonlinear_arith)
                requires
                    i < self.n,
                    j < self.n,
            ;
        }
        self.d[i * self.n + j]
    }

    /// Fills the caller-provided buffer with the distance from every point
    /// to point `j`; entry `p` becomes `distance(p, j)`.
    pub fn all_distances(&self, j: usize, out: &mut Vec<u64>)
        requires
            self.wf(),
            j < self.n,
            old(out)@.len() == self.n,
        ensures
            final(out)@.len() == self.n,
            forall|p: int| 0 <= p < self.n ==> final(out)@[p] == self.sdist(p, j as int),
    {
        let n: usize = self.num_points();
        let mut p: usize = 0;
        while p < n
            invariant
                self.wf(),
                j < n,
                n == self.n,
                p <= n,
                out@.len() == n,
                forall|q: int| 0 <= q < p ==> out@[q] == self.sdist(q, j as int),
            decreases n - p,
        {
            let dist: u64 = self.distance(p, j);
            out.set(p, dist);
            p = p + 1;
        }
    }

    /// A new owned view holding exactly the rows named by `indices`, in that
    /// order.  Duplicates are allowed and kept; distances are carried over
    /// from the parent, never rescaled.
    pub fn subset(&self, indices: &Vec<usize>) -> (r: MetricView)
        requires
            self.wf(),
            forall|t: int| 0 <= t < indices@.len() ==> (#[trigger] indices@[t]) < self.n,
            indices@.len() * indices@.len() <= usize::MAX,
        ensures
            r.wf(),
            r.n == indices@.len(),
            r.dims == self.dims,
            r.d@ == submatrix(self.d@, self.n as int, indices@),
    {
        let m: usize = indices.len();
        let ghost sub = submatrix(self.d@, self.n as int, indices@);
        let mut d: Vec<u64> = Vec::new();
        let mut a: usize = 0;
        while a < m
            invariant
                self.wf(),
                m == indices@.len(),
                forall|t: int| 0 <= t < m ==> (#[trigger] indices@[t]) < self.n,
                sub == submatrix(self.d@, self.n as int, indices@),
                a <= m,
                d@.len() == a * m,
                forall|t: int| 0 <= t < d@.len() ==> d@[t] == sub[t],
            decreases m - a,
        {
            let mut b: usize = 0;
            while b < m
                invariant
                    self.wf(),
                    m == indices@.len(),
                    forall|t: int| 0 <= t < m ==> (#[trigger] indices@[t]) < self.n,
                    sub == submatrix(self.d@, self.n as int, indices@),
                    a < m,
                    b <= m,
                    d@.len() == a * m + b,
                    forall|t: int| 0 <= t < d@.len() ==> d@[t] == sub[t],
                decreases m - b,
            {
                let dist: u64 = self.distance(indices[a], indices[b]);
                proof {
                    lemma_submatrix_ent(self.d@, self.n as int, indices@, a as int, b as int);
                }
                d.push(dist);
                b = b + 1;
            }
            proof {
                assert((a + 1) * m == a * m + m) by (nonlinear_arith);
            }
            a = a + 1;
        }
        proof {
            assert(sub.len() == m * m);
            assert(d@ =~= sub);
            assert forall|i: int, j: int|
                0 <= i < m && 0 <= j < m implies #[trigger] ent(sub, m as int, i, j) == ent(
                sub,
                m as int,
                j,
                i,
            ) by {
                lemma_submatrix_ent(self.d@, self.n as int, indices@, i, j);
                lemma_submatrix_ent(self.d@, self.n as int, indices@, j, i);
                assert(self.sdist(indices@[i] as int, indices@[j] as int) == self.sdist(
                    indices@[j] as int,
                    indices@[i] as int,
                ));
            }
        }
        let r = MetricView { n: m, dims: self.dims, d };
        proof {
            assert forall|i: int, j: int|
                0 <= i < r.n && 0 <= j < r.n implies #[trigger] r.sdist(i, j) == r.sdist(
                j,
                i,
            ) by {
                assert(ent(sub, m as int, i, j) == ent(sub, m as int, j, i));
            }
        }
        r
    }

    /// The uniform per-chunk capacity used by `nchunks`: ceil(n / c).  Every
    /// chunk holds at most this many rows, so buffers of this size fit any
    /// chunk.
    pub fn nchunks_size(&self, num_chunks: usize) -> (r: usize)
        requires
            num_chunks >= 1,
        ensures
            r == ceil_div(self.n as int, num_chunks as int),
    {
        if self.n == 0 {
            0
        } else {
            proof {
                assert((self.n - 1) as int / num_chunks as int <= self.n - 1) by (nonlinear_arith)
                    requires
                        num_chunks >= 1,
                        self.n >= 1,
                ;
            }
            (self.n - 1) / num_chunks + 1
        }
    }

    /// Splits the view into `num_chunks` contiguous, non-overlapping chunks.
    /// Every chunk but the last holds ceil(n / c) rows; the last holds the
    /// remainder.  When `num_chunks > n`, trailing chunks are empty, which
    /// is valid, not an error.
    pub fn nchunks(&self, num_chunks: usize) -> (r: Vec<MetricView>)
        requires
            self.wf(),
            num_chunks >= 1,
        ensures
            r@.len() == num_chunks,
            forall|i: int|
                0 <= i < num_chunks ==> {
                    let lo = chunk_lo(self.n as int, num_chunks as int, i);
                    let hi = chunk_hi(self.n as int, num_chunks as int, i);
                    &&& (#[trigger] r@[i]).wf()
                    &&& r@[i].n == hi - lo
                    &&& r@[i].dims == self.dims
                    &&& r@[i].d@ == submatrix(self.d@, self.n as int, range_idx(lo, hi))
                },
    {
        let n: usize = self.num_points();
        let _dlen: usize = self.d.len();
        let s: usize = self.nchunks_size(num_chunks);
        let ghost ni = self.n as int;
        let ghost ci = num_chunks as int;
        let mut chunks: Vec<MetricView> = Vec::new();
        let mut lo: usize = 0;
        let mut i: usize = 0;
        while i < num_chunks
            invariant
                self.wf(),
                n == self.n,
                self.d@.len() <= usize::MAX,
                num_chunks >= 1,
                ni == self.n as int,
                ci == num_chunks as int,
                s == ceil_div(ni, ci),
                i <= num_chunks,
                chunks@.len() == i,
                lo == if i < num_chunks {
                    chunk_lo(ni, ci, i as int)
                } else {
                    ni
                },
                lo <= n,
                forall|t: int|
                    0 <= t < i ==> {
                        let clo = chunk_lo(ni, ci, t);
                        let chi = chunk_hi(ni, ci, t);
                        &&& (#[trigger] chunks@[t]).wf()
                        &&& chunks@[t].n == chi - clo
                        &&& chunks@[t].dims == self.dims
                        &&& chunks@[t].d@ == submatrix(self.d@, ni, range_idx(clo, chi))
                    },
            decreases num_chunks - i,
        {
            proof {
                lemma_chunk_bounds(ni, ci, i as int);
            }
            let hi: usize = if n - lo < s {
                n
            } else {
                lo + s
            };
            assert(hi == chunk_hi(ni, ci, i as int));
            let len: usize = hi - lo;
            let mut idx: Vec<usize> = Vec::new();
            let mut t: usize = 0;
            while t < len
                invariant
                    t <= len,
                    lo + len <= n,
                    idx@.len() == t,
                    forall|q: int| 0 <= q < t ==> idx@[q] == lo + q,
                decreases len - t,
            {
                idx.push(lo + t);
                t = t + 1;
            }
            proof {
                assert(idx@ =~= range_idx(lo as int, hi as int));
                assert(len * len <= ni * ni) by (nonlinear_arith)
                    requires
                        0 <= len <= ni,
                ;
            }
            let chunk = self.subset(&idx);
            chunks.push(chunk);
            lo = hi;
            i = i + 1;
            proof {
                if i < num_chunks {
                    lemma_chunk_bounds(ni, ci, i as int);
                    lemma_chunk_bounds(ni, ci, i as int - 1);
                }
            }
        }
        chunks
    }
}

} // verus!
