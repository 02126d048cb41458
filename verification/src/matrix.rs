//! Distances as data: a precomputed pairwise distance matrix, and the
//! capability that fills one from a caller's point type.

use vstd::prelude::*;

verus! {

/// A capability to compute distances between points.
///
/// Implementors report distances as non-negative integers in a unit of their
/// choice; the `eps_min`/`eps_max` parameters of the run are read in the same
/// unit.  The engine behaves sensibly when the distance is symmetric and
/// `a.distance(a) == 0`, but neither is required for memory safety or
/// termination.
pub trait MetricSpace: Sized {
    /// Returns the distance between `self` and `other`.
    fn distance(&self, other: &Self) -> u64;
}

/// The entry of a flattened `n` by `n` matrix at row `i`, column `j`.
pub open spec fn mat_at(m: Seq<u64>, n: int, i: int, j: int) -> int {
    m[i * n + j] as int
}

/// All pairwise distances of a point sequence, row-major: the entry at
/// `(i, j)` is `points[i].distance(&points[j])`.
///
/// The engine reads points only through their distances, so this matrix is
/// the whole input of a clustering run besides the configuration.
pub struct DistanceMatrix {
    /// The number of points.
    pub n: usize,
    /// The `n * n` distances, row-major.
    pub d: Vec<u64>,
}

impl DistanceMatrix {
    /// The shape invariant: `n * n` entries, and few enough points that
    /// density scores cannot overflow (`n` fits in 32 bits).
    pub open spec fn wf(self) -> bool {
        self.d@.len() == self.n * self.n && self.n <= 0xFFFF_FFFF
    }

    /// Wraps `n` and a row-major entry vector, or returns `None` when the
    /// length is not `n * n` or `n` does not fit in 32 bits.
    pub fn new(n: usize, d: Vec<u64>) -> (r: Option<Self>)
        ensures
            match r {
                Some(mm) => mm.wf() && mm.n == n && mm.d@ == d@,
                None => !(d@.len() == n * n && n <= 0xFFFF_FFFF),
            },
    {
        let dl = d.len();
        if n > 0xFFFF_FFFF {
            return None;
        }
        match n.checked_mul(n) {
            Some(sq) => {
                if dl == sq {
                    Some(DistanceMatrix { n, d })
                } else {
                    None
                }
            },
            None => {
                assert(d@.len() < n * n);
                None
            },
        }
    }

    /// The distance from point `i` to point `j`.
    pub fn get(&self, i: usize, j: usize) -> (r: u64)
        requires
            self.wf(),
            i < self.n,
            j < self.n,
        ensures
            r == mat_at(self.d@, self.n as int, i as int, j as int),
    {
        let len = self.d.len();
        proof {
            assert(i * self.n + j < self.n * self.n && 0 <= i * self.n) by (nonlinear_arith)
                requires
                    0 <= i < self.n,
                    0 <= j < self.n,
            ;
        }
        self.d[i * self.n + j]
    }

    /// Fills the matrix for a point sequence by a full pairwise scan through
    /// the caller's distance capability.
    pub fn from_points<P: MetricSpace>(points: &[P]) -> (r: Self)
        requires
            points@.len() <= 0xFFFF_FFFF,
        ensures
            r.wf(),
            r.n == points@.len(),
    {
        let n = points.len();
        let mut d: Vec<u64> = Vec::new();
        let mut i: usize = 0;
        while i < n
            invariant
                i <= n,
                n == points@.len() <= 0xFFFF_FFFF,
                d@.len() == i * n,
            decreases n - i,
        {
            let mut j: usize = 0;
            while j < n
                invariant
                    i < n,
                    j <= n,
                    n == points@.len() <= 0xFFFF_FFFF,
                    d@.len() == i * n + j,
                decreases n - j,
            {
                d.push(points[i].distance(&points[j]));
                j = j + 1;
            }
            proof {
                assert((i + 1) * n == i * n + n) by (nonlinear_arith);
            }
            i = i + 1;
        }
        DistanceMatrix { n, d }
    }
}

} // verus!
