//! The configuration of a clustering run: the four range parameters and the
//! fuzzy membership functions derived from them.

use vstd::prelude::*;

verus! {

/// An instance of the fuzzy DBSCAN algorithm.
///
/// The four parameters are non-negative integers in the caller's distance
/// unit (`eps_min`, `eps_max`) and in points (`pts_min`, `pts_max`).  The
/// engine requires non-decreasing bounds, `eps_min <= eps_max` and
/// `pts_min <= pts_max` (see [`FuzzyDBSCAN::wf`]); with decreasing bounds the
/// fuzzy membership formulas are mathematically meaningless.
///
/// When `eps_min == eps_max` and `pts_min == pts_max` the algorithm reduces
/// to classic DBSCAN.
///
/// Membership labels are exact fractions reported as numerators over the
/// common denominator [`FuzzyDBSCAN::label_one`].
#[derive(Clone, Copy, Debug, PartialEq, Eq, Structural)]
pub struct FuzzyDBSCAN {
    /// The minimum fuzzy local neighborhood radius.
    pub eps_min: u32,
    /// The maximum fuzzy local neighborhood radius.
    pub eps_max: u32,
    /// The minimum fuzzy neighborhood density (number of points).
    pub pts_min: u32,
    /// The maximum fuzzy neighborhood density (number of points).
    pub pts_max: u32,
}

impl FuzzyDBSCAN {
    /// The caller contract: both ranges have non-decreasing bounds.
    pub open spec fn wf(self) -> bool {
        self.eps_min <= self.eps_max && self.pts_min <= self.pts_max
    }

    /// The denominator of the distance membership `mu_distance`:
    /// the width of the radius range, or `1` when the range is degenerate
    /// (so that crisp `0`/`1` memberships stay exact integers).
    pub open spec fn spec_eps_span(self) -> int {
        if self.eps_max > self.eps_min {
            self.eps_max - self.eps_min
        } else {
            1
        }
    }

    /// The denominator of the density membership `mu_min_p` relative to the
    /// density scale: the width of the density range, or `1` when degenerate.
    pub open spec fn spec_pts_span(self) -> int {
        if self.pts_max > self.pts_min {
            self.pts_max - self.pts_min
        } else {
            1
        }
    }

    /// The label value that stands for full membership, `1.0`.  Every label
    /// of a clustering run is a numerator over this common denominator.
    pub open spec fn spec_label_one(self) -> int {
        self.spec_eps_span() * self.spec_pts_span()
    }

    /// The fuzzy distance membership of a pair at distance `d`, as a
    /// numerator over [`FuzzyDBSCAN::spec_eps_span`]:
    /// full membership up to `eps_min`, none beyond `eps_max`, and a linear
    /// falloff in between.
    pub open spec fn spec_mu_distance(self, d: int) -> int {
        if d <= self.eps_min {
            self.spec_eps_span()
        } else if d > self.eps_max {
            0
        } else {
            self.eps_max - d
        }
    }

    /// The fuzzy density membership of a density score.  `a` is a density as
    /// a numerator over [`FuzzyDBSCAN::spec_eps_span`]; the result is a label
    /// as a numerator over [`FuzzyDBSCAN::spec_label_one`]: full membership
    /// from `pts_max` up, none strictly below `pts_min` (and at exactly
    /// `pts_min`, where the linear falloff reaches zero), linear in between.
    pub open spec fn spec_mu_min_p(self, a: int) -> int {
        if a >= self.pts_max * self.spec_eps_span() {
            self.spec_label_one()
        } else if a < self.pts_min * self.spec_eps_span() {
            0
        } else {
            a - self.pts_min * self.spec_eps_span()
        }
    }

    /// Creates a new instance of the algorithm.
    pub fn new(eps_min: u32, eps_max: u32, pts_min: u32, pts_max: u32) -> (r: Self)
        ensures
            r == (FuzzyDBSCAN { eps_min, eps_max, pts_min, pts_max }),
    {
        FuzzyDBSCAN { eps_min, eps_max, pts_min, pts_max }
    }

    /// The width of the radius range, never zero.
    pub fn eps_span(&self) -> (r: u64)
        ensures
            r == self.spec_eps_span(),
            1 <= r <= u32::MAX,
    {
        if self.eps_max > self.eps_min {
            (self.eps_max - self.eps_min) as u64
        } else {
            1
        }
    }

    /// The width of the density range, never zero.
    pub fn pts_span(&self) -> (r: u64)
        ensures
            r == self.spec_pts_span(),
            1 <= r <= u32::MAX,
    {
        if self.pts_max > self.pts_min {
            (self.pts_max - self.pts_min) as u64
        } else {
            1
        }
    }

    /// The label denominator: the value that stands for a label of `1.0`.
    pub fn label_one(&self) -> (r: u64)
        ensures
            r == self.spec_label_one(),
            1 <= r < u64::MAX,
    {
        let e = self.eps_span();
        let p = self.pts_span();
        proof {
            assert(e * p <= 0xFFFF_FFFFu64 * 0xFFFF_FFFFu64) by (nonlinear_arith)
                requires
                    1 <= e <= 0xFFFF_FFFFu64,
                    1 <= p <= 0xFFFF_FFFFu64,
            ;
            assert(e * p >= 1) by (nonlinear_arith)
                requires
                    1 <= e,
                    1 <= p,
            ;
        }
        e * p
    }
}

} // verus!
