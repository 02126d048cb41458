//! The result vocabulary of the clustering engine: categories, assignments
//! and clusters.

use vstd::prelude::*;

verus! {

/// A point that could not be resolved to any label keeps this sentinel.
///
/// Border candidates start out at this "maximum possible value" and are
/// tightened by every qualifying connection to a core point of their cluster.
/// A border candidate without a single qualifying connection (possible only
/// when a neighbor sits exactly on the outer radius, or when the distances are
/// not symmetric) keeps the sentinel.  The sentinel is strictly larger than
/// every proper label, since labels never exceed [`crate::FuzzyDBSCAN::label_one`].
pub const BORDER_SENTINEL: u64 = u64::MAX;

/// A high-level classification, as defined by the fuzzy DBSCAN algorithm.
#[derive(Clone, Copy, Debug, PartialEq, Eq, Structural)]
pub enum Category {
    /// Dense enough to seed or extend a cluster.
    Core,
    /// Reachable from a core point, but not itself dense enough to be core.
    Border,
    /// Not reachable from any core point.
    Noise,
}

/// An element of a [cluster](Cluster).
#[derive(Clone, Copy, Debug, PartialEq, Eq, Structural)]
pub struct Assignment {
    /// The point index, a position in the clustered sequence.
    pub index: usize,
    /// A (soft) membership label: a numerator over the scale
    /// [`crate::FuzzyDBSCAN::label_one`], so `0` stands for `0.0` and
    /// `label_one()` for `1.0`.
    pub label: u64,
    /// A high-level category.
    pub category: Category,
}

/// A group of [assigned](Assignment) points.
pub type Cluster = Vec<Assignment>;

} // verus!
