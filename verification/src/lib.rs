//! Fuzzy density-based clustering.
//!
//! A generalization of DBSCAN in which both the neighborhood radius and the
//! minimum neighborhood density are given as ranges (`eps_min..eps_max`,
//! `pts_min..pts_max`) instead of single thresholds.  Every point of the input
//! receives a graded membership label and a three-way classification (core,
//! border or noise), and the result is a partition of the point indices into
//! clusters followed by an optional trailing noise group.
//!
//! Distances and membership labels are exact integers.  A caller supplies
//! distances in any fixed unit (for example millimeters instead of meters);
//! labels are returned as numerators over the scale [`FuzzyDBSCAN::label_one`],
//! so that `0` means "not a member at all" and `label_one()` means "fully a
//! member".  All arithmetic of the engine is exact, so the clustering result
//! is a mathematical function of the distances and the four parameters.

pub mod config;
pub mod engine;
pub mod laws;
pub mod matrix;
pub mod model;
pub mod types;

pub use config::FuzzyDBSCAN;
pub use matrix::DistanceMatrix;
pub use matrix::MetricSpace;
pub use types::Assignment;
pub use types::BORDER_SENTINEL;
pub use types::Category;
pub use types::Cluster;
