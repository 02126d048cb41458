//! The classic reduction behaviors of the fuzzy engine on synthetic
//! gaussian point clouds.

use fuzzy_dbscan::Assignment;
use fuzzy_dbscan::Category;
use fuzzy_dbscan::Cluster;
use fuzzy_dbscan::FuzzyDBSCAN;
use fuzzy_dbscan::MetricSpace;
use rand::distributions::Distribution;
use rand::distributions::Normal;
use rand::rngs::StdRng;
use rand::SeedableRng;

const BASE_N: usize = 100;
const BASE_R: f64 = 10.0;
/// Distance unit: thousandths of a coordinate unit.
const SCALE: f64 = 1000.0;

struct Point {
    x: f64,
    y: f64,
}

fn euclid(a: &Point, b: &Point) -> f64 {
    ((b.x - a.x).powi(2) + (b.y - a.y).powi(2)).sqrt()
}

impl MetricSpace for Point {
    fn distance(&self, other: &Self) -> u64 {
        (euclid(self, other) * SCALE).round() as u64
    }
}

fn scaled(r: f64) -> u32 {
    (r * SCALE).round() as u32
}

fn seeded_rng() -> StdRng {
    let mut seed = [0u8; 32];
    for (i, b) in seed.iter_mut().enumerate() {
        *b = (i as u8) + 1;
    }
    StdRng::from_seed(seed)
}

fn gaussian_circle(n: usize, cx: f64, cy: f64, r: f64) -> Vec<Point> {
    let center = Point { x: cx, y: cy };
    let sigma = r / 3.0;
    let normal_x = Normal::new(cx, sigma);
    let normal_y = Normal::new(cy, sigma);
    let mut random = seeded_rng();
    let mut points = Vec::new();
    while points.len() < n {
        let sample = Point {
            x: normal_x.sample(&mut random),
            y: normal_y.sample(&mut random),
        };
        if euclid(&center, &sample) <= r {
            points.push(sample);
        }
    }
    points
}

fn unimodal_gaussian() -> Vec<Point> {
    gaussian_circle(BASE_N, 0.0, 0.0, BASE_R)
}

fn bimodal_gaussian() -> Vec<Point> {
    let mut points = gaussian_circle(BASE_N, 0.0, 0.0, BASE_R);
    points.extend(gaussian_circle(BASE_N, BASE_R * 2.0, 0.0, BASE_R));
    points
}

/// Mirrors "every cluster has some assignment matching the predicate".
fn any_match(clusters: &[Cluster], pred: impl Fn(&Assignment) -> bool) -> bool {
    clusters.iter().all(|c| c.iter().any(|a| pred(a)))
}

// FuzzyDBSCAN should reduce to DBSCAN (eps_min = eps_max, pts_min = pts_max), i.e.,
// clusters should have crisp cores only.
#[test]
fn reduce_to_dbscan() {
    let points = unimodal_gaussian();
    // Expect that within the radius should be at least one point.
    let fuzzy_dbscan = FuzzyDBSCAN {
        eps_min: scaled(BASE_R),
        eps_max: scaled(BASE_R),
        pts_min: 1,
        pts_max: 1,
    };
    let one = fuzzy_dbscan.label_one();
    let clusters = fuzzy_dbscan.cluster(&points);
    assert_eq!(clusters.len(), 1);
    assert_eq!(any_match(&clusters, |a| a.label != one), false);
    assert_eq!(any_match(&clusters, |a| a.category != Category::Core), false);
}

// FuzzyDBSCAN should reduce to FuzzyCoreDBSCAN (eps_min = eps_max), i.e.,
// clusters should have fuzzy cores and no borders.
#[test]
fn reduce_to_fuzzy_core_dbscan() {
    let points = unimodal_gaussian();
    // Expect that within the radius there can be between one and 100% of the points,
    // thus fuzzy cores will be between 0.5 and 1.0.
    let fuzzy_dbscan = FuzzyDBSCAN {
        eps_min: scaled(BASE_R),
        eps_max: scaled(BASE_R),
        pts_min: 1,
        pts_max: BASE_N as u32,
    };
    let one = fuzzy_dbscan.label_one();
    let clusters = fuzzy_dbscan.cluster(&points);
    assert_eq!(clusters.len(), 1);
    assert_eq!(
        any_match(&clusters, |a| a.category == Category::Core && a.label != one),
        true
    );
    assert_eq!(any_match(&clusters, |a| a.category == Category::Border), false);
    assert_eq!(any_match(&clusters, |a| a.category == Category::Noise), false);
}

// FuzzyDBSCAN should reduce to FuzzyBorderDBSCAN (pts_min = pts_max), i.e.,
// clusters should have crisp cores and fuzzy borders.
#[test]
fn reduce_to_fuzzy_border_dbscan() {
    let points = unimodal_gaussian();
    // Expect that crisp core points are close to 50% of the points within the
    // maximum radius, thus less than 50% neighbourhood means border.
    let fuzzy_dbscan = FuzzyDBSCAN {
        eps_min: scaled(1.0),
        eps_max: scaled(BASE_R),
        pts_min: (BASE_N / 2) as u32,
        pts_max: (BASE_N / 2) as u32,
    };
    let one = fuzzy_dbscan.label_one();
    let clusters = fuzzy_dbscan.cluster(&points);
    assert_eq!(clusters.len(), 1);
    assert_eq!(
        any_match(&clusters, |a| a.category == Category::Core && a.label != one),
        false
    );
    assert_eq!(any_match(&clusters, |a| a.category == Category::Border), true);
}

// FuzzyDBSCAN should find varying fuzzy cores and borders.
#[test]
fn full_fuzzy_dbscan() {
    let points = bimodal_gaussian();
    // Expect that within the radius there can be between 50% and 100% of the
    // points, thus there will be fuzzy cores. Moreover, expect that border
    // points (<50% points) in the "bimodal valley" between the gaussians will be
    // assigned to both clusters.
    let fuzzy_dbscan = FuzzyDBSCAN {
        eps_min: scaled(1.0),
        eps_max: scaled(BASE_R),
        pts_min: (BASE_N / 2) as u32,
        pts_max: BASE_N as u32,
    };
    let one = fuzzy_dbscan.label_one();
    let clusters = fuzzy_dbscan.cluster(&points);
    assert_eq!(clusters.len(), 2);
    assert_eq!(
        any_match(&clusters, |a| a.category == Category::Core && a.label != one),
        true
    );
    assert_eq!(
        any_match(&clusters, |a| a.category == Category::Border && a.label != one),
        true
    );
    assert_eq!(any_match(&clusters, |a| a.category == Category::Noise), false);
}

// FuzzyDBSCAN should find noise.
#[test]
fn noise() {
    let points = unimodal_gaussian();
    let fuzzy_dbscan = FuzzyDBSCAN {
        eps_min: scaled(BASE_R * 2.0),
        eps_max: scaled(BASE_R * 4.0),
        pts_min: (BASE_N * 2) as u32,
        pts_max: (BASE_N * 4) as u32,
    };
    let clusters = fuzzy_dbscan.cluster(&points);
    assert_eq!(clusters.len(), 1);
    assert_eq!(any_match(&clusters, |a| a.category != Category::Noise), false);
}
