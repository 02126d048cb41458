//! Exact-value scenarios: small point sets whose full clustering result is
//! computed by hand and compared assignment by assignment.

use fuzzy_dbscan::Assignment;
use fuzzy_dbscan::Category;
use fuzzy_dbscan::DistanceMatrix;
use fuzzy_dbscan::FuzzyDBSCAN;
use fuzzy_dbscan::MetricSpace;
use fuzzy_dbscan::BORDER_SENTINEL;

struct Point {
    x: f64,
    y: f64,
}

fn euclid(a: &Point, b: &Point) -> f64 {
    ((b.x - a.x).powi(2) + (b.y - a.y).powi(2)).sqrt()
}

/// Distances in tenths of a coordinate unit.
impl MetricSpace for Point {
    fn distance(&self, other: &Self) -> u64 {
        (euclid(self, other) * 10.0).round() as u64
    }
}

fn asg(index: usize, label: u64, category: Category) -> Assignment {
    Assignment { index, label, category }
}

// Four points at (0,0), (100,100), (105,105), (115,115) under Euclidean
// distance: the first is isolated (distance >= 100 to all others) and
// becomes noise; the other three form one cluster with fractional core
// labels, since each point's density is only partial.
#[test]
fn isolated_point_and_fuzzy_chain() {
    let points = vec![
        Point { x: 0.0, y: 0.0 },
        Point { x: 100.0, y: 100.0 },
        Point { x: 105.0, y: 105.0 },
        Point { x: 115.0, y: 115.0 },
    ];
    // eps_min = 10, eps_max = 20, pts_min = 1, pts_max = 2 in coordinate
    // units; distances are reported in tenths, so eps becomes 100..200.
    let f = FuzzyDBSCAN { eps_min: 100, eps_max: 200, pts_min: 1, pts_max: 2 };
    assert_eq!(f.label_one(), 100);
    let clusters = f.cluster(&points);
    // Pairwise distances (tenths): d(1,2) = 71, d(2,3) = 141, d(1,3) = 212.
    // Point 2 sees both others: density = 1 + 1 + 59/100, fully core.
    // Point 3 sees only point 2: density = 1 + 59/100, core label 59/100.
    // The seed (point 1) is rediscovered through point 2's region and is
    // assigned twice: the expansion does not pre-mark the seed.
    assert_eq!(
        clusters,
        vec![
            vec![
                asg(1, 100, Category::Core),
                asg(2, 100, Category::Core),
                asg(3, 59, Category::Core),
                asg(1, 100, Category::Core),
            ],
            vec![asg(0, 100, Category::Noise)],
        ],
    );
}

// Two well-separated dense disks of 100 points each: exactly two clusters,
// all assignments core with the full label, no borders, no noise.  Each
// disk has diameter at most eps, so every point sees the whole disk.
#[test]
fn two_separated_disks() {
    let mut points: Vec<Point> = Vec::new();
    for disk in 0..2 {
        let cx = (disk as f64) * 60.0;
        // A deterministic sunflower layout of 100 points within radius 5.
        for k in 0..100 {
            let r = 5.0 * (((k + 1) as f64) / 100.0).sqrt();
            let theta = (k as f64) * 2.399963229728653;
            points.push(Point { x: cx + r * theta.cos(), y: r * theta.sin() });
        }
    }
    // eps_min = eps_max = 10 coordinate units = 100 tenths.
    let f = FuzzyDBSCAN { eps_min: 100, eps_max: 100, pts_min: 50, pts_max: 50 };
    let one = f.label_one();
    assert_eq!(one, 1);
    let clusters = f.cluster(&points);
    assert_eq!(clusters.len(), 2);
    for (k, cluster) in clusters.iter().enumerate() {
        for a in cluster {
            assert_eq!(a.category, Category::Core);
            assert_eq!(a.label, one);
            // No cross-disk membership.
            assert_eq!(a.index / 100, k);
        }
        // All 100 disk members are present (the seed twice).
        for j in 0..100 {
            assert!(cluster.iter().any(|a| a.index == k * 100 + j));
        }
    }
}

// A point between two dense groups is border in both of their clusters,
// with an independently computed label in each.
#[test]
fn border_point_in_two_clusters() {
    let xs: [f64; 11] = [0.0, 1.0, 2.0, 3.0, 4.0, 14.0, 24.0, 25.0, 26.0, 27.0, 28.0];
    let points: Vec<Point> = xs.iter().map(|&x| Point { x, y: 0.0 }).collect();
    // One-dimensional distances in tenths: eps_min = eps_max = 100 covers
    // 10 coordinate units.
    let f = FuzzyDBSCAN { eps_min: 100, eps_max: 100, pts_min: 5, pts_max: 5 };
    let one = f.label_one();
    assert_eq!(one, 1);
    let clusters = f.cluster(&points);
    assert_eq!(clusters.len(), 2);
    // Index 5 (the middle point) is a border member of both clusters.
    for cluster in &clusters {
        let borders: Vec<&Assignment> =
            cluster.iter().filter(|a| a.category == Category::Border).collect();
        assert_eq!(borders.len(), 1);
        assert_eq!(borders[0].index, 5);
        assert_eq!(borders[0].label, one);
        assert!(cluster.iter().filter(|a| a.index == 5).count() == 1);
    }
}

// A cluster with fuzzy everything: fractional core labels and a border
// label resolved through the weakest link, all values exact.
#[test]
fn fuzzy_core_and_border_labels() {
    let xs: [f64; 4] = [0.0, 1.0, 2.0, 15.0];
    let points: Vec<Point> = xs.iter().map(|&x| Point { x, y: 0.0 }).collect();
    // Distances come out in tenths (10, 20, 130, 140, 150), so
    // eps_min = 100, eps_max = 200 covers 10..20 coordinate units and the
    // eps span is 100: labels are numerators over 100.
    let f = FuzzyDBSCAN { eps_min: 100, eps_max: 200, pts_min: 3, pts_max: 4 };
    assert_eq!(f.label_one(), 100);
    let clusters = f.cluster(&points);
    // Densities (over span 100): point 0: 100+100+100+50 = 350 -> label 50;
    // point 1: 360 -> 60; point 2: 370 -> 70; point 3: 100+50+60+70 = 280 -> 0.
    // Point 3 is a border candidate; its label is the minimum over all
    // qualifying cores of min(core label, mu): min over {50, 70, 60} = 50.
    assert_eq!(
        clusters,
        vec![vec![
            asg(0, 50, Category::Core),
            asg(2, 70, Category::Core),
            asg(0, 50, Category::Core),
            asg(1, 60, Category::Core),
            asg(3, 50, Category::Border),
        ]],
    );
}

// A border candidate discovered exactly on the outer radius has no
// qualifying connection (mu is zero there) and keeps the sentinel label.
#[test]
fn unresolvable_border_keeps_sentinel() {
    let xs: [f64; 5] = [0.0, 1.0, 2.0, 3.0, 23.0];
    let points: Vec<Point> = xs.iter().map(|&x| Point { x, y: 0.0 }).collect();
    // The last point sits at distance 200 tenths from point 3: exactly on
    // the outer radius, where the fuzzy falloff has already reached zero.
    let f = FuzzyDBSCAN { eps_min: 100, eps_max: 200, pts_min: 3, pts_max: 4 };
    let clusters = f.cluster(&points);
    assert_eq!(
        clusters,
        vec![vec![
            asg(0, 100, Category::Core),
            asg(3, 100, Category::Core),
            asg(0, 100, Category::Core),
            asg(2, 100, Category::Core),
            asg(1, 100, Category::Core),
            asg(4, BORDER_SENTINEL, Category::Border),
        ]],
    );
}

// A point classified as noise before any cluster reached it stays in the
// noise group even when a later expansion rediscovers it as a border: the
// noise entry is not retracted.  (Under a symmetric metric a point can
// never be both core and noise, and never core in two clusters.)
#[test]
fn rescued_noise_point_stays_in_noise_group() {
    let xs: [f64; 3] = [0.0, 0.9, 1.8];
    let points: Vec<Point> = xs.iter().map(|&x| Point { x, y: 0.0 }).collect();
    // Distances in tenths: 9 between neighbors, 18 across; eps = 10 covers
    // only adjacent points, and a density of 3 requires both neighbors.
    let f = FuzzyDBSCAN { eps_min: 10, eps_max: 10, pts_min: 3, pts_max: 3 };
    let clusters = f.cluster(&points);
    // Point 0 is visited first, has density 2 and becomes noise; the
    // cluster grown from point 1 then reaches it as a border.
    assert_eq!(
        clusters,
        vec![
            vec![
                asg(1, 1, Category::Core),
                asg(2, 1, Category::Border),
                asg(0, 1, Category::Border),
            ],
            vec![asg(0, 1, Category::Noise)],
        ],
    );
}

// An empty point sequence clusters to an empty result.
#[test]
fn empty_input() {
    let points: Vec<Point> = Vec::new();
    let f = FuzzyDBSCAN { eps_min: 10, eps_max: 20, pts_min: 1, pts_max: 2 };
    let clusters = f.cluster(&points);
    assert!(clusters.is_empty());
}

// A lone point that cannot meet the density floor is pure noise, and the
// noise group carries the full label.
#[test]
fn single_point_is_noise() {
    let points = vec![Point { x: 0.0, y: 0.0 }];
    let f = FuzzyDBSCAN { eps_min: 10, eps_max: 20, pts_min: 2, pts_max: 3 };
    let clusters = f.cluster(&points);
    assert_eq!(clusters, vec![vec![asg(0, f.label_one(), Category::Noise)]]);
}

// Running the clustering twice on the same inputs yields identical results:
// the result is a function of the distances and the configuration alone.
#[test]
fn cluster_is_deterministic() {
    let xs: [f64; 7] = [0.0, 1.0, 2.0, 15.0, 30.0, 31.0, 32.0];
    let points: Vec<Point> = xs.iter().map(|&x| Point { x, y: 0.0 }).collect();
    let f = FuzzyDBSCAN { eps_min: 10, eps_max: 20, pts_min: 2, pts_max: 4 };
    let first = f.cluster(&points);
    let second = f.cluster(&points);
    assert_eq!(first, second);
}

// The matrix entry point behaves exactly like the capability entry point on
// the matrix that the capability induces.
#[test]
fn matrix_and_capability_agree() {
    let xs: [f64; 5] = [0.0, 1.0, 2.0, 15.0, 40.0];
    let points: Vec<Point> = xs.iter().map(|&x| Point { x, y: 0.0 }).collect();
    let n = points.len();
    let mut entries: Vec<u64> = Vec::new();
    for i in 0..n {
        for j in 0..n {
            entries.push(points[i].distance(&points[j]));
        }
    }
    let matrix = DistanceMatrix::new(n, entries).unwrap();
    let f = FuzzyDBSCAN { eps_min: 10, eps_max: 20, pts_min: 2, pts_max: 4 };
    assert_eq!(f.cluster_matrix(&matrix), f.cluster(&points));
}

// A distance matrix refuses an entry vector whose length is not n * n.
#[test]
fn matrix_rejects_wrong_shape() {
    assert!(DistanceMatrix::new(3, vec![0; 9]).is_some());
    assert!(DistanceMatrix::new(3, vec![0; 8]).is_none());
    assert!(DistanceMatrix::new(2, vec![0; 9]).is_none());
}

// The label scale is the product of the two range widths, and degenerate
// ranges count as width one.
#[test]
fn label_scale_values() {
    assert_eq!(FuzzyDBSCAN { eps_min: 10, eps_max: 20, pts_min: 1, pts_max: 2 }.label_one(), 10);
    assert_eq!(FuzzyDBSCAN { eps_min: 10, eps_max: 10, pts_min: 1, pts_max: 5 }.label_one(), 4);
    assert_eq!(FuzzyDBSCAN { eps_min: 3, eps_max: 7, pts_min: 2, pts_max: 2 }.label_one(), 4);
    assert_eq!(FuzzyDBSCAN { eps_min: 5, eps_max: 5, pts_min: 9, pts_max: 9 }.label_one(), 1);
}
