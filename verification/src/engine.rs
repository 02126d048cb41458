//! The executable clustering engine, proved to compute exactly the
//! mathematical model of [`crate::model`].

use vstd::prelude::*;

use crate::config::FuzzyDBSCAN;
use crate::matrix::DistanceMatrix;
use crate::matrix::MetricSpace;
use crate::model::count_false;
use crate::model::spec_enqueue;
use crate::model::spec_min;
use crate::model::view_clusters;
use crate::model::lemma_enqueue_measure;
use crate::types::Assignment;
use crate::types::BORDER_SENTINEL;
use crate::types::Category;
use crate::types::Cluster;

verus! {

/// The smaller of two labels.
fn u64_min(a: u64, b: u64) -> (r: u64)
    ensures
        r == spec_min(a as int, b as int),
{
    if a <= b {
        a
    } else {
        b
    }
}

/// A fresh marker array: one unset flag per point.
fn falses(n: usize) -> (r: Vec<bool>)
    ensures
        r@ == Seq::new(n as nat, |j: int| false),
{
    let mut v: Vec<bool> = Vec::new();
    let mut i: usize = 0;
    while i < n
        invariant
            i <= n,
            v@.len() == i,
            forall|j: int| 0 <= j < i ==> !v@[j],
        decreases n - i,
    {
        v.push(false);
        i = i + 1;
    }
    assert(v@ =~= Seq::new(n as nat, |j: int| false));
    v
}

impl FuzzyDBSCAN {
    /// The fuzzy distance membership of a distance, as a numerator over
    /// [`FuzzyDBSCAN::spec_eps_span`].
    fn mu_distance(&self, d: u64) -> (r: u64)
        requires
            self.wf(),
        ensures
            r == self.spec_mu_distance(d as int),
            r <= self.spec_eps_span(),
    {
        if d <= self.eps_min as u64 {
            self.eps_span()
        } else if d > self.eps_max as u64 {
            0
        } else {
            (self.eps_max as u64) - d
        }
    }

    /// The fuzzy density membership of a density score, as a label over
    /// [`FuzzyDBSCAN::spec_label_one`].
    fn mu_min_p(&self, a: u64) -> (r: u64)
        requires
            self.wf(),
        ensures
            r == self.spec_mu_min_p(a as int),
            r <= self.spec_label_one(),
    {
        let e = self.eps_span();
        proof {
            assert(self.pts_max as u64 * e <= 0xFFFF_FFFFu64 * 0xFFFF_FFFFu64
                && self.pts_min as u64 * e <= 0xFFFF_FFFFu64 * 0xFFFF_FFFFu64
                && self.pts_min as u64 * e <= self.pts_max as u64 * e) by (nonlinear_arith)
                requires
                    self.pts_min <= self.pts_max <= 0xFFFF_FFFFu64,
                    0 <= e <= 0xFFFF_FFFFu64,
            ;
        }
        let hi = (self.pts_max as u64) * e;
        let lo = (self.pts_min as u64) * e;
        if a >= hi {
            let one = self.label_one();
            proof {
                assert(self.spec_label_one() == self.spec_mu_min_p(a as int));
            }
            one
        } else if a < lo {
            0
        } else {
            proof {
                assert((self.pts_max - self.pts_min) * self.spec_eps_span() == self.pts_max
                    * self.spec_eps_span() - self.pts_min * self.spec_eps_span())
                    by (nonlinear_arith);
                assert(self.spec_pts_span() * self.spec_eps_span() >= (self.pts_max
                    - self.pts_min) * self.spec_eps_span()) by (nonlinear_arith)
                    requires
                        self.spec_pts_span() >= self.pts_max - self.pts_min,
                        self.spec_eps_span() >= 0,
                ;
            }
            a - lo
        }
    }

    /// The region query: all other points within `eps_max` of point `p`, by
    /// a full scan, in increasing index order.
    fn region_query(&self, dist: &DistanceMatrix, p: usize) -> (r: Vec<usize>)
        requires
            self.wf(),
            dist.wf(),
            p < dist.n,
        ensures
            r@ == self.spec_region(dist.n as int, dist.d@, p as int, dist.n as int),
            forall|t: int| 0 <= t < r@.len() ==> (r@[t] as int) < dist.n,
            r@.len() <= dist.n,
    {
        let n = dist.n;
        let mut r: Vec<usize> = Vec::new();
        let mut k: usize = 0;
        while k < n
            invariant
                self.wf(),
                dist.wf(),
                p < n,
                n == dist.n,
                k <= n,
                r@ == self.spec_region(n as int, dist.d@, p as int, k as int),
                forall|t: int| 0 <= t < r@.len() ==> (r@[t] as int) < k,
                r@.len() <= k,
            decreases n - k,
        {
            if k != p && dist.get(k, p) <= self.eps_max as u64 {
                r.push(k);
            }
            k = k + 1;
        }
        r
    }

    /// The density score of point `p` over a neighbor list: one plus the sum
    /// of the fuzzy distance memberships of all neighbors.
    fn density(&self, dist: &DistanceMatrix, p: usize, neigh: &Vec<usize>) -> (r: u64)
        requires
            self.wf(),
            dist.wf(),
            p < dist.n,
            neigh@.len() <= dist.n,
            forall|t: int| 0 <= t < neigh@.len() ==> (neigh@[t] as int) < dist.n,
        ensures
            r == self.spec_density(dist.n as int, dist.d@, p as int, neigh@),
    {
        let n = dist.n;
        let e = self.eps_span();
        let mut sum: u64 = e;
        let mut t: usize = 0;
        while t < neigh.len()
            invariant
                self.wf(),
                dist.wf(),
                p < n,
                n == dist.n,
                t <= neigh@.len() <= n <= 0xFFFF_FFFF,
                e == self.spec_eps_span(),
                forall|u: int| 0 <= u < neigh@.len() ==> (neigh@[u] as int) < n,
                sum == self.spec_density(n as int, dist.d@, p as int, neigh@.subrange(0, t as int)),
                sum <= (1 + t as int) * e,
            decreases neigh@.len() - t,
        {
            let mu = self.mu_distance(dist.get(p, neigh[t]));
            proof {
                assert((1 + t as int) * e + e == (1 + (t + 1) as int) * e) by (nonlinear_arith);
                assert((1 + (t + 1) as int) * e <= 0x1_0000_0000i64 * 0xFFFF_FFFFi64)
                    by (nonlinear_arith)
                    requires
                        (t as int) + 2 <= 0x1_0000_0000i64,
                        0 <= e <= 0xFFFF_FFFFi64,
                ;
                assert(neigh@.subrange(0, t + 1).drop_last() =~= neigh@.subrange(0, t as int));
            }
            sum = sum + mu;
            t = t + 1;
        }
        proof {
            assert(neigh@.subrange(0, neigh@.len() as int) =~= neigh@);
        }
        sum
    }

    /// Grows one cluster from a core seed: drains the worklist of candidate
    /// indices, adding fuzzy-core candidates (and enqueueing their regions)
    /// and deferring the rest as border candidates, then resolves every
    /// border label against the core part of the cluster.
    fn expand_cluster_fuzzy(
        &self,
        dist: &DistanceMatrix,
        point_label: u64,
        point_index: usize,
        neighbor_indices: Vec<usize>,
        visited: &mut Vec<bool>,
    ) -> (cluster: Vec<Assignment>)
        requires
            self.wf(),
            dist.wf(),
            point_index < dist.n,
            old(visited)@.len() == dist.n,
            forall|t: int|
                0 <= t < neighbor_indices@.len() ==> (neighbor_indices@[t] as int) < dist.n,
        ensures
            ({
                let seed = Assignment {
                    index: point_index,
                    label: point_label,
                    category: Category::Core,
                };
                let enq = spec_enqueue(
                    Seq::empty(),
                    Seq::new(dist.n as nat, |j: int| false),
                    neighbor_indices@,
                );
                let grown = self.spec_expand(
                    dist.n as int,
                    dist.d@,
                    seq![seed],
                    Seq::empty(),
                    enq.0,
                    enq.1,
                    old(visited)@,
                );
                cluster@ == self.spec_resolve(dist.n as int, dist.d@, grown.0, grown.1)
                    && final(visited)@ == grown.2
            }),
            final(visited)@.len() == old(visited)@.len(),
    {
        let n = dist.n;
        let ghost nn = dist.n as int;
        let ghost m = dist.d@;
        let ghost seed_spec = Assignment {
            index: point_index,
            label: point_label,
            category: Category::Core,
        };
        let ghost enq_target = spec_enqueue(
            Seq::empty(),
            Seq::new(n as nat, |j: int| false),
            neighbor_indices@,
        );

        // Initial enqueue: the seed's whole region, each index marked as it
        // is queued so that it can never be queued twice in this expansion.
        let mut local: Vec<bool> = falses(n);
        let mut wl: Vec<usize> = Vec::new();
        proof {
            assert(neighbor_indices@.skip(0) =~= neighbor_indices@);
        }
        let mut t: usize = 0;
        while t < neighbor_indices.len()
            invariant
                t <= neighbor_indices@.len(),
                local@.len() == n,
                forall|u: int|
                    0 <= u < neighbor_indices@.len() ==> (neighbor_indices@[u] as int) < n,
                forall|u: int| 0 <= u < wl@.len() ==> (wl@[u] as int) < n,
                spec_enqueue(wl@, local@, neighbor_indices@.skip(t as int)) == enq_target,
            decreases neighbor_indices@.len() - t,
        {
            let x = neighbor_indices[t];
            proof {
                assert(neighbor_indices@.skip(t as int)[0] == x);
                assert(neighbor_indices@.skip(t as int).drop_first() =~= neighbor_indices@.skip(
                    t as int + 1,
                ));
            }
            if !local[x] {
                wl.push(x);
                local[x] = true;
            }
            t = t + 1;
        }
        proof {
            assert(neighbor_indices@.skip(neighbor_indices@.len() as int)
                =~= Seq::<usize>::empty());
            assert((wl@, local@) == enq_target);
        }

        // Drain the worklist.
        let mut cluster: Vec<Assignment> = Vec::new();
        cluster.push(
            Assignment { index: point_index, label: point_label, category: Category::Core },
        );
        let mut borders: Vec<Assignment> = Vec::new();
        let ghost grown = self.spec_expand(
            nn,
            m,
            seq![seed_spec],
            Seq::empty(),
            enq_target.0,
            enq_target.1,
            old(visited)@,
        );
        proof {
            assert(cluster@ =~= seq![seed_spec]);
        }
        while wl.len() > 0
            invariant
                self.wf(),
                dist.wf(),
                n == dist.n,
                m == dist.d@,
                nn == n as int,
                local@.len() == n,
                visited@.len() == n,
                forall|u: int| 0 <= u < wl@.len() ==> (wl@[u] as int) < n,
                forall|u: int| 0 <= u < cluster@.len() ==> (cluster@[u].index as int) < n,
                forall|u: int| 0 <= u < borders@.len() ==> (borders@[u].index as int) < n,
                self.spec_expand(nn, m, cluster@, borders@, wl@, local@, visited@) == grown,
            decreases count_false(local@), wl@.len(),
        {
            let ghost cluster_old = cluster@;
            let ghost borders_old = borders@;
            let ghost wl_old = wl@;
            let ghost local_old = local@;
            let ghost visited_old = visited@;
            let q = wl.pop().unwrap();
            visited[q] = true;
            let neigh = self.region_query(dist, q);
            let a = self.density(dist, q, &neigh);
            let lab = self.mu_min_p(a);
            if lab > 0 {
                let ghost wl0 = wl@;
                let ghost local0 = local@;
                let ghost enq2 = spec_enqueue(wl0, local0, neigh@);
                proof {
                    assert(neigh@.skip(0) =~= neigh@);
                }
                let mut t2: usize = 0;
                while t2 < neigh.len()
                    invariant
                        t2 <= neigh@.len(),
                        n <= 0xFFFF_FFFF,
                        local@.len() == n,
                        forall|u: int| 0 <= u < neigh@.len() ==> (neigh@[u] as int) < n,
                        forall|u: int| 0 <= u < wl@.len() ==> (wl@[u] as int) < n,
                        spec_enqueue(wl@, local@, neigh@.skip(t2 as int)) == enq2,
                    decreases neigh@.len() - t2,
                {
                    let x = neigh[t2];
                    proof {
                        assert(neigh@.skip(t2 as int)[0] == x);
                        assert(neigh@.skip(t2 as int).drop_first() =~= neigh@.skip(t2 as int + 1));
                    }
                    if !local[x] {
                        wl.push(x);
                        local[x] = true;
                    }
                    t2 = t2 + 1;
                }
                cluster.push(Assignment { index: q, label: lab, category: Category::Core });
                proof {
                    assert(neigh@.skip(neigh@.len() as int) =~= Seq::<usize>::empty());
                    assert((wl@, local@) == enq2);
                    lemma_enqueue_measure(wl0, local0, neigh@);
                    assert(self.spec_expand(nn, m, cluster@, borders@, wl@, local@, visited@)
                        == grown);
                }
            } else {
                borders.push(
                    Assignment { index: q, label: BORDER_SENTINEL, category: Category::Border },
                );
                proof {
                    assert(self.spec_expand(nn, m, cluster@, borders@, wl@, local@, visited@)
                        == grown);
                }
            }
        }
        proof {
            assert(cluster@ == grown.0 && borders@ == grown.1 && visited@ == grown.2);
        }

        // Border label resolution against the core part of the cluster.
        let ghost cores = cluster@;
        let ghost borders0 = borders@;
        let cl_len = cluster.len();
        let mut bi: usize = 0;
        while bi < borders.len()
            invariant
                self.wf(),
                dist.wf(),
                n == dist.n,
                m == dist.d@,
                nn == n as int,
                cluster@ == cores,
                cl_len == cores.len(),
                borders@.len() == borders0.len(),
                forall|u: int| 0 <= u < cores.len() ==> (cores[u].index as int) < n,
                forall|u: int| 0 <= u < borders0.len() ==> (borders0[u].index as int) < n,
                forall|j: int|
                    0 <= j < bi ==> borders@[j] == self.spec_resolve_one(
                        nn,
                        m,
                        cores,
                        borders0[j],
                        cores.len() as int,
                    ),
                forall|j: int| bi <= j < borders0.len() ==> borders@[j] == borders0[j],
            decreases borders@.len() - bi,
        {
            let mut b = borders[bi];
            let mut ci: usize = 0;
            while ci < cl_len
                invariant
                    self.wf(),
                    dist.wf(),
                    n == dist.n,
                    m == dist.d@,
                    nn == n as int,
                    cluster@ == cores,
                    cl_len == cores.len(),
                    ci <= cl_len,
                    bi < borders0.len(),
                    forall|u: int| 0 <= u < cores.len() ==> (cores[u].index as int) < n,
                    (borders0[bi as int].index as int) < n,
                    b.index == borders0[bi as int].index,
                    b == self.spec_resolve_one(nn, m, cores, borders0[bi as int], ci as int),
                decreases cl_len - ci,
            {
                let c = cluster[ci];
                let mu = self.mu_distance(dist.get(b.index, c.index));
                if mu > 0 {
                    let p = self.pts_span();
                    proof {
                        assert(mu * p <= 0xFFFF_FFFFu64 * 0xFFFF_FFFFu64) by (nonlinear_arith)
                            requires
                                0 <= mu <= 0xFFFF_FFFFu64,
                                0 <= p <= 0xFFFF_FFFFu64,
                        ;
                    }
                    let mp = mu * p;
                    b.label = u64_min(u64_min(c.label, mp), b.label);
                }
                ci = ci + 1;
            }
            borders[bi] = b;
            bi = bi + 1;
        }
        proof {
            assert(borders@ =~= borders0.map_values(
                |b: Assignment| self.spec_resolve_one(nn, m, cores, b, cores.len() as int),
            ));
        }
        cluster.append(&mut borders);
        proof {
            assert(cluster@ == self.spec_resolve(nn, m, cores, borders0));
        }
        cluster
    }

    /// The whole clustering run on a distance matrix: every unvisited point
    /// in index order either joins the noise group or seeds a cluster
    /// expansion; a non-empty noise group is appended last.
    fn fuzzy_dbscan(&self, dist: &DistanceMatrix) -> (r: Vec<Cluster>)
        requires
            self.wf(),
            dist.wf(),
        ensures
            view_clusters(r@) == self.spec_cluster(dist.n as int, dist.d@),
    {
        let n = dist.n;
        let ghost nn = dist.n as int;
        let ghost m = dist.d@;
        let mut clusters: Vec<Cluster> = Vec::new();
        let mut noise: Cluster = Vec::new();
        let mut visited: Vec<bool> = falses(n);
        let ghost target = self.spec_cluster(nn, m);
        proof {
            assert(view_clusters(clusters@) =~= Seq::<Seq<Assignment>>::empty());
        }
        let mut i: usize = 0;
        while i < n
            invariant
                self.wf(),
                dist.wf(),
                n == dist.n,
                m == dist.d@,
                nn == n as int,
                i <= n,
                visited@.len() == n,
                self.spec_partition(nn, m, i as int, visited@, view_clusters(clusters@), noise@)
                    == target,
            decreases n - i,
        {
            let ghost clusters_old = clusters@;
            let ghost noise_old = noise@;
            let ghost visited_old = visited@;
            if !visited[i] {
                visited[i] = true;
                let neigh = self.region_query(dist, i);
                let a = self.density(dist, i, &neigh);
                let lab = self.mu_min_p(a);
                if lab == 0 {
                    let one = self.label_one();
                    noise.push(Assignment { index: i, label: one, category: Category::Noise });
                } else {
                    let cl = self.expand_cluster_fuzzy(dist, lab, i, neigh, &mut visited);
                    clusters.push(cl);
                    proof {
                        assert(view_clusters(clusters@) =~= view_clusters(clusters_old).push(
                            cl@,
                        ));
                    }
                }
            }
            i = i + 1;
            proof {
                assert(self.spec_partition(
                    nn,
                    m,
                    i as int,
                    visited@,
                    view_clusters(clusters@),
                    noise@,
                ) == target);
            }
        }
        if noise.len() > 0 {
            let ghost clusters_before = clusters@;
            let ghost noise_final = noise@;
            clusters.push(noise);
            proof {
                assert(view_clusters(clusters@) =~= view_clusters(clusters_before).push(
                    noise_final,
                ));
            }
        }
        clusters
    }

    /// Clusters the points behind a precomputed distance matrix.
    ///
    /// The result is the exact mathematical value
    /// [`FuzzyDBSCAN::spec_cluster`] of the matrix and the configuration:
    /// an ordered sequence of clusters, each holding core assignments in
    /// discovery order followed by resolved border assignments, with the
    /// noise group (all labels fixed at [`FuzzyDBSCAN::label_one`]) as the
    /// last element whenever any point is noise.
    pub fn cluster_matrix(&self, dist: &DistanceMatrix) -> (r: Vec<Cluster>)
        requires
            self.wf(),
            dist.wf(),
        ensures
            view_clusters(r@) == self.spec_cluster(dist.n as int, dist.d@),
    {
        self.fuzzy_dbscan(dist)
    }

    /// Clusters a list of `points` through their distance capability.
    ///
    /// Every distance is read once into a matrix by a full pairwise scan;
    /// the result is the exact clustering of whatever matrix the capability
    /// produced.
    pub fn cluster<P: MetricSpace>(&self, points: &[P]) -> (r: Vec<Cluster>)
        requires
            self.wf(),
            points@.len() <= 0xFFFF_FFFF,
        ensures
            exists|md: Seq<u64>|
                md.len() == points@.len() * points@.len() && view_clusters(r@)
                    == self.spec_cluster(points@.len() as int, md),
    {
        let dist = DistanceMatrix::from_points(points);
        let r = self.fuzzy_dbscan(&dist);
        proof {
            assert(dist.d@.len() == points@.len() * points@.len() && view_clusters(r@)
                == self.spec_cluster(points@.len() as int, dist.d@));
        }
        r
    }
}

} // verus!
