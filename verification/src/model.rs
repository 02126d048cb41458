//! The mathematical model of a clustering run.
//!
//! Every function here is specification-only.  Together they define, as one
//! deterministic function of the distance matrix and the configuration, the
//! exact sequence of clusters that the engine returns: the region query, the
//! density score, the worklist-driven cluster expansion, the border label
//! resolution and the top-level partition.  The executable engine in
//! [`crate::engine`] is proved to return exactly
//! [`FuzzyDBSCAN::spec_cluster`].

use vstd::prelude::*;

use crate::config::FuzzyDBSCAN;
use crate::matrix::mat_at;
use crate::types::Assignment;
use crate::types::BORDER_SENTINEL;
use crate::types::Category;

verus! {

/// The smaller of two integers.
pub open spec fn spec_min(a: int, b: int) -> int {
    if a <= b {
        a
    } else {
        b
    }
}

/// How many entries of a marker sequence are still unset.
pub open spec fn count_false(s: Seq<bool>) -> nat
    decreases s.len(),
{
    if s.len() == 0 {
        0
    } else {
        count_false(s.drop_last()) + if s.last() {
            0nat
        } else {
            1nat
        }
    }
}

/// One enqueue pass of the cluster expansion: appends to the worklist, in
/// order, every index of `neigh` that is not yet marked in `local`, marking
/// each as it is appended.  Marking at enqueue time keeps the worklist
/// duplicate-free, so it plays the role of a set with arbitrary draining
/// order, with the order fixed.
pub open spec fn spec_enqueue(wl: Seq<usize>, local: Seq<bool>, neigh: Seq<usize>) -> (Seq<
    usize,
>, Seq<bool>)
    decreases neigh.len(),
{
    if neigh.len() == 0 {
        (wl, local)
    } else {
        let x = neigh[0];
        if 0 <= x < local.len() && !local[x as int] {
            spec_enqueue(wl.push(x), local.update(x as int, true), neigh.drop_first())
        } else {
            spec_enqueue(wl, local, neigh.drop_first())
        }
    }
}

/// Marking an unmarked position lowers the unmarked count by one.
pub proof fn lemma_count_false_update(s: Seq<bool>, i: int)
    requires
        0 <= i < s.len(),
        !s[i],
    ensures
        count_false(s.update(i, true)) + 1 == count_false(s),
    decreases s.len(),
{
    let t = s.update(i, true);
    if i == s.len() - 1 {
        assert(t.drop_last() =~= s.drop_last());
    } else {
        assert(t.drop_last() =~= s.drop_last().update(i, true));
        lemma_count_false_update(s.drop_last(), i);
    }
}

/// Enqueueing conserves the sum of worklist length and unmarked count, and
/// never unmarks: the measure that makes the expansion terminate.
pub proof fn lemma_enqueue_measure(wl: Seq<usize>, local: Seq<bool>, neigh: Seq<usize>)
    ensures
        spec_enqueue(wl, local, neigh).1.len() == local.len(),
        spec_enqueue(wl, local, neigh).0.len() + count_false(spec_enqueue(wl, local, neigh).1)
            == wl.len() + count_false(local),
        count_false(spec_enqueue(wl, local, neigh).1) <= count_false(local),
        wl.len() <= spec_enqueue(wl, local, neigh).0.len(),
    decreases neigh.len(),
{
    if neigh.len() > 0 {
        let x = neigh[0];
        if 0 <= x < local.len() && !local[x as int] {
            lemma_count_false_update(local, x as int);
            lemma_enqueue_measure(wl.push(x), local.update(x as int, true), neigh.drop_first());
        } else {
            lemma_enqueue_measure(wl, local, neigh.drop_first());
        }
    }
}

impl FuzzyDBSCAN {
    /// The region of point `p` among the first `k` points: every index
    /// `q != p` with `q < k` whose distance to `p` is at most `eps_max`, in
    /// increasing order.  The full region query is `k == n`.
    pub open spec fn spec_region(self, n: int, m: Seq<u64>, p: int, k: int) -> Seq<usize>
        decreases k,
    {
        if k <= 0 {
            Seq::empty()
        } else {
            let rest = self.spec_region(n, m, p, k - 1);
            if k - 1 != p && mat_at(m, n, k - 1, p) <= self.eps_max {
                rest.push((k - 1) as usize)
            } else {
                rest
            }
        }
    }

    /// The density score of point `p` over a neighbor list, as a numerator
    /// over [`FuzzyDBSCAN::spec_eps_span`]: one (for the point itself) plus
    /// the sum of the fuzzy distance memberships of all neighbors.
    pub open spec fn spec_density(self, n: int, m: Seq<u64>, p: int, neigh: Seq<usize>) -> int
        decreases neigh.len(),
    {
        if neigh.len() == 0 {
            self.spec_eps_span()
        } else {
            self.spec_density(n, m, p, neigh.drop_last()) + self.spec_mu_distance(
                mat_at(m, n, p, neigh.last() as int),
            )
        }
    }

    /// The label of point `p` on its own: the fuzzy density membership of its
    /// density over its full region.  Zero exactly when `p` is not a core
    /// point.
    pub open spec fn spec_point_label(self, n: int, m: Seq<u64>, p: int) -> int {
        self.spec_mu_min_p(self.spec_density(n, m, p, self.spec_region(n, m, p, n)))
    }

    /// The worklist-draining phase of one cluster expansion.
    ///
    /// Drains the worklist from the back.  A drained candidate is marked
    /// visited; if its own label is positive it joins the cluster as a core
    /// point and its whole region is enqueued (the density-reachability
    /// closure), otherwise it is deferred as a border candidate carrying the
    /// sentinel label.  Returns the core part of the cluster, the unresolved
    /// border candidates, and the updated global visited markers.
    pub open spec fn spec_expand(
        self,
        n: int,
        m: Seq<u64>,
        cluster: Seq<Assignment>,
        borders: Seq<Assignment>,
        wl: Seq<usize>,
        local: Seq<bool>,
        visited: Seq<bool>,
    ) -> (Seq<Assignment>, Seq<Assignment>, Seq<bool>)
        decreases count_false(local), wl.len(),
        via Self::spec_expand_decreases
    {
        if wl.len() == 0 {
            (cluster, borders, visited)
        } else {
            let q = wl.last();
            let wl0 = wl.drop_last();
            let visited1 = visited.update(q as int, true);
            let neigh = self.spec_region(n, m, q as int, n);
            let lab = self.spec_mu_min_p(self.spec_density(n, m, q as int, neigh));
            if lab > 0 {
                let enq = spec_enqueue(wl0, local, neigh);
                self.spec_expand(
                    n,
                    m,
                    cluster.push(
                        Assignment { index: q, label: lab as u64, category: Category::Core },
                    ),
                    borders,
                    enq.0,
                    enq.1,
                    visited1,
                )
            } else {
                self.spec_expand(
                    n,
                    m,
                    cluster,
                    borders.push(
                        Assignment { index: q, label: BORDER_SENTINEL, category: Category::Border },
                    ),
                    wl0,
                    local,
                    visited1,
                )
            }
        }
    }

    #[via_fn]
    proof fn spec_expand_decreases(
        self,
        n: int,
        m: Seq<u64>,
        cluster: Seq<Assignment>,
        borders: Seq<Assignment>,
        wl: Seq<usize>,
        local: Seq<bool>,
        visited: Seq<bool>,
    ) {
        if wl.len() > 0 {
            let q = wl.last();
            let neigh = self.spec_region(n, m, q as int, n);
            if self.spec_mu_min_p(self.spec_density(n, m, q as int, neigh)) > 0 {
                lemma_enqueue_measure(wl.drop_last(), local, neigh);
            }
        }
    }

    /// The label of one border candidate after meeting the first `k` points
    /// of the cluster's core part: every core point at positive fuzzy
    /// distance membership tightens the label to the minimum of the core's
    /// own label, that membership, and the label so far (reachable via the
    /// weakest link).
    pub open spec fn spec_resolve_one(
        self,
        n: int,
        m: Seq<u64>,
        cluster: Seq<Assignment>,
        b: Assignment,
        k: int,
    ) -> Assignment
        decreases k,
    {
        if k <= 0 {
            b
        } else {
            let prev = self.spec_resolve_one(n, m, cluster, b, k - 1);
            let c = cluster[k - 1];
            let mu = self.spec_mu_distance(mat_at(m, n, b.index as int, c.index as int));
            if mu > 0 {
                let lab = spec_min(
                    spec_min(c.label as int, mu * self.spec_pts_span()),
                    prev.label as int,
                );
                Assignment { label: lab as u64, ..prev }
            } else {
                prev
            }
        }
    }

    /// A finished cluster: the core part followed by all border candidates
    /// with their labels resolved against the core part.
    pub open spec fn spec_resolve(
        self,
        n: int,
        m: Seq<u64>,
        cluster: Seq<Assignment>,
        borders: Seq<Assignment>,
    ) -> Seq<Assignment> {
        cluster + borders.map_values(
            |b: Assignment| self.spec_resolve_one(n, m, cluster, b, cluster.len() as int),
        )
    }

    /// The top-level partition from point `i` on: every unvisited point is
    /// visited and either joins the noise group (label zero) or seeds a full
    /// cluster expansion.  When all points are processed, a non-empty noise
    /// group is appended as the last cluster.
    pub open spec fn spec_partition(
        self,
        n: int,
        m: Seq<u64>,
        i: int,
        visited: Seq<bool>,
        clusters: Seq<Seq<Assignment>>,
        noise: Seq<Assignment>,
    ) -> Seq<Seq<Assignment>>
        decreases n - i,
    {
        if i >= n {
            if noise.len() > 0 {
                clusters.push(noise)
            } else {
                clusters
            }
        } else if visited[i] {
            self.spec_partition(n, m, i + 1, visited, clusters, noise)
        } else {
            let visited1 = visited.update(i, true);
            let neigh = self.spec_region(n, m, i, n);
            let lab = self.spec_mu_min_p(self.spec_density(n, m, i, neigh));
            if lab == 0 {
                self.spec_partition(
                    n,
                    m,
                    i + 1,
                    visited1,
                    clusters,
                    noise.push(
                        Assignment {
                            index: i as usize,
                            label: self.spec_label_one() as u64,
                            category: Category::Noise,
                        },
                    ),
                )
            } else {
                let seed = Assignment { index: i as usize, label: lab as u64, category: Category::Core };
                let enq = spec_enqueue(Seq::empty(), Seq::new(n as nat, |j: int| false), neigh);
                let grown = self.spec_expand(
                    n,
                    m,
                    seq![seed],
                    Seq::empty(),
                    enq.0,
                    enq.1,
                    visited1,
                );
                self.spec_partition(
                    n,
                    m,
                    i + 1,
                    grown.2,
                    clusters.push(self.spec_resolve(n, m, grown.0, grown.1)),
                    noise,
                )
            }
        }
    }

    /// The whole clustering run on `n` points with flattened distance matrix
    /// `m`: the deterministic result that [`crate::engine`] computes.
    pub open spec fn spec_cluster(self, n: int, m: Seq<u64>) -> Seq<Seq<Assignment>> {
        self.spec_partition(
            n,
            m,
            0,
            Seq::new(n as nat, |j: int| false),
            Seq::empty(),
            Seq::empty(),
        )
    }
}

/// The view of an executable cluster list as its mathematical value.
pub open spec fn view_clusters(r: Seq<crate::types::Cluster>) -> Seq<Seq<Assignment>> {
    r.map_values(|c: crate::types::Cluster| c@)
}

} // verus!
