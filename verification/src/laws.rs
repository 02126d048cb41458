//! Proved laws of the clustering model: label ranges, completeness of the
//! partition, purity and position of the noise group, the classic-DBSCAN
//! reductions, and determinism.
//!
//! Every law is stated against [`FuzzyDBSCAN::spec_cluster`], the exact value
//! that [`FuzzyDBSCAN::cluster_matrix`] returns.

use vstd::prelude::*;

use crate::config::FuzzyDBSCAN;
use crate::matrix::mat_at;
use crate::model::count_false;
use crate::model::lemma_enqueue_measure;
use crate::model::spec_enqueue;
use crate::model::spec_min;
use crate::types::Assignment;
use crate::types::BORDER_SENTINEL;
use crate::types::Category;

verus! {

/// Whether some position of `s` assigns point index `j`.
pub open spec fn appears(s: Seq<Assignment>, j: int) -> bool {
    exists|k: int| 0 <= k < s.len() && (s[k].index as int) == j
}

/// Whether some cluster of the result assigns point index `j`.
pub open spec fn result_has(r: Seq<Seq<Assignment>>, j: int) -> bool {
    exists|k: int| 0 <= k < r.len() && appears(r[k], j)
}

impl FuzzyDBSCAN {
    /// What every assignment of a clustering run satisfies: its index is a
    /// point; a core assignment carries the point's own positive label, a
    /// noise assignment stands for a point with label zero and carries the
    /// full label, and a border assignment stands for a point with label
    /// zero and carries either a resolved label or the untouched sentinel.
    pub open spec fn assignment_ok(self, n: int, m: Seq<u64>, a: Assignment) -> bool {
        (a.index as int) < n && match a.category {
            Category::Core => a.label as int == self.spec_point_label(n, m, a.index as int)
                && 0 < a.label as int <= self.spec_label_one(),
            Category::Border => self.spec_point_label(n, m, a.index as int) == 0 && (a.label
                == BORDER_SENTINEL || a.label as int <= self.spec_label_one()),
            Category::Noise => self.spec_point_label(n, m, a.index as int) == 0 && a.label as int
                == self.spec_label_one(),
        }
    }
}

/// Every assignment of `s` satisfies [`FuzzyDBSCAN::assignment_ok`].
pub open spec fn all_ok(cfg: FuzzyDBSCAN, n: int, m: Seq<u64>, s: Seq<Assignment>) -> bool {
    forall|u: int| 0 <= u < s.len() ==> cfg.assignment_ok(n, m, #[trigger] s[u])
}

/// Every assignment of `s` is a core assignment.
pub open spec fn all_core(s: Seq<Assignment>) -> bool {
    forall|u: int| 0 <= u < s.len() ==> (#[trigger] s[u]).category == Category::Core
}

/// Every assignment of `s` is an unresolved border candidate.
pub open spec fn all_border_sentinel(s: Seq<Assignment>) -> bool {
    forall|u: int|
        0 <= u < s.len() ==> (#[trigger] s[u]).category == Category::Border && s[u].label
            == BORDER_SENTINEL
}

/// Every assignment of `s` is a noise assignment.
pub open spec fn all_noise(s: Seq<Assignment>) -> bool {
    forall|u: int| 0 <= u < s.len() ==> (#[trigger] s[u]).category == Category::Noise
}

/// No assignment of `s` is a noise assignment.
pub open spec fn no_noise(s: Seq<Assignment>) -> bool {
    forall|u: int| 0 <= u < s.len() ==> (#[trigger] s[u]).category != Category::Noise
}

/// All indices of `s` lie below `i`.
pub open spec fn indices_below(s: Seq<Assignment>, i: int) -> bool {
    forall|u: int| 0 <= u < s.len() ==> ((#[trigger] s[u]).index as int) < i
}

/// The indices of `s` are strictly increasing.
pub open spec fn increasing_indices(s: Seq<Assignment>) -> bool {
    forall|u: int, v: int| 0 <= u < v < s.len() ==> (#[trigger] s[u]).index < (#[trigger] s[v]).index
}

/// Every cluster of `cs` holds only well-formed, non-noise assignments.
pub open spec fn clusters_ok(cfg: FuzzyDBSCAN, n: int, m: Seq<u64>, cs: Seq<Seq<Assignment>>) -> bool {
    forall|k: int|
        0 <= k < cs.len() ==> all_ok(cfg, n, m, #[trigger] cs[k]) && no_noise(cs[k])
}

/// Every visited point is assigned somewhere: in a cluster or in the noise
/// group.
pub open spec fn covers(visited: Seq<bool>, clusters: Seq<Seq<Assignment>>, noise: Seq<Assignment>) -> bool {
    forall|j: int|
        0 <= j < visited.len() && visited[j] ==> result_has(clusters, j) || appears(noise, j)
}

/// The label scale is at least one and fits comfortably below the border
/// sentinel.
pub proof fn lemma_label_one_range(cfg: FuzzyDBSCAN)
    ensures
        1 <= cfg.spec_label_one() < BORDER_SENTINEL,
{
    assert(1 <= cfg.spec_eps_span() <= 0xFFFF_FFFF);
    assert(1 <= cfg.spec_pts_span() <= 0xFFFF_FFFF);
    assert(1 <= cfg.spec_eps_span() * cfg.spec_pts_span() <= 0xFFFF_FFFFi64 * 0xFFFF_FFFFi64)
        by (nonlinear_arith)
        requires
            1 <= cfg.spec_eps_span() <= 0xFFFF_FFFF,
            1 <= cfg.spec_pts_span() <= 0xFFFF_FFFF,
    ;
}

/// The density membership always lands between zero and the label scale.
pub proof fn lemma_mu_min_p_range(cfg: FuzzyDBSCAN, a: int)
    requires
        cfg.wf(),
    ensures
        0 <= cfg.spec_mu_min_p(a) <= cfg.spec_label_one(),
{
    lemma_label_one_range(cfg);
    let e = cfg.spec_eps_span();
    if a >= cfg.pts_max * e {
    } else if a < cfg.pts_min * e {
    } else {
        assert(cfg.pts_min < cfg.pts_max);
        assert(a - cfg.pts_min * e < (cfg.pts_max - cfg.pts_min) * e) by (nonlinear_arith)
            requires
                a < cfg.pts_max * e,
        ;
        assert((cfg.pts_max - cfg.pts_min) * e == cfg.spec_pts_span() * e);
        assert(cfg.spec_pts_span() * e == e * cfg.spec_pts_span()) by (nonlinear_arith);
    }
}

/// With a degenerate density range the density membership is a hard step:
/// zero or the full label, nothing in between.
pub proof fn lemma_mu_min_p_crisp(cfg: FuzzyDBSCAN, a: int)
    requires
        cfg.wf(),
        cfg.pts_min == cfg.pts_max,
    ensures
        cfg.spec_mu_min_p(a) == 0 || cfg.spec_mu_min_p(a) == cfg.spec_label_one(),
{
}

/// Region entries are point indices below `k`, never the queried point,
/// each within `eps_max` of it.
pub proof fn lemma_region_entries(cfg: FuzzyDBSCAN, n: int, m: Seq<u64>, p: int, k: int)
    requires
        k <= usize::MAX,
    ensures
        forall|u: int|
            0 <= u < cfg.spec_region(n, m, p, k).len() ==> (
            #[trigger] cfg.spec_region(n, m, p, k)[u] as int) < k && (cfg.spec_region(
                n,
                m,
                p,
                k,
            )[u] as int) != p && mat_at(m, n, cfg.spec_region(n, m, p, k)[u] as int, p)
                <= cfg.eps_max,
    decreases k,
{
    if k > 0 {
        lemma_region_entries(cfg, n, m, p, k - 1);
        let rest = cfg.spec_region(n, m, p, k - 1);
        let cur = cfg.spec_region(n, m, p, k);
        assert forall|u: int| 0 <= u < cur.len() implies (#[trigger] cur[u] as int) < k && (
        cur[u] as int) != p && mat_at(m, n, cur[u] as int, p) <= cfg.eps_max by {
            if u < rest.len() {
                assert(cur[u] == rest[u]);
            } else {
                assert(cur[u] == (k - 1) as usize);
            }
        }
    }
}

/// The converse: every other point within `eps_max` of `p` is a region
/// entry.
pub proof fn lemma_region_contains(cfg: FuzzyDBSCAN, n: int, m: Seq<u64>, p: int, k: int, x: int)
    requires
        k <= usize::MAX,
        0 <= x < k,
        x != p,
        mat_at(m, n, x, p) <= cfg.eps_max,
    ensures
        exists|u: int|
            0 <= u < cfg.spec_region(n, m, p, k).len() && (#[trigger] cfg.spec_region(
                n,
                m,
                p,
                k,
            )[u] as int) == x,
    decreases k,
{
    let cur = cfg.spec_region(n, m, p, k);
    let rest = cfg.spec_region(n, m, p, k - 1);
    if x == k - 1 {
        assert(cur[rest.len() as int] == (k - 1) as usize);
    } else {
        lemma_region_contains(cfg, n, m, p, k - 1, x);
        let u = choose|u: int| 0 <= u < rest.len() && (rest[u] as int) == x;
        assert(cur[u] == rest[u]);
    }
}

/// Every fuzzy distance membership is non-negative.
pub proof fn lemma_mu_distance_nonneg(cfg: FuzzyDBSCAN, d: int)
    requires
        cfg.wf(),
    ensures
        0 <= cfg.spec_mu_distance(d) <= cfg.spec_eps_span(),
{
}

/// The density of a point counts at least the point itself, and at least
/// any one of its neighbors.
pub proof fn lemma_density_member(
    cfg: FuzzyDBSCAN,
    n: int,
    m: Seq<u64>,
    p: int,
    neigh: Seq<usize>,
    t: int,
)
    requires
        cfg.wf(),
        0 <= t < neigh.len(),
    ensures
        cfg.spec_density(n, m, p, neigh) >= cfg.spec_eps_span() + cfg.spec_mu_distance(
            mat_at(m, n, p, neigh[t] as int),
        ),
    decreases neigh.len(),
{
    let last = neigh.last();
    lemma_mu_distance_nonneg(cfg, mat_at(m, n, p, last as int));
    if t == neigh.len() - 1 {
        lemma_density_at_least_span(cfg, n, m, p, neigh.drop_last());
    } else {
        lemma_density_member(cfg, n, m, p, neigh.drop_last(), t);
        assert(neigh.drop_last()[t] == neigh[t]);
    }
}

/// The density of any point is at least one (the point itself).
pub proof fn lemma_density_at_least_span(
    cfg: FuzzyDBSCAN,
    n: int,
    m: Seq<u64>,
    p: int,
    neigh: Seq<usize>,
)
    requires
        cfg.wf(),
    ensures
        cfg.spec_density(n, m, p, neigh) >= cfg.spec_eps_span(),
    decreases neigh.len(),
{
    if neigh.len() > 0 {
        lemma_density_at_least_span(cfg, n, m, p, neigh.drop_last());
        lemma_mu_distance_nonneg(cfg, mat_at(m, n, p, neigh.last() as int));
    }
}

/// Enqueueing keeps every worklist entry a point index.
pub proof fn lemma_enqueue_entries(wl: Seq<usize>, local: Seq<bool>, neigh: Seq<usize>, n: int)
    requires
        forall|u: int| 0 <= u < wl.len() ==> (wl[u] as int) < n,
        forall|u: int| 0 <= u < neigh.len() ==> (neigh[u] as int) < n,
    ensures
        forall|u: int|
            0 <= u < spec_enqueue(wl, local, neigh).0.len() ==> (#[trigger] spec_enqueue(
                wl,
                local,
                neigh,
            ).0[u] as int) < n,
    decreases neigh.len(),
{
    if neigh.len() > 0 {
        let x = neigh[0];
        assert((neigh[0] as int) < n);
        assert forall|u: int|
            0 <= u < neigh.drop_first().len() implies (#[trigger] neigh.drop_first()[u] as int)
            < n by {
            assert(neigh.drop_first()[u] == neigh[u + 1]);
        }
        if 0 <= x < local.len() && !local[x as int] {
            assert forall|u: int|
                0 <= u < wl.push(x).len() implies (#[trigger] wl.push(x)[u] as int) < n by {
                if u < wl.len() {
                    assert(wl.push(x)[u] == wl[u]);
                } else {
                    assert(wl.push(x)[u] == x);
                }
            }
            lemma_enqueue_entries(wl.push(x), local.update(x as int, true), neigh.drop_first(), n);
            assert(spec_enqueue(wl, local, neigh) == spec_enqueue(
                wl.push(x),
                local.update(x as int, true),
                neigh.drop_first(),
            ));
        } else {
            lemma_enqueue_entries(wl, local, neigh.drop_first(), n);
            assert(spec_enqueue(wl, local, neigh) == spec_enqueue(wl, local, neigh.drop_first()));
        }
    }
}

/// What the worklist-draining phase guarantees: the grown core part and the
/// border candidates stay well formed, already-made assignments are kept in
/// place, and every newly visited point is assigned to this cluster.
pub proof fn lemma_expand_props(
    cfg: FuzzyDBSCAN,
    n: int,
    m: Seq<u64>,
    cluster: Seq<Assignment>,
    borders: Seq<Assignment>,
    wl: Seq<usize>,
    local: Seq<bool>,
    visited: Seq<bool>,
)
    requires
        cfg.wf(),
        0 <= n <= 0xFFFF_FFFF,
        visited.len() == n,
        forall|u: int| 0 <= u < wl.len() ==> ((#[trigger] wl[u]) as int) < n,
        all_ok(cfg, n, m, cluster),
        all_core(cluster),
        all_ok(cfg, n, m, borders),
        all_border_sentinel(borders),
    ensures
        ({
            let g = cfg.spec_expand(n, m, cluster, borders, wl, local, visited);
            &&& all_ok(cfg, n, m, g.0)
            &&& all_core(g.0)
            &&& all_ok(cfg, n, m, g.1)
            &&& all_border_sentinel(g.1)
            &&& g.0.len() >= cluster.len()
            &&& forall|u: int| 0 <= u < cluster.len() ==> #[trigger] g.0[u] == cluster[u]
            &&& g.1.len() >= borders.len()
            &&& forall|u: int| 0 <= u < borders.len() ==> #[trigger] g.1[u] == borders[u]
            &&& g.2.len() == n
            &&& forall|j: int| 0 <= j < n && visited[j] ==> #[trigger] g.2[j]
            &&& forall|j: int|
                0 <= j < n && #[trigger] g.2[j] ==> visited[j] || appears(g.0, j) || appears(
                    g.1,
                    j,
                )
        }),
    decreases count_false(local), wl.len(),
{
    let g = cfg.spec_expand(n, m, cluster, borders, wl, local, visited);
    if wl.len() > 0 {
        let q = wl.last();
        assert((wl[wl.len() - 1] as int) < n);
        let wl0 = wl.drop_last();
        assert forall|u: int| 0 <= u < wl0.len() implies ((#[trigger] wl0[u]) as int) < n by {
            assert(wl0[u] == wl[u]);
        }
        let visited1 = visited.update(q as int, true);
        let neigh = cfg.spec_region(n, m, q as int, n);
        let a = cfg.spec_density(n, m, q as int, neigh);
        let lab = cfg.spec_mu_min_p(a);
        lemma_mu_min_p_range(cfg, a);
        lemma_label_one_range(cfg);
        lemma_region_entries(cfg, n, m, q as int, n);
        if lab > 0 {
            let a_new = Assignment { index: q, label: lab as u64, category: Category::Core };
            assert(a_new.label as int == lab);
            assert(cfg.assignment_ok(n, m, a_new));
            let cluster1 = cluster.push(a_new);
            assert forall|u: int|
                0 <= u < cluster1.len() implies cfg.assignment_ok(n, m, #[trigger] cluster1[u])
                && cluster1[u].category == Category::Core by {
                if u < cluster.len() {
                    assert(cluster1[u] == cluster[u]);
                } else {
                    assert(cluster1[u] == a_new);
                }
            }
            let enq = spec_enqueue(wl0, local, neigh);
            assert forall|u: int|
                0 <= u < neigh.len() implies ((#[trigger] neigh[u]) as int) < n by {
                assert((cfg.spec_region(n, m, q as int, n)[u] as int) < n);
            }
            lemma_enqueue_entries(wl0, local, neigh, n);
            lemma_enqueue_measure(wl0, local, neigh);
            lemma_expand_props(cfg, n, m, cluster1, borders, enq.0, enq.1, visited1);
            assert(g == cfg.spec_expand(n, m, cluster1, borders, enq.0, enq.1, visited1));
            assert forall|u: int| 0 <= u < cluster.len() implies #[trigger] g.0[u]
                == cluster[u] by {
                assert(g.0[u] == cluster1[u]);
                assert(cluster1[u] == cluster[u]);
            }
            assert(g.0[cluster.len() as int] == cluster1[cluster.len() as int]);
            assert(g.0[cluster.len() as int] == a_new);
            assert(appears(g.0, q as int));
            assert forall|j: int|
                0 <= j < n && #[trigger] g.2[j] implies visited[j] || appears(g.0, j) || appears(
                    g.1,
                    j,
                ) by {
                if !visited[j] && !visited1[j] {
                } else if !visited[j] && visited1[j] {
                    assert(j == q as int);
                }
            }
        } else {
            let b_new = Assignment { index: q, label: BORDER_SENTINEL, category: Category::Border };
            assert(cfg.spec_point_label(n, m, q as int) == 0);
            assert(cfg.assignment_ok(n, m, b_new));
            let borders1 = borders.push(b_new);
            assert forall|u: int|
                0 <= u < borders1.len() implies cfg.assignment_ok(n, m, #[trigger] borders1[u])
                && borders1[u].category == Category::Border && borders1[u].label
                == BORDER_SENTINEL by {
                if u < borders.len() {
                    assert(borders1[u] == borders[u]);
                } else {
                    assert(borders1[u] == b_new);
                }
            }
            lemma_expand_props(cfg, n, m, cluster, borders1, wl0, local, visited1);
            assert(g == cfg.spec_expand(n, m, cluster, borders1, wl0, local, visited1));
            assert forall|u: int| 0 <= u < borders.len() implies #[trigger] g.1[u]
                == borders[u] by {
                assert(g.1[u] == borders1[u]);
                assert(borders1[u] == borders[u]);
            }
            assert(g.1[borders.len() as int] == borders1[borders.len() as int]);
            assert(g.1[borders.len() as int] == b_new);
            assert(appears(g.1, q as int));
            assert forall|j: int|
                0 <= j < n && #[trigger] g.2[j] implies visited[j] || appears(g.0, j) || appears(
                    g.1,
                    j,
                ) by {
                if !visited[j] && visited1[j] {
                    assert(j == q as int);
                }
            }
        }
    }
}

/// Resolving one border candidate keeps its index and category and can only
/// produce a proper label or leave the candidate untouched.
pub proof fn lemma_resolve_one_props(
    cfg: FuzzyDBSCAN,
    n: int,
    m: Seq<u64>,
    cluster: Seq<Assignment>,
    b: Assignment,
    k: int,
)
    requires
        cfg.wf(),
        all_ok(cfg, n, m, cluster),
        all_core(cluster),
        k <= cluster.len(),
    ensures
        ({
            let r = cfg.spec_resolve_one(n, m, cluster, b, k);
            &&& r.index == b.index
            &&& r.category == b.category
            &&& (r.label == b.label || 0 <= r.label as int <= cfg.spec_label_one())
        }),
    decreases k,
{
    if k > 0 {
        lemma_resolve_one_props(cfg, n, m, cluster, b, k - 1);
        let prev = cfg.spec_resolve_one(n, m, cluster, b, k - 1);
        let c = cluster[k - 1];
        assert(cfg.assignment_ok(n, m, c));
        let mu = cfg.spec_mu_distance(mat_at(m, n, b.index as int, c.index as int));
        if mu > 0 {
            lemma_label_one_range(cfg);
            let p = cfg.spec_pts_span();
            assert(p >= 1);
            let mp = mu * p;
            assert(mu * p >= 0) by (nonlinear_arith)
                requires
                    mu > 0,
                    p >= 1,
            ;
            let lab = spec_min(spec_min(c.label as int, mp), prev.label as int);
            assert(0 <= lab <= cfg.spec_label_one());
        }
    }
}

/// A finished cluster keeps the core part in place, turns every border
/// candidate into a border assignment of the same index, and assigns exactly
/// the indices of its core part and its border candidates.
pub proof fn lemma_resolve_props(
    cfg: FuzzyDBSCAN,
    n: int,
    m: Seq<u64>,
    cluster: Seq<Assignment>,
    borders: Seq<Assignment>,
)
    requires
        cfg.wf(),
        all_ok(cfg, n, m, cluster),
        all_core(cluster),
        all_ok(cfg, n, m, borders),
        all_border_sentinel(borders),
    ensures
        ({
            let r = cfg.spec_resolve(n, m, cluster, borders);
            &&& r.len() == cluster.len() + borders.len()
            &&& forall|u: int| 0 <= u < cluster.len() ==> #[trigger] r[u] == cluster[u]
            &&& forall|u: int|
                cluster.len() <= u < r.len() ==> (#[trigger] r[u]).category == Category::Border
                    && (r[u]).index == borders[u - cluster.len()].index
            &&& all_ok(cfg, n, m, r)
            &&& no_noise(r)
            &&& forall|j: int| #[trigger] appears(r, j) <==> appears(cluster, j) || appears(
                borders,
                j,
            )
        }),
{
    let r = cfg.spec_resolve(n, m, cluster, borders);
    let mapped = borders.map_values(
        |b: Assignment| cfg.spec_resolve_one(n, m, cluster, b, cluster.len() as int),
    );
    assert(r == cluster + mapped);
    assert forall|u: int| 0 <= u < cluster.len() implies #[trigger] r[u] == cluster[u] by {
        assert(r[u] == (cluster + mapped)[u]);
    }
    assert forall|u: int|
        cluster.len() <= u < r.len() implies #[trigger] r[u] == cfg.spec_resolve_one(
        n,
        m,
        cluster,
        borders[u - cluster.len()],
        cluster.len() as int,
    ) by {
        assert(r[u] == mapped[u - cluster.len()]);
    }
    assert forall|u: int|
        cluster.len() <= u < r.len() implies (#[trigger] r[u]).category == Category::Border && (
        r[u]).index == borders[u - cluster.len()].index by {
        let b = borders[u - cluster.len()];
        lemma_resolve_one_props(cfg, n, m, cluster, b, cluster.len() as int);
    }
    assert forall|u: int| 0 <= u < r.len() implies cfg.assignment_ok(n, m, #[trigger] r[u])
        && r[u].category != Category::Noise by {
        if u < cluster.len() {
            assert(r[u] == cluster[u]);
            assert(cfg.assignment_ok(n, m, cluster[u]));
            assert(cluster[u].category == Category::Core);
        } else {
            let b = borders[u - cluster.len()];
            assert(cfg.assignment_ok(n, m, b) && b.category == Category::Border && b.label
                == BORDER_SENTINEL);
            lemma_resolve_one_props(cfg, n, m, cluster, b, cluster.len() as int);
        }
    }
    assert forall|j: int| #[trigger] appears(r, j) implies appears(cluster, j) || appears(
        borders,
        j,
    ) by {
        let k = choose|k: int| 0 <= k < r.len() && (r[k].index as int) == j;
        if k < cluster.len() {
            assert(cluster[k].index as int == j);
        } else {
            let b = borders[k - cluster.len()];
            lemma_resolve_one_props(cfg, n, m, cluster, b, cluster.len() as int);
            assert(borders[k - cluster.len()].index as int == j);
        }
    }
    assert forall|j: int|
        appears(cluster, j) || appears(borders, j) implies #[trigger] appears(r, j) by {
        if appears(cluster, j) {
            let k = choose|k: int| 0 <= k < cluster.len() && (cluster[k].index as int) == j;
            assert(r[k] == cluster[k]);
            assert(0 <= k < r.len() && (r[k].index as int) == j);
        } else {
            let k = choose|k: int| 0 <= k < borders.len() && (borders[k].index as int) == j;
            lemma_resolve_one_props(cfg, n, m, cluster, borders[k], cluster.len() as int);
            assert(r[cluster.len() + k] == cfg.spec_resolve_one(
                n,
                m,
                cluster,
                borders[k],
                cluster.len() as int,
            ));
            assert(0 <= cluster.len() + k < r.len() && (r[cluster.len() + k].index as int) == j);
        }
    }
}

/// What the top-level partition guarantees, threaded through its recursion:
/// all assignments well formed, every point assigned somewhere, and noise
/// assignments confined to a pure, index-sorted last cluster.
pub proof fn lemma_partition_props(
    cfg: FuzzyDBSCAN,
    n: int,
    m: Seq<u64>,
    i: int,
    visited: Seq<bool>,
    clusters: Seq<Seq<Assignment>>,
    noise: Seq<Assignment>,
)
    requires
        cfg.wf(),
        0 <= n <= 0xFFFF_FFFF,
        visited.len() == n,
        0 <= i,
        clusters_ok(cfg, n, m, clusters),
        all_ok(cfg, n, m, noise),
        all_noise(noise),
        indices_below(noise, i),
        increasing_indices(noise),
        covers(visited, clusters, noise),
        forall|j: int| 0 <= j < i && j < n ==> visited[j],
    ensures
        ({
            let r = cfg.spec_partition(n, m, i, visited, clusters, noise);
            &&& forall|k: int| 0 <= k < r.len() ==> all_ok(cfg, n, m, #[trigger] r[k])
            &&& forall|j: int| 0 <= j < n ==> #[trigger] result_has(r, j)
            &&& forall|k: int, u: int|
                0 <= k < r.len() && 0 <= u < r[k].len() && (#[trigger] r[k][u]).category
                    == Category::Noise ==> k == r.len() - 1 && all_noise(r[k])
                    && increasing_indices(r[k])
        }),
    decreases n - i,
{
    let r = cfg.spec_partition(n, m, i, visited, clusters, noise);
    if i >= n {
        if noise.len() > 0 {
            assert(r == clusters.push(noise));
            assert forall|k: int| 0 <= k < r.len() implies all_ok(cfg, n, m, #[trigger] r[k]) by {
                if k < clusters.len() {
                    assert(r[k] == clusters[k]);
                } else {
                    assert(r[k] == noise);
                }
            }
            assert forall|j: int| 0 <= j < n implies #[trigger] result_has(r, j) by {
                assert(visited[j]);
                if result_has(clusters, j) {
                    let k = choose|k: int| 0 <= k < clusters.len() && appears(clusters[k], j);
                    assert(r[k] == clusters[k]);
                    assert(appears(r[k], j));
                } else {
                    assert(appears(noise, j));
                    assert(r[clusters.len() as int] == noise);
                    assert(appears(r[clusters.len() as int], j));
                }
            }
            assert forall|k: int, u: int|
                0 <= k < r.len() && 0 <= u < r[k].len() && (#[trigger] r[k][u]).category
                    == Category::Noise implies k == r.len() - 1 && all_noise(r[k])
                && increasing_indices(r[k]) by {
                if k < clusters.len() {
                    assert(r[k] == clusters[k]);
                    assert(no_noise(clusters[k]));
                } else {
                    assert(r[k] == noise);
                }
            }
        } else {
            assert(r == clusters);
            assert forall|j: int| 0 <= j < n implies #[trigger] result_has(r, j) by {
                assert(visited[j]);
                if appears(noise, j) {
                    let k = choose|k: int| 0 <= k < noise.len() && (noise[k].index as int) == j;
                }
                assert(result_has(clusters, j));
            }
            assert forall|k: int, u: int|
                0 <= k < r.len() && 0 <= u < r[k].len() && (#[trigger] r[k][u]).category
                    == Category::Noise implies k == r.len() - 1 && all_noise(r[k])
                && increasing_indices(r[k]) by {
                assert(r[k] == clusters[k]);
                assert(no_noise(clusters[k]));
            }
        }
    } else if visited[i] {
        lemma_partition_props(cfg, n, m, i + 1, visited, clusters, noise);
        assert(r == cfg.spec_partition(n, m, i + 1, visited, clusters, noise));
    } else {
        let visited1 = visited.update(i, true);
        let neigh = cfg.spec_region(n, m, i, n);
        let a = cfg.spec_density(n, m, i, neigh);
        let lab = cfg.spec_mu_min_p(a);
        lemma_mu_min_p_range(cfg, a);
        lemma_label_one_range(cfg);
        lemma_region_entries(cfg, n, m, i, n);
        if lab == 0 {
            let nz = Assignment {
                index: i as usize,
                label: cfg.spec_label_one() as u64,
                category: Category::Noise,
            };
            assert(cfg.spec_point_label(n, m, i) == 0);
            assert(cfg.assignment_ok(n, m, nz));
            let noise1 = noise.push(nz);
            assert forall|u: int|
                0 <= u < noise1.len() implies cfg.assignment_ok(n, m, #[trigger] noise1[u])
                && noise1[u].category == Category::Noise && ((noise1[u]).index as int) < i
                + 1 by {
                if u < noise.len() {
                    assert(noise1[u] == noise[u]);
                } else {
                    assert(noise1[u] == nz);
                }
            }
            assert forall|u: int, v: int|
                0 <= u < v < noise1.len() implies (#[trigger] noise1[u]).index < (
                #[trigger] noise1[v]).index by {
                if v < noise.len() {
                    assert(noise1[u] == noise[u] && noise1[v] == noise[v]);
                } else {
                    assert(noise1[u] == noise[u] && noise1[v] == nz);
                    assert((noise[u].index as int) < i);
                }
            }
            assert forall|j: int|
                0 <= j < visited1.len() && visited1[j] implies result_has(clusters, j) || appears(
                    noise1,
                    j,
                ) by {
                if j == i {
                    assert(noise1[noise.len() as int] == nz);
                    assert(appears(noise1, j));
                } else {
                    assert(visited[j]);
                    if appears(noise, j) {
                        let k = choose|k: int|
                            0 <= k < noise.len() && ((noise[k]).index as int) == j;
                        assert(noise1[k] == noise[k]);
                        assert(appears(noise1, j));
                    }
                }
            }
            lemma_partition_props(cfg, n, m, i + 1, visited1, clusters, noise1);
            assert(r == cfg.spec_partition(n, m, i + 1, visited1, clusters, noise1));
        } else {
            let seed = Assignment { index: i as usize, label: lab as u64, category: Category::Core };
            assert(seed.label as int == lab);
            assert(cfg.assignment_ok(n, m, seed));
            let enq = spec_enqueue(Seq::empty(), Seq::new(n as nat, |j: int| false), neigh);
            assert forall|u: int|
                0 <= u < neigh.len() implies ((#[trigger] neigh[u]) as int) < n by {
                assert((cfg.spec_region(n, m, i, n)[u] as int) < n);
            }
            lemma_enqueue_entries(Seq::empty(), Seq::new(n as nat, |j: int| false), neigh, n);
            let start: Seq<Assignment> = seq![seed];
            assert forall|u: int|
                0 <= u < start.len() implies cfg.assignment_ok(n, m, #[trigger] start[u])
                && start[u].category == Category::Core by {
                assert(start[u] == seed);
            }
            lemma_expand_props(
                cfg,
                n,
                m,
                start,
                Seq::empty(),
                enq.0,
                enq.1,
                visited1,
            );
            let g = cfg.spec_expand(n, m, start, Seq::empty(), enq.0, enq.1, visited1);
            lemma_resolve_props(cfg, n, m, g.0, g.1);
            let cl = cfg.spec_resolve(n, m, g.0, g.1);
            let clusters1 = clusters.push(cl);
            assert forall|k: int|
                0 <= k < clusters1.len() implies all_ok(cfg, n, m, #[trigger] clusters1[k])
                && no_noise(clusters1[k]) by {
                if k < clusters.len() {
                    assert(clusters1[k] == clusters[k]);
                } else {
                    assert(clusters1[k] == cl);
                }
            }
            assert forall|j: int|
                0 <= j < g.2.len() && g.2[j] implies result_has(clusters1, j) || appears(
                    noise,
                    j,
                ) by {
                assert(visited1[j] || appears(g.0, j) || appears(g.1, j));
                if appears(g.0, j) || appears(g.1, j) {
                    assert(appears(cl, j));
                    assert(clusters1[clusters.len() as int] == cl);
                    assert(result_has(clusters1, j));
                } else if j == i {
                    assert(g.0[0] == start[0]);
                    assert(appears(g.0, j));
                    assert(appears(cl, j));
                    assert(clusters1[clusters.len() as int] == cl);
                    assert(result_has(clusters1, j));
                } else {
                    assert(visited[j]);
                    if result_has(clusters, j) {
                        let k = choose|k: int|
                            0 <= k < clusters.len() && appears(clusters[k], j);
                        assert(clusters1[k] == clusters[k]);
                        assert(result_has(clusters1, j));
                    }
                }
            }
            assert forall|j: int| 0 <= j < i + 1 && j < n implies g.2[j] by {
                if j == i {
                    assert(visited1[j]);
                } else {
                    assert(visited[j]);
                }
            }
            lemma_partition_props(cfg, n, m, i + 1, g.2, clusters1, noise);
            assert(r == cfg.spec_partition(n, m, i + 1, g.2, clusters1, noise));
        }
    }
}

/// Everything the partition guarantees, at the top level: the clustering
/// result holds only well-formed assignments, assigns every input index
/// somewhere, and confines noise to a pure, index-sorted last cluster.
pub proof fn lemma_cluster_wellformed(cfg: FuzzyDBSCAN, n: int, m: Seq<u64>)
    requires
        cfg.wf(),
        0 <= n <= 0xFFFF_FFFF,
    ensures
        ({
            let r = cfg.spec_cluster(n, m);
            &&& forall|k: int| 0 <= k < r.len() ==> all_ok(cfg, n, m, #[trigger] r[k])
            &&& forall|j: int| 0 <= j < n ==> #[trigger] result_has(r, j)
            &&& forall|k: int, u: int|
                0 <= k < r.len() && 0 <= u < r[k].len() && (#[trigger] r[k][u]).category
                    == Category::Noise ==> k == r.len() - 1 && all_noise(r[k])
                    && increasing_indices(r[k])
        }),
{
    let visited0 = Seq::new(n as nat, |j: int| false);
    lemma_partition_props(
        cfg,
        n,
        m,
        0,
        visited0,
        Seq::empty(),
        Seq::empty(),
    );
}

/// Noise completeness, first half: every index of the input appears in at
/// least one output position.
pub proof fn lemma_every_point_assigned(cfg: FuzzyDBSCAN, n: int, m: Seq<u64>)
    requires
        cfg.wf(),
        0 <= n <= 0xFFFF_FFFF,
    ensures
        forall|j: int| 0 <= j < n ==> #[trigger] result_has(cfg.spec_cluster(n, m), j),
{
    lemma_cluster_wellformed(cfg, n, m);
}

/// Noise completeness, second half: no index is both a core member of some
/// cluster and a noise point — a core assignment carries the point's own
/// positive label, while a noise assignment stands for a point whose label
/// is zero, and one index cannot have both.
pub proof fn lemma_core_noise_disjoint(cfg: FuzzyDBSCAN, n: int, m: Seq<u64>)
    requires
        cfg.wf(),
        0 <= n <= 0xFFFF_FFFF,
    ensures
        ({
            let r = cfg.spec_cluster(n, m);
            forall|k: int, u: int, k2: int, u2: int|
                0 <= k < r.len() && 0 <= u < r[k].len() && 0 <= k2 < r.len() && 0 <= u2
                    < r[k2].len() && (#[trigger] r[k][u]).category == Category::Core && (
                #[trigger] r[k2][u2]).category == Category::Noise ==> r[k][u].index
                    != r[k2][u2].index
        }),
{
    lemma_cluster_wellformed(cfg, n, m);
    let r = cfg.spec_cluster(n, m);
    assert forall|k: int, u: int, k2: int, u2: int|
        0 <= k < r.len() && 0 <= u < r[k].len() && 0 <= k2 < r.len() && 0 <= u2 < r[k2].len()
            && (#[trigger] r[k][u]).category == Category::Core && (#[trigger] r[k2][u2]).category
            == Category::Noise implies r[k][u].index != r[k2][u2].index by {
        assert(cfg.assignment_ok(n, m, r[k][u]));
        assert(cfg.assignment_ok(n, m, r[k2][u2]));
    }
}

/// Noise completeness, third half: within the noise group every index
/// appears exactly once (its indices are strictly increasing).
pub proof fn lemma_noise_once(cfg: FuzzyDBSCAN, n: int, m: Seq<u64>)
    requires
        cfg.wf(),
        0 <= n <= 0xFFFF_FFFF,
    ensures
        ({
            let r = cfg.spec_cluster(n, m);
            forall|k: int, u: int, v: int|
                0 <= k < r.len() && 0 <= u < v < r[k].len() && (#[trigger] r[k][u]).category
                    == Category::Noise && (#[trigger] r[k][v]).category == Category::Noise
                    ==> r[k][u].index != r[k][v].index
        }),
{
    lemma_cluster_wellformed(cfg, n, m);
}

/// Noise ordering: noise assignments appear only in the last cluster of the
/// result, and that cluster holds nothing but noise.
pub proof fn lemma_noise_last(cfg: FuzzyDBSCAN, n: int, m: Seq<u64>)
    requires
        cfg.wf(),
        0 <= n <= 0xFFFF_FFFF,
    ensures
        ({
            let r = cfg.spec_cluster(n, m);
            forall|k: int, u: int|
                0 <= k < r.len() && 0 <= u < r[k].len() && (#[trigger] r[k][u]).category
                    == Category::Noise ==> k == r.len() - 1 && all_noise(r[k])
        }),
{
    lemma_cluster_wellformed(cfg, n, m);
}

/// Label ranges: every label of the result lies between zero and
/// `label_one`, except that a border candidate without a single qualifying
/// connection keeps the sentinel; noise labels are exactly `label_one` and
/// core labels are positive.
pub proof fn lemma_labels_in_range(cfg: FuzzyDBSCAN, n: int, m: Seq<u64>)
    requires
        cfg.wf(),
        0 <= n <= 0xFFFF_FFFF,
    ensures
        ({
            let r = cfg.spec_cluster(n, m);
            forall|k: int, u: int|
                0 <= k < r.len() && 0 <= u < r[k].len() ==> ((#[trigger] r[k][u]).label as int
                    <= cfg.spec_label_one() || (r[k][u].category == Category::Border && r[k][u].label
                    == BORDER_SENTINEL)) && (r[k][u].category == Category::Noise ==> r[k][u].label as int
                    == cfg.spec_label_one()) && (r[k][u].category == Category::Core ==> 0 < r[k][u].label as int)
        }),
{
    lemma_cluster_wellformed(cfg, n, m);
    let r = cfg.spec_cluster(n, m);
    assert forall|k: int, u: int| 0 <= k < r.len() && 0 <= u < r[k].len() implies ((
    #[trigger] r[k][u]).label as int <= cfg.spec_label_one() || (r[k][u].category
        == Category::Border && r[k][u].label == BORDER_SENTINEL)) && (r[k][u].category
        == Category::Noise ==> r[k][u].label as int == cfg.spec_label_one()) && (r[k][u].category
        == Category::Core ==> 0 < r[k][u].label as int) by {
        assert(cfg.assignment_ok(n, m, r[k][u]));
    }
}

/// Reduction to crisp cores: with a degenerate density range
/// (`pts_min == pts_max`) every core assignment carries exactly the full
/// label — core detection is a hard step, only borders can be fuzzy.
pub proof fn lemma_crisp_cores(cfg: FuzzyDBSCAN, n: int, m: Seq<u64>)
    requires
        cfg.wf(),
        cfg.pts_min == cfg.pts_max,
        0 <= n <= 0xFFFF_FFFF,
    ensures
        ({
            let r = cfg.spec_cluster(n, m);
            forall|k: int, u: int|
                0 <= k < r.len() && 0 <= u < r[k].len() && (#[trigger] r[k][u]).category
                    == Category::Core ==> r[k][u].label as int == cfg.spec_label_one()
        }),
{
    lemma_cluster_wellformed(cfg, n, m);
    let r = cfg.spec_cluster(n, m);
    assert forall|k: int, u: int|
        0 <= k < r.len() && 0 <= u < r[k].len() && (#[trigger] r[k][u]).category
            == Category::Core implies r[k][u].label as int == cfg.spec_label_one() by {
        assert(cfg.assignment_ok(n, m, r[k][u]));
        let a = cfg.spec_density(
            n,
            m,
            r[k][u].index as int,
            cfg.spec_region(n, m, r[k][u].index as int, n),
        );
        lemma_mu_min_p_crisp(cfg, a);
    }
}

/// Idempotence: the result is one mathematical function of the distances
/// and the configuration, so two runs on the same inputs agree exactly —
/// same clusters, same membership, same labels.
pub proof fn lemma_cluster_deterministic(
    cfg: FuzzyDBSCAN,
    n: int,
    m: Seq<u64>,
    r1: Seq<Seq<Assignment>>,
    r2: Seq<Seq<Assignment>>,
)
    requires
        r1 == cfg.spec_cluster(n, m),
        r2 == cfg.spec_cluster(n, m),
    ensures
        r1 == r2,
{
}

/// A symmetric distance matrix: the distance from `x` to `y` equals the
/// distance from `y` to `x` for all points.
pub open spec fn symmetric(n: int, m: Seq<u64>) -> bool {
    forall|x: int, y: int|
        0 <= x < n && 0 <= y < n ==> #[trigger] mat_at(m, n, x, y) == mat_at(m, n, y, x)
}

/// No assignment of `s` is a border assignment.
pub open spec fn no_border(s: Seq<Assignment>) -> bool {
    forall|u: int| 0 <= u < s.len() ==> (#[trigger] s[u]).category != Category::Border
}

/// Point `x` has a core point of the cluster within `eps_max`, other than
/// itself.
pub open spec fn has_core_neighbor(
    cfg: FuzzyDBSCAN,
    n: int,
    m: Seq<u64>,
    cluster: Seq<Assignment>,
    x: int,
) -> bool {
    exists|v: int|
        0 <= v < cluster.len() && (#[trigger] cluster[v]).category == Category::Core && (
        cluster[v].index as int) != x && (cluster[v].index as int) < n && mat_at(
            m,
            n,
            x,
            cluster[v].index as int,
        ) <= cfg.eps_max
}

/// Every worklist entry was discovered as the region neighbor of some core
/// point already in the cluster.
pub open spec fn wl_near_core(
    cfg: FuzzyDBSCAN,
    n: int,
    m: Seq<u64>,
    cluster: Seq<Assignment>,
    wl: Seq<usize>,
) -> bool {
    forall|u: int|
        0 <= u < wl.len() ==> has_core_neighbor(cfg, n, m, cluster, (#[trigger] wl[u]) as int)
}

/// Enqueueing appends only indices taken from the neighbor list, after the
/// untouched old worklist.
pub proof fn lemma_enqueue_from(wl: Seq<usize>, local: Seq<bool>, neigh: Seq<usize>)
    ensures
        ({
            let w1 = spec_enqueue(wl, local, neigh).0;
            &&& w1.len() >= wl.len()
            &&& forall|u: int| 0 <= u < wl.len() ==> #[trigger] w1[u] == wl[u]
            &&& forall|u: int| wl.len() <= u < w1.len() ==> neigh.contains(#[trigger] w1[u])
        }),
    decreases neigh.len(),
{
    if neigh.len() > 0 {
        let x = neigh[0];
        let w1 = spec_enqueue(wl, local, neigh).0;
        if 0 <= x < local.len() && !local[x as int] {
            lemma_enqueue_from(wl.push(x), local.update(x as int, true), neigh.drop_first());
            assert forall|u: int| 0 <= u < wl.len() implies #[trigger] w1[u] == wl[u] by {
                assert(w1[u] == wl.push(x)[u]);
            }
            assert forall|u: int| wl.len() <= u < w1.len() implies neigh.contains(
                #[trigger] w1[u],
            ) by {
                if u == wl.len() {
                    assert(w1[u] == wl.push(x)[u]);
                    assert(w1[u] == x);
                    assert(neigh[0] == x);
                } else {
                    assert(neigh.drop_first().contains(w1[u]));
                    let t = choose|t: int|
                        0 <= t < neigh.drop_first().len() && neigh.drop_first()[t] == w1[u];
                    assert(neigh[t + 1] == w1[u]);
                }
            }
        } else {
            lemma_enqueue_from(wl, local, neigh.drop_first());
            assert forall|u: int| wl.len() <= u < w1.len() implies neigh.contains(
                #[trigger] w1[u],
            ) by {
                assert(neigh.drop_first().contains(w1[u]));
                let t = choose|t: int|
                    0 <= t < neigh.drop_first().len() && neigh.drop_first()[t] == w1[u];
                assert(neigh[t + 1] == w1[u]);
            }
        }
    }
}

/// The degenerate-radius configurations under which a drained candidate is
/// always dense enough to be core, so that no border candidates can arise:
/// a hard distance step together with either `pts_min` at most one, or a
/// hard density step at most two.
pub open spec fn crisp_no_border_config(cfg: FuzzyDBSCAN) -> bool {
    cfg.eps_min == cfg.eps_max && (cfg.pts_min <= 1 || (cfg.pts_min == cfg.pts_max && cfg.pts_max
        <= 2))
}

/// Under a degenerate radius range, a symmetric matrix and a small density
/// floor, the worklist-draining phase defers no border candidates: every
/// drained candidate sits within `eps_max` of a core point, which alone
/// (plus the candidate itself) meets the density floor.
pub proof fn lemma_expand_no_border(
    cfg: FuzzyDBSCAN,
    n: int,
    m: Seq<u64>,
    cluster: Seq<Assignment>,
    borders: Seq<Assignment>,
    wl: Seq<usize>,
    local: Seq<bool>,
    visited: Seq<bool>,
)
    requires
        cfg.wf(),
        0 <= n <= 0xFFFF_FFFF,
        crisp_no_border_config(cfg),
        symmetric(n, m),
        forall|u: int| 0 <= u < wl.len() ==> ((#[trigger] wl[u]) as int) < n,
        wl_near_core(cfg, n, m, cluster, wl),
    ensures
        cfg.spec_expand(n, m, cluster, borders, wl, local, visited).1 == borders,
    decreases count_false(local), wl.len(),
{
    if wl.len() > 0 {
        let q = wl.last();
        assert((wl[wl.len() - 1] as int) < n);
        assert(has_core_neighbor(cfg, n, m, cluster, q as int));
        let v = choose|v: int|
            0 <= v < cluster.len() && (#[trigger] cluster[v]).category == Category::Core && (
            cluster[v].index as int) != q as int && (cluster[v].index as int) < n && mat_at(
                m,
                n,
                q as int,
                cluster[v].index as int,
            ) <= cfg.eps_max;
        let c = cluster[v];
        let ci = c.index as int;
        assert(mat_at(m, n, ci, q as int) == mat_at(m, n, q as int, ci));
        let neigh = cfg.spec_region(n, m, q as int, n);
        lemma_region_contains(cfg, n, m, q as int, n, ci);
        let t = choose|t: int| 0 <= t < neigh.len() && (#[trigger] neigh[t] as int) == ci;
        lemma_density_member(cfg, n, m, q as int, neigh, t);
        let a = cfg.spec_density(n, m, q as int, neigh);
        assert(cfg.spec_eps_span() == 1);
        assert(cfg.spec_mu_distance(mat_at(m, n, q as int, ci)) == 1);
        assert(a >= 2);
        let lab = cfg.spec_mu_min_p(a);
        lemma_label_one_range(cfg);
        assert(lab > 0);
        let wl0 = wl.drop_last();
        let visited1 = visited.update(q as int, true);
        let a_new = Assignment { index: q, label: lab as u64, category: Category::Core };
        let cluster1 = cluster.push(a_new);
        let enq = spec_enqueue(wl0, local, neigh);
        lemma_region_entries(cfg, n, m, q as int, n);
        assert forall|u: int| 0 <= u < neigh.len() implies ((#[trigger] neigh[u]) as int) < n by {
            assert((cfg.spec_region(n, m, q as int, n)[u] as int) < n);
        }
        assert forall|u: int| 0 <= u < wl0.len() implies ((#[trigger] wl0[u]) as int) < n by {
            assert(wl0[u] == wl[u]);
        }
        lemma_enqueue_entries(wl0, local, neigh, n);
        lemma_enqueue_from(wl0, local, neigh);
        lemma_enqueue_measure(wl0, local, neigh);
        assert forall|u: int|
            0 <= u < enq.0.len() implies has_core_neighbor(
            cfg,
            n,
            m,
            cluster1,
            (#[trigger] enq.0[u]) as int,
        ) by {
            if u < wl0.len() {
                assert(enq.0[u] == wl0[u]);
                assert(wl0[u] == wl[u]);
                assert(has_core_neighbor(cfg, n, m, cluster, wl0[u] as int));
                let v2 = choose|v2: int|
                    0 <= v2 < cluster.len() && (#[trigger] cluster[v2]).category == Category::Core
                        && (cluster[v2].index as int) != wl0[u] as int && (
                    cluster[v2].index as int) < n && mat_at(m, n, wl0[u] as int, cluster[v2].index as int)
                        <= cfg.eps_max;
                assert(cluster1[v2] == cluster[v2]);
            } else {
                assert(neigh.contains(enq.0[u]));
                let t2 = choose|t2: int| 0 <= t2 < neigh.len() && neigh[t2] == enq.0[u];
                assert((neigh[t2] as int) != q as int && mat_at(m, n, neigh[t2] as int, q as int)
                    <= cfg.eps_max);
                assert(cluster1[cluster.len() as int] == a_new);
            }
        }
        lemma_expand_no_border(cfg, n, m, cluster1, borders, enq.0, enq.1, visited1);
        assert(cfg.spec_expand(n, m, cluster, borders, wl, local, visited)
            == cfg.spec_expand(n, m, cluster1, borders, enq.0, enq.1, visited1));
    }
}

/// Whether some cluster of `r` assigns point index `j` as a core point.
pub open spec fn core_in(r: Seq<Seq<Assignment>>, j: int) -> bool {
    exists|k: int, u: int|
        0 <= k < r.len() && 0 <= u < r[k].len() && (#[trigger] r[k][u]).category == Category::Core
            && ((r[k][u]).index as int) == j
}

/// Every point within `eps_max` of `x`, other than `x` itself, has its flag
/// set.
pub open spec fn region_flagged(
    cfg: FuzzyDBSCAN,
    n: int,
    m: Seq<u64>,
    x: int,
    flags: Seq<bool>,
) -> bool {
    forall|y: int|
        0 <= y < n && y != x && #[trigger] mat_at(m, n, y, x) <= cfg.eps_max ==> flags[y]
}

/// Whether the worklist holds point index `y`.
pub open spec fn in_wl(wl: Seq<usize>, y: int) -> bool {
    exists|u: int| 0 <= u < wl.len() && ((#[trigger] wl[u]) as int) == y
}

/// What enqueueing does to the markers: it never clears one, it marks every
/// neighbor, and whatever it marks anew it also queues.
pub proof fn lemma_enqueue_marks(wl: Seq<usize>, local: Seq<bool>, neigh: Seq<usize>)
    ensures
        ({
            let enq = spec_enqueue(wl, local, neigh);
            &&& enq.1.len() == local.len()
            &&& forall|y: int| 0 <= y < local.len() && local[y] ==> #[trigger] enq.1[y]
            &&& forall|t: int|
                0 <= t < neigh.len() && 0 <= ((#[trigger] neigh[t]) as int) < local.len()
                    ==> enq.1[neigh[t] as int]
            &&& forall|y: int|
                0 <= y < local.len() && #[trigger] enq.1[y] && !local[y] ==> in_wl(enq.0, y)
            &&& forall|y: int| #[trigger] in_wl(wl, y) ==> in_wl(enq.0, y)
        }),
    decreases neigh.len(),
{
    if neigh.len() > 0 {
        let x = neigh[0];
        let enq = spec_enqueue(wl, local, neigh);
        assert forall|t: int|
            0 <= t < neigh.drop_first().len() implies neigh.drop_first()[t]
            == neigh[t + 1] by {}
        if 0 <= x < local.len() && !local[x as int] {
            let wl1 = wl.push(x);
            let local1 = local.update(x as int, true);
            lemma_enqueue_marks(wl1, local1, neigh.drop_first());
            assert(enq == spec_enqueue(wl1, local1, neigh.drop_first()));
            assert forall|y: int|
                0 <= y < local.len() && #[trigger] enq.1[y] && !local[y] implies in_wl(
                enq.0,
                y,
            ) by {
                if y == x as int {
                    assert(wl1[wl.len() as int] == x);
                    assert(in_wl(wl1, y));
                } else {
                    assert(!local1[y]);
                }
            }
            assert forall|y: int| #[trigger] in_wl(wl, y) implies in_wl(enq.0, y) by {
                let u = choose|u: int| 0 <= u < wl.len() && ((wl[u]) as int) == y;
                assert(wl1[u] == wl[u]);
                assert(in_wl(wl1, y));
            }
            assert forall|t: int|
                0 <= t < neigh.len() && 0 <= ((#[trigger] neigh[t]) as int)
                    < local.len() implies enq.1[neigh[t] as int] by {
                if t == 0 {
                    assert(local1[x as int]);
                } else {
                    assert(neigh.drop_first()[t - 1] == neigh[t]);
                }
            }
        } else {
            lemma_enqueue_marks(wl, local, neigh.drop_first());
            assert(enq == spec_enqueue(wl, local, neigh.drop_first()));
            assert forall|t: int|
                0 <= t < neigh.len() && 0 <= ((#[trigger] neigh[t]) as int)
                    < local.len() implies enq.1[neigh[t] as int] by {
                if t == 0 {
                    assert(local[x as int]);
                } else {
                    assert(neigh.drop_first()[t - 1] == neigh[t]);
                }
            }
        }
    }
}

/// The worklist-draining phase never turns a core point of an earlier
/// cluster into a core of this one, under a symmetric distance matrix.
///
/// The carried invariants: every prior core had its whole region visited
/// before this expansion began (so any point it could reach is stale); every
/// worklist candidate neighbors a core of this cluster; every core of this
/// cluster except the seed was fresh when the expansion began; cores' whole
/// regions are marked; and marked points are queued or visited.
pub proof fn lemma_expand_core_unique(
    cfg: FuzzyDBSCAN,
    n: int,
    m: Seq<u64>,
    prior: Seq<Seq<Assignment>>,
    seed_idx: int,
    visited0: Seq<bool>,
    cluster: Seq<Assignment>,
    borders: Seq<Assignment>,
    wl: Seq<usize>,
    local: Seq<bool>,
    visited: Seq<bool>,
)
    requires
        cfg.wf(),
        0 <= n <= 0xFFFF_FFFF,
        symmetric(n, m),
        visited0.len() == n,
        visited.len() == n,
        local.len() == n,
        forall|u: int| 0 <= u < wl.len() ==> ((#[trigger] wl[u]) as int) < n,
        0 <= seed_idx < n,
        !visited0[seed_idx],
        forall|j: int| 0 <= j < n && visited0[j] ==> visited[j],
        forall|j: int|
            #[trigger] core_in(prior, j) ==> 0 <= j < n && visited0[j] && region_flagged(
                cfg,
                n,
                m,
                j,
                visited0,
            ),
        forall|j: int|
            0 <= j < n && visited0[j] && cfg.spec_point_label(n, m, j) > 0 ==> #[trigger] core_in(
                prior,
                j,
            ),
        wl_near_core(cfg, n, m, cluster, wl),
        forall|u: int|
            0 <= u < cluster.len() && (#[trigger] cluster[u]).category == Category::Core ==> 0
                <= (cluster[u].index as int) < n && visited[cluster[u].index as int] && !core_in(
                prior,
                cluster[u].index as int,
            ) && (cluster[u].index as int == seed_idx || !visited0[cluster[u].index as int])
                && region_flagged(cfg, n, m, cluster[u].index as int, local),
        forall|y: int| 0 <= y < n && #[trigger] local[y] ==> in_wl(wl, y) || visited[y],
    ensures
        ({
            let g = cfg.spec_expand(n, m, cluster, borders, wl, local, visited);
            &&& g.2.len() == n
            &&& forall|j: int| 0 <= j < n && visited[j] ==> #[trigger] g.2[j]
            &&& forall|u: int|
                0 <= u < g.0.len() && (#[trigger] g.0[u]).category == Category::Core ==> 0
                    <= (g.0[u].index as int) < n && g.2[g.0[u].index as int] && !core_in(
                    prior,
                    g.0[u].index as int,
                ) && (g.0[u].index as int == seed_idx || !visited0[g.0[u].index as int])
                    && region_flagged(cfg, n, m, g.0[u].index as int, g.2)
        }),
    decreases count_false(local), wl.len(),
{
    let g = cfg.spec_expand(n, m, cluster, borders, wl, local, visited);
    if wl.len() == 0 {
        assert forall|u: int|
            0 <= u < g.0.len() && (#[trigger] g.0[u]).category == Category::Core implies 0
            <= (g.0[u].index as int) < n && g.2[g.0[u].index as int] && !core_in(
            prior,
            g.0[u].index as int,
        ) && (g.0[u].index as int == seed_idx || !visited0[g.0[u].index as int])
            && region_flagged(cfg, n, m, g.0[u].index as int, g.2) by {
            let x = cluster[u].index as int;
            assert forall|y: int|
                0 <= y < n && y != x && #[trigger] mat_at(m, n, y, x)
                    <= cfg.eps_max implies visited[y] by {
                assert(local[y]);
                assert(!in_wl(wl, y));
            }
        }
    } else {
        let q = wl.last();
        let qi = q as int;
        assert((wl[wl.len() - 1] as int) < n);
        let wl0 = wl.drop_last();
        assert forall|u: int| 0 <= u < wl0.len() implies ((#[trigger] wl0[u]) as int) < n by {
            assert(wl0[u] == wl[u]);
        }
        let visited1 = visited.update(qi, true);
        let neigh = cfg.spec_region(n, m, qi, n);
        let a = cfg.spec_density(n, m, qi, neigh);
        let lab = cfg.spec_mu_min_p(a);
        lemma_region_entries(cfg, n, m, qi, n);
        assert forall|u: int| 0 <= u < neigh.len() implies ((#[trigger] neigh[u]) as int) < n by {
            assert((cfg.spec_region(n, m, qi, n)[u] as int) < n);
        }
        if lab > 0 {
            // q neighbors a core c of this cluster; c is fresh, so q cannot
            // be a prior core, whose whole region would be stale.
            assert(has_core_neighbor(cfg, n, m, cluster, qi));
            let v = choose|v: int|
                0 <= v < cluster.len() && (#[trigger] cluster[v]).category == Category::Core && (
                cluster[v].index as int) != qi && (cluster[v].index as int) < n && mat_at(
                    m,
                    n,
                    qi,
                    cluster[v].index as int,
                ) <= cfg.eps_max;
            let ci = cluster[v].index as int;
            assert(!visited0[ci]);
            if core_in(prior, qi) {
                assert(mat_at(m, n, ci, qi) == mat_at(m, n, qi, ci));
                assert(mat_at(m, n, ci, qi) <= cfg.eps_max);
                assert(visited0[ci]);
            }
            assert(!core_in(prior, qi));
            assert(lab == cfg.spec_point_label(n, m, qi));
            if qi != seed_idx && visited0[qi] {
                assert(core_in(prior, qi));
            }
            assert(qi == seed_idx || !visited0[qi]);
            let a_new = Assignment { index: q, label: lab as u64, category: Category::Core };
            let cluster1 = cluster.push(a_new);
            let enq = spec_enqueue(wl0, local, neigh);
            lemma_enqueue_entries(wl0, local, neigh, n);
            lemma_enqueue_from(wl0, local, neigh);
            lemma_enqueue_marks(wl0, local, neigh);
            lemma_enqueue_measure(wl0, local, neigh);
            // the new cluster's cores still satisfy the invariant
            assert forall|u: int|
                0 <= u < cluster1.len() && (#[trigger] cluster1[u]).category
                    == Category::Core implies 0 <= (cluster1[u].index as int) < n && visited1[cluster1[u].index as int]
                && !core_in(prior, cluster1[u].index as int) && (cluster1[u].index as int
                == seed_idx || !visited0[cluster1[u].index as int]) && region_flagged(
                cfg,
                n,
                m,
                cluster1[u].index as int,
                enq.1,
            ) by {
                if u < cluster.len() {
                    assert(cluster1[u] == cluster[u]);
                    let x = cluster[u].index as int;
                    assert forall|y: int|
                        0 <= y < n && y != x && #[trigger] mat_at(m, n, y, x)
                            <= cfg.eps_max implies enq.1[y] by {
                        assert(local[y]);
                    }
                } else {
                    assert(cluster1[u] == a_new);
                    assert forall|y: int|
                        0 <= y < n && y != qi && #[trigger] mat_at(m, n, y, qi)
                            <= cfg.eps_max implies enq.1[y] by {
                        lemma_region_contains(cfg, n, m, qi, n, y);
                        let t = choose|t: int|
                            0 <= t < neigh.len() && ((#[trigger] neigh[t]) as int) == y;
                        assert(enq.1[neigh[t] as int]);
                    }
                }
            }
            // marked points are queued or visited
            assert forall|y: int| 0 <= y < n && #[trigger] enq.1[y] implies in_wl(enq.0, y)
                || visited1[y] by {
                if local[y] {
                    if in_wl(wl, y) {
                        let u = choose|u: int| 0 <= u < wl.len() && ((#[trigger] wl[u]) as int) == y;
                        if u < wl.len() - 1 {
                            assert(wl0[u] == wl[u]);
                            assert(in_wl(wl0, y));
                        } else {
                            assert(y == qi);
                        }
                    }
                }
            }
            // every new worklist entry neighbors a core of the new cluster
            assert forall|u: int|
                0 <= u < enq.0.len() implies has_core_neighbor(
                cfg,
                n,
                m,
                cluster1,
                (#[trigger] enq.0[u]) as int,
            ) by {
                if u < wl0.len() {
                    assert(enq.0[u] == wl0[u]);
                    assert(wl0[u] == wl[u]);
                    assert(has_core_neighbor(cfg, n, m, cluster, wl0[u] as int));
                    let v2 = choose|v2: int|
                        0 <= v2 < cluster.len() && (#[trigger] cluster[v2]).category
                            == Category::Core && (cluster[v2].index as int) != wl0[u] as int && (
                        cluster[v2].index as int) < n && mat_at(
                            m,
                            n,
                            wl0[u] as int,
                            cluster[v2].index as int,
                        ) <= cfg.eps_max;
                    assert(cluster1[v2] == cluster[v2]);
                } else {
                    assert(neigh.contains(enq.0[u]));
                    let t2 = choose|t2: int| 0 <= t2 < neigh.len() && neigh[t2] == enq.0[u];
                    assert((neigh[t2] as int) != qi && mat_at(m, n, neigh[t2] as int, qi)
                        <= cfg.eps_max);
                    assert(cluster1[cluster.len() as int] == a_new);
                }
            }
            lemma_expand_core_unique(
                cfg,
                n,
                m,
                prior,
                seed_idx,
                visited0,
                cluster1,
                borders,
                enq.0,
                enq.1,
                visited1,
            );
            assert(g == cfg.spec_expand(n, m, cluster1, borders, enq.0, enq.1, visited1));
        } else {
            let b_new = Assignment { index: q, label: BORDER_SENTINEL, category: Category::Border };
            let borders1 = borders.push(b_new);
            assert forall|u: int| 0 <= u < wl0.len() implies has_core_neighbor(
                cfg,
                n,
                m,
                cluster,
                (#[trigger] wl0[u]) as int,
            ) by {
                assert(wl0[u] == wl[u]);
            }
            assert forall|y: int| 0 <= y < n && #[trigger] local[y] implies in_wl(wl0, y)
                || visited1[y] by {
                if in_wl(wl, y) {
                    let u = choose|u: int| 0 <= u < wl.len() && ((#[trigger] wl[u]) as int) == y;
                    if u < wl.len() - 1 {
                        assert(wl0[u] == wl[u]);
                        assert(in_wl(wl0, y));
                    } else {
                        assert(y == qi);
                    }
                }
            }
            lemma_expand_core_unique(
                cfg,
                n,
                m,
                prior,
                seed_idx,
                visited0,
                cluster,
                borders1,
                wl0,
                local,
                visited1,
            );
            assert(g == cfg.spec_expand(n, m, cluster, borders1, wl0, local, visited1));
        }
    }
}

/// No point index is a core member of two different clusters.
pub open spec fn cores_unique(r: Seq<Seq<Assignment>>) -> bool {
    forall|k: int, u: int, k2: int, u2: int|
        0 <= k < r.len() && 0 <= u < r[k].len() && 0 <= k2 < r.len() && 0 <= u2 < r[k2].len() && k
            != k2 && (#[trigger] r[k][u]).category == Category::Core && (
        #[trigger] r[k2][u2]).category == Category::Core ==> r[k][u].index != r[k2][u2].index
}

/// The top-level partition keeps cores unique across clusters: each new
/// cluster grows only through points that no earlier cluster holds as core,
/// because every earlier core's whole region was already visited.
pub proof fn lemma_partition_core_unique(
    cfg: FuzzyDBSCAN,
    n: int,
    m: Seq<u64>,
    i: int,
    visited: Seq<bool>,
    clusters: Seq<Seq<Assignment>>,
    noise: Seq<Assignment>,
)
    requires
        cfg.wf(),
        0 <= n <= 0xFFFF_FFFF,
        symmetric(n, m),
        visited.len() == n,
        0 <= i,
        clusters_ok(cfg, n, m, clusters),
        all_ok(cfg, n, m, noise),
        all_noise(noise),
        covers(visited, clusters, noise),
        forall|j: int| 0 <= j < i && j < n ==> visited[j],
        forall|j: int|
            #[trigger] core_in(clusters, j) ==> 0 <= j < n && visited[j] && region_flagged(
                cfg,
                n,
                m,
                j,
                visited,
            ),
        cores_unique(clusters),
    ensures
        cores_unique(cfg.spec_partition(n, m, i, visited, clusters, noise)),
    decreases n - i,
{
    let r = cfg.spec_partition(n, m, i, visited, clusters, noise);
    if i >= n {
        if noise.len() > 0 {
            assert(r == clusters.push(noise));
            assert forall|k: int, u: int, k2: int, u2: int|
                0 <= k < r.len() && 0 <= u < r[k].len() && 0 <= k2 < r.len() && 0 <= u2
                    < r[k2].len() && k != k2 && (#[trigger] r[k][u]).category == Category::Core && (
                #[trigger] r[k2][u2]).category == Category::Core implies r[k][u].index
                != r[k2][u2].index by {
                if k == clusters.len() {
                    assert(r[k] == noise);
                } else if k2 == clusters.len() {
                    assert(r[k2] == noise);
                } else {
                    assert(r[k] == clusters[k] && r[k2] == clusters[k2]);
                }
            }
        }
    } else if visited[i] {
        lemma_partition_core_unique(cfg, n, m, i + 1, visited, clusters, noise);
        assert(r == cfg.spec_partition(n, m, i + 1, visited, clusters, noise));
    } else {
        let visited1 = visited.update(i, true);
        let neigh = cfg.spec_region(n, m, i, n);
        let a = cfg.spec_density(n, m, i, neigh);
        let lab = cfg.spec_mu_min_p(a);
        lemma_mu_min_p_range(cfg, a);
        lemma_label_one_range(cfg);
        lemma_region_entries(cfg, n, m, i, n);
        if lab == 0 {
            let nz = Assignment {
                index: i as usize,
                label: cfg.spec_label_one() as u64,
                category: Category::Noise,
            };
            assert(cfg.assignment_ok(n, m, nz));
            let noise1 = noise.push(nz);
            assert forall|u: int|
                0 <= u < noise1.len() implies cfg.assignment_ok(n, m, #[trigger] noise1[u])
                && noise1[u].category == Category::Noise by {
                if u < noise.len() {
                    assert(noise1[u] == noise[u]);
                } else {
                    assert(noise1[u] == nz);
                }
            }
            assert forall|j: int|
                0 <= j < visited1.len() && visited1[j] implies result_has(clusters, j) || appears(
                    noise1,
                    j,
                ) by {
                if j == i {
                    assert(noise1[noise.len() as int] == nz);
                    assert(appears(noise1, j));
                } else {
                    assert(visited[j]);
                    if appears(noise, j) {
                        let k = choose|k: int|
                            0 <= k < noise.len() && ((noise[k]).index as int) == j;
                        assert(noise1[k] == noise[k]);
                        assert(appears(noise1, j));
                    }
                }
            }
            assert forall|j: int|
                #[trigger] core_in(clusters, j) implies 0 <= j < n && visited1[j]
                && region_flagged(cfg, n, m, j, visited1) by {
                assert forall|y: int|
                    0 <= y < n && y != j && #[trigger] mat_at(m, n, y, j)
                        <= cfg.eps_max implies visited1[y] by {
                    assert(visited[y]);
                }
            }
            lemma_partition_core_unique(cfg, n, m, i + 1, visited1, clusters, noise1);
            assert(r == cfg.spec_partition(n, m, i + 1, visited1, clusters, noise1));
        } else {
            let seed = Assignment { index: i as usize, label: lab as u64, category: Category::Core };
            assert(seed.label as int == lab);
            assert(cfg.assignment_ok(n, m, seed));
            let start: Seq<Assignment> = seq![seed];
            let falses = Seq::new(n as nat, |j: int| false);
            let enq = spec_enqueue(Seq::empty(), falses, neigh);
            assert forall|u: int|
                0 <= u < neigh.len() implies ((#[trigger] neigh[u]) as int) < n by {
                assert((cfg.spec_region(n, m, i, n)[u] as int) < n);
            }
            lemma_enqueue_entries(Seq::empty(), falses, neigh, n);
            lemma_enqueue_from(Seq::empty(), falses, neigh);
            lemma_enqueue_marks(Seq::empty(), falses, neigh);
            assert forall|u: int|
                0 <= u < start.len() implies cfg.assignment_ok(n, m, #[trigger] start[u])
                && start[u].category == Category::Core by {
                assert(start[u] == seed);
            }
            // a visited point with a positive label is a core of some
            // earlier cluster
            assert forall|j: int|
                0 <= j < n && visited[j] && cfg.spec_point_label(n, m, j)
                    > 0 implies #[trigger] core_in(clusters, j) by {
                if appears(noise, j) {
                    let k = choose|k: int| 0 <= k < noise.len() && ((noise[k]).index as int) == j;
                    assert(cfg.assignment_ok(n, m, noise[k]));
                } else {
                    assert(result_has(clusters, j));
                    let k = choose|k: int| 0 <= k < clusters.len() && appears(clusters[k], j);
                    let u = choose|u: int|
                        0 <= u < clusters[k].len() && ((clusters[k][u]).index as int) == j;
                    assert(cfg.assignment_ok(n, m, clusters[k][u]));
                    match clusters[k][u].category {
                        Category::Core => {},
                        Category::Border => {},
                        Category::Noise => {},
                    }
                }
            }
            // the seed's invariant for the expansion
            if core_in(clusters, i) {
                assert(visited[i]);
            }
            assert(!core_in(clusters, i));
            assert forall|y: int|
                0 <= y < n && y != i && #[trigger] mat_at(m, n, y, i)
                    <= cfg.eps_max implies enq.1[y] by {
                lemma_region_contains(cfg, n, m, i, n, y);
                let t = choose|t: int| 0 <= t < neigh.len() && ((#[trigger] neigh[t]) as int) == y;
                assert(enq.1[neigh[t] as int]);
            }
            assert forall|u: int|
                0 <= u < start.len() && (#[trigger] start[u]).category
                    == Category::Core implies 0 <= (start[u].index as int) < n
                && visited1[start[u].index as int] && !core_in(clusters, start[u].index as int) && (
            start[u].index as int == i || !visited[start[u].index as int]) && region_flagged(
                cfg,
                n,
                m,
                start[u].index as int,
                enq.1,
            ) by {
                assert(start[u] == seed);
            }
            assert forall|y: int| 0 <= y < n && #[trigger] enq.1[y] implies in_wl(enq.0, y)
                || visited1[y] by {
                assert(!falses[y]);
            }
            assert forall|u: int|
                0 <= u < enq.0.len() implies has_core_neighbor(
                cfg,
                n,
                m,
                start,
                (#[trigger] enq.0[u]) as int,
            ) by {
                assert(neigh.contains(enq.0[u]));
                let t = choose|t: int| 0 <= t < neigh.len() && neigh[t] == enq.0[u];
                assert((neigh[t] as int) != i && mat_at(m, n, neigh[t] as int, i) <= cfg.eps_max);
                assert(start[0] == seed);
            }
            lemma_expand_core_unique(
                cfg,
                n,
                m,
                clusters,
                i,
                visited,
                start,
                Seq::empty(),
                enq.0,
                enq.1,
                visited1,
            );
            lemma_expand_props(cfg, n, m, start, Seq::empty(), enq.0, enq.1, visited1);
            let g = cfg.spec_expand(n, m, start, Seq::empty(), enq.0, enq.1, visited1);
            lemma_resolve_props(cfg, n, m, g.0, g.1);
            let cl = cfg.spec_resolve(n, m, g.0, g.1);
            let clusters1 = clusters.push(cl);
            // ordinary well-formedness and coverage, as in the main
            // partition lemma
            assert forall|k: int|
                0 <= k < clusters1.len() implies all_ok(cfg, n, m, #[trigger] clusters1[k])
                && no_noise(clusters1[k]) by {
                if k < clusters.len() {
                    assert(clusters1[k] == clusters[k]);
                } else {
                    assert(clusters1[k] == cl);
                }
            }
            assert forall|j: int|
                0 <= j < g.2.len() && g.2[j] implies result_has(clusters1, j) || appears(
                    noise,
                    j,
                ) by {
                assert(visited1[j] || appears(g.0, j) || appears(g.1, j));
                if appears(g.0, j) || appears(g.1, j) {
                    assert(appears(cl, j));
                    assert(clusters1[clusters.len() as int] == cl);
                    assert(result_has(clusters1, j));
                } else if j == i {
                    assert(g.0[0] == start[0]);
                    assert(appears(g.0, j));
                    assert(appears(cl, j));
                    assert(clusters1[clusters.len() as int] == cl);
                    assert(result_has(clusters1, j));
                } else {
                    assert(visited[j]);
                    if result_has(clusters, j) {
                        let k = choose|k: int| 0 <= k < clusters.len() && appears(clusters[k], j);
                        assert(clusters1[k] == clusters[k]);
                        assert(result_has(clusters1, j));
                    }
                }
            }
            assert forall|j: int| 0 <= j < i + 1 && j < n implies g.2[j] by {
                if j == i {
                    assert(visited1[j]);
                } else {
                    assert(visited[j]);
                }
            }
            // prior-core conditions for the extended cluster list
            assert forall|j: int|
                #[trigger] core_in(clusters1, j) implies 0 <= j < n && g.2[j] && region_flagged(
                cfg,
                n,
                m,
                j,
                g.2,
            ) by {
                let (k, u) = choose|k: int, u: int|
                    0 <= k < clusters1.len() && 0 <= u < clusters1[k].len() && (
                    #[trigger] clusters1[k][u]).category == Category::Core && ((
                    clusters1[k][u]).index as int) == j;
                if k < clusters.len() {
                    assert(clusters1[k] == clusters[k]);
                    assert(core_in(clusters, j));
                    assert(visited[j] && region_flagged(cfg, n, m, j, visited));
                    assert forall|y: int|
                        0 <= y < n && y != j && #[trigger] mat_at(m, n, y, j)
                            <= cfg.eps_max implies g.2[y] by {
                        assert(visited[y]);
                        assert(visited1[y]);
                    }
                } else {
                    assert(clusters1[k] == cl);
                    if u >= g.0.len() {
                        assert(cl[u].category == Category::Border);
                    }
                    assert(u < g.0.len());
                    assert(cl[u] == g.0[u]);
                    assert(g.0[u].category == Category::Core && (g.0[u].index as int) == j);
                }
            }
            // uniqueness for the extended cluster list
            assert forall|k: int, u: int, k2: int, u2: int|
                0 <= k < clusters1.len() && 0 <= u < clusters1[k].len() && 0 <= k2
                    < clusters1.len() && 0 <= u2 < clusters1[k2].len() && k != k2 && (
                #[trigger] clusters1[k][u]).category == Category::Core && (
                #[trigger] clusters1[k2][u2]).category == Category::Core implies clusters1[k][u].index
                != clusters1[k2][u2].index by {
                if k < clusters.len() && k2 < clusters.len() {
                    assert(clusters1[k] == clusters[k] && clusters1[k2] == clusters[k2]);
                } else if k == clusters.len() {
                    assert(clusters1[k] == cl && clusters1[k2] == clusters[k2]);
                    if u >= g.0.len() {
                        assert(cl[u].category == Category::Border);
                    }
                    assert(u < g.0.len());
                    assert(cl[u] == g.0[u]);
                    assert(!core_in(clusters, g.0[u].index as int));
                    assert(0 <= k2 < clusters.len() && 0 <= u2 < clusters[k2].len() && (
                    clusters[k2][u2]).category == Category::Core);
                    assert(core_in(clusters, clusters[k2][u2].index as int));
                } else {
                    assert(clusters1[k2] == cl && clusters1[k] == clusters[k]);
                    if u2 >= g.0.len() {
                        assert(cl[u2].category == Category::Border);
                    }
                    assert(u2 < g.0.len());
                    assert(cl[u2] == g.0[u2]);
                    assert(!core_in(clusters, g.0[u2].index as int));
                    assert(core_in(clusters, clusters[k][u].index as int));
                }
            }
            lemma_partition_core_unique(cfg, n, m, i + 1, g.2, clusters1, noise);
            assert(r == cfg.spec_partition(n, m, i + 1, g.2, clusters1, noise));
        }
    }
}

/// Core uniqueness across clusters: under a symmetric distance matrix no
/// point is a core member of two different clusters of the result.  (Within
/// one cluster the seed may appear twice: the expansion rediscovers it
/// through its neighbors' regions.)
pub proof fn lemma_core_in_one_cluster(cfg: FuzzyDBSCAN, n: int, m: Seq<u64>)
    requires
        cfg.wf(),
        0 <= n <= 0xFFFF_FFFF,
        symmetric(n, m),
    ensures
        cores_unique(cfg.spec_cluster(n, m)),
{
    lemma_partition_core_unique(
        cfg,
        n,
        m,
        0,
        Seq::new(n as nat, |j: int| false),
        Seq::empty(),
        Seq::empty(),
    );
}

/// The partition under a no-border configuration: every cluster of the
/// result consists of core assignments or noise, never borders.
pub proof fn lemma_partition_no_border(
    cfg: FuzzyDBSCAN,
    n: int,
    m: Seq<u64>,
    i: int,
    visited: Seq<bool>,
    clusters: Seq<Seq<Assignment>>,
    noise: Seq<Assignment>,
)
    requires
        cfg.wf(),
        0 <= n <= 0xFFFF_FFFF,
        visited.len() == n,
        0 <= i,
        crisp_no_border_config(cfg),
        symmetric(n, m),
        forall|k: int| 0 <= k < clusters.len() ==> no_border(#[trigger] clusters[k]),
        all_noise(noise),
    ensures
        ({
            let r = cfg.spec_partition(n, m, i, visited, clusters, noise);
            forall|k: int| 0 <= k < r.len() ==> no_border(#[trigger] r[k])
        }),
    decreases n - i,
{
    let r = cfg.spec_partition(n, m, i, visited, clusters, noise);
    if i >= n {
        if noise.len() > 0 {
            assert(r == clusters.push(noise));
            assert forall|k: int| 0 <= k < r.len() implies no_border(#[trigger] r[k]) by {
                if k < clusters.len() {
                    assert(r[k] == clusters[k]);
                } else {
                    assert(r[k] == noise);
                }
            }
        }
    } else if visited[i] {
        lemma_partition_no_border(cfg, n, m, i + 1, visited, clusters, noise);
        assert(r == cfg.spec_partition(n, m, i + 1, visited, clusters, noise));
    } else {
        let visited1 = visited.update(i, true);
        let neigh = cfg.spec_region(n, m, i, n);
        let a = cfg.spec_density(n, m, i, neigh);
        let lab = cfg.spec_mu_min_p(a);
        if lab == 0 {
            let nz = Assignment {
                index: i as usize,
                label: cfg.spec_label_one() as u64,
                category: Category::Noise,
            };
            let noise1 = noise.push(nz);
            assert forall|u: int|
                0 <= u < noise1.len() implies (#[trigger] noise1[u]).category
                == Category::Noise by {
                if u < noise.len() {
                    assert(noise1[u] == noise[u]);
                } else {
                    assert(noise1[u] == nz);
                }
            }
            lemma_partition_no_border(cfg, n, m, i + 1, visited1, clusters, noise1);
            assert(r == cfg.spec_partition(n, m, i + 1, visited1, clusters, noise1));
        } else {
            let seed = Assignment { index: i as usize, label: lab as u64, category: Category::Core };
            let start: Seq<Assignment> = seq![seed];
            let falses = Seq::new(n as nat, |j: int| false);
            let enq = spec_enqueue(Seq::empty(), falses, neigh);
            lemma_region_entries(cfg, n, m, i, n);
            assert forall|u: int|
                0 <= u < neigh.len() implies ((#[trigger] neigh[u]) as int) < n by {
                assert((cfg.spec_region(n, m, i, n)[u] as int) < n);
            }
            lemma_enqueue_entries(Seq::empty(), falses, neigh, n);
            lemma_enqueue_from(Seq::empty(), falses, neigh);
            assert forall|u: int|
                0 <= u < enq.0.len() implies has_core_neighbor(
                cfg,
                n,
                m,
                start,
                (#[trigger] enq.0[u]) as int,
            ) by {
                assert(neigh.contains(enq.0[u]));
                let t = choose|t: int| 0 <= t < neigh.len() && neigh[t] == enq.0[u];
                assert((neigh[t] as int) != i && mat_at(m, n, neigh[t] as int, i) <= cfg.eps_max);
                assert(start[0] == seed);
            }
            lemma_expand_no_border(cfg, n, m, start, Seq::empty(), enq.0, enq.1, visited1);
            let g = cfg.spec_expand(n, m, start, Seq::empty(), enq.0, enq.1, visited1);
            assert(g.1 == Seq::<Assignment>::empty());
            lemma_mu_min_p_range(cfg, a);
            lemma_label_one_range(cfg);
            assert(cfg.assignment_ok(n, m, seed));
            assert forall|u: int|
                0 <= u < start.len() implies cfg.assignment_ok(n, m, #[trigger] start[u])
                && start[u].category == Category::Core by {
                assert(start[u] == seed);
            }
            lemma_expand_props(cfg, n, m, start, Seq::empty(), enq.0, enq.1, visited1);
            let cl = cfg.spec_resolve(n, m, g.0, g.1);
            assert(cl =~= g.0);
            assert forall|u: int| 0 <= u < cl.len() implies (#[trigger] cl[u]).category
                != Category::Border by {
                assert(g.0[u].category == Category::Core);
            }
            let clusters1 = clusters.push(cl);
            assert forall|k: int| 0 <= k < clusters1.len() implies no_border(
                #[trigger] clusters1[k],
            ) by {
                if k < clusters.len() {
                    assert(clusters1[k] == clusters[k]);
                } else {
                    assert(clusters1[k] == cl);
                }
            }
            lemma_partition_no_border(cfg, n, m, i + 1, g.2, clusters1, noise);
            assert(r == cfg.spec_partition(n, m, i + 1, g.2, clusters1, noise));
        }
    }
}

/// No worklist entry repeats.
pub open spec fn distinct_wl(wl: Seq<usize>) -> bool {
    forall|u: int, v: int| 0 <= u < v < wl.len() ==> (#[trigger] wl[u]) != (#[trigger] wl[v])
}

/// Every worklist entry is marked.
pub open spec fn wl_marked(wl: Seq<usize>, local: Seq<bool>) -> bool {
    forall|u: int|
        0 <= u < wl.len() ==> 0 <= ((#[trigger] wl[u]) as int) < local.len() && local[wl[u] as int]
}

/// Enqueueing keeps the worklist duplicate-free and all-marked, and never
/// queues a point that was already marked but not queued (a drained one).
pub proof fn lemma_enqueue_distinct(wl: Seq<usize>, local: Seq<bool>, neigh: Seq<usize>)
    requires
        distinct_wl(wl),
        wl_marked(wl, local),
        forall|t: int| 0 <= t < neigh.len() ==> 0 <= ((#[trigger] neigh[t]) as int) < local.len(),
    ensures
        ({
            let enq = spec_enqueue(wl, local, neigh);
            &&& distinct_wl(enq.0)
            &&& wl_marked(enq.0, enq.1)
            &&& forall|y: int|
                0 <= y < local.len() && local[y] && !in_wl(wl, y) ==> !#[trigger] in_wl(enq.0, y)
        }),
    decreases neigh.len(),
{
    if neigh.len() > 0 {
        let x = neigh[0];
        let enq = spec_enqueue(wl, local, neigh);
        assert forall|t: int|
            0 <= t < neigh.drop_first().len() implies neigh.drop_first()[t] == neigh[t + 1] by {}
        if 0 <= x < local.len() && !local[x as int] {
            let wl1 = wl.push(x);
            let local1 = local.update(x as int, true);
            assert forall|u: int, v: int|
                0 <= u < v < wl1.len() implies (#[trigger] wl1[u]) != (#[trigger] wl1[v]) by {
                if v < wl.len() {
                    assert(wl1[u] == wl[u] && wl1[v] == wl[v]);
                } else {
                    assert(wl1[u] == wl[u] && wl1[v] == x);
                    assert(local[wl[u] as int]);
                }
            }
            assert forall|u: int|
                0 <= u < wl1.len() implies 0 <= ((#[trigger] wl1[u]) as int) < local1.len()
                && local1[wl1[u] as int] by {
                if u < wl.len() {
                    assert(wl1[u] == wl[u]);
                } else {
                    assert(wl1[u] == x);
                }
            }
            lemma_enqueue_distinct(wl1, local1, neigh.drop_first());
            assert(enq == spec_enqueue(wl1, local1, neigh.drop_first()));
            assert forall|y: int|
                0 <= y < local.len() && local[y] && !in_wl(wl, y) implies !#[trigger] in_wl(
                enq.0,
                y,
            ) by {
                assert(y != x as int);
                if in_wl(wl1, y) {
                    let u = choose|u: int| 0 <= u < wl1.len() && ((#[trigger] wl1[u]) as int) == y;
                    assert(u < wl.len());
                    assert(wl1[u] == wl[u]);
                    assert(in_wl(wl, y));
                }
                assert(local1[y] && !in_wl(wl1, y));
            }
        } else {
            lemma_enqueue_distinct(wl, local, neigh.drop_first());
            assert(enq == spec_enqueue(wl, local, neigh.drop_first()));
        }
    }
}

/// The worklist-draining phase assigns each drained point once: the core
/// part beyond the seed and the border candidates carry pairwise distinct
/// indices.
pub proof fn lemma_expand_multiplicity(
    cfg: FuzzyDBSCAN,
    n: int,
    m: Seq<u64>,
    cluster: Seq<Assignment>,
    borders: Seq<Assignment>,
    wl: Seq<usize>,
    local: Seq<bool>,
    visited: Seq<bool>,
)
    requires
        0 <= n <= 0xFFFF_FFFF,
        local.len() == n,
        visited.len() == n,
        forall|u: int| 0 <= u < wl.len() ==> ((#[trigger] wl[u]) as int) < n,
        distinct_wl(wl),
        wl_marked(wl, local),
        forall|u: int|
            1 <= u < cluster.len() ==> 0 <= ((#[trigger] cluster[u]).index as int) < n
                && local[cluster[u].index as int] && !in_wl(wl, cluster[u].index as int),
        forall|u: int|
            0 <= u < borders.len() ==> 0 <= ((#[trigger] borders[u]).index as int) < n
                && local[borders[u].index as int] && !in_wl(wl, borders[u].index as int),
        forall|u: int, v: int|
            1 <= u < v < cluster.len() ==> (#[trigger] cluster[u]).index != (
            #[trigger] cluster[v]).index,
        forall|u: int, v: int|
            0 <= u < v < borders.len() ==> (#[trigger] borders[u]).index != (
            #[trigger] borders[v]).index,
        forall|u: int, v: int|
            1 <= u < cluster.len() && 0 <= v < borders.len() ==> (#[trigger] cluster[u]).index != (
            #[trigger] borders[v]).index,
    ensures
        ({
            let g = cfg.spec_expand(n, m, cluster, borders, wl, local, visited);
            &&& forall|u: int, v: int|
                1 <= u < v < g.0.len() ==> (#[trigger] g.0[u]).index != (#[trigger] g.0[v]).index
            &&& forall|u: int, v: int|
                0 <= u < v < g.1.len() ==> (#[trigger] g.1[u]).index != (#[trigger] g.1[v]).index
            &&& forall|u: int, v: int|
                1 <= u < g.0.len() && 0 <= v < g.1.len() ==> (#[trigger] g.0[u]).index != (
                #[trigger] g.1[v]).index
            &&& g.2.len() == n
        }),
    decreases count_false(local), wl.len(),
{
    let g = cfg.spec_expand(n, m, cluster, borders, wl, local, visited);
    if wl.len() > 0 {
        let q = wl.last();
        let qi = q as int;
        assert((wl[wl.len() - 1] as int) < n);
        assert(local[qi]);
        let wl0 = wl.drop_last();
        assert forall|u: int| 0 <= u < wl0.len() implies ((#[trigger] wl0[u]) as int) < n by {
            assert(wl0[u] == wl[u]);
        }
        assert forall|u: int, v: int|
            0 <= u < v < wl0.len() implies (#[trigger] wl0[u]) != (#[trigger] wl0[v]) by {
            assert(wl0[u] == wl[u] && wl0[v] == wl[v]);
        }
        assert forall|u: int|
            0 <= u < wl0.len() implies 0 <= ((#[trigger] wl0[u]) as int) < local.len()
            && local[wl0[u] as int] by {
            assert(wl0[u] == wl[u]);
        }
        // q itself never sits in the shortened worklist
        assert forall|y: int| 0 <= y < wl0.len() implies (#[trigger] wl0[y]) != q by {
            assert(wl0[y] == wl[y]);
        }
        assert(!in_wl(wl0, qi));
        // nothing already drained sits in the shortened worklist
        assert forall|u: int|
            1 <= u < cluster.len() implies !in_wl(wl0, (#[trigger] cluster[u]).index as int) by {
            if in_wl(wl0, cluster[u].index as int) {
                let y = choose|y: int|
                    0 <= y < wl0.len() && ((#[trigger] wl0[y]) as int) == cluster[u].index as int;
                assert(wl0[y] == wl[y]);
                assert(in_wl(wl, cluster[u].index as int));
            }
        }
        assert forall|u: int|
            0 <= u < borders.len() implies !in_wl(wl0, (#[trigger] borders[u]).index as int) by {
            if in_wl(wl0, borders[u].index as int) {
                let y = choose|y: int|
                    0 <= y < wl0.len() && ((#[trigger] wl0[y]) as int) == borders[u].index as int;
                assert(wl0[y] == wl[y]);
                assert(in_wl(wl, borders[u].index as int));
            }
        }
        // q differs from everything already drained
        assert forall|u: int| 1 <= u < cluster.len() implies (#[trigger] cluster[u]).index
            != q by {
            assert(!in_wl(wl, cluster[u].index as int));
            assert((wl[wl.len() - 1] as int) == qi);
        }
        assert forall|u: int| 0 <= u < borders.len() implies (#[trigger] borders[u]).index
            != q by {
            assert(!in_wl(wl, borders[u].index as int));
            assert((wl[wl.len() - 1] as int) == qi);
        }
        let visited1 = visited.update(qi, true);
        let neigh = cfg.spec_region(n, m, qi, n);
        let a = cfg.spec_density(n, m, qi, neigh);
        let lab = cfg.spec_mu_min_p(a);
        lemma_region_entries(cfg, n, m, qi, n);
        assert forall|u: int| 0 <= u < neigh.len() implies ((#[trigger] neigh[u]) as int) < n by {
            assert((cfg.spec_region(n, m, qi, n)[u] as int) < n);
        }
        if lab > 0 {
            let a_new = Assignment { index: q, label: lab as u64, category: Category::Core };
            let cluster1 = cluster.push(a_new);
            let enq = spec_enqueue(wl0, local, neigh);
            lemma_enqueue_entries(wl0, local, neigh, n);
            lemma_enqueue_marks(wl0, local, neigh);
            lemma_enqueue_measure(wl0, local, neigh);
            lemma_enqueue_distinct(wl0, local, neigh);
            assert forall|u: int|
                1 <= u < cluster1.len() implies 0 <= ((#[trigger] cluster1[u]).index as int) < n
                && enq.1[cluster1[u].index as int] && !in_wl(
                enq.0,
                cluster1[u].index as int,
            ) by {
                if u < cluster.len() {
                    assert(cluster1[u] == cluster[u]);
                    assert(local[cluster[u].index as int] && !in_wl(
                        wl0,
                        cluster[u].index as int,
                    ));
                } else {
                    assert(cluster1[u] == a_new);
                    assert(local[qi] && !in_wl(wl0, qi));
                }
            }
            assert forall|u: int|
                0 <= u < borders.len() implies 0 <= ((#[trigger] borders[u]).index as int) < n
                && enq.1[borders[u].index as int] && !in_wl(enq.0, borders[u].index as int) by {
                assert(local[borders[u].index as int] && !in_wl(wl0, borders[u].index as int));
            }
            assert forall|u: int, v: int|
                1 <= u < v < cluster1.len() implies (#[trigger] cluster1[u]).index != (
            #[trigger] cluster1[v]).index by {
                if v < cluster.len() {
                    assert(cluster1[u] == cluster[u] && cluster1[v] == cluster[v]);
                } else {
                    assert(cluster1[u] == cluster[u] && cluster1[v] == a_new);
                }
            }
            assert forall|u: int, v: int|
                1 <= u < cluster1.len() && 0 <= v < borders.len() implies (
            #[trigger] cluster1[u]).index != (#[trigger] borders[v]).index by {
                if u < cluster.len() {
                    assert(cluster1[u] == cluster[u]);
                } else {
                    assert(cluster1[u] == a_new);
                }
            }
            lemma_expand_multiplicity(cfg, n, m, cluster1, borders, enq.0, enq.1, visited1);
            assert(g == cfg.spec_expand(n, m, cluster1, borders, enq.0, enq.1, visited1));
        } else {
            let b_new = Assignment { index: q, label: BORDER_SENTINEL, category: Category::Border };
            let borders1 = borders.push(b_new);
            assert forall|u: int|
                0 <= u < borders1.len() implies 0 <= ((#[trigger] borders1[u]).index as int) < n
                && local[borders1[u].index as int] && !in_wl(wl0, borders1[u].index as int) by {
                if u < borders.len() {
                    assert(borders1[u] == borders[u]);
                } else {
                    assert(borders1[u] == b_new);
                }
            }
            assert forall|u: int, v: int|
                0 <= u < v < borders1.len() implies (#[trigger] borders1[u]).index != (
            #[trigger] borders1[v]).index by {
                if v < borders.len() {
                    assert(borders1[u] == borders[u] && borders1[v] == borders[v]);
                } else {
                    assert(borders1[u] == borders[u] && borders1[v] == b_new);
                }
            }
            assert forall|u: int, v: int|
                1 <= u < cluster.len() && 0 <= v < borders1.len() implies (
            #[trigger] cluster[u]).index != (#[trigger] borders1[v]).index by {
                if v < borders.len() {
                    assert(borders1[v] == borders[v]);
                } else {
                    assert(borders1[v] == b_new);
                }
            }
            lemma_expand_multiplicity(cfg, n, m, cluster, borders1, wl0, local, visited1);
            assert(g == cfg.spec_expand(n, m, cluster, borders1, wl0, local, visited1));
        }
    }
}

/// The partition assigns each point at most once per cluster beyond the
/// seed position: every result cluster has pairwise distinct indices from
/// its second element on.
pub proof fn lemma_partition_multiplicity(
    cfg: FuzzyDBSCAN,
    n: int,
    m: Seq<u64>,
    i: int,
    visited: Seq<bool>,
    clusters: Seq<Seq<Assignment>>,
    noise: Seq<Assignment>,
)
    requires
        cfg.wf(),
        0 <= n <= 0xFFFF_FFFF,
        visited.len() == n,
        0 <= i,
        forall|k: int, u: int, v: int|
            0 <= k < clusters.len() && 1 <= u < v < (#[trigger] clusters[k]).len() ==> (
            #[trigger] clusters[k][u]).index != (#[trigger] clusters[k][v]).index,
        indices_below(noise, i),
        forall|u: int, v: int|
            0 <= u < v < noise.len() ==> (#[trigger] noise[u]).index != (#[trigger] noise[v]).index,
    ensures
        ({
            let r = cfg.spec_partition(n, m, i, visited, clusters, noise);
            forall|k: int, u: int, v: int|
                0 <= k < r.len() && 1 <= u < v < (#[trigger] r[k]).len() ==> (
                #[trigger] r[k][u]).index != (#[trigger] r[k][v]).index
        }),
    decreases n - i,
{
    let r = cfg.spec_partition(n, m, i, visited, clusters, noise);
    if i >= n {
        if noise.len() > 0 {
            assert(r == clusters.push(noise));
            assert forall|k: int, u: int, v: int|
                0 <= k < r.len() && 1 <= u < v < (#[trigger] r[k]).len() implies (
            #[trigger] r[k][u]).index != (#[trigger] r[k][v]).index by {
                if k < clusters.len() {
                    assert(r[k] == clusters[k]);
                } else {
                    assert(r[k] == noise);
                }
            }
        }
    } else if visited[i] {
        lemma_partition_multiplicity(cfg, n, m, i + 1, visited, clusters, noise);
        assert(r == cfg.spec_partition(n, m, i + 1, visited, clusters, noise));
    } else {
        let visited1 = visited.update(i, true);
        let neigh = cfg.spec_region(n, m, i, n);
        let a = cfg.spec_density(n, m, i, neigh);
        let lab = cfg.spec_mu_min_p(a);
        lemma_region_entries(cfg, n, m, i, n);
        lemma_mu_min_p_range(cfg, a);
        lemma_label_one_range(cfg);
        if lab == 0 {
            let nz = Assignment {
                index: i as usize,
                label: cfg.spec_label_one() as u64,
                category: Category::Noise,
            };
            let noise1 = noise.push(nz);
            assert forall|u: int|
                0 <= u < noise1.len() implies ((#[trigger] noise1[u]).index as int) < i + 1 by {
                if u < noise.len() {
                    assert(noise1[u] == noise[u]);
                } else {
                    assert(noise1[u] == nz);
                }
            }
            assert forall|u: int, v: int|
                0 <= u < v < noise1.len() implies (#[trigger] noise1[u]).index != (
            #[trigger] noise1[v]).index by {
                if v < noise.len() {
                    assert(noise1[u] == noise[u] && noise1[v] == noise[v]);
                } else {
                    assert(noise1[u] == noise[u] && noise1[v] == nz);
                    assert((noise[u].index as int) < i);
                }
            }
            lemma_partition_multiplicity(cfg, n, m, i + 1, visited1, clusters, noise1);
            assert(r == cfg.spec_partition(n, m, i + 1, visited1, clusters, noise1));
        } else {
            let seed = Assignment { index: i as usize, label: lab as u64, category: Category::Core };
            let start: Seq<Assignment> = seq![seed];
            let falses = Seq::new(n as nat, |j: int| false);
            let enq = spec_enqueue(Seq::empty(), falses, neigh);
            assert forall|u: int|
                0 <= u < neigh.len() implies ((#[trigger] neigh[u]) as int) < n by {
                assert((cfg.spec_region(n, m, i, n)[u] as int) < n);
            }
            lemma_enqueue_entries(Seq::empty(), falses, neigh, n);
            lemma_enqueue_distinct(Seq::empty(), falses, neigh);
            lemma_enqueue_marks(Seq::empty(), falses, neigh);
            lemma_expand_multiplicity(
                cfg,
                n,
                m,
                start,
                Seq::empty(),
                enq.0,
                enq.1,
                visited1,
            );
            let g = cfg.spec_expand(n, m, start, Seq::empty(), enq.0, enq.1, visited1);
            let cl = cfg.spec_resolve(n, m, g.0, g.1);
            // positions of the finished cluster map to the core part and
            // the border candidates, whose indices are pairwise distinct
            assert(cl.len() == g.0.len() + g.1.len());
            assert forall|u: int, v: int|
                1 <= u < v < cl.len() implies (#[trigger] cl[u]).index != (
            #[trigger] cl[v]).index by {
                let mapped = g.1.map_values(
                    |b: Assignment| cfg.spec_resolve_one(n, m, g.0, b, g.0.len() as int),
                );
                assert(cl == g.0 + mapped);
                if v < g.0.len() {
                    assert(cl[u] == g.0[u] && cl[v] == g.0[v]);
                } else {
                    assert(cl[v] == mapped[v - g.0.len()]);
                    lemma_resolve_one_props_free(cfg, n, m, g.0, g.1[v - g.0.len()]);
                    if u < g.0.len() {
                        assert(cl[u] == g.0[u]);
                    } else {
                        assert(cl[u] == mapped[u - g.0.len()]);
                        lemma_resolve_one_props_free(cfg, n, m, g.0, g.1[u - g.0.len()]);
                    }
                }
            }
            let clusters1 = clusters.push(cl);
            assert forall|k: int, u: int, v: int|
                0 <= k < clusters1.len() && 1 <= u < v < (#[trigger] clusters1[k]).len() implies (
            #[trigger] clusters1[k][u]).index != (#[trigger] clusters1[k][v]).index by {
                if k < clusters.len() {
                    assert(clusters1[k] == clusters[k]);
                } else {
                    assert(clusters1[k] == cl);
                }
            }
            lemma_partition_multiplicity(cfg, n, m, i + 1, g.2, clusters1, noise);
            assert(r == cfg.spec_partition(n, m, i + 1, g.2, clusters1, noise));
        }
    }
}

/// Resolving a border candidate never changes its index or category,
/// whatever the cluster looks like.
pub proof fn lemma_resolve_one_props_free(
    cfg: FuzzyDBSCAN,
    n: int,
    m: Seq<u64>,
    cluster: Seq<Assignment>,
    b: Assignment,
)
    ensures
        cfg.spec_resolve_one(n, m, cluster, b, cluster.len() as int).index == b.index,
        cfg.spec_resolve_one(n, m, cluster, b, cluster.len() as int).category == b.category,
{
    lemma_resolve_one_shape(cfg, n, m, cluster, b, cluster.len() as int);
}

/// Helper for [`lemma_resolve_one_props_free`]: shape preservation at every
/// prefix length.
proof fn lemma_resolve_one_shape(
    cfg: FuzzyDBSCAN,
    n: int,
    m: Seq<u64>,
    cluster: Seq<Assignment>,
    b: Assignment,
    k: int,
)
    ensures
        cfg.spec_resolve_one(n, m, cluster, b, k).index == b.index,
        cfg.spec_resolve_one(n, m, cluster, b, k).category == b.category,
    decreases k,
{
    if k > 0 {
        lemma_resolve_one_shape(cfg, n, m, cluster, b, k - 1);
    }
}

/// Within one cluster of the result, no point index appears twice beyond
/// the first position: only the seed, which stands first, can be assigned a
/// second time when the expansion rediscovers it through a neighbor's
/// region.
pub proof fn lemma_assigned_once_per_cluster(cfg: FuzzyDBSCAN, n: int, m: Seq<u64>)
    requires
        cfg.wf(),
        0 <= n <= 0xFFFF_FFFF,
    ensures
        ({
            let r = cfg.spec_cluster(n, m);
            forall|k: int, u: int, v: int|
                0 <= k < r.len() && 1 <= u < v < (#[trigger] r[k]).len() ==> (
                #[trigger] r[k][u]).index != (#[trigger] r[k][v]).index
        }),
{
    lemma_partition_multiplicity(
        cfg,
        n,
        m,
        0,
        Seq::new(n as nat, |j: int| false),
        Seq::empty(),
        Seq::empty(),
    );
}

/// Reduction to fuzzy-core-only: with a degenerate radius range
/// (`eps_min == eps_max`), a symmetric distance matrix and `pts_min` at most
/// one, no border assignment appears anywhere — core labels may still be
/// fuzzy, but every drained candidate is itself core.
pub proof fn lemma_fuzzy_core_no_borders(cfg: FuzzyDBSCAN, n: int, m: Seq<u64>)
    requires
        cfg.wf(),
        0 <= n <= 0xFFFF_FFFF,
        cfg.eps_min == cfg.eps_max,
        cfg.pts_min <= 1,
        symmetric(n, m),
    ensures
        forall|k: int|
            0 <= k < cfg.spec_cluster(n, m).len() ==> no_border(#[trigger] cfg.spec_cluster(
                n,
                m,
            )[k]),
{
    lemma_partition_no_border(
        cfg,
        n,
        m,
        0,
        Seq::new(n as nat, |j: int| false),
        Seq::empty(),
        Seq::empty(),
    );
}

/// Reduction to classic DBSCAN: with both ranges degenerate
/// (`eps_min == eps_max`, `pts_min == pts_max <= 2`) and a symmetric
/// distance matrix, no border assignments appear and every core label is
/// exactly `1` — the label scale itself collapses to `1`, so all labels are
/// crisp.
pub proof fn lemma_classic_dbscan(cfg: FuzzyDBSCAN, n: int, m: Seq<u64>)
    requires
        cfg.wf(),
        0 <= n <= 0xFFFF_FFFF,
        cfg.eps_min == cfg.eps_max,
        cfg.pts_min == cfg.pts_max,
        cfg.pts_max <= 2,
        symmetric(n, m),
    ensures
        cfg.spec_label_one() == 1,
        forall|k: int|
            0 <= k < cfg.spec_cluster(n, m).len() ==> no_border(#[trigger] cfg.spec_cluster(
                n,
                m,
            )[k]),
        ({
            let r = cfg.spec_cluster(n, m);
            forall|k: int, u: int|
                0 <= k < r.len() && 0 <= u < r[k].len() && (#[trigger] r[k][u]).category
                    == Category::Core ==> r[k][u].label == 1
        }),
{
    lemma_partition_no_border(
        cfg,
        n,
        m,
        0,
        Seq::new(n as nat, |j: int| false),
        Seq::empty(),
        Seq::empty(),
    );
    lemma_crisp_cores(cfg, n, m);
}

} // verus!
