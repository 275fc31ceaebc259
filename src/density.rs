//! The density clusterer: hierarchy, excess-of-mass selection, and the
//! DBSCAN fallback with an epsilon read off the k-distance elbow.

use vstd::prelude::*;

use crate::dbscan::{dbscan, dbscan_labels};
use crate::hierarchy::{
    is_child, spans,
    build_cluster_tree, chosen, cluster_tree, covered, extract_flat_clusters, first_holder, lemma_tree_points, qualifies,
    rank_of, select_clusters, HdbscanNode,
};
use crate::spanning::{
    lemma_mst_spans, symmetric,
    build_mst, compute_core_distances, dist_matrix, kth_smallest, min_nat, prim_tree, sort_ascending, sorted_u64, MstEdge,
};

verus! {

pub open spec fn curvature(s: Seq<u64>, i: int) -> int {
    let v = s[i + 1] as int - 2 * s[i] as int + s[i - 1] as int;
    if v >= 0 {
        v
    } else {
        -v
    }
}

pub open spec fn elbow_start(n: int) -> int {
    if n / 10 >= 1 {
        n / 10
    } else {
        1
    }
}

pub open spec fn elbow_end(n: int) -> int {
    let b = if n >= 2 {
        n - 2
    } else {
        0
    };
    if n * 9 / 10 <= b {
        n * 9 / 10
    } else {
        b
    }
}

/// `b` is the elbow of the ascending k-distances `s`: within the window from
/// 10% to 90% of the points, the first index of largest discrete second
/// derivative; the middle index when the window shows no curvature at all.
pub open spec fn is_elbow(s: Seq<u64>, b: int) -> bool {
    let lo = elbow_start(s.len() as int);
    let hi = elbow_end(s.len() as int);
    if forall|j: int| lo <= j <= hi ==> #[trigger] curvature(s, j) == 0 {
        b == s.len() / 2
    } else {
        &&& lo <= b <= hi
        &&& forall|j: int| lo <= j <= hi ==> #[trigger] curvature(s, j) <= curvature(s, b)
        &&& forall|j: int| lo <= j < b ==> #[trigger] curvature(s, j) < curvature(s, b)
    }
}

/// Index of the elbow of the ascending sequence `s`.
pub fn find_elbow(s: &Vec<u64>) -> (b: usize)
    requires
        1 <= s@.len() < i32::MAX,
    ensures
        is_elbow(s@, b as int),
        b < s@.len(),
{
    let n = s.len();
    let lo: usize = if n / 10 >= 1 {
        n / 10
    } else {
        1
    };
    let end_cap: usize = if n >= 2 {
        n - 2
    } else {
        0
    };
    let n9: usize = ((n as u64) * 9 / 10) as usize;
    assert(n9 == n * 9 / 10);
    let hi: usize = if n9 <= end_cap {
        n9
    } else {
        end_cap
    };
    let mut best: usize = n / 2;
    let mut max_c: i128 = 0;
    let mut i: usize = lo;
    while i <= hi
        invariant
            n == s@.len(),
            1 <= n < i32::MAX,
            lo == elbow_start(n as int),
            hi == elbow_end(n as int),
            (lo <= i <= hi + 1) || (hi < lo && i == lo),
            best < n,
            max_c >= 0,
            max_c == 0 ==> best == n / 2 && forall|j: int| lo <= j < i ==> #[trigger] curvature(s@, j) == 0,
            max_c > 0 ==> lo <= best < i && max_c == curvature(s@, best as int) && (forall|j: int|
                lo <= j < i ==> #[trigger] curvature(s@, j) <= max_c) && (forall|j: int| lo <= j < best ==> #[trigger] curvature(s@, j) < max_c),
        decreases hi + 1 - i,
    {
        let v: i128 = s[i + 1] as i128 - 2 * (s[i] as i128) + s[i - 1] as i128;
        let c: i128 = if v >= 0 {
            v
        } else {
            -v
        };
        assert(c == curvature(s@, i as int));
        if c > max_c {
            max_c = c;
            best = i;
        }
        i = i + 1;
    }
    proof {
        let ss = s@;
        if max_c > 0 {
            assert(lo <= best <= hi);
            assert(curvature(ss, best as int) > 0);
        }
    }
    best
}

/// The fallback's epsilon: `eps` is three quarters of the elbow of the sorted
/// k-distances (each point's `min_samples`-th smallest distance).
pub open spec fn auto_eps(d: Seq<Vec<u64>>, min_samples: int, eps: u64) -> bool {
    exists|kd: Seq<u64>, s: Seq<u64>, b: int|
        kd.len() == d.len() && (forall|i: int| 0 <= i < d.len() ==> kth_smallest(d[i]@, min_nat(min_samples, d.len() - 1), #[trigger] kd[i]))
            && #[trigger] s.to_multiset() == #[trigger] kd.to_multiset() && sorted_u64(s) && #[trigger] is_elbow(s, b) && 0 <= b < s.len() && eps == s[b] * 3 / 4
}

/// DBSCAN with an epsilon read off the elbow of the k-distance curve.
pub fn dbscan_auto_eps(distances: &Vec<Vec<u64>>, min_samples: usize) -> (r: (Vec<i32>, u64))
    requires
        1 <= distances@.len() < i32::MAX,
        dist_matrix(distances@),
        symmetric(distances@),
    ensures
        auto_eps(distances@, min_samples as int, r.1),
        exists|c: int| 0 <= c <= distances@.len() && dbscan_labels(distances@, r.1, min_samples as int, r.0@, c),
{
    let kd = compute_core_distances(distances, min_samples);
    let ghost kd0 = kd@;
    let sorted = sort_ascending(kd);
    proof {
        sorted@.to_multiset_ensures();
        kd0.to_multiset_ensures();
    }
    let b = find_elbow(&sorted);
    let raw = sorted[b];
    let eps: u64 = (raw as u128 * 3 / 4) as u64;
    assert(auto_eps(distances@, min_samples as int, eps)) by {
        assert(is_elbow(sorted@, b as int));
    }
    let labels = dbscan(distances, eps, min_samples);
    let ghost c = choose|c: int| 0 <= c <= distances@.len() && dbscan_labels(distances@, eps, min_samples as int, labels@, c);
    let r = (labels, eps);
    assert(dbscan_labels(distances@, r.1, min_samples as int, r.0@, c));
    assert(exists|c: int| 0 <= c <= distances@.len() && dbscan_labels(distances@, r.1, min_samples as int, r.0@, c));
    r
}

/// Number of clusters in a labelling: one more than the largest label, 0 when
/// every point is noise.
pub open spec fn label_count(labels: Seq<i32>, k: int) -> int
    decreases k,
{
    if k <= 0 {
        0
    } else {
        let c = label_count(labels, k - 1);
        if labels[k - 1] as int + 1 > c {
            labels[k - 1] as int + 1
        } else {
            c
        }
    }
}

pub fn count_clusters(labels: &Vec<i32>) -> (r: i64)
    ensures
        r == label_count(labels@, labels@.len() as int),
{
    let mut c: i64 = 0;
    let mut i: usize = 0;
    while i < labels.len()
        invariant
            i <= labels@.len(),
            c == label_count(labels@, i as int),
            0 <= c <= i32::MAX as int + 1,
        decreases labels@.len() - i,
    {
        let v = labels[i] as i64 + 1;
        if v > c {
            c = v;
        }
        i = i + 1;
    }
    c
}

/// The labels that `extract_flat_clusters` gives for a selection.
pub open spec fn flat_labels(nodes: Seq<HdbscanNode>, selected: Seq<bool>, n: int, min_cluster_size: int, labels: Seq<i32>) -> bool {
    &&& labels.len() == n
    &&& forall|p: int| 0 <= p < n ==> #[trigger] labels[p] >= -1
    &&& forall|p: int|
        0 <= p < n && #[trigger] labels[p] >= 0 ==> exists|k: int|
            0 <= k < nodes.len() && first_holder(nodes, selected, min_cluster_size, k, p) && labels[p] == rank_of(
                nodes,
                selected,
                min_cluster_size,
                k,
            )
    &&& forall|p: int, k: int|
        0 <= p < n && 0 <= k < nodes.len() && #[trigger] labels[p] == -1 && qualifies(nodes, selected, min_cluster_size, k)
            ==> !(#[trigger] nodes[k].points@.contains(p as usize))
}

/// `selected` is the excess-of-mass selection over `nodes`.
pub open spec fn eom_selection(nodes: Seq<HdbscanNode>, min_cluster_size: int, selected: Seq<bool>) -> bool {
    &&& selected.len() == nodes.len()
    &&& forall|i: int| 0 <= i < nodes.len() ==> #[trigger] selected[i] == (chosen(nodes, min_cluster_size, i) && !covered(nodes, min_cluster_size, i))
}

/// `core` holds each point's core distance for `min_samples`.
pub open spec fn core_distances_of(d: Seq<Vec<u64>>, min_samples: int, core: Seq<u64>) -> bool {
    &&& core.len() == d.len()
    &&& forall|i: int| 0 <= i < core.len() ==> kth_smallest(d[i]@, min_nat(min_samples, d.len() - 1), #[trigger] core[i])
}

/// A flat labelling is degenerate when it has at most one cluster, or more
/// than one per two points.
pub open spec fn degenerate(labels: Seq<i32>, n: int) -> bool {
    label_count(labels, labels.len() as int) <= 1 || label_count(labels, labels.len() as int) > n / 2
}

/// What `hdbscan` returns on `d`: the flat labels of the excess-of-mass
/// selection over the hierarchy of the spanning tree, unless those are
/// degenerate; then the labels of DBSCAN with the automatic epsilon.
pub open spec fn hdbscan_labels(d: Seq<Vec<u64>>, min_cluster_size: int, min_samples: int, labels: Seq<i32>) -> bool {
    exists|core: Seq<u64>, mst: Seq<MstEdge>, nodes: Seq<HdbscanNode>, selected: Seq<bool>, flat: Seq<i32>|
        #[trigger] core_distances_of(d, min_samples, core) && #[trigger] prim_tree(d, core, mst) && #[trigger] cluster_tree(nodes, d.len() as int, mst)
            && nodes.len() == 2 * d.len() - 1 && (forall|x: int| 0 <= x < 2 * d.len() - 2 ==> is_child(nodes, x))
            && #[trigger] eom_selection(nodes, min_cluster_size, selected) && #[trigger] flat_labels(
            nodes,
            selected,
            d.len() as int,
            min_cluster_size,
            flat,
        ) && if degenerate(flat, d.len() as int) {
            exists|eps: u64, c: int| #[trigger] auto_eps(d, min_samples, eps) && 0 <= c <= d.len() && #[trigger] dbscan_labels(d, eps, min_samples, labels, c)
        } else {
            labels == flat
        }
}

/// The density clusterer: core distances, spanning tree, hierarchy,
/// excess-of-mass selection and flat labels; when these give at most one
/// cluster or more than `n / 2`, DBSCAN with automatic epsilon instead.
pub fn hdbscan(distances: &Vec<Vec<u64>>, min_cluster_size: usize, min_samples: usize) -> (labels: Vec<i32>)
    requires
        1 <= distances@.len() < 0x4000_0000,
        dist_matrix(distances@),
        symmetric(distances@),
    ensures
        hdbscan_labels(distances@, min_cluster_size as int, min_samples as int, labels@),
        labels@.len() == distances@.len(),
        forall|p: int| 0 <= p < labels@.len() ==> #[trigger] labels@[p] >= -1,
{
    let n = distances.len();
    let core = compute_core_distances(distances, min_samples);
    let mst = build_mst(distances, &core);
    proof {
        lemma_mst_spans(distances@, core@, mst@);
        assert(spans(mst@, n as int));
    }
    let nodes = build_cluster_tree(&mst, n);
    let (_stability, selected) = select_clusters(&nodes, min_cluster_size);
    proof {
        assert forall|k: int, t: int| 0 <= k < nodes@.len() && 0 <= t < nodes@[k].points@.len() implies #[trigger] nodes@[k].points@[t] < n by {
            lemma_tree_points(nodes@, n as int, mst@, k);
        }
    }
    let flat = extract_flat_clusters(&nodes, &selected, n, min_cluster_size);
    let num_clusters = count_clusters(&flat);
    let ghost witness = core_distances_of(distances@, min_samples as int, core@) && prim_tree(distances@, core@, mst@)
        && cluster_tree(nodes@, n as int, mst@) && eom_selection(nodes@, min_cluster_size as int, selected@)
        && flat_labels(nodes@, selected@, n as int, min_cluster_size as int, flat@);
    assert(witness);
    if num_clusters <= 1 || num_clusters > (n / 2) as i64 {
        let (fallback, eps) = dbscan_auto_eps(distances, min_samples);
        let ghost c = choose|c: int| 0 <= c <= distances@.len() && dbscan_labels(distances@, eps, min_samples as int, fallback@, c);
        assert(degenerate(flat@, n as int));
        assert(auto_eps(distances@, min_samples as int, eps) && 0 <= c <= distances@.len() && dbscan_labels(distances@, eps, min_samples as int, fallback@, c));
        assert(hdbscan_labels(distances@, min_cluster_size as int, min_samples as int, fallback@));
        return fallback;
    }
    assert(!degenerate(flat@, n as int));
    assert(hdbscan_labels(distances@, min_cluster_size as int, min_samples as int, flat@));
    flat
}

} // verus!
