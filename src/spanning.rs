//! Fixed-point distances, core distances, mutual reachability and the
//! minimum spanning tree grown by Prim's algorithm.

use vstd::prelude::*;

verus! {


/// Distances are fixed-point: `DIST_SCALE` stands for a cosine distance of 1.
pub const DIST_SCALE: u64 = 1_000_000_000;

/// The largest cosine distance, 2.
pub const MAX_DIST: u64 = 2_000_000_000;

/// An `n`-by-`n` matrix whose entries lie in `[0, MAX_DIST]`.
pub open spec fn dist_matrix(d: Seq<Vec<u64>>) -> bool {
    forall|i: int| 0 <= i < d.len() ==> #[trigger] d[i]@.len() == d.len() && forall|j: int|
        0 <= j < d.len() ==> d[i]@[j] <= MAX_DIST
}

/// The distance from `i` to `j` is the distance from `j` to `i`.
pub open spec fn symmetric(d: Seq<Vec<u64>>) -> bool {
    forall|i: int, j: int| 0 <= i < d.len() && 0 <= j < d.len() ==> #[trigger] d[i]@[j] == d[j]@[i]
}

pub open spec fn sorted_u64(s: Seq<u64>) -> bool {
    forall|i: int, j: int| 0 <= i <= j < s.len() ==> s[i] <= s[j]
}

/// `v` is the entry at position `k` once `row` is sorted ascending.
pub open spec fn kth_smallest(row: Seq<u64>, k: int, v: u64) -> bool {
    exists|s: Seq<u64>| #[trigger] s.to_multiset() == row.to_multiset() && sorted_u64(s) && 0 <= k < s.len() && s[k] == v
}

/// Relies on slice::sort_unstable: the same values, in ascending order.
#[verifier::external_body]
pub(crate) fn sort_ascending(v: Vec<u64>) -> (r: Vec<u64>)
    ensures
        r@.to_multiset() == v@.to_multiset(),
        sorted_u64(r@),
{
    let mut v = v;
    v.sort_unstable();
    v
}

fn copy_row(row: &Vec<u64>) -> (r: Vec<u64>)
    ensures
        r@ == row@,
{
    let mut r: Vec<u64> = Vec::new();
    let mut j: usize = 0;
    while j < row.len()
        invariant
            j <= row.len(),
            r@ == row@.subrange(0, j as int),
        decreases row.len() - j,
    {
        r.push(row[j]);
        j = j + 1;
    }
    assert(r@ =~= row@);
    r
}

pub open spec fn min_nat(a: int, b: int) -> int {
    if a <= b {
        a
    } else {
        b
    }
}

/// Core distance of each point: the `min_samples`-th smallest entry of its
/// row (the point itself counts, at distance 0), or the largest entry when the
/// row is shorter.
pub fn compute_core_distances(distances: &Vec<Vec<u64>>, min_samples: usize) -> (r: Vec<u64>)
    requires
        dist_matrix(distances@),
    ensures
        r@.len() == distances@.len(),
        forall|i: int|
            0 <= i < r@.len() ==> kth_smallest(
                distances@[i]@,
                min_nat(min_samples as int, distances@.len() - 1),
                #[trigger] r@[i],
            ),
{
    let n = distances.len();
    let mut r: Vec<u64> = Vec::new();
    let mut i: usize = 0;
    while i < n
        invariant
            i <= n,
            n == distances@.len(),
            dist_matrix(distances@),
            r@.len() == i,
            forall|t: int|
                0 <= t < i ==> kth_smallest(
                    distances@[t]@,
                    min_nat(min_samples as int, n - 1),
                    #[trigger] r@[t],
                ),
        decreases n - i,
    {
        let sorted = sort_ascending(copy_row(&distances[i]));
        assert(distances@[i as int]@.len() == n);
        proof {
            sorted@.to_multiset_ensures();
            distances@[i as int]@.to_multiset_ensures();
        }
        let k = if min_samples < n - 1 {
            min_samples
        } else {
            n - 1
        };
        let v = sorted[k];
        assert(kth_smallest(distances@[i as int]@, min_nat(min_samples as int, n - 1), v)) by {
            assert(sorted@.to_multiset() == distances@[i as int]@.to_multiset());
        }
        r.push(v);
        i = i + 1;
    }
    r
}

pub open spec fn mrd(d: Seq<Vec<u64>>, core: Seq<u64>, i: int, j: int) -> u64 {
    let a = d[i]@[j];
    let b = if a >= core[i] {
        a
    } else {
        core[i]
    };
    if b >= core[j] {
        b
    } else {
        core[j]
    }
}

/// Mutual reachability distance: the largest of the direct distance and the
/// two core distances.
pub fn mutual_reachability_distance(i: usize, j: usize, distances: &Vec<Vec<u64>>, core_distances: &Vec<u64>) -> (r: u64)
    requires
        i < distances@.len(),
        j < distances@.len(),
        dist_matrix(distances@),
        core_distances@.len() == distances@.len(),
    ensures
        r == mrd(distances@, core_distances@, i as int, j as int),
        r >= distances@[i as int]@[j as int],
        r >= core_distances@[i as int],
        r >= core_distances@[j as int],
{
    let a = distances[i][j];
    let b = if a >= core_distances[i] {
        a
    } else {
        core_distances[i]
    };
    if b >= core_distances[j] {
        b
    } else {
        core_distances[j]
    }
}

/// An edge of the spanning tree, with its mutual reachability weight.
#[derive(Clone, Copy, Debug, PartialEq, Eq)]
pub struct MstEdge {
    pub from: usize,
    pub to: usize,
    pub weight: u64,
}

/// `v` is the start point 0 or the far end of one of the first `k` edges.
pub open spec fn reached(edges: Seq<MstEdge>, k: int, v: int) -> bool {
    v == 0 || exists|j: int| 0 <= j < k && #[trigger] edges[j].to as int == v
}

/// The edges that Prim's algorithm grows from point 0: each edge leaves the
/// points reached so far for a new point, weighs the mutual reachability of its
/// ends, and is no heavier than any other edge leaving the points reached so far.
pub open spec fn prim_tree(d: Seq<Vec<u64>>, core: Seq<u64>, edges: Seq<MstEdge>) -> bool {
    let n = d.len() as int;
    &&& edges.len() == n - 1
    &&& forall|k: int|
        0 <= k < edges.len() ==> (#[trigger] edges[k]).to < n && edges[k].from < n && edges[k].to != 0
            && reached(edges, k, edges[k].from as int) && !reached(edges, k, edges[k].to as int)
            && edges[k].weight == mrd(d, core, edges[k].from as int, edges[k].to as int)
    &&& forall|k: int, a: int, b: int|
        0 <= k < edges.len() && 0 <= a < n && 0 <= b < n && reached(edges, k, a) && !reached(edges, k, b)
            ==> (#[trigger] edges[k]).weight <= #[trigger] mrd(d, core, a, b)
    &&& forall|v: int| 0 <= v < n ==> #[trigger] reached(edges, edges.len() as int, v)
}

/// Every point outside the tree records its cheapest link into the tree.
pub open spec fn frontier_ok(d: Seq<Vec<u64>>, core: Seq<u64>, in_tree: Seq<bool>, best_w: Seq<u64>, best_from: Seq<usize>) -> bool {
    let n = d.len() as int;
    &&& in_tree.len() == n && best_w.len() == n && best_from.len() == n
    &&& forall|w: int|
        0 <= w < n && !in_tree[w] ==> (#[trigger] best_from[w] as int) < n && in_tree[best_from[w] as int]
            && best_w[w] == mrd(d, core, best_from[w] as int, w)
    &&& forall|w: int, a: int|
        0 <= w < n && 0 <= a < n && !in_tree[w] && in_tree[a] ==> #[trigger] best_w[w] <= #[trigger] mrd(d, core, a, w)
}

/// `remaining` lists, without repetition, the points outside the tree.
pub open spec fn remaining_ok(n: int, in_tree: Seq<bool>, remaining: Seq<usize>) -> bool {
    &&& forall|t: int| 0 <= t < remaining.len() ==> (#[trigger] remaining[t] as int) < n
    &&& forall|s: int, t: int| 0 <= s < t < remaining.len() ==> remaining[s] != remaining[t]
    &&& forall|v: usize| (v as int) < n ==> (!in_tree[v as int] <==> #[trigger] remaining.contains(v))
}

pub open spec fn edges_ok(d: Seq<Vec<u64>>, core: Seq<u64>, edges: Seq<MstEdge>) -> bool {
    let n = d.len() as int;
    &&& forall|k: int|
        0 <= k < edges.len() ==> (#[trigger] edges[k]).to < n && edges[k].from < n && edges[k].to != 0
            && reached(edges, k, edges[k].from as int) && !reached(edges, k, edges[k].to as int)
            && edges[k].weight == mrd(d, core, edges[k].from as int, edges[k].to as int)
    &&& forall|k: int, a: int, b: int|
        0 <= k < edges.len() && 0 <= a < n && 0 <= b < n && reached(edges, k, a) && !reached(edges, k, b)
            ==> (#[trigger] edges[k]).weight <= #[trigger] mrd(d, core, a, b)
}

proof fn lemma_reached_push(edges: Seq<MstEdge>, e: MstEdge)
    ensures
        forall|k: int, w: int| 0 <= k <= edges.len() ==> #[trigger] reached(edges.push(e), k, w) == reached(edges, k, w),
        forall|w: int| #[trigger] reached(edges.push(e), edges.len() as int + 1, w) == (reached(edges, edges.len() as int, w) || w == e.to),
{
    let ne = edges.push(e);
    assert forall|k: int, w: int| 0 <= k <= edges.len() implies #[trigger] reached(ne, k, w) == reached(edges, k, w) by {
        if reached(edges, k, w) && w != 0 {
            let j = choose|j: int| 0 <= j < k && #[trigger] edges[j].to as int == w;
            assert(ne[j] == edges[j]);
        }
        if reached(ne, k, w) && w != 0 {
            let j = choose|j: int| 0 <= j < k && #[trigger] ne[j].to as int == w;
            assert(ne[j] == edges[j]);
        }
    }
    assert forall|w: int| #[trigger] reached(ne, edges.len() as int + 1, w) == (reached(edges, edges.len() as int, w) || w == e.to) by {
        let k = edges.len() as int;
        if reached(edges, k, w) && w != 0 {
            let j = choose|j: int| 0 <= j < k && #[trigger] edges[j].to as int == w;
            assert(ne[j] == edges[j]);
        }
        if w == e.to {
            assert(ne[k].to as int == w);
        }
        if reached(ne, k + 1, w) && w != 0 && w != e.to {
            let j = choose|j: int| 0 <= j < k + 1 && #[trigger] ne[j].to as int == w;
            assert(ne[j] == edges[j]);
        }
    }
}

/// Position in `remaining` of the point with the cheapest link; the first on ties.
fn closest_remaining(remaining: &Vec<usize>, best_w: &Vec<u64>) -> (pos: usize)
    requires
        remaining@.len() > 0,
        forall|t: int| 0 <= t < remaining@.len() ==> (#[trigger] remaining@[t] as int) < best_w@.len(),
    ensures
        pos < remaining@.len(),
        forall|s: int| 0 <= s < remaining@.len() ==> best_w@[remaining@[pos as int] as int] <= #[trigger] best_w@[remaining@[s] as int],
{
    let mut pos: usize = 0;
    let mut t: usize = 1;
    while t < remaining.len()
        invariant
            1 <= t <= remaining@.len(),
            pos < remaining@.len(),
            forall|t: int| 0 <= t < remaining@.len() ==> (#[trigger] remaining@[t] as int) < best_w@.len(),
            forall|s: int| 0 <= s < t ==> best_w@[remaining@[pos as int] as int] <= #[trigger] best_w@[remaining@[s] as int],
        decreases remaining@.len() - t,
    {
        if best_w[remaining[t]] < best_w[remaining[pos]] {
            pos = t;
        }
        t = t + 1;
    }
    pos
}

/// After `v` joins the tree, lower each outside point's link to `v` where that is cheaper.
fn relax_from(
    v: usize,
    distances: &Vec<Vec<u64>>,
    core_distances: &Vec<u64>,
    in_tree: &Vec<bool>,
    remaining: &Vec<usize>,
    best_w: &mut Vec<u64>,
    best_from: &mut Vec<usize>,
)
    requires
        dist_matrix(distances@),
        core_distances@.len() == distances@.len(),
        (v as int) < distances@.len(),
        in_tree@[v as int],
        remaining_ok(distances@.len() as int, in_tree@, remaining@),
        in_tree@.len() == distances@.len(),
        old(best_w)@.len() == distances@.len(),
        old(best_from)@.len() == distances@.len(),
        forall|w: int|
            0 <= w < distances@.len() && !in_tree@[w] ==> (#[trigger] old(best_from)@[w] as int) < distances@.len() && in_tree@[old(best_from)@[w] as int]
                && old(best_w)@[w] == mrd(distances@, core_distances@, old(best_from)@[w] as int, w),
        forall|w: int, a: int|
            0 <= w < distances@.len() && 0 <= a < distances@.len() && !in_tree@[w] && in_tree@[a] && a != v ==> #[trigger] old(best_w)@[w]
                <= #[trigger] mrd(distances@, core_distances@, a, w),
    ensures
        frontier_ok(distances@, core_distances@, in_tree@, final(best_w)@, final(best_from)@),
{
    let ghost d = distances@;
    let ghost core = core_distances@;
    let n = distances.len();
    let mut t: usize = 0;
    while t < remaining.len()
        invariant
            n == d.len(),
            d == distances@,
            core == core_distances@,
            dist_matrix(d),
            core.len() == n,
            (v as int) < n,
            in_tree@[v as int],
            in_tree@.len() == n,
            best_w@.len() == n,
            best_from@.len() == n,
            remaining_ok(n as int, in_tree@, remaining@),
            0 <= t <= remaining@.len(),
            forall|w: int|
                0 <= w < n && !in_tree@[w] ==> (#[trigger] best_from@[w] as int) < n && in_tree@[best_from@[w] as int]
                    && best_w@[w] == mrd(d, core, best_from@[w] as int, w),
            forall|w: int, a: int|
                0 <= w < n && 0 <= a < n && !in_tree@[w] && in_tree@[a] && a != v ==> #[trigger] best_w@[w] <= #[trigger] mrd(d, core, a, w),
            forall|s: int| 0 <= s < t ==> #[trigger] best_w@[remaining@[s] as int] <= mrd(d, core, v as int, remaining@[s] as int),
        decreases remaining@.len() - t,
    {
        let w = remaining[t];
        let dv = mutual_reachability_distance(v, w, distances, core_distances);
        if dv < best_w[w] {
            best_w.set(w, dv);
            best_from.set(w, v);
        }
        proof {
            assert forall|s: int| 0 <= s < t + 1 implies #[trigger] best_w@[remaining@[s] as int] <= mrd(d, core, v as int, remaining@[s] as int) by {
                if s < t {
                    assert(remaining@[s] != remaining@[t as int]);
                }
            }
        }
        t = t + 1;
    }
    proof {
        assert forall|w: int, a: int| 0 <= w < n && 0 <= a < n && !in_tree@[w] && in_tree@[a] implies #[trigger] best_w@[w] <= #[trigger] mrd(d, core, a, w) by {
            if a == v {
                assert(remaining@.contains(w as usize));
                let s = choose|s: int| 0 <= s < remaining@.len() && remaining@[s] == w as usize;
                assert(best_w@[remaining@[s] as int] <= mrd(d, core, v as int, remaining@[s] as int));
            }
        }
    }
}

/// Minimum spanning tree over mutual reachability distances, grown by Prim's
/// algorithm from point 0.
pub fn build_mst(distances: &Vec<Vec<u64>>, core_distances: &Vec<u64>) -> (edges: Vec<MstEdge>)
    requires
        distances@.len() >= 1,
        dist_matrix(distances@),
        core_distances@.len() == distances@.len(),
    ensures
        prim_tree(distances@, core_distances@, edges@),
{
    let n = distances.len();
    let ghost d = distances@;
    let ghost core = core_distances@;
    let mut edges: Vec<MstEdge> = Vec::new();
    let mut in_tree: Vec<bool> = Vec::new();
    let mut best_w: Vec<u64> = Vec::new();
    let mut best_from: Vec<usize> = Vec::new();
    let mut remaining: Vec<usize> = Vec::new();
    let mut j: usize = 0;
    while j < n
        invariant
            j <= n,
            n == d.len(),
            d == distances@,
            core == core_distances@,
            dist_matrix(d),
            core.len() == n,
            in_tree@.len() == j,
            best_w@.len() == j,
            best_from@.len() == j,
            forall|t: int| 0 <= t < j ==> #[trigger] in_tree@[t] == (t == 0),
            forall|t: int| 0 <= t < j ==> #[trigger] best_from@[t] == 0,
            forall|t: int| 0 <= t < j ==> #[trigger] best_w@[t] == mrd(d, core, 0, t),
            remaining@.len() == if j == 0 { 0 } else { j - 1 },
            forall|t: int| 0 <= t < remaining@.len() ==> #[trigger] remaining@[t] == t + 1,
        decreases n - j,
    {
        in_tree.push(j == 0);
        best_w.push(mutual_reachability_distance(0, j, distances, core_distances));
        best_from.push(0);
        if j > 0 {
            remaining.push(j);
        }
        j = j + 1;
    }
    proof {
        assert forall|v: usize| (v as int) < n implies (!in_tree@[v as int] <==> #[trigger] remaining@.contains(v)) by {
            if v > 0 {
                assert(remaining@[v - 1] == v);
            }
        }
    }
    while remaining.len() > 0
        invariant
            n == d.len(),
            d == distances@,
            core == core_distances@,
            dist_matrix(d),
            core.len() == n,
            n >= 1,
            edges@.len() + remaining@.len() == n - 1,
            frontier_ok(d, core, in_tree@, best_w@, best_from@),
            remaining_ok(n as int, in_tree@, remaining@),
            forall|v: int| 0 <= v < n ==> (#[trigger] in_tree@[v] <==> reached(edges@, edges@.len() as int, v)),
            edges_ok(d, core, edges@),
        decreases remaining@.len(),
    {
        let pos = closest_remaining(&remaining, &best_w);
        let ghost old_edges = edges@;
        let ghost old_remaining = remaining@;
        let ghost old_in_tree = in_tree@;
        let ghost old_best_w = best_w@;
        let v = remaining.remove(pos);
        let e = MstEdge { from: best_from[v], to: v, weight: best_w[v] };
        assert(old_remaining[pos as int] == v);
        assert(old_remaining.contains(v));
        assert(!old_in_tree[v as int]);
        edges.push(e);
        in_tree.set(v, true);
        proof {
            lemma_reached_push(old_edges, e);
            assert forall|w: usize| (w as int) < n implies (!in_tree@[w as int] <==> #[trigger] remaining@.contains(w)) by {
                if remaining@.contains(w) {
                    let s = choose|s: int| 0 <= s < remaining@.len() && remaining@[s] == w;
                    if s < pos {
                        assert(old_remaining[s] == w);
                    } else {
                        assert(old_remaining[s + 1] == w);
                    }
                    assert(old_remaining.contains(w));
                }
                if !in_tree@[w as int] {
                    assert(old_remaining.contains(w));
                    let s = choose|s: int| 0 <= s < old_remaining.len() && old_remaining[s] == w;
                    if s < pos {
                        assert(remaining@[s] == w);
                    } else {
                        assert(remaining@[s - 1] == w);
                    }
                }
            }
            assert forall|a: int, b: int| 0 <= a < n && 0 <= b < n && reached(old_edges, old_edges.len() as int, a) && !reached(old_edges, old_edges.len() as int, b)
                implies e.weight <= #[trigger] mrd(d, core, a, b) by {
                assert(old_in_tree[a]);
                assert(!old_in_tree[b]);
                assert(old_remaining.contains(b as usize));
                let s = choose|s: int| 0 <= s < old_remaining.len() && old_remaining[s] == b as usize;
                assert(old_best_w[v as int] <= old_best_w[old_remaining[s] as int]);
                assert(old_best_w[b] <= mrd(d, core, a, b));
            }
            assert forall|w: int| 0 <= w < n && !in_tree@[w] implies (#[trigger] best_from@[w] as int) < n && in_tree@[best_from@[w] as int]
                && best_w@[w] == mrd(d, core, best_from@[w] as int, w) by {
                assert(!old_in_tree[w]);
            }
            assert(edges_ok(d, core, edges@));
        }
        relax_from(v, distances, core_distances, &in_tree, &remaining, &mut best_w, &mut best_from);
    }
    proof {
        assert forall|v: int| 0 <= v < n implies #[trigger] reached(edges@, edges@.len() as int, v) by {
            assert(in_tree@[v]) by {
                if !in_tree@[v] {
                    assert(remaining@.contains(v as usize));
                }
            }
        }
    }
    edges
}

/// `v` is joined to point 0 by a path made of the first `k` edges.
pub open spec fn linked(edges: Seq<MstEdge>, k: int, v: int) -> bool
    decreases k,
{
    if k <= 0 {
        v == 0
    } else {
        linked(edges, k - 1, v) || (edges[k - 1].to as int == v && linked(edges, k - 1, edges[k - 1].from as int))
    }
}

proof fn lemma_reached_linked(d: Seq<Vec<u64>>, core: Seq<u64>, edges: Seq<MstEdge>, k: int, v: int)
    requires
        edges_ok(d, core, edges),
        0 <= k <= edges.len(),
        reached(edges, k, v),
    ensures
        linked(edges, k, v),
    decreases k,
{
    if k > 0 {
        if v != 0 {
            let j = choose|j: int| 0 <= j < k && #[trigger] edges[j].to as int == v;
            if j == k - 1 {
                let e = edges[k - 1];
                assert(reached(edges, k - 1, e.from as int));
                lemma_reached_linked(d, core, edges, k - 1, e.from as int);
            } else {
                assert(reached(edges, k - 1, v));
                lemma_reached_linked(d, core, edges, k - 1, v);
            }
        } else {
            lemma_reached_linked(d, core, edges, k - 1, v);
        }
    }
}

/// The spanning tree of `n` points has `n - 1` edges, and every point is
/// joined to point 0 by a path of them.
pub proof fn lemma_mst_spans(d: Seq<Vec<u64>>, core: Seq<u64>, edges: Seq<MstEdge>)
    requires
        d.len() >= 1,
        prim_tree(d, core, edges),
    ensures
        edges.len() == d.len() - 1,
        forall|v: int| 0 <= v < d.len() ==> #[trigger] linked(edges, edges.len() as int, v),
{
    assert forall|v: int| 0 <= v < d.len() implies #[trigger] linked(edges, edges.len() as int, v) by {
        assert(reached(edges, edges.len() as int, v));
        lemma_reached_linked(d, core, edges, edges.len() as int, v);
    }
}

} // verus!
