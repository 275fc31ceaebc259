//! Folding undersized clusters into their most similar large cluster,
//! taking in noise points that are similar enough, and renumbering.

use vstd::prelude::*;

verus! {

/// Similarities are fixed-point: `SIM_SCALE` stands for a cosine similarity of 1.
pub const SIM_SCALE: i64 = 1_000_000_000;

/// How many entries of `s` equal `v`.
pub open spec fn count_label(s: Seq<i32>, v: int) -> nat
    decreases s.len(),
{
    if s.len() == 0 {
        0
    } else {
        count_label(s.drop_last(), v) + if s.last() as int == v {
            1nat
        } else {
            0nat
        }
    }
}

/// Cluster `c` has members, and at least `min_size` of them.
pub open spec fn is_large(labels: Seq<i32>, min_size: int, c: int) -> bool {
    count_label(labels, c) > 0 && count_label(labels, c) >= min_size
}

/// Number of large clusters below `c`: the label that large cluster `c` ends with.
pub open spec fn large_rank(labels: Seq<i32>, min_size: int, c: int) -> int
    decreases c,
{
    if c <= 0 {
        0
    } else {
        large_rank(labels, min_size, c - 1) + if is_large(labels, min_size, c - 1) {
            1int
        } else {
            0int
        }
    }
}

/// Number of clusters with members below `c`: the label that cluster `c`
/// ends with when no cluster is large.
pub open spec fn present_rank(labels: Seq<i32>, c: int) -> int
    decreases c,
{
    if c <= 0 {
        0
    } else {
        present_rank(labels, c - 1) + if count_label(labels, c - 1) > 0 {
            1int
        } else {
            0int
        }
    }
}

/// `b` is the first large cluster of highest similarity in `row`.
pub open spec fn is_best_large(labels: Seq<i32>, min_size: int, row: Seq<i64>, b: int) -> bool {
    &&& 0 <= b < row.len()
    &&& is_large(labels, min_size, b)
    &&& forall|l: int| 0 <= l < row.len() && is_large(labels, min_size, l) ==> #[trigger] row[l] <= row[b]
    &&& forall|l: int| 0 <= l < b && is_large(labels, min_size, l) ==> #[trigger] row[l] < row[b]
}

/// Labels in `-1..m`: noise or one of `m` clusters.
pub open spec fn labels_within(labels: Seq<i32>, m: int) -> bool {
    forall|i: int| 0 <= i < labels.len() ==> -1 <= #[trigger] labels[i] < m
}

pub open spec fn square(sim: Seq<Vec<i64>>, m: int) -> bool {
    sim.len() == m && forall|c: int| 0 <= c < m ==> (#[trigger] sim[c])@.len() == m
}

pub open spec fn rows_of(sim: Seq<Vec<i64>>, n: int, m: int) -> bool {
    sim.len() == n && forall|i: int| 0 <= i < n ==> (#[trigger] sim[i])@.len() == m
}

/// Where point `i` ends after merging, before renumbering: its own cluster if
/// large; the most similar large cluster if its cluster is small; for noise, the
/// most similar large cluster if that similarity reaches `threshold`, else noise.
pub open spec fn merged_label(
    labels: Seq<i32>,
    cluster_sim: Seq<Vec<i64>>,
    point_sim: Seq<Vec<i64>>,
    min_size: int,
    threshold: i64,
    i: int,
    l: int,
) -> bool {
    let c = labels[i] as int;
    if c >= 0 && is_large(labels, min_size, c) {
        l == c
    } else if c >= 0 {
        is_best_large(labels, min_size, cluster_sim[c]@, l)
    } else {
        (l == -1 && forall|b: int| #[trigger] is_best_large(labels, min_size, point_sim[i]@, b) ==> point_sim[i]@[b] < threshold)
            || (is_best_large(labels, min_size, point_sim[i]@, l) && point_sim[i]@[l] >= threshold)
    }
}

/// `v` is where point `i` ends: the renumbered merged cluster, or noise.
pub open spec fn final_label(
    labels: Seq<i32>,
    cluster_sim: Seq<Vec<i64>>,
    point_sim: Seq<Vec<i64>>,
    min_size: int,
    threshold: i64,
    i: int,
    v: i32,
) -> bool {
    (v == -1 && merged_label(labels, cluster_sim, point_sim, min_size, threshold, i, -1)) || exists|l: int|
        0 <= l < cluster_sim.len() && merged_label(labels, cluster_sim, point_sim, min_size, threshold, i, l) && v
            == large_rank(labels, min_size, l)
}

fn cluster_sizes(labels: &Vec<i32>, m: usize) -> (sizes: Vec<usize>)
    requires
        labels_within(labels@, m as int),
    ensures
        sizes@.len() == m,
        forall|c: int| 0 <= c < m ==> #[trigger] sizes@[c] == count_label(labels@, c),
{
    let mut sizes: Vec<usize> = Vec::new();
    let mut c: usize = 0;
    while c < m
        invariant
            c <= m,
            sizes@.len() == c,
            forall|x: int| 0 <= x < c ==> #[trigger] sizes@[x] == 0,
        decreases m - c,
    {
        sizes.push(0);
        c = c + 1;
    }
    let mut i: usize = 0;
    while i < labels.len()
        invariant
            i <= labels@.len(),
            labels_within(labels@, m as int),
            sizes@.len() == m,
            forall|x: int| 0 <= x < m ==> #[trigger] sizes@[x] == count_label(labels@.subrange(0, i as int), x),
            forall|x: int| 0 <= x < m ==> #[trigger] sizes@[x] <= i,
        decreases labels@.len() - i,
    {
        let l = labels[i];
        proof {
            assert(labels@.subrange(0, i + 1).drop_last() =~= labels@.subrange(0, i as int));
        }
        if l >= 0 {
            let k = l as usize;
            let v = sizes[k] + 1;
            sizes.set(k, v);
        }
        i = i + 1;
    }
    assert(labels@.subrange(0, labels@.len() as int) =~= labels@);
    sizes
}

/// The first large cluster of highest similarity in `row`.
fn best_large(row: &Vec<i64>, large: &Vec<bool>) -> (b: usize)
    requires
        row@.len() == large@.len(),
        exists|c: int| 0 <= c < large@.len() && large@[c],
    ensures
        b < row@.len(),
        large@[b as int],
        forall|l: int| 0 <= l < row@.len() && large@[l] ==> #[trigger] row@[l] <= row@[b as int],
        forall|l: int| 0 <= l < b && large@[l] ==> #[trigger] row@[l] < row@[b as int],
{
    let mut found = false;
    let mut b: usize = 0;
    let mut c: usize = 0;
    while c < row.len()
        invariant
            c <= row@.len(),
            row@.len() == large@.len(),
            found ==> b < c && large@[b as int],
            !found ==> forall|l: int| 0 <= l < c ==> !large@[l],
            found ==> forall|l: int| 0 <= l < c && large@[l] ==> #[trigger] row@[l] <= row@[b as int],
            found ==> forall|l: int| 0 <= l < b && large@[l] ==> #[trigger] row@[l] < row@[b as int],
        decreases row@.len() - c,
    {
        if large[c] && (!found || row[c] > row[b]) {
            b = c;
            found = true;
        }
        c = c + 1;
    }
    b
}

/// Merges every cluster smaller than `min_size` into the large cluster whose
/// centroid is most similar (`cluster_sim`), takes a noise point into the most
/// similar large cluster when `point_sim` reaches `outlier_threshold`, and
/// renumbers the large clusters `0, 1, ...` in order. With no large cluster
/// nothing is merged or taken in, and the clusters with members are
/// renumbered `0, 1, ...` in order.
pub fn merge_small_clusters(
    labels: &Vec<i32>,
    cluster_sim: &Vec<Vec<i64>>,
    point_sim: &Vec<Vec<i64>>,
    min_size: usize,
    outlier_threshold: i64,
) -> (r: Vec<i32>)
    requires
        cluster_sim@.len() < i32::MAX,
        labels_within(labels@, cluster_sim@.len() as int),
        square(cluster_sim@, cluster_sim@.len() as int),
        rows_of(point_sim@, labels@.len() as int, cluster_sim@.len() as int),
    ensures
        r@.len() == labels@.len(),
        (forall|c: int| 0 <= c < cluster_sim@.len() ==> !is_large(labels@, min_size as int, c)) ==> forall|i: int|
            0 <= i < labels@.len() ==> #[trigger] r@[i] == if labels@[i] < 0 {
                -1
            } else {
                present_rank(labels@, labels@[i] as int)
            },
        (exists|c: int| 0 <= c < cluster_sim@.len() && is_large(labels@, min_size as int, c)) ==> forall|i: int|
            0 <= i < labels@.len() ==> #[trigger] final_label(
                labels@,
                cluster_sim@,
                point_sim@,
                min_size as int,
                outlier_threshold,
                i,
                r@[i],
            ),
{
    let m = cluster_sim.len();
    let n = labels.len();
    let ghost ls = labels@;
    let ghost ms = min_size as int;
    let sizes = cluster_sizes(labels, m);
    let mut large: Vec<bool> = Vec::new();
    let mut rank: Vec<i32> = Vec::new();
    let mut any_large = false;
    let mut next: i32 = 0;
    let mut prank: Vec<i32> = Vec::new();
    let mut pnext: i32 = 0;
    let mut c: usize = 0;
    while c < m
        invariant
            c <= m,
            m < i32::MAX,
            sizes@.len() == m,
            forall|x: int| 0 <= x < m ==> #[trigger] sizes@[x] == count_label(ls, x),
            ms == min_size as int,
            large@.len() == c && rank@.len() == c,
            forall|x: int| 0 <= x < c ==> #[trigger] large@[x] == is_large(ls, ms, x),
            forall|x: int| 0 <= x < c ==> #[trigger] rank@[x] == large_rank(ls, ms, x),
            next == large_rank(ls, ms, c as int),
            0 <= next <= c,
            any_large == exists|x: int| 0 <= x < c && is_large(ls, ms, x),
            prank@.len() == c,
            forall|x: int| 0 <= x < c ==> #[trigger] prank@[x] == present_rank(ls, x),
            pnext == present_rank(ls, c as int),
            0 <= pnext <= c,
        decreases m - c,
    {
        let big = sizes[c] > 0 && sizes[c] >= min_size;
        large.push(big);
        rank.push(next);
        prank.push(pnext);
        if sizes[c] > 0 {
            pnext = pnext + 1;
        }
        if big {
            next = next + 1;
            any_large = true;
        }
        proof {
            if big {
                assert(is_large(ls, ms, c as int));
            } else if exists|x: int| 0 <= x < c + 1 && is_large(ls, ms, x) {
                let x = choose|x: int| 0 <= x < c + 1 && is_large(ls, ms, x);
                assert(x != c);
            }
        }
        c = c + 1;
    }
    let mut r: Vec<i32> = Vec::new();
    if !any_large {
        let mut i: usize = 0;
        while i < n
            invariant
                i <= n,
                n == labels@.len(),
                labels_within(labels@, m as int),
                prank@.len() == m,
                forall|x: int| 0 <= x < m ==> #[trigger] prank@[x] == present_rank(ls, x),
                ls == labels@,
                r@.len() == i,
                forall|j: int| 0 <= j < i ==> #[trigger] r@[j] == if ls[j] < 0 {
                    -1
                } else {
                    present_rank(ls, ls[j] as int)
                },
            decreases n - i,
        {
            let l = labels[i];
            if l < 0 {
                r.push(-1);
            } else {
                r.push(prank[l as usize]);
            }
            i = i + 1;
        }
        return r;
    }
    let mut i: usize = 0;
    while i < n
        invariant
            i <= n,
            n == labels@.len(),
            ls == labels@,
            ms == min_size as int,
            m == cluster_sim@.len(),
            m < i32::MAX,
            labels_within(ls, m as int),
            square(cluster_sim@, m as int),
            rows_of(point_sim@, n as int, m as int),
            large@.len() == m && rank@.len() == m,
            forall|x: int| 0 <= x < m ==> #[trigger] large@[x] == is_large(ls, ms, x),
            forall|x: int| 0 <= x < m ==> #[trigger] rank@[x] == large_rank(ls, ms, x),
            exists|x: int| 0 <= x < m && is_large(ls, ms, x),
            r@.len() == i,
            forall|j: int| 0 <= j < i ==> #[trigger] final_label(ls, cluster_sim@, point_sim@, ms, outlier_threshold, j, r@[j]),
        decreases n - i,
    {
        let c = labels[i];
        proof {
            let x = choose|x: int| 0 <= x < m && is_large(ls, ms, x);
            assert(large@[x]);
        }
        let ghost old_r = r@;
        let mut v: i32 = -1;
        let ghost mut lw: int = -1;
        if c >= 0 && large[c as usize] {
            v = rank[c as usize];
            proof {
                lw = c as int;
            }
        } else if c >= 0 {
            let b = best_large(&cluster_sim[c as usize], &large);
            v = rank[b];
            proof {
                lw = b as int;
                assert(is_best_large(ls, ms, cluster_sim@[c as int]@, b as int));
            }
        } else {
            let b = best_large(&point_sim[i], &large);
            proof {
                assert(is_best_large(ls, ms, point_sim@[i as int]@, b as int));
            }
            if point_sim[i][b] >= outlier_threshold {
                v = rank[b];
                proof {
                    lw = b as int;
                }
            } else {
                proof {
                    let row = point_sim@[i as int]@;
                    assert forall|b2: int| #[trigger] is_best_large(ls, ms, row, b2) implies row[b2] < outlier_threshold by {
                        assert(row[b2] <= row[b as int]);
                    }
                }
            }
        }
        r.push(v);
        proof {
            if lw >= 0 {
                assert(0 <= lw < m);
                assert(merged_label(ls, cluster_sim@, point_sim@, ms, outlier_threshold, i as int, lw));
                assert(r@[i as int] == large_rank(ls, ms, lw));
            } else {
                assert(merged_label(ls, cluster_sim@, point_sim@, ms, outlier_threshold, i as int, -1));
            }
            assert(final_label(ls, cluster_sim@, point_sim@, ms, outlier_threshold, i as int, v));
            assert forall|j: int| 0 <= j < i + 1 implies #[trigger] final_label(ls, cluster_sim@, point_sim@, ms, outlier_threshold, j, r@[j]) by {
                if j < i {
                    assert(r@[j] == old_r[j]);
                }
            }
        }
        i = i + 1;
    }
    r
}

proof fn lemma_count_mono(a: Seq<i32>, b: Seq<i32>, x: int, y: int)
    requires
        a.len() == b.len(),
        forall|j: int| 0 <= j < a.len() && a[j] as int == x ==> b[j] as int == y,
    ensures
        count_label(b, y) >= count_label(a, x),
    decreases a.len(),
{
    if a.len() > 0 {
        assert forall|j: int| 0 <= j < a.drop_last().len() && a.drop_last()[j] as int == x implies b.drop_last()[j] as int == y by {
            assert(a.drop_last()[j] == a[j]);
            assert(b.drop_last()[j] == b[j]);
        }
        lemma_count_mono(a.drop_last(), b.drop_last(), x, y);
    }
}

/// After merging, every label that remains is held by at least `min_size`
/// points, and every point still has a label.
pub proof fn lemma_merge_leaves_no_small_cluster(
    labels: Seq<i32>,
    cluster_sim: Seq<Vec<i64>>,
    point_sim: Seq<Vec<i64>>,
    min_size: int,
    threshold: i64,
    r: Seq<i32>,
)
    requires
        labels_within(labels, cluster_sim.len() as int),
        r.len() == labels.len(),
        forall|i: int| 0 <= i < labels.len() ==> #[trigger] final_label(labels, cluster_sim, point_sim, min_size, threshold, i, r[i]),
    ensures
        forall|i: int| 0 <= i < r.len() && r[i] >= 0 ==> #[trigger] count_label(r, r[i] as int) >= min_size,
        forall|i: int| 0 <= i < r.len() ==> #[trigger] r[i] >= -1,
{
    assert forall|i: int| 0 <= i < r.len() && r[i] >= 0 implies #[trigger] count_label(r, r[i] as int) >= min_size by {
        assert(final_label(labels, cluster_sim, point_sim, min_size, threshold, i, r[i]));
        let l = choose|l: int|
            0 <= l < cluster_sim.len() && merged_label(labels, cluster_sim, point_sim, min_size, threshold, i, l) && r[i]
                == large_rank(labels, min_size, l);
        assert(is_large(labels, min_size, l)) by {
            let c = labels[i] as int;
            if c >= 0 && is_large(labels, min_size, c) {
            } else if c >= 0 {
            } else {
            }
        }
        assert forall|j: int| 0 <= j < labels.len() && labels[j] as int == l implies r[j] as int == r[i] as int by {
            assert(final_label(labels, cluster_sim, point_sim, min_size, threshold, j, r[j]));
            if r[j] == -1 && merged_label(labels, cluster_sim, point_sim, min_size, threshold, j, -1) {
                assert(false);
            } else {
                let l2 = choose|l2: int|
                    0 <= l2 < cluster_sim.len() && merged_label(labels, cluster_sim, point_sim, min_size, threshold, j, l2) && r[j]
                        == large_rank(labels, min_size, l2);
                assert(l2 == l);
            }
        }
        lemma_count_mono(labels, r, l, r[i] as int);
    }
    assert forall|i: int| 0 <= i < r.len() implies #[trigger] r[i] >= -1 by {
        assert(final_label(labels, cluster_sim, point_sim, min_size, threshold, i, r[i]));
        if r[i] != -1 {
            let l = choose|l: int|
                0 <= l < cluster_sim.len() && merged_label(labels, cluster_sim, point_sim, min_size, threshold, i, l) && r[i]
                    == large_rank(labels, min_size, l);
            lemma_large_rank_nonneg(labels, min_size, l);
        }
    }
}

proof fn lemma_large_rank_nonneg(labels: Seq<i32>, min_size: int, c: int)
    ensures
        large_rank(labels, min_size, c) >= 0,
    decreases c,
{
    if c > 0 {
        lemma_large_rank_nonneg(labels, min_size, c - 1);
    }
}

} // verus!
