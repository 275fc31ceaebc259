//! Classic DBSCAN over a fixed-point distance matrix.

use vstd::prelude::*;

use crate::spanning::{dist_matrix, symmetric};

verus! {

/// The indices `j < k` with `row[j] <= eps`, ascending.
pub open spec fn nbrs(row: Seq<u64>, eps: u64, k: int) -> Seq<usize>
    decreases k,
{
    if k <= 0 {
        Seq::empty()
    } else if row[k - 1] <= eps {
        nbrs(row, eps, k - 1).push((k - 1) as usize)
    } else {
        nbrs(row, eps, k - 1)
    }
}

proof fn lemma_nbrs(row: Seq<u64>, eps: u64, k: int)
    requires
        0 <= k <= row.len(),
        row.len() <= usize::MAX,
    ensures
        nbrs(row, eps, k).len() <= k,
        forall|t: int| 0 <= t < nbrs(row, eps, k).len() ==> (#[trigger] nbrs(row, eps, k)[t] as int) < k,
        forall|t: int| 0 <= t < nbrs(row, eps, k).len() ==> row[#[trigger] nbrs(row, eps, k)[t] as int] <= eps,
    decreases k,
{
    if k > 0 {
        lemma_nbrs(row, eps, k - 1);
        let p = nbrs(row, eps, k - 1);
        if row[k - 1] <= eps {
            assert forall|t: int| 0 <= t < nbrs(row, eps, k).len() implies row[#[trigger] nbrs(row, eps, k)[t] as int] <= eps by {
                assert(nbrs(row, eps, k) == p.push((k - 1) as usize));
                if t < p.len() {
                    assert(nbrs(row, eps, k)[t] == p[t]);
                } else {
                    assert(nbrs(row, eps, k)[t] == (k - 1) as usize);
                }
            }
        }
    }
}

/// Point `i` has at least `min_samples` points (itself included) within `eps`.
pub open spec fn is_core(d: Seq<Vec<u64>>, eps: u64, min_samples: int, i: int) -> bool {
    nbrs(d[i]@, eps, d.len() as int).len() >= min_samples
}

fn neighbors(distances: &Vec<Vec<u64>>, i: usize, eps: u64) -> (r: Vec<usize>)
    requires
        dist_matrix(distances@),
        i < distances@.len(),
    ensures
        r@ == nbrs(distances@[i as int]@, eps, distances@.len() as int),
        forall|t: int| 0 <= t < r@.len() ==> (#[trigger] r@[t] as int) < distances@.len(),
        forall|t: int| 0 <= t < r@.len() ==> distances@[i as int]@[#[trigger] r@[t] as int] <= eps,
{
    let n = distances.len();
    let row = &distances[i];
    let mut r: Vec<usize> = Vec::new();
    let mut j: usize = 0;
    while j < n
        invariant
            j <= n,
            n == distances@.len(),
            row@ == distances@[i as int]@,
            row@.len() == n,
            r@ == nbrs(row@, eps, j as int),
        decreases n - j,
    {
        if row[j] <= eps {
            r.push(j);
        }
        j = j + 1;
    }
    proof {
        lemma_nbrs(row@, eps, n as int);
    }
    r
}

/// How many entries of `s` are noise (-1).
pub open spec fn count_unlabelled(s: Seq<i32>) -> nat
    decreases s.len(),
{
    if s.len() == 0 {
        0
    } else {
        count_unlabelled(s.drop_last()) + if s.last() == -1 {
            1nat
        } else {
            0nat
        }
    }
}

proof fn lemma_count_unlabelled_set(s: Seq<i32>, i: int, v: i32)
    requires
        0 <= i < s.len(),
        s[i] == -1,
        v != -1,
    ensures
        count_unlabelled(s.update(i, v)) + 1 == count_unlabelled(s),
    decreases s.len(),
{
    let u = s.update(i, v);
    if i == s.len() - 1 {
        assert(u.drop_last() =~= s.drop_last());
    } else {
        assert(u.drop_last() =~= s.drop_last().update(i, v));
        lemma_count_unlabelled_set(s.drop_last(), i, v);
    }
}

/// Number of noise entries.
fn count_remaining(labels: &Vec<i32>) -> (r: usize)
    ensures
        r == count_unlabelled(labels@),
{
    let mut c: usize = 0;
    let mut i: usize = 0;
    while i < labels.len()
        invariant
            i <= labels@.len(),
            c == count_unlabelled(labels@.subrange(0, i as int)),
            c <= i,
        decreases labels@.len() - i,
    {
        proof {
            assert(labels@.subrange(0, i + 1).drop_last() =~= labels@.subrange(0, i as int));
        }
        if labels[i] == -1 {
            c = c + 1;
        }
        i = i + 1;
    }
    assert(labels@.subrange(0, labels@.len() as int) =~= labels@);
    c
}

/// Point `x` is a core point of cluster `c`, or within `eps` of one.
pub open spec fn near_core(d: Seq<Vec<u64>>, eps: u64, min_samples: int, labels: Seq<i32>, c: int, x: int) -> bool {
    exists|q: int|
        0 <= q < d.len() && #[trigger] is_core(d, eps, min_samples, q) && labels[q] == c && (q == x || d[q]@[x] <= eps)
}

/// Some core point carries label `c`.
pub open spec fn core_labelled(d: Seq<Vec<u64>>, eps: u64, min_samples: int, labels: Seq<i32>, c: int) -> bool {
    exists|p: int| 0 <= p < labels.len() && is_core(d, eps, min_samples, p) && #[trigger] labels[p] == c
}

/// The labels of DBSCAN with `clusters` clusters: noise is -1 and the
/// clusters are `0..clusters`, each holding a core point. Every core point is
/// in a cluster, and two core points within `eps` are in the same one; a point
/// within `eps` of a core point is in a cluster; every point in a cluster is a
/// core point of it or within `eps` of one; a border point is in the
/// lowest-numbered cluster that has a core point within `eps` of it.
pub open spec fn dbscan_labels(d: Seq<Vec<u64>>, eps: u64, min_samples: int, labels: Seq<i32>, clusters: int) -> bool {
    &&& labels.len() == d.len()
    &&& forall|p: int| 0 <= p < labels.len() ==> -1 <= #[trigger] labels[p] < clusters
    &&& forall|p: int| 0 <= p < labels.len() && is_core(d, eps, min_samples, p) ==> #[trigger] labels[p] >= 0
    &&& forall|p: int|
        0 <= p < labels.len() && #[trigger] labels[p] >= 0 ==> near_core(d, eps, min_samples, labels, labels[p] as int, p)
    &&& forall|p: int, q: int|
        0 <= p < labels.len() && 0 <= q < labels.len() && is_core(d, eps, min_samples, q) && #[trigger] d[q]@[p] <= eps
            ==> labels[p] >= 0
    &&& forall|p: int, q: int|
        0 <= p < labels.len() && 0 <= q < labels.len() && #[trigger] is_core(d, eps, min_samples, p)
            && #[trigger] is_core(d, eps, min_samples, q) && d[p]@[q] <= eps ==> labels[p] == labels[q]
    &&& forall|p: int, q: int|
        0 <= p < labels.len() && 0 <= q < labels.len() && !is_core(d, eps, min_samples, p) && is_core(
            d,
            eps,
            min_samples,
            q,
        ) && #[trigger] d[q]@[p] <= eps ==> labels[p] <= labels[q]
    &&& forall|c: int| 0 <= c < clusters ==> #[trigger] core_labelled(d, eps, min_samples, labels, c)
}

/// A border point's label in `out`: noise when no core point is within `eps`,
/// else the lowest label of those core points.
pub open spec fn border_ok(d: Seq<Vec<u64>>, eps: u64, core: Seq<bool>, labels: Seq<i32>, x: int, v: i32) -> bool {
    ||| (v == -1 && forall|y: int| 0 <= y < d.len() && core[y] ==> #[trigger] d[y]@[x] > eps)
    ||| ((exists|y: int| 0 <= y < d.len() && core[y] && #[trigger] d[y]@[x] <= eps && labels[y] == v) && (forall|y: int|
        0 <= y < d.len() && core[y] && #[trigger] d[y]@[x] <= eps ==> v <= labels[y]))
}

/// Grows cluster `cluster_id` from the core points on `stack` through the
/// core points within `eps`.
fn grow_cluster(
    distances: &Vec<Vec<u64>>,
    eps: u64,
    core: &Vec<bool>,
    labels: &mut Vec<i32>,
    stack: &mut Vec<usize>,
    cluster_id: i32,
    ms: Ghost<int>,
    i: Ghost<int>,
)
    requires
        dist_matrix(distances@),
        symmetric(distances@),
        distances@.len() < i32::MAX,
        0 <= cluster_id < distances@.len(),
        0 <= i@ < distances@.len(),
        core@.len() == distances@.len(),
        old(labels)@.len() == distances@.len(),
        forall|p: int| 0 <= p < distances@.len() ==> #[trigger] core@[p] == is_core(distances@, eps, ms@, p),
        forall|t: int|
            0 <= t < old(stack)@.len() ==> (#[trigger] old(stack)@[t] as int) < distances@.len() && old(labels)@[old(
                stack,
            )@[t] as int] == cluster_id && core@[old(stack)@[t] as int],
        forall|p: int| 0 <= p < distances@.len() ==> -1 <= #[trigger] old(labels)@[p] <= cluster_id,
        forall|p: int| 0 <= p < distances@.len() && !core@[p] ==> #[trigger] old(labels)@[p] == -1,
        forall|p: int| 0 <= p < i@ && core@[p] ==> #[trigger] old(labels)@[p] >= 0,
        old(labels)@[i@] == cluster_id,
        forall|p: int, q: int|
            0 <= p < distances@.len() && 0 <= q < distances@.len() && #[trigger] core@[p] && #[trigger] core@[q]
                && distances@[p]@[q] <= eps && old(labels)@[p] >= 0 && !old(stack)@.contains(p as usize) ==> old(
                labels,
            )@[q] == old(labels)@[p],
        forall|c: int| 0 <= c <= cluster_id ==> #[trigger] core_labelled(distances@, eps, ms@, old(labels)@, c),
    ensures
        final(labels)@.len() == distances@.len(),
        forall|p: int| 0 <= p < distances@.len() ==> -1 <= #[trigger] final(labels)@[p] <= cluster_id,
        forall|p: int| 0 <= p < distances@.len() && !core@[p] ==> #[trigger] final(labels)@[p] == -1,
        forall|p: int| 0 <= p < i@ && core@[p] ==> #[trigger] final(labels)@[p] >= 0,
        final(labels)@[i@] == cluster_id,
        forall|p: int, q: int|
            0 <= p < distances@.len() && 0 <= q < distances@.len() && #[trigger] core@[p] && #[trigger] core@[q]
                && distances@[p]@[q] <= eps && final(labels)@[p] >= 0 ==> final(labels)@[q] == final(labels)@[p],
        forall|c: int| 0 <= c <= cluster_id ==> #[trigger] core_labelled(distances@, eps, ms@, final(labels)@, c),
{
    let n = distances.len();
    let ghost d = distances@;
    let mut unl: usize = count_remaining(labels);
    while stack.len() > 0
        invariant
            n == d.len(),
            d == distances@,
            dist_matrix(d),
            symmetric(d),
            n < i32::MAX,
            0 <= cluster_id < n,
            0 <= i@ < n,
            core@.len() == n,
            labels@.len() == n,
            forall|p: int| 0 <= p < n ==> #[trigger] core@[p] == is_core(d, eps, ms@, p),
            unl == count_unlabelled(labels@),
            forall|t: int|
                0 <= t < stack@.len() ==> (#[trigger] stack@[t] as int) < n && labels@[stack@[t] as int] == cluster_id
                    && core@[stack@[t] as int],
            forall|p: int| 0 <= p < n ==> -1 <= #[trigger] labels@[p] <= cluster_id,
            forall|p: int| 0 <= p < n && !core@[p] ==> #[trigger] labels@[p] == -1,
            forall|p: int| 0 <= p < i@ && core@[p] ==> #[trigger] labels@[p] >= 0,
            labels@[i@] == cluster_id,
            forall|p: int, q: int|
                0 <= p < n && 0 <= q < n && #[trigger] core@[p] && #[trigger] core@[q] && d[p]@[q] <= eps && labels@[p] >= 0
                    && !stack@.contains(p as usize) ==> labels@[q] == labels@[p],
            forall|c: int| 0 <= c <= cluster_id ==> #[trigger] core_labelled(d, eps, ms@, labels@, c),
        decreases unl, stack@.len(),
    {
        let ghost s0 = stack@;
        let q = stack.pop().unwrap();
        proof {
            assert forall|x: int, y: int|
                0 <= x < n && 0 <= y < n && #[trigger] core@[x] && #[trigger] core@[y] && d[x]@[y] <= eps && labels@[x] >= 0
                    && !stack@.contains(x as usize) && x != q implies labels@[y] == labels@[x] by {
                if s0.contains(x as usize) {
                    let t = choose|t: int| 0 <= t < s0.len() && s0[t] == x as usize;
                    if t < s0.len() - 1 {
                        assert(stack@[t] == x as usize);
                    }
                }
            }
        }
        let ghost u0 = unl;
        let ghost sl0 = stack@.len();
        let mut p: usize = 0;
        while p < n
            invariant
                unl <= u0,
                unl == u0 ==> stack@.len() == sl0,
                sl0 < s0.len(),
                n == d.len(),
                d == distances@,
                dist_matrix(d),
                symmetric(d),
                q < n,
                p <= n,
                n < i32::MAX,
                0 <= cluster_id < n,
                0 <= i@ < n,
                core@.len() == n,
                labels@.len() == n,
                forall|x: int| 0 <= x < n ==> #[trigger] core@[x] == is_core(d, eps, ms@, x),
                unl == count_unlabelled(labels@),
                core@[q as int],
                labels@[q as int] == cluster_id,
                forall|t: int|
                    0 <= t < stack@.len() ==> (#[trigger] stack@[t] as int) < n && labels@[stack@[t] as int] == cluster_id
                        && core@[stack@[t] as int],
                forall|x: int| 0 <= x < n ==> -1 <= #[trigger] labels@[x] <= cluster_id,
                forall|x: int| 0 <= x < n && !core@[x] ==> #[trigger] labels@[x] == -1,
                forall|x: int| 0 <= x < i@ && core@[x] ==> #[trigger] labels@[x] >= 0,
                labels@[i@] == cluster_id,
                forall|x: int, y: int|
                    0 <= x < n && 0 <= y < n && #[trigger] core@[x] && #[trigger] core@[y] && d[x]@[y] <= eps && labels@[x] >= 0
                        && !stack@.contains(x as usize) && x != q ==> labels@[y] == labels@[x],
                forall|y: int| 0 <= y < p && core@[y] && #[trigger] d[q as int]@[y] <= eps ==> labels@[y] == cluster_id,
                forall|c: int| 0 <= c <= cluster_id ==> #[trigger] core_labelled(d, eps, ms@, labels@, c),
            decreases n - p,
        {
            proof {
                assert(d[q as int]@.len() == n);
            }
            if core[p] && distances[q][p] <= eps {
                if labels[p] == -1 {
                    let ghost l1 = labels@;
                    let ghost s1 = stack@;
                    labels.set(p, cluster_id);
                    stack.push(p);
                    proof {
                        lemma_count_unlabelled_set(l1, p as int, cluster_id);
                        assert forall|c: int| 0 <= c <= cluster_id implies #[trigger] core_labelled(d, eps, ms@, labels@, c) by {
                            assert(core_labelled(d, eps, ms@, l1, c));
                            let x = choose|x: int| 0 <= x < l1.len() && is_core(d, eps, ms@, x) && #[trigger] l1[x] == c;
                            assert(labels@[x] == c);
                        }
                        assert forall|t: int| 0 <= t < stack@.len() implies (#[trigger] stack@[t] as int) < n && labels@[stack@[t] as int]
                            == cluster_id && core@[stack@[t] as int] by {
                            if t < s1.len() {
                                assert(stack@[t] == s1[t]);
                            }
                        }
                        assert forall|x: int, y: int|
                            0 <= x < n && 0 <= y < n && #[trigger] core@[x] && #[trigger] core@[y] && d[x]@[y] <= eps && labels@[x] >= 0
                                && !stack@.contains(x as usize) && x != q implies labels@[y] == labels@[x] by {
                            if x == p as int {
                                assert(stack@[stack@.len() - 1] == p);
                            }
                            assert(!s1.contains(x as usize)) by {
                                if s1.contains(x as usize) {
                                    let t = choose|t: int| 0 <= t < s1.len() && s1[t] == x as usize;
                                    assert(stack@[t] == x as usize);
                                }
                            }
                            assert(l1[y] == l1[x]);
                        }
                        assert(count_unlabelled(l1) >= 1);
                    }
                    unl = unl - 1;
                } else {
                    proof {
                        if labels@[p as int] != cluster_id {
                            assert(!stack@.contains(p as usize)) by {
                                if stack@.contains(p as usize) {
                                    let t = choose|t: int| 0 <= t < stack@.len() && stack@[t] == p as usize;
                                }
                            }
                            assert(d[p as int]@[q as int] == d[q as int]@[p as int]);
                        }
                    }
                }
            }
            p = p + 1;
        }
        proof {
            assert forall|x: int, y: int|
                0 <= x < n && 0 <= y < n && #[trigger] core@[x] && #[trigger] core@[y] && d[x]@[y] <= eps && labels@[x] >= 0
                    && !stack@.contains(x as usize) implies labels@[y] == labels@[x] by {
                if x == q as int {
                    assert(d[q as int]@[y] <= eps);
                }
            }
        }
    }
}

/// DBSCAN: each unlabelled core point, in index order, opens a cluster that
/// takes every core point reachable through core points within `eps`; then
/// each other point joins the lowest-numbered cluster with a core point within
/// `eps` of it, or stays noise.
pub fn dbscan(distances: &Vec<Vec<u64>>, eps: u64, min_samples: usize) -> (labels: Vec<i32>)
    requires
        dist_matrix(distances@),
        symmetric(distances@),
        distances@.len() < i32::MAX,
    ensures
        exists|c: int| 0 <= c <= distances@.len() && dbscan_labels(distances@, eps, min_samples as int, labels@, c),
{
    let n = distances.len();
    let ghost d = distances@;
    let ghost ms = min_samples as int;
    let mut core: Vec<bool> = Vec::new();
    let mut labels: Vec<i32> = Vec::new();
    let mut z: usize = 0;
    while z < n
        invariant
            z <= n,
            n == d.len(),
            d == distances@,
            ms == min_samples as int,
            dist_matrix(d),
            core@.len() == z,
            labels@.len() == z,
            forall|p: int| 0 <= p < z ==> #[trigger] core@[p] == is_core(d, eps, ms, p),
            forall|p: int| 0 <= p < z ==> #[trigger] labels@[p] == -1,
        decreases n - z,
    {
        let nb = neighbors(distances, z, eps);
        core.push(nb.len() >= min_samples);
        labels.push(-1);
        z = z + 1;
    }
    let mut cluster_id: i32 = 0;
    let mut i: usize = 0;
    while i < n
        invariant
            i <= n,
            n == d.len(),
            d == distances@,
            ms == min_samples as int,
            dist_matrix(d),
            symmetric(d),
            n < i32::MAX,
            core@.len() == n,
            labels@.len() == n,
            forall|p: int| 0 <= p < n ==> #[trigger] core@[p] == is_core(d, eps, ms, p),
            0 <= cluster_id <= i,
            forall|p: int| 0 <= p < n ==> -1 <= #[trigger] labels@[p] < cluster_id,
            forall|p: int| 0 <= p < n && !core@[p] ==> #[trigger] labels@[p] == -1,
            forall|p: int| 0 <= p < i && core@[p] ==> #[trigger] labels@[p] >= 0,
            forall|p: int, q: int|
                0 <= p < n && 0 <= q < n && #[trigger] core@[p] && #[trigger] core@[q] && d[p]@[q] <= eps && labels@[p] >= 0
                    ==> labels@[q] == labels@[p],
            forall|c: int| 0 <= c < cluster_id ==> #[trigger] core_labelled(d, eps, ms, labels@, c),
        decreases n - i,
    {
        if core[i] && labels[i] == -1 {
            let ghost l0 = labels@;
            labels.set(i, cluster_id);
            proof {
                assert forall|c: int| 0 <= c < cluster_id implies #[trigger] core_labelled(d, eps, ms, labels@, c) by {
                    assert(core_labelled(d, eps, ms, l0, c));
                    let p = choose|p: int| 0 <= p < l0.len() && is_core(d, eps, ms, p) && #[trigger] l0[p] == c;
                    assert(labels@[p] == c);
                }
                assert(labels@[i as int] == cluster_id);
                assert(core_labelled(d, eps, ms, labels@, cluster_id as int));
                assert forall|p: int, q: int|
                    0 <= p < n && 0 <= q < n && #[trigger] core@[p] && #[trigger] core@[q] && d[p]@[q] <= eps && labels@[p] >= 0
                        && !seq![i].contains(p as usize) implies labels@[q] == labels@[p] by {
                    if p != i {
                        if q == i {
                            assert(d[q]@[p] == d[p]@[q]);
                            assert(l0[p] >= 0);
                            assert(l0[q] == l0[p]);
                        }
                    } else {
                        assert(seq![i][0] == i);
                    }
                }
            }
            let mut stack: Vec<usize> = Vec::new();
            stack.push(i);
            proof {
                assert(stack@ =~= seq![i]);
            }
            grow_cluster(distances, eps, &core, &mut labels, &mut stack, cluster_id, Ghost(ms), Ghost(i as int));
            cluster_id = cluster_id + 1;
        }
        i = i + 1;
    }
    let mut out: Vec<i32> = Vec::new();
    let mut p: usize = 0;
    while p < n
        invariant
            p <= n,
            n == d.len(),
            d == distances@,
            ms == min_samples as int,
            dist_matrix(d),
            core@.len() == n,
            labels@.len() == n,
            forall|x: int| 0 <= x < n ==> #[trigger] core@[x] == is_core(d, eps, ms, x),
            forall|x: int| 0 <= x < n ==> -1 <= #[trigger] labels@[x] < cluster_id,
            forall|x: int| 0 <= x < n && core@[x] ==> #[trigger] labels@[x] >= 0,
            out@.len() == p,
            forall|x: int| 0 <= x < p && core@[x] ==> #[trigger] out@[x] == labels@[x],
            forall|x: int| 0 <= x < p && !core@[x] ==> border_ok(d, eps, core@, labels@, x, #[trigger] out@[x]),
        decreases n - p,
    {
        if core[p] {
            out.push(labels[p]);
        } else {
            let mut best: i32 = -1;
            let mut q: usize = 0;
            while q < n
                invariant
                    q <= n,
                    p < n,
                    n == d.len(),
                    d == distances@,
                    dist_matrix(d),
                    core@.len() == n,
                    labels@.len() == n,
                    forall|x: int| 0 <= x < n && core@[x] ==> #[trigger] labels@[x] >= 0,
                    best == -1 ==> forall|y: int| 0 <= y < q && core@[y] ==> #[trigger] d[y]@[p as int] > eps,
                    best != -1 ==> (exists|y: int| 0 <= y < q && core@[y] && #[trigger] d[y]@[p as int] <= eps && labels@[y] == best),
                    best != -1 ==> forall|y: int| 0 <= y < q && core@[y] && #[trigger] d[y]@[p as int] <= eps ==> best <= labels@[y],
                decreases n - q,
            {
                proof {
                    assert(d[q as int]@.len() == n);
                }
                if core[q] && distances[q][p] <= eps && (best == -1 || labels[q] < best) {
                    best = labels[q];
                }
                q = q + 1;
            }
            proof {
                assert(border_ok(d, eps, core@, labels@, p as int, best));
            }
            out.push(best);
        }
        p = p + 1;
    }
    proof {
        let c = cluster_id as int;
        assert forall|x: int| 0 <= x < n implies -1 <= #[trigger] out@[x] < c by {
            if !core@[x] && out@[x] != -1 {
                assert(border_ok(d, eps, core@, labels@, x, out@[x]));
                let y = choose|y: int| 0 <= y < n && core@[y] && #[trigger] d[y]@[x] <= eps && labels@[y] == out@[x];
            }
        }
        assert forall|x: int| 0 <= x < n && #[trigger] out@[x] >= 0 implies near_core(d, eps, ms, out@, out@[x] as int, x) by {
            if core@[x] {
                assert(is_core(d, eps, ms, x));
            } else {
                assert(border_ok(d, eps, core@, labels@, x, out@[x]));
                let y = choose|y: int| 0 <= y < n && core@[y] && #[trigger] d[y]@[x] <= eps && labels@[y] == out@[x];
                assert(is_core(d, eps, ms, y) && out@[y] == out@[x]);
            }
        }
        assert forall|x: int, y: int|
            0 <= x < n && 0 <= y < n && is_core(d, eps, ms, y) && #[trigger] d[y]@[x] <= eps implies out@[x] >= 0 by {
            assert(core@[y]);
            if !core@[x] {
                assert(border_ok(d, eps, core@, labels@, x, out@[x]));
                if out@[x] == -1 {
                    assert(d[y]@[x] > eps);
                }
            }
        }
        assert forall|x: int, y: int|
            0 <= x < n && 0 <= y < n && !is_core(d, eps, ms, x) && is_core(d, eps, ms, y) && #[trigger] d[y]@[x] <= eps implies #[trigger] out@[x]
                <= out@[y] by {
            assert(core@[y] && !core@[x]);
            assert(border_ok(d, eps, core@, labels@, x, out@[x]));
            if out@[x] == -1 {
                assert(d[y]@[x] > eps);
            }
        }
        assert forall|x: int, y: int|
            0 <= x < n && 0 <= y < n && #[trigger] is_core(d, eps, ms, x) && #[trigger] is_core(d, eps, ms, y) && d[x]@[y] <= eps implies out@[x]
                == out@[y] by {
            assert(core@[x] && core@[y]);
        }
        assert forall|k: int| 0 <= k < c implies #[trigger] core_labelled(d, eps, ms, out@, k) by {
            assert(core_labelled(d, eps, ms, labels@, k));
            let x = choose|x: int| 0 <= x < labels@.len() && is_core(d, eps, ms, x) && #[trigger] labels@[x] == k;
            assert(core@[x]);
            assert(out@[x] == k);
        }
        assert(dbscan_labels(d, eps, ms, out@, c));
    }
    out
}

} // verus!
