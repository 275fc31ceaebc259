//! Helpers that assemble a taxonomy from labels: members, noise, episode
//! lists and relevance order.

use vstd::prelude::*;

use crate::spanning::sort_ascending;

verus! {

/// How many entries of `labels` are noise (-1).
pub open spec fn noise_count(labels: Seq<i32>) -> int
    decreases labels.len(),
{
    if labels.len() == 0 {
        0
    } else {
        noise_count(labels.drop_last()) + if labels.last() == -1 {
            1int
        } else {
            0int
        }
    }
}

/// Number of noise points in a labelling.
pub fn count_noise(labels: &Vec<i32>) -> (r: usize)
    ensures
        r == noise_count(labels@),
{
    let mut c: usize = 0;
    let mut i: usize = 0;
    while i < labels.len()
        invariant
            i <= labels@.len(),
            c == noise_count(labels@.subrange(0, i as int)),
            c <= i,
        decreases labels@.len() - i,
    {
        proof {
            assert(labels@.subrange(0, i + 1).drop_last() =~= labels@.subrange(0, i as int));
        }
        if labels[i] == -1 {
            c = c + 1;
        }
        i = i + 1;
    }
    assert(labels@.subrange(0, labels@.len() as int) =~= labels@);
    c
}

/// The members of each cluster `0..num_clusters`, ascending.
pub fn cluster_members(labels: &Vec<i32>, num_clusters: usize) -> (r: Vec<Vec<usize>>)
    ensures
        r@.len() == num_clusters,
        forall|c: int, t: int| 0 <= c < num_clusters && 0 <= t < r@[c]@.len() ==> (#[trigger] r@[c]@[t] as int) < labels@.len()
            && labels@[r@[c]@[t] as int] == c,
        forall|c: int, s: int, t: int| 0 <= c < num_clusters && 0 <= s < t < r@[c]@.len() ==> #[trigger] r@[c]@[s] < #[trigger] r@[c]@[t],
        forall|i: int| 0 <= i < labels@.len() && 0 <= #[trigger] labels@[i] < num_clusters ==> r@[labels@[i] as int]@.contains(i as usize),
{
    let mut r: Vec<Vec<usize>> = Vec::new();
    let mut c: usize = 0;
    while c < num_clusters
        invariant
            c <= num_clusters,
            r@.len() == c,
            forall|k: int, t: int| 0 <= k < c && 0 <= t < r@[k]@.len() ==> (#[trigger] r@[k]@[t] as int) < labels@.len()
                && labels@[r@[k]@[t] as int] == k,
            forall|k: int, s: int, t: int| 0 <= k < c && 0 <= s < t < r@[k]@.len() ==> #[trigger] r@[k]@[s] < #[trigger] r@[k]@[t],
            forall|i: int| 0 <= i < labels@.len() && 0 <= #[trigger] labels@[i] < c ==> r@[labels@[i] as int]@.contains(i as usize),
        decreases num_clusters - c,
    {
        let mut m: Vec<usize> = Vec::new();
        let mut i: usize = 0;
        while i < labels.len()
            invariant
                i <= labels@.len(),
                c < num_clusters,
                forall|t: int| 0 <= t < m@.len() ==> (#[trigger] m@[t] as int) < i && labels@[m@[t] as int] == c,
                forall|s: int, t: int| 0 <= s < t < m@.len() ==> #[trigger] m@[s] < #[trigger] m@[t],
                forall|j: int| 0 <= j < i && #[trigger] labels@[j] == c ==> m@.contains(j as usize),
            decreases labels@.len() - i,
        {
            if labels[i] >= 0 && labels[i] as usize == c {
                let ghost m0 = m@;
                m.push(i);
                proof {
                    assert forall|j: int| 0 <= j < i + 1 && #[trigger] labels@[j] == c implies m@.contains(j as usize) by {
                        if j < i {
                            let t = choose|t: int| 0 <= t < m0.len() && m0[t] == j as usize;
                            assert(m@[t] == j as usize);
                        } else {
                            assert(m@[m0.len() as int] == i);
                        }
                    }
                }
            }
            i = i + 1;
        }
        let ghost r0 = r@;
        r.push(m);
        proof {
            assert forall|i: int| 0 <= i < labels@.len() && 0 <= #[trigger] labels@[i] < c + 1 implies r@[labels@[i] as int]@.contains(i as usize) by {
                if labels@[i] < c {
                    assert(r@[labels@[i] as int] == r0[labels@[i] as int]);
                }
            }
            assert forall|k: int, t: int| 0 <= k < c + 1 && 0 <= t < r@[k]@.len() implies (#[trigger] r@[k]@[t] as int) < labels@.len()
                && labels@[r@[k]@[t] as int] == k by {
                if k < c {
                    assert(r@[k] == r0[k]);
                }
            }
            assert forall|k: int, s: int, t: int| 0 <= k < c + 1 && 0 <= s < t < r@[k]@.len() implies #[trigger] r@[k]@[s] < #[trigger] r@[k]@[t] by {
                if k < c {
                    assert(r@[k] == r0[k]);
                }
            }
        }
        c = c + 1;
    }
    r
}

pub open spec fn strictly_ascending(s: Seq<u32>) -> bool {
    forall|i: int, j: int| 0 <= i < j < s.len() ==> s[i] < s[j]
}

/// The episode ids, ascending, each once.
pub fn sorted_unique(ids: Vec<u32>) -> (r: Vec<u32>)
    ensures
        strictly_ascending(r@),
        forall|x: u32| #[trigger] r@.contains(x) <==> ids@.contains(x),
{
    let ghost orig = ids@;
    let mut wide: Vec<u64> = Vec::new();
    let mut k: usize = 0;
    while k < ids.len()
        invariant
            k <= ids@.len(),
            wide@ == ids@.subrange(0, k as int).map_values(|x: u32| x as u64),
        decreases ids@.len() - k,
    {
        wide.push(ids[k] as u64);
        proof {
            assert(ids@.subrange(0, k + 1) =~= ids@.subrange(0, k as int).push(ids@[k as int]));
        }
        k = k + 1;
        assert(wide@ =~= ids@.subrange(0, k as int).map_values(|x: u32| x as u64));
    }
    assert(ids@.subrange(0, ids@.len() as int) =~= ids@);
    let ghost wide0 = wide@;
    let sorted = sort_ascending(wide);
    proof {
        assert forall|t: int| 0 <= t < sorted@.len() implies #[trigger] sorted@[t] <= u32::MAX by {
            vstd::seq_lib::to_multiset_contains(sorted@, sorted@[t]);
            vstd::seq_lib::to_multiset_contains(wide0, sorted@[t]);
            assert(sorted@.contains(sorted@[t]));
            let u = choose|u: int| 0 <= u < wide0.len() && wide0[u] == sorted@[t];
            assert(wide0[u] == orig[u] as u64);
        }
    }
    let mut s: Vec<u32> = Vec::new();
    let mut k: usize = 0;
    while k < sorted.len()
        invariant
            k <= sorted@.len(),
            forall|t: int| 0 <= t < sorted@.len() ==> #[trigger] sorted@[t] <= u32::MAX,
            s@.len() == k,
            forall|t: int| 0 <= t < k ==> #[trigger] s@[t] as u64 == sorted@[t],
        decreases sorted@.len() - k,
    {
        s.push(sorted[k] as u32);
        k = k + 1;
    }
    proof {
        assert forall|a: int, b: int| 0 <= a <= b < s@.len() implies s@[a] <= s@[b] by {
            assert(sorted@[a] <= sorted@[b]);
        }
        assert forall|x: u32| #[trigger] s@.contains(x) <==> orig.contains(x) by {
            vstd::seq_lib::to_multiset_contains(sorted@, x as u64);
            vstd::seq_lib::to_multiset_contains(wide0, x as u64);
            if s@.contains(x) {
                let t = choose|t: int| 0 <= t < s@.len() && s@[t] == x;
                assert(sorted@[t] == x as u64);
                assert(sorted@.contains(x as u64));
                let u = choose|u: int| 0 <= u < wide0.len() && wide0[u] == x as u64;
                assert(orig[u] == x);
            }
            if orig.contains(x) {
                let u = choose|u: int| 0 <= u < orig.len() && orig[u] == x;
                assert(wide0[u] == x as u64);
                assert(wide0.contains(x as u64));
                let t = choose|t: int| 0 <= t < sorted@.len() && sorted@[t] == x as u64;
                assert(s@[t] == x);
            }
        }
    }
    let mut r: Vec<u32> = Vec::new();
    let mut i: usize = 0;
    while i < s.len()
        invariant
            i <= s@.len(),
            forall|a: int, b: int| 0 <= a <= b < s@.len() ==> s@[a] <= s@[b],
            strictly_ascending(r@),
            r@.len() > 0 ==> i > 0 && r@.last() == s@[i - 1],
            r@.len() == 0 ==> i == 0,
            forall|x: u32| #[trigger] r@.contains(x) <==> s@.subrange(0, i as int).contains(x),
        decreases s@.len() - i,
    {
        let x = s[i];
        let ghost r0 = r@;
        assert(forall|y: u32| #[trigger] r0.contains(y) <==> s@.subrange(0, i as int).contains(y));
        if r.len() == 0 || r[r.len() - 1] != x {
            r.push(x);
        }
        proof {
            let pre = s@.subrange(0, i as int);
            let nxt = s@.subrange(0, i + 1);
            assert(nxt =~= pre.push(x));
            assert forall|y: u32| #[trigger] r@.contains(y) <==> nxt.contains(y) by {
                if y == x {
                    assert(nxt[i as int] == x);
                    if r@.len() > r0.len() {
                        assert(r@[r0.len() as int] == x);
                    } else {
                        assert(r0[r0.len() - 1] == x);
                    }
                } else {
                    if r@.contains(y) {
                        let t = choose|t: int| 0 <= t < r@.len() && r@[t] == y;
                        assert(r0[t] == y);
                        assert(r0.contains(y));
                        let u = choose|u: int| 0 <= u < pre.len() && pre[u] == y;
                        assert(nxt[u] == y);
                    }
                    if nxt.contains(y) {
                        let u = choose|u: int| 0 <= u < nxt.len() && nxt[u] == y;
                        assert(pre[u] == y);
                        assert(pre.contains(y));
                        assert(r0.contains(y));
                        let t = choose|t: int| 0 <= t < r0.len() && r0[t] == y;
                        assert(r@[t] == y);
                    }
                }
            }
            if r@.len() > r0.len() && r0.len() > 0 {
                assert(r0.last() == s@[i - 1]);
                assert(s@[i - 1] <= x);
                assert forall|a: int, b: int| 0 <= a < b < r@.len() implies r@[a] < r@[b] by {
                    if b == r0.len() {
                        assert(r0[a] <= r0.last());
                    }
                }
            }
        }
        i = i + 1;
    }
    assert(s@.subrange(0, s@.len() as int) =~= s@);
    r
}

/// Index `a` comes before index `b`: more relevant, or as relevant and lower.
pub open spec fn ranks_before(rel: Seq<u64>, a: int, b: int) -> bool {
    rel[a] > rel[b] || (rel[a] == rel[b] && a < b)
}

/// The indices of `rel`, most relevant first; equal relevance keeps index order.
pub fn order_by_relevance(rel: &Vec<u64>) -> (r: Vec<usize>)
    ensures
        r@.len() == rel@.len(),
        forall|t: int| 0 <= t < r@.len() ==> (#[trigger] r@[t] as int) < rel@.len(),
        forall|s: int, t: int| 0 <= s < t < r@.len() ==> r@[s] != r@[t],
        forall|s: int, t: int| 0 <= s < t < r@.len() ==> ranks_before(rel@, #[trigger] r@[s] as int, #[trigger] r@[t] as int),
{
    let n = rel.len();
    let mut r: Vec<usize> = Vec::new();
    let mut i: usize = 0;
    while i < n
        invariant
            i <= n,
            n == rel@.len(),
            r@.len() == i,
            forall|t: int| 0 <= t < r@.len() ==> (#[trigger] r@[t] as int) < i,
            forall|s: int, t: int| 0 <= s < t < r@.len() ==> r@[s] != r@[t],
            forall|s: int, t: int| 0 <= s < t < r@.len() ==> ranks_before(rel@, #[trigger] r@[s] as int, #[trigger] r@[t] as int),
        decreases n - i,
    {
        let mut pos: usize = 0;
        while pos < r.len() && rel[r[pos]] >= rel[i]
            invariant
                pos <= r@.len(),
                i < n,
                n == rel@.len(),
                forall|t: int| 0 <= t < r@.len() ==> (#[trigger] r@[t] as int) < i,
                forall|t: int| 0 <= t < pos ==> rel@[#[trigger] r@[t] as int] >= rel@[i as int],
            decreases r@.len() - pos,
        {
            pos = pos + 1;
        }
        let ghost old_r = r@;
        r.insert(pos, i);
        proof {
            assert forall|t: int| 0 <= t < r@.len() implies (#[trigger] r@[t] as int) < i + 1 by {
                if t < pos {
                    assert(r@[t] == old_r[t]);
                } else if t > pos {
                    assert(r@[t] == old_r[t - 1]);
                }
            }
            assert forall|s: int, t: int| 0 <= s < t < r@.len() implies r@[s] != r@[t] by {
                if s != pos && t != pos {
                    let s0 = if s < pos { s } else { s - 1 };
                    let t0 = if t < pos { t } else { t - 1 };
                    assert(r@[s] == old_r[s0] && r@[t] == old_r[t0]);
                } else if s == pos {
                    assert(r@[t] == old_r[t - 1]);
                } else {
                    assert(r@[s] == old_r[s]);
                }
            }
            assert forall|s: int, t: int| 0 <= s < t < r@.len() implies ranks_before(rel@, #[trigger] r@[s] as int, #[trigger] r@[t] as int) by {
                if s != pos && t != pos {
                    let s0 = if s < pos { s } else { s - 1 };
                    let t0 = if t < pos { t } else { t - 1 };
                    assert(r@[s] == old_r[s0] && r@[t] == old_r[t0]);
                } else if s == pos {
                    assert(r@[t] == old_r[t - 1]);
                    assert(rel@[old_r[pos as int] as int] < rel@[i as int]);
                    if t - 1 > pos {
                        assert(ranks_before(rel@, old_r[pos as int] as int, old_r[t - 1] as int));
                    }
                } else {
                    assert(r@[s] == old_r[s]);
                }
            }
        }
        i = i + 1;
    }
    r
}

} // verus!
