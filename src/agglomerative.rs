//! Agglomerative clustering: repeated merging of the two closest clusters
//! under a chosen linkage, with relevance weights and outlier marking.

use vstd::prelude::*;

use crate::hierarchy::concat_points;
use crate::spanning::{dist_matrix, MAX_DIST};
use crate::naming::same_chars;
use crate::text::chars_of;
use crate::ward::{centroid_ok, ward_distance, ward_of, CENTROID_LIMIT, MAX_DIMS};

verus! {

/// Bound on the number of topics one agglomerative run takes.
pub const MAX_TOPICS: usize = 1_048_576;

/// Bound on a topic's relevance weight.
pub const MAX_WEIGHT: u64 = 1_048_576;

/// Linkage distance of a pair of clusters that has no defined value.
pub const LINK_NONE: u64 = 0xFFFF_FFFF_FFFF_FFFF;

/// How the distance between two clusters follows from their members' distances.
#[derive(Clone, Copy, Debug, PartialEq, Eq, Structural)]
pub enum Linkage {
    /// Smallest member distance.
    Single,
    /// Largest member distance.
    Complete,
    /// Mean member distance, each pair weighted by the product of its weights.
    Weighted,
    /// Plain mean member distance; also what an unknown name selects.
    Average,
    /// Cosine distance of the weighted centroids, scaled by
    /// `sqrt(2 wa wb / (wa + wb))`.
    Ward,
}

/// The linkage a configured name selects: "single", "complete", "weighted"
/// and "ward" select their rule; any other name selects average linkage.
pub open spec fn linkage_named(name: Seq<char>) -> Linkage {
    if name == "single"@ {
        Linkage::Single
    } else if name == "complete"@ {
        Linkage::Complete
    } else if name == "weighted"@ {
        Linkage::Weighted
    } else if name == "ward"@ {
        Linkage::Ward
    } else {
        Linkage::Average
    }
}

/// Reads a linkage name (see `linkage_named`).
pub fn parse_linkage(name: &str) -> (r: Linkage)
    ensures
        r == linkage_named(name@),
{
    let cs = chars_of(name);
    if same_chars(&cs, &chars_of("single")) {
        Linkage::Single
    } else if same_chars(&cs, &chars_of("complete")) {
        Linkage::Complete
    } else if same_chars(&cs, &chars_of("weighted")) {
        Linkage::Weighted
    } else if same_chars(&cs, &chars_of("ward")) {
        Linkage::Ward
    } else {
        Linkage::Average
    }
}

/// A cluster of topic indices while the agglomeration runs.
pub struct Cluster {
    pub id: usize,
    pub items: Vec<usize>,
    /// Sum of weight times embedding over the members: the weighted
    /// centroid up to the factor `1 / total_weight`.
    pub centroid: Vec<i128>,
    pub total_weight: u64,
    pub is_outlier: bool,
    pub max_merge_distance: u64,
}

/// Relevance weights: each topic's episode count, or 1 for every topic.
pub fn relevance_weights(episode_counts: &Vec<u64>, use_relevance_weighting: bool) -> (w: Vec<u64>)
    ensures
        w@.len() == episode_counts@.len(),
        forall|i: int| 0 <= i < w@.len() ==> #[trigger] w@[i] == if use_relevance_weighting {
            episode_counts@[i]
        } else {
            1
        },
{
    let mut w: Vec<u64> = Vec::new();
    let mut i: usize = 0;
    while i < episode_counts.len()
        invariant
            i <= episode_counts@.len(),
            w@.len() == i,
            forall|t: int| 0 <= t < i ==> #[trigger] w@[t] == if use_relevance_weighting {
                episode_counts@[t]
            } else {
                1
            },
        decreases episode_counts@.len() - i,
    {
        w.push(if use_relevance_weighting { episode_counts[i] } else { 1 });
        i = i + 1;
    }
    w
}

/// Aggregates over the member pairs: (smallest distance, largest distance,
/// sum of distances, sum of weighted distances, sum of pair weights, pairs).
pub open spec fn row_agg(d: Seq<Vec<u64>>, w: Seq<u64>, a: int, bs: Seq<usize>, j: int) -> (int, int, int, int, int, int)
    decreases j,
{
    if j <= 0 {
        (LINK_NONE as int, 0, 0, 0, 0, 0)
    } else {
        let p = row_agg(d, w, a, bs, j - 1);
        let x = d[a]@[bs[j - 1] as int] as int;
        let ww = w[a] * w[bs[j - 1] as int];
        (if x < p.0 {
            x
        } else {
            p.0
        }, if x > p.1 {
            x
        } else {
            p.1
        }, p.2 + x, p.3 + x * ww, p.4 + ww, p.5 + 1)
    }
}

pub open spec fn combine(p: (int, int, int, int, int, int), q: (int, int, int, int, int, int)) -> (int, int, int, int, int, int) {
    (if q.0 < p.0 {
        q.0
    } else {
        p.0
    }, if q.1 > p.1 {
        q.1
    } else {
        p.1
    }, p.2 + q.2, p.3 + q.3, p.4 + q.4, p.5 + q.5)
}

pub open spec fn pair_agg(d: Seq<Vec<u64>>, w: Seq<u64>, as_: Seq<usize>, bs: Seq<usize>, i: int) -> (int, int, int, int, int, int)
    decreases i,
{
    if i <= 0 {
        (LINK_NONE as int, 0, 0, 0, 0, 0)
    } else {
        combine(pair_agg(d, w, as_, bs, i - 1), row_agg(d, w, as_[i - 1] as int, bs, bs.len() as int))
    }
}

/// Linkage distance between member lists `as_` and `bs`; integer means round
/// down. Ward linkage does not follow from member distances (see
/// `cluster_linkage`).
pub open spec fn linkage_of(d: Seq<Vec<u64>>, w: Seq<u64>, as_: Seq<usize>, bs: Seq<usize>, linkage: Linkage) -> int {
    let g = pair_agg(d, w, as_, bs, as_.len() as int);
    match linkage {
        Linkage::Single => g.0,
        Linkage::Complete => g.1,
        Linkage::Weighted => if g.4 > 0 {
            g.3 / g.4
        } else {
            LINK_NONE as int
        },
        Linkage::Average => if g.5 > 0 {
            g.2 / g.5
        } else {
            LINK_NONE as int
        },
        Linkage::Ward => LINK_NONE as int,
    }
}

pub open spec fn members_ok(d: Seq<Vec<u64>>, w: Seq<u64>, s: Seq<usize>) -> bool {
    s.len() <= MAX_TOPICS && forall|t: int| 0 <= t < s.len() ==> (#[trigger] s[t] as int) < d.len()
}

pub open spec fn weights_ok(d: Seq<Vec<u64>>, w: Seq<u64>) -> bool {
    w.len() == d.len() && forall|i: int| 0 <= i < w.len() ==> #[trigger] w[i] <= MAX_WEIGHT
}

/// Distance between two clusters under `linkage`.
pub fn cluster_distance(
    as_: &Vec<usize>,
    bs: &Vec<usize>,
    distances: &Vec<Vec<u64>>,
    weights: &Vec<u64>,
    linkage: Linkage,
) -> (r: u64)
    requires
        dist_matrix(distances@),
        weights_ok(distances@, weights@),
        members_ok(distances@, weights@, as_@),
        members_ok(distances@, weights@, bs@),
    ensures
        r == linkage_of(distances@, weights@, as_@, bs@, linkage),
{
    let ghost d = distances@;
    let ghost w = weights@;
    let mut mn: u64 = LINK_NONE;
    let mut mx: u64 = 0;
    let mut sd: u128 = 0;
    let mut sdw: u128 = 0;
    let mut sw: u128 = 0;
    let mut cnt: u128 = 0;
    let mut i: usize = 0;
    while i < as_.len()
        invariant
            i <= as_@.len(),
            d == distances@,
            w == weights@,
            dist_matrix(d),
            weights_ok(d, w),
            members_ok(d, w, as_@),
            members_ok(d, w, bs@),
            (mn as int, mx as int, sd as int, sdw as int, sw as int, cnt as int) == pair_agg(d, w, as_@, bs@, i as int),
            cnt <= i * bs@.len(),
            sd <= cnt * MAX_DIST,
            sw <= cnt * 0x100_0000_0000,
            sdw <= MAX_DIST * sw,
        decreases as_@.len() - i,
    {
        let a = as_[i];
        let ghost before = (mn as int, mx as int, sd as int, sdw as int, sw as int, cnt as int);
        let mut j: usize = 0;
        while j < bs.len()
            invariant
                i < as_@.len(),
                j <= bs@.len(),
                a == as_@[i as int],
                d == distances@,
                w == weights@,
                dist_matrix(d),
                weights_ok(d, w),
                members_ok(d, w, as_@),
                members_ok(d, w, bs@),
                before == pair_agg(d, w, as_@, bs@, i as int),
                (mn as int, mx as int, sd as int, sdw as int, sw as int, cnt as int) == combine(before, row_agg(d, w, a as int, bs@, j as int)),
                cnt <= i * bs@.len() + j,
                sd <= cnt * MAX_DIST,
                sw <= cnt * 0x100_0000_0000,
                    sdw <= MAX_DIST * sw,
            decreases bs@.len() - j,
        {
            let b = bs[j];
            let x = distances[a][b];
            assert(d[a as int]@.len() == d.len());
            assert(x <= MAX_DIST);
            let wa = weights[a];
            let wb = weights[b];
            assert(wa * wb <= 0x100_0000_0000) by (nonlinear_arith)
                requires
                    wa <= MAX_WEIGHT,
                    wb <= MAX_WEIGHT,
            ;
            let ww: u128 = (wa as u128) * (wb as u128);
            assert(x * ww <= MAX_DIST * 0x100_0000_0000) by (nonlinear_arith)
                requires
                    x <= MAX_DIST,
                    ww <= 0x100_0000_0000,
            ;
            assert((x as u128) * ww <= MAX_DIST * ww) by (nonlinear_arith)
                requires
                    x <= MAX_DIST,
            ;
            assert(i * bs@.len() + j + 1 <= MAX_TOPICS * MAX_TOPICS) by (nonlinear_arith)
                requires
                    i < as_@.len(),
                    j < bs@.len(),
                    as_@.len() <= MAX_TOPICS,
                    bs@.len() <= MAX_TOPICS,
            ;
            assert(sdw + x * ww <= 0x1_0000_0000_0000_0000_0000_0000_0000) by (nonlinear_arith)
                requires
                    sdw <= MAX_DIST * sw,
                    sw <= cnt * 0x100_0000_0000,
                    cnt <= i * bs@.len() + j,
                    i * bs@.len() + j + 1 <= MAX_TOPICS * MAX_TOPICS,
                    x * ww <= MAX_DIST * 0x100_0000_0000,
            ;
            if x < mn {
                mn = x;
            }
            if x > mx {
                mx = x;
            }
            sd = sd + x as u128;
            sdw = sdw + (x as u128) * ww;
            sw = sw + ww;
            cnt = cnt + 1;
            j = j + 1;
        }
        assert(cnt <= (i + 1) * bs@.len()) by (nonlinear_arith)
            requires
                cnt <= i * bs@.len() + bs@.len(),
        ;
        i = i + 1;
    }
    match linkage {
        Linkage::Single => mn,
        Linkage::Complete => mx,
        Linkage::Weighted => {
            if sw > 0 {
                assert(sdw / sw <= MAX_DIST) by (nonlinear_arith)
                    requires
                        sdw <= MAX_DIST * sw,
                        sw > 0,
                ;
                (sdw / sw) as u64
            } else {
                LINK_NONE
            }
        },
        Linkage::Ward => LINK_NONE,
        Linkage::Average => {
            if cnt > 0 {
                assert(sd / cnt <= MAX_DIST) by (nonlinear_arith)
                    requires
                        sd <= cnt * MAX_DIST,
                        cnt > 0,
                ;
                (sd / cnt) as u64
            } else {
                LINK_NONE
            }
        },
    }
}

/// The topic indices of all clusters, one cluster after the other.
pub open spec fn entries(cs: Seq<Cluster>) -> Seq<usize>
    decreases cs.len(),
{
    if cs.len() == 0 {
        Seq::empty()
    } else {
        entries(cs.drop_last()) + cs.last().items@
    }
}

pub open spec fn range_seq(n: int) -> Seq<usize> {
    Seq::new(n as nat, |i: int| i as usize)
}

/// Sum of the weights of `items`.
pub open spec fn item_weight(w: Seq<u64>, items: Seq<usize>) -> int
    decreases items.len(),
{
    if items.len() == 0 {
        0
    } else {
        item_weight(w, items.drop_last()) + w[items.last() as int]
    }
}

proof fn lemma_item_weight_concat(w: Seq<u64>, a: Seq<usize>, b: Seq<usize>)
    ensures
        item_weight(w, a + b) == item_weight(w, a) + item_weight(w, b),
    decreases b.len(),
{
    if b.len() > 0 {
        assert((a + b).drop_last() =~= a + b.drop_last());
        lemma_item_weight_concat(w, a, b.drop_last());
    } else {
        assert(a + b =~= a);
    }
}

proof fn lemma_item_weight_bound(w: Seq<u64>, items: Seq<usize>)
    requires
        forall|t: int| 0 <= t < items.len() ==> (#[trigger] items[t] as int) < w.len(),
        forall|i: int| 0 <= i < w.len() ==> #[trigger] w[i] <= MAX_WEIGHT,
    ensures
        0 <= item_weight(w, items) <= items.len() * MAX_WEIGHT,
    decreases items.len(),
{
    if items.len() > 0 {
        assert forall|t: int| 0 <= t < items.drop_last().len() implies (#[trigger] items.drop_last()[t] as int) < w.len() by {
            assert(items.drop_last()[t] == items[t]);
        }
        lemma_item_weight_bound(w, items.drop_last());
        assert(w[items.last() as int] <= MAX_WEIGHT);
    }
}

proof fn lemma_entries_remove(cs: Seq<Cluster>, k: int)
    requires
        0 <= k < cs.len(),
    ensures
        entries(cs).to_multiset() == entries(cs.remove(k)).to_multiset().add(cs[k].items@.to_multiset()),
    decreases cs.len(),
{
    vstd::seq_lib::lemma_multiset_commutative(entries(cs.drop_last()), cs.last().items@);
    if k == cs.len() - 1 {
        assert(cs.remove(k) =~= cs.drop_last());
    } else {
        let r = cs.remove(k);
        assert(r.drop_last() =~= cs.drop_last().remove(k));
        assert(r.last() == cs.last());
        lemma_entries_remove(cs.drop_last(), k);
        vstd::seq_lib::lemma_multiset_commutative(entries(r.drop_last()), r.last().items@);
        assert(entries(cs).to_multiset() =~= entries(r).to_multiset().add(cs[k].items@.to_multiset()));
    }
}

/// Every topic index below `n` sits in exactly one cluster, once.
pub open spec fn partitions(cs: Seq<Cluster>, n: int) -> bool {
    entries(cs).to_multiset() == range_seq(n).to_multiset()
}

/// Number of coordinates of the embeddings: that of the first.
pub open spec fn dims_of(e: Seq<Vec<i32>>) -> int {
    if e.len() > 0 {
        e[0]@.len() as int
    } else {
        0
    }
}

/// Bound on an embedding coordinate in fixed point: 2^15 stands for 1.
pub const COORD_LIMIT: i32 = 32768;

/// `n` embeddings of `dims` fixed-point coordinates each.
pub open spec fn embeddings_ok(e: Seq<Vec<i32>>, n: int, dims: int) -> bool {
    &&& e.len() == n
    &&& dims <= MAX_DIMS
    &&& forall|i: int| 0 <= i < n ==> (#[trigger] e[i])@.len() == dims
    &&& forall|i: int, j: int| 0 <= i < n && 0 <= j < dims ==> -COORD_LIMIT <= #[trigger] e[i]@[j] <= COORD_LIMIT
}

/// Coordinate `j` of the sum of weight times embedding over `items`.
pub open spec fn wsum(e: Seq<Vec<i32>>, w: Seq<u64>, items: Seq<usize>, j: int) -> int
    decreases items.len(),
{
    if items.len() == 0 {
        0
    } else {
        wsum(e, w, items.drop_last(), j) + w[items.last() as int] * e[items.last() as int]@[j]
    }
}

/// Distance between two clusters under `linkage`.
pub open spec fn cluster_linkage(d: Seq<Vec<u64>>, w: Seq<u64>, a: Cluster, b: Cluster, linkage: Linkage) -> int {
    match linkage {
        Linkage::Ward => ward_of(a.centroid@, a.total_weight as int, b.centroid@, b.total_weight as int),
        _ => linkage_of(d, w, a.items@, b.items@, linkage),
    }
}

/// What the clustering keeps true of each cluster.
pub open spec fn cluster_ok(d: Seq<Vec<u64>>, w: Seq<u64>, e: Seq<Vec<i32>>, dims: int, c: Cluster, threshold: u64) -> bool {
    &&& members_ok(d, w, c.items@)
    &&& c.total_weight == item_weight(w, c.items@)
    &&& c.is_outlier == (c.max_merge_distance > threshold)
    &&& c.centroid@.len() == dims
    &&& forall|j: int| 0 <= j < dims ==> #[trigger] c.centroid@[j] == wsum(e, w, c.items@, j)
}

pub open spec fn clusters_ok(d: Seq<Vec<u64>>, w: Seq<u64>, e: Seq<Vec<i32>>, dims: int, cs: Seq<Cluster>, threshold: u64) -> bool {
    forall|c: int| 0 <= c < cs.len() ==> cluster_ok(d, w, e, dims, #[trigger] cs[c], threshold)
}

/// What `linkage_distance` needs of a cluster.
pub open spec fn cluster_ready(d: Seq<Vec<u64>>, w: Seq<u64>, dims: int, c: Cluster) -> bool {
    &&& members_ok(d, w, c.items@)
    &&& centroid_ok(c.centroid@)
    &&& c.centroid@.len() == dims
    &&& c.total_weight <= 0x100_0000_0000
}

/// Coordinate `j` of the plain sum of the members' embeddings.
pub open spec fn plain_sum(e: Seq<Vec<i32>>, items: Seq<usize>, j: int) -> int
    decreases items.len(),
{
    if items.len() == 0 {
        0
    } else {
        plain_sum(e, items.drop_last(), j) + e[items.last() as int]@[j]
    }
}

/// With every weight 1 the weighted centroid is the arithmetic mean: the
/// weighted sum of a cluster's embeddings is their plain sum, and its total
/// weight is its number of members.
pub proof fn lemma_unit_weights_give_mean(e: Seq<Vec<i32>>, w: Seq<u64>, items: Seq<usize>, j: int)
    requires
        forall|t: int| 0 <= t < items.len() ==> (#[trigger] items[t] as int) < w.len(),
        forall|i: int| 0 <= i < w.len() ==> #[trigger] w[i] == 1,
    ensures
        wsum(e, w, items, j) == plain_sum(e, items, j),
        item_weight(w, items) == items.len(),
    decreases items.len(),
{
    if items.len() > 0 {
        assert forall|t: int| 0 <= t < items.drop_last().len() implies (#[trigger] items.drop_last()[t] as int) < w.len() by {
            assert(items.drop_last()[t] == items[t]);
        }
        lemma_unit_weights_give_mean(e, w, items.drop_last(), j);
        assert(w[items.last() as int] == 1);
    }
}

proof fn lemma_wsum_concat(e: Seq<Vec<i32>>, w: Seq<u64>, a: Seq<usize>, b: Seq<usize>, j: int)
    ensures
        wsum(e, w, a + b, j) == wsum(e, w, a, j) + wsum(e, w, b, j),
    decreases b.len(),
{
    if b.len() > 0 {
        assert((a + b).drop_last() =~= a + b.drop_last());
        lemma_wsum_concat(e, w, a, b.drop_last(), j);
    } else {
        assert(a + b =~= a);
    }
}

proof fn lemma_wsum_bound(e: Seq<Vec<i32>>, w: Seq<u64>, n: int, dims: int, items: Seq<usize>, j: int)
    requires
        embeddings_ok(e, n, dims),
        w.len() == n,
        0 <= j < dims,
        forall|t: int| 0 <= t < items.len() ==> (#[trigger] items[t] as int) < n,
    ensures
        -(item_weight(w, items) * COORD_LIMIT) <= wsum(e, w, items, j) <= item_weight(w, items) * COORD_LIMIT,
    decreases items.len(),
{
    if items.len() > 0 {
        assert forall|t: int| 0 <= t < items.drop_last().len() implies (#[trigger] items.drop_last()[t] as int) < n by {
            assert(items.drop_last()[t] == items[t]);
        }
        lemma_wsum_bound(e, w, n, dims, items.drop_last(), j);
        let i = items.last() as int;
        let x = e[i]@[j] as int;
        let wi = w[i] as int;
        assert(-(wi * COORD_LIMIT) <= wi * x <= wi * COORD_LIMIT) by (nonlinear_arith)
            requires
                -32768 <= x <= 32768,
                wi >= 0,
        ;
    }
}

/// A cluster that the clustering keeps is ready for `linkage_distance`.
proof fn lemma_ready(d: Seq<Vec<u64>>, w: Seq<u64>, e: Seq<Vec<i32>>, dims: int, c: Cluster, threshold: u64)
    requires
        cluster_ok(d, w, e, dims, c, threshold),
        embeddings_ok(e, d.len() as int, dims),
        weights_ok(d, w),
        d.len() <= MAX_TOPICS,
        c.items@.len() <= d.len(),
    ensures
        cluster_ready(d, w, dims, c),
{
    lemma_item_weight_bound(w, c.items@);
    assert(c.items@.len() * MAX_WEIGHT <= 0x100_0000_0000) by (nonlinear_arith)
        requires
            c.items@.len() <= MAX_TOPICS,
    ;
    assert forall|j: int| 0 <= j < c.centroid@.len() implies -CENTROID_LIMIT < #[trigger] c.centroid@[j] < CENTROID_LIMIT by {
        lemma_wsum_bound(e, w, d.len() as int, dims, c.items@, j);
        let iw = item_weight(w, c.items@);
        assert(iw * COORD_LIMIT <= 0x100_0000_0000 * 32768) by (nonlinear_arith)
            requires
                0 <= iw <= 0x100_0000_0000,
        ;
    }
}

/// Distance between two clusters under `linkage` (see `cluster_linkage`).
pub fn linkage_distance(a: &Cluster, b: &Cluster, distances: &Vec<Vec<u64>>, weights: &Vec<u64>, linkage: Linkage) -> (r: u64)
    requires
        dist_matrix(distances@),
        weights_ok(distances@, weights@),
        cluster_ready(distances@, weights@, a.centroid@.len() as int, *a),
        cluster_ready(distances@, weights@, a.centroid@.len() as int, *b),
    ensures
        r == cluster_linkage(distances@, weights@, *a, *b, linkage),
{
    match linkage {
        Linkage::Ward => ward_distance(&a.centroid, a.total_weight, &b.centroid, b.total_weight),
        _ => cluster_distance(&a.items, &b.items, distances, weights, linkage),
    }
}

/// The pair of clusters at the smallest linkage distance; the first such pair
/// in scan order.
pub fn closest_pair(clusters: &Vec<Cluster>, distances: &Vec<Vec<u64>>, weights: &Vec<u64>, linkage: Linkage) -> (r: (
    usize,
    usize,
    u64,
))
    requires
        clusters@.len() >= 2,
        dist_matrix(distances@),
        weights_ok(distances@, weights@),
        forall|c: int| 0 <= c < clusters@.len() ==> cluster_ready(distances@, weights@, clusters@[0].centroid@.len() as int, #[trigger] clusters@[c]),
    ensures
        r.0 < r.1 < clusters@.len(),
        r.2 == cluster_linkage(distances@, weights@, clusters@[r.0 as int], clusters@[r.1 as int], linkage),
        forall|p: int, q: int|
            0 <= p < q < clusters@.len() ==> r.2 <= #[trigger] cluster_linkage(
                distances@,
                weights@,
                clusters@[p],
                clusters@[q],
                linkage,
            ),
        forall|p: int, q: int|
            0 <= p < q < clusters@.len() && (p < r.0 || (p == r.0 && q < r.1)) ==> r.2 < #[trigger] cluster_linkage(
                distances@,
                weights@,
                clusters@[p],
                clusters@[q],
                linkage,
            ),
{
    let m = clusters.len();
    let mut bi: usize = 0;
    let mut bj: usize = 1;
    let mut bd: u64 = linkage_distance(&clusters[0], &clusters[1], distances, weights, linkage);
    let mut i: usize = 0;
    while i < m
        invariant
            m == clusters@.len(),
            m >= 2,
            i <= m,
            bi < bj < m,
            dist_matrix(distances@),
            weights_ok(distances@, weights@),
            forall|c: int| 0 <= c < clusters@.len() ==> cluster_ready(distances@, weights@, clusters@[0].centroid@.len() as int, #[trigger] clusters@[c]),
            bd == cluster_linkage(distances@, weights@, clusters@[bi as int], clusters@[bj as int], linkage),
            forall|p: int, q: int|
                0 <= p < i && p < q < m ==> bd <= #[trigger] cluster_linkage(distances@, weights@, clusters@[p], clusters@[q], linkage),
            forall|p: int, q: int|
                0 <= p < q < m && (p < bi || (p == bi && q < bj)) ==> bd < #[trigger] cluster_linkage(distances@, weights@, clusters@[p], clusters@[q], linkage),
            bi < i || (bi == 0 && bj == 1 && i == 0),
        decreases m - i,
    {
        let mut j: usize = i + 1;
        while j < m
            invariant
                m == clusters@.len(),
                i < m,
                i + 1 <= j <= m,
                bi < bj < m,
                dist_matrix(distances@),
                weights_ok(distances@, weights@),
                forall|c: int| 0 <= c < clusters@.len() ==> cluster_ready(distances@, weights@, clusters@[0].centroid@.len() as int, #[trigger] clusters@[c]),
                bd == cluster_linkage(distances@, weights@, clusters@[bi as int], clusters@[bj as int], linkage),
                forall|p: int, q: int|
                    0 <= p < i && p < q < m ==> bd <= #[trigger] cluster_linkage(distances@, weights@, clusters@[p], clusters@[q], linkage),
                forall|q: int| i < q < j ==> bd <= #[trigger] cluster_linkage(distances@, weights@, clusters@[i as int], clusters@[q], linkage),
                forall|p: int, q: int|
                    0 <= p < q < m && (p < bi || (p == bi && q < bj)) ==> bd < #[trigger] cluster_linkage(distances@, weights@, clusters@[p], clusters@[q], linkage),
                (bi < i) || (bi == i && bj < j) || (bi == 0 && bj == 1 && i == 0 && j == 1),
            decreases m - j,
        {
            let dd = linkage_distance(&clusters[i], &clusters[j], distances, weights, linkage);
            if dd < bd {
                bd = dd;
                bi = i;
                bj = j;
            }
            j = j + 1;
        }
        i = i + 1;
    }
    (bi, bj, bd)
}

/// Cluster `k` of the start: topic `k` alone.
pub open spec fn singleton(c: Cluster, k: int, w: Seq<u64>) -> bool {
    &&& c.items@ == seq![k as usize]
    &&& c.id == k
    &&& !c.is_outlier
    &&& c.max_merge_distance == 0
    &&& c.total_weight == w[k]
}

pub open spec fn max3(a: int, b: int, c: int) -> int {
    let m = if a >= b { a } else { b };
    if m >= c { m } else { c }
}

/// `m` is clusters `a` and `b` merged at linkage distance `dist`.
pub open spec fn merged_of(a: Cluster, b: Cluster, m: Cluster, dist: int, threshold: u64) -> bool {
    &&& m.items@ == a.items@ + b.items@
    &&& m.id == a.id
    &&& m.total_weight == a.total_weight + b.total_weight
    &&& m.max_merge_distance == max3(dist, a.max_merge_distance as int, b.max_merge_distance as int)
    &&& m.is_outlier == (a.is_outlier || b.is_outlier || dist > threshold)
}

/// Pair `i < j` is at the smallest linkage distance, and no pair before it in
/// scan order is as close.
pub open spec fn closest(d: Seq<Vec<u64>>, w: Seq<u64>, cs: Seq<Cluster>, linkage: Linkage, i: int, j: int) -> bool {
    &&& 0 <= i < j < cs.len()
    &&& forall|p: int, q: int|
        0 <= p < q < cs.len() ==> cluster_linkage(d, w, cs[i], cs[j], linkage) <= #[trigger] cluster_linkage(d, w, cs[p], cs[q], linkage)
    &&& forall|p: int, q: int|
        0 <= p < q < cs.len() && (p < i || (p == i && q < j)) ==> cluster_linkage(d, w, cs[i], cs[j], linkage)
            < #[trigger] cluster_linkage(d, w, cs[p], cs[q], linkage)
}

/// One step of the clustering: the closest pair leaves, and their merge is
/// appended.
pub open spec fn merge_step(d: Seq<Vec<u64>>, w: Seq<u64>, linkage: Linkage, threshold: u64, old: Seq<Cluster>, new: Seq<Cluster>) -> bool {
    exists|i: int, j: int|
        #[trigger] closest(d, w, old, linkage, i, j) && new.len() == old.len() - 1 && new.drop_last() == old.remove(j).remove(i)
            && merged_of(old[i], old[j], new.last(), cluster_linkage(d, w, old[i], old[j], linkage), threshold)
}

/// The run from singletons to `r`, one merge step at a time.
pub open spec fn merge_trace(d: Seq<Vec<u64>>, w: Seq<u64>, linkage: Linkage, threshold: u64, trace: Seq<Seq<Cluster>>, r: Seq<Cluster>) -> bool {
    &&& trace.len() >= 1
    &&& trace[0].len() == d.len()
    &&& forall|k: int| 0 <= k < d.len() ==> singleton(#[trigger] trace[0][k], k, w)
    &&& trace.last() == r
    &&& forall|t: int| 0 <= t < trace.len() - 1 ==> merge_step(d, w, linkage, threshold, #[trigger] trace[t], trace[t + 1])
}

/// Agglomerative clustering: starting from one cluster per topic, merges the
/// closest pair under `linkage` until `target_clusters` remain (or there were
/// never more). A merge above `outlier_threshold` marks the result an outlier,
/// and the mark passes on to every later merge: a cluster is an outlier exactly
/// when the largest merge distance inside it exceeds the threshold. Each
/// cluster keeps the sum of weight times embedding over its members, which
/// Ward linkage reads.
#[verifier::rlimit(100)]
#[verifier::spinoff_prover]
pub fn hierarchical_clustering(
    distances: &Vec<Vec<u64>>,
    weights: &Vec<u64>,
    embeddings: &Vec<Vec<i32>>,
    target_clusters: usize,
    outlier_threshold: u64,
    linkage: Linkage,
) -> (r: Vec<Cluster>)
    requires
        target_clusters >= 1,
        distances@.len() <= MAX_TOPICS,
        dist_matrix(distances@),
        weights_ok(distances@, weights@),
        embeddings_ok(embeddings@, distances@.len() as int, dims_of(embeddings@)),
    ensures
        r@.len() == if distances@.len() < target_clusters {
            distances@.len() as int
        } else {
            target_clusters as int
        },
        partitions(r@, distances@.len() as int),
        clusters_ok(distances@, weights@, embeddings@, dims_of(embeddings@), r@, outlier_threshold),
        exists|trace: Seq<Seq<Cluster>>| #[trigger] merge_trace(distances@, weights@, linkage, outlier_threshold, trace, r@),
{
    let n = distances.len();
    let ghost d = distances@;
    let ghost w = weights@;
    let ghost e = embeddings@;
    let dims: usize = if n > 0 {
        embeddings[0].len()
    } else {
        0
    };
    assert(dims == dims_of(e));
    let mut clusters: Vec<Cluster> = Vec::new();
    let mut i: usize = 0;
    while i < n
        invariant
            i <= n,
            n == d.len(),
            d == distances@,
            w == weights@,
            e == embeddings@,
            n <= MAX_TOPICS,
            weights_ok(d, w),
            embeddings_ok(e, n as int, dims as int),
            clusters@.len() == i,
            entries(clusters@) == range_seq(i as int),
            clusters_ok(d, w, e, dims as int, clusters@, outlier_threshold),
            forall|k: int| 0 <= k < i ==> singleton(#[trigger] clusters@[k], k, w),
        decreases n - i,
    {
        let mut items: Vec<usize> = Vec::new();
        items.push(i);
        let wi = weights[i];
        let row = &embeddings[i];
        let mut centroid: Vec<i128> = Vec::new();
        let mut j: usize = 0;
        while j < dims
            invariant
                j <= dims,
                i < n,
                n == e.len(),
                e == embeddings@,
                *row == e[i as int],
                row@.len() == dims,
                wi == w[i as int],
                centroid@.len() == j,
                forall|t: int| 0 <= t < j ==> #[trigger] centroid@[t] == wi * row@[t],
            decreases dims - j,
        {
            let x = row[j];
            assert(-(0x1_0000_0000_0000_0000_0000_0000) <= (wi as i128) * (x as i128) <= 0x1_0000_0000_0000_0000_0000_0000) by (nonlinear_arith)
                requires
                    0 <= wi <= 0xFFFF_FFFF_FFFF_FFFF,
                    -0x8000_0000 <= x <= 0x7FFF_FFFF,
            ;
            centroid.push((wi as i128) * (x as i128));
            j = j + 1;
        }
        let c = Cluster { id: i, items, centroid, total_weight: wi, is_outlier: false, max_merge_distance: 0 };
        proof {
            assert(c.items@ =~= seq![i]);
            assert(c.items@.drop_last() =~= Seq::<usize>::empty());
            assert(clusters@.push(c).drop_last() =~= clusters@);
        }
        let ghost before = clusters@;
        proof {
            assert(item_weight(w, c.items@.drop_last()) == 0);
            assert(c.items@.last() == i);
            assert(item_weight(w, c.items@) == w[i as int]);
            assert forall|t: int| 0 <= t < dims implies #[trigger] c.centroid@[t] == wsum(e, w, c.items@, t) by {
                assert(wsum(e, w, c.items@.drop_last(), t) == 0);
            }
            assert(cluster_ok(d, w, e, dims as int, c, outlier_threshold));
        }
        clusters.push(c);
        proof {
            assert(entries(clusters@) =~= range_seq(i + 1));
            assert forall|k: int| 0 <= k < clusters@.len() implies cluster_ok(d, w, e, dims as int, #[trigger] clusters@[k], outlier_threshold) by {
                if k < i {
                    assert(clusters@[k] == before[k]);
                }
            }
            assert forall|k: int| 0 <= k < i + 1 implies singleton(#[trigger] clusters@[k], k, w) by {
                if k < i {
                    assert(clusters@[k] == before[k]);
                }
            }
        }
        i = i + 1;
    }
    let ghost mut trace: Seq<Seq<Cluster>> = seq![clusters@];
    assert(merge_trace(d, w, linkage, outlier_threshold, trace, clusters@));
    while clusters.len() > target_clusters
        invariant
            merge_trace(d, w, linkage, outlier_threshold, trace, clusters@),
            n == d.len(),
            d == distances@,
            w == weights@,
            e == embeddings@,
            n <= MAX_TOPICS,
            dist_matrix(d),
            weights_ok(d, w),
            embeddings_ok(e, n as int, dims as int),
            target_clusters >= 1,
            clusters@.len() == n || (target_clusters <= clusters@.len() < n),
            partitions(clusters@, n as int),
            clusters_ok(d, w, e, dims as int, clusters@, outlier_threshold),
        decreases clusters@.len(),
    {
        proof {
            assert forall|c: int| 0 <= c < clusters@.len() implies cluster_ready(d, w, dims as int, #[trigger] clusters@[c]) by {
                lemma_entries_remove(clusters@, c);
                entries(clusters@).to_multiset_ensures();
                entries(clusters@.remove(c)).to_multiset_ensures();
                clusters@[c].items@.to_multiset_ensures();
                range_seq(n as int).to_multiset_ensures();
                assert(cluster_ok(d, w, e, dims as int, clusters@[c], outlier_threshold));
                lemma_ready(d, w, e, dims as int, clusters@[c], outlier_threshold);
            }
            assert(clusters@[0].centroid@.len() == dims);
        }
        let (mi, mj, min_dist) = closest_pair(&clusters, distances, weights, linkage);
        let ghost cs0 = clusters@;
        let b = clusters.remove(mj);
        let ghost cs1 = clusters@;
        let a = clusters.remove(mi);
        let ghost cs2 = clusters@;
        let new_items = concat_points(&a.items, &b.items);
        proof {
            lemma_entries_remove(cs0, mj as int);
            lemma_entries_remove(cs1, mi as int);
            entries(cs0).to_multiset_ensures();
            entries(cs2).to_multiset_ensures();
            a.items@.to_multiset_ensures();
            b.items@.to_multiset_ensures();
            range_seq(n as int).to_multiset_ensures();
            assert(a.items@.len() + b.items@.len() <= n);
            assert(cluster_ok(d, w, e, dims as int, a, outlier_threshold));
            assert(cluster_ok(d, w, e, dims as int, b, outlier_threshold));
            assert(cluster_ready(d, w, dims as int, a));
            assert(cluster_ready(d, w, dims as int, b));
            lemma_item_weight_bound(w, a.items@);
            lemma_item_weight_bound(w, b.items@);
            lemma_item_weight_concat(w, a.items@, b.items@);
            assert(a.items@.len() * MAX_WEIGHT + b.items@.len() * MAX_WEIGHT <= MAX_TOPICS * MAX_WEIGHT) by (nonlinear_arith)
                requires
                    a.items@.len() + b.items@.len() <= MAX_TOPICS,
            ;
        }
        let mut centroid: Vec<i128> = Vec::new();
        let mut j: usize = 0;
        while j < dims
            invariant
                j <= dims,
                a.centroid@.len() == dims,
                b.centroid@.len() == dims,
                centroid_ok(a.centroid@),
                centroid_ok(b.centroid@),
                centroid@.len() == j,
                forall|t: int| 0 <= t < j ==> #[trigger] centroid@[t] == a.centroid@[t] + b.centroid@[t],
            decreases dims - j,
        {
            centroid.push(a.centroid[j] + b.centroid[j]);
            j = j + 1;
        }
        let is_outlier = a.is_outlier || b.is_outlier || min_dist > outlier_threshold;
        let mut mx = min_dist;
        if a.max_merge_distance > mx {
            mx = a.max_merge_distance;
        }
        if b.max_merge_distance > mx {
            mx = b.max_merge_distance;
        }
        let merged = Cluster {
            id: a.id,
            items: new_items,
            centroid,
            total_weight: a.total_weight + b.total_weight,
            is_outlier,
            max_merge_distance: mx,
        };
        proof {
            assert forall|t: int| 0 <= t < dims implies #[trigger] merged.centroid@[t] == wsum(e, w, merged.items@, t) by {
                lemma_wsum_concat(e, w, a.items@, b.items@, t);
            }
            assert(cluster_ok(d, w, e, dims as int, merged, outlier_threshold));
        }
        clusters.push(merged);
        proof {
            assert(closest(d, w, cs0, linkage, mi as int, mj as int));
            assert(clusters@.drop_last() =~= cs0.remove(mj as int).remove(mi as int));
            assert(cs1 == cs0.remove(mj as int));
            assert(a == cs1[mi as int]);
            assert(cs1[mi as int] == cs0[mi as int]);
            assert(b == cs0[mj as int]);
            assert(merged_of(cs0[mi as int], cs0[mj as int], clusters@.last(), cluster_linkage(d, w, cs0[mi as int], cs0[mj as int], linkage), outlier_threshold));
            assert(merge_step(d, w, linkage, outlier_threshold, cs0, clusters@));
            let old_trace = trace;
            trace = trace.push(clusters@);
            assert forall|t: int| 0 <= t < trace.len() - 1 implies merge_step(d, w, linkage, outlier_threshold, #[trigger] trace[t], trace[t + 1]) by {
                if t < old_trace.len() - 1 {
                    assert(trace[t] == old_trace[t] && trace[t + 1] == old_trace[t + 1]);
                } else {
                    assert(trace[t] == cs0);
                }
            }
            assert(merge_trace(d, w, linkage, outlier_threshold, trace, clusters@));
            assert(clusters@.drop_last() =~= cs2);
            vstd::seq_lib::lemma_multiset_commutative(entries(cs2), merged.items@);
            vstd::seq_lib::lemma_multiset_commutative(a.items@, b.items@);
            assert(entries(clusters@).to_multiset() =~= entries(cs0).to_multiset());
            assert forall|c: int| 0 <= c < clusters@.len() implies cluster_ok(d, w, e, dims as int, #[trigger] clusters@[c], outlier_threshold) by {
                if c < clusters@.len() - 1 {
                    let c1 = if c < mi { c } else { c + 1 };
                    let c0 = if c1 < mj { c1 } else { c1 + 1 };
                    assert(clusters@[c] == cs2[c]);
                    assert(cs2[c] == cs1[c1]);
                    assert(cs1[c1] == cs0[c0]);
                }
            }
        }
    }
    clusters
}

} // verus!
