//! The cluster hierarchy built from the spanning tree, stability-based
//! selection of disjoint clusters, and flat labels.

use vstd::prelude::*;

use crate::spanning::{linked, MstEdge};
use crate::union_find::UnionFind;

verus! {

/// `1 / distance` in fixed point: `LAMBDA_SCALE` stands for 1.
pub const LAMBDA_SCALE: u64 = 1_000_000_000_000_000_000;

/// Stands for an infinite lambda, the inverse of distance 0.
pub const LAMBDA_INF: u64 = 0xFFFF_FFFF_FFFF_FFFF;

pub open spec fn lambda_of(w: u64) -> u64 {
    if w > 0 {
        (LAMBDA_SCALE / w) as u64
    } else {
        LAMBDA_INF
    }
}

fn lambda(w: u64) -> (r: u64)
    ensures
        r == lambda_of(w),
{
    if w > 0 {
        LAMBDA_SCALE / w
    } else {
        LAMBDA_INF
    }
}

/// A node of the cluster hierarchy; its id is its position in the arena.
pub struct HdbscanNode {
    /// No children for a single point, else the two merged nodes.
    pub children: Vec<usize>,
    /// Lambda at which the node came into being.
    pub lambda_birth: u64,
    /// Lambda at which it merged into its parent; 0 for a root.
    pub lambda_death: u64,
    pub points: Vec<usize>,
}

pub open spec fn is_child(nodes: Seq<HdbscanNode>, x: int) -> bool {
    exists|k: int| 0 <= k < nodes.len() && #[trigger] nodes[k].children@.contains(x as usize)
}

/// A larger weight never gives a larger lambda.
pub proof fn lemma_lambda_antitone(w1: u64, w2: u64)
    requires
        w1 <= w2,
    ensures
        lambda_of(w1) >= lambda_of(w2),
{
    if w1 > 0 {
        vstd::arithmetic::div_mod::lemma_div_is_ordered_by_denominator(LAMBDA_SCALE as int, w1 as int, w2 as int);
    }
}

pub open spec fn sorted_by_weight(s: Seq<MstEdge>) -> bool {
    forall|i: int, j: int| 0 <= i <= j < s.len() ==> s[i].weight <= s[j].weight
}

/// Internal node `n + k` was born at the lambda of edge `idx[k]` of `s`, the
/// edges in ascending weight, and its two children hold that edge's two ends;
/// the indices increase with `k`.
pub open spec fn births_from(nodes: Seq<HdbscanNode>, n: int, mst: Seq<MstEdge>, s: Seq<MstEdge>, idx: Seq<int>) -> bool {
    &&& s.to_multiset() == mst.to_multiset()
    &&& sorted_by_weight(s)
    &&& idx.len() == nodes.len() - n
    &&& forall|a: int, b: int| 0 <= a < b < idx.len() ==> idx[a] < idx[b]
    &&& forall|k: int| 0 <= k < idx.len() ==> 0 <= #[trigger] idx[k] < s.len() && nodes[n + k].lambda_birth == lambda_of(s[idx[k]].weight)
    &&& forall|k: int|
        0 <= k < idx.len() ==> nodes[nodes[n + k].children@[0] as int].points@.contains(s[#[trigger] idx[k]].from)
            && nodes[nodes[n + k].children@[1] as int].points@.contains(s[idx[k]].to)
}

/// Node `n + k` joins the parts that hold the two ends of edge `idx[k]`.
pub open spec fn joins_ends(kids: Seq<Vec<usize>>, pts: Seq<Vec<usize>>, n: int, s: Seq<MstEdge>, idx: Seq<int>) -> bool {
    forall|k: int|
        0 <= k < idx.len() ==> pts[kids[n + k]@[0] as int]@.contains(s[#[trigger] idx[k]].from)
            && pts[kids[n + k]@[1] as int]@.contains(s[idx[k]].to)
}

/// The arena that `build_cluster_tree` produces over `n` points: single points
/// first, born at 0; then one node per joining edge, in ascending weight, over
/// the two nodes that the edge joins; each node is the child of at most one
/// node, dies when its parent is born, and a node that is no child never dies.
pub open spec fn cluster_tree(nodes: Seq<HdbscanNode>, n: int, mst: Seq<MstEdge>) -> bool {
    &&& n <= nodes.len()
    &&& forall|i: int|
        0 <= i < n ==> (#[trigger] nodes[i]).children@.len() == 0 && nodes[i].points@ == seq![i as usize]
            && nodes[i].lambda_birth == 0
    &&& forall|k: int|
        n <= k < nodes.len() ==> {
            let c = (#[trigger] nodes[k]).children@;
            &&& c.len() == 2
            &&& c[0] < k && c[1] < k && c[0] != c[1]
            &&& nodes[k].points@ == nodes[c[0] as int].points@ + nodes[c[1] as int].points@
            &&& nodes[c[0] as int].lambda_death == nodes[k].lambda_birth
            &&& nodes[c[1] as int].lambda_death == nodes[k].lambda_birth
            &&& nodes[k].lambda_death <= nodes[k].lambda_birth
        }
    &&& forall|k1: int, k2: int| n <= k1 < k2 < nodes.len() ==> #[trigger] nodes[k1].lambda_birth >= #[trigger] nodes[k2].lambda_birth
    &&& forall|k1: int, k2: int, x: usize|
        0 <= k1 < nodes.len() && 0 <= k2 < nodes.len() && #[trigger] nodes[k1].children@.contains(x)
            && #[trigger] nodes[k2].children@.contains(x) ==> k1 == k2
    &&& forall|x: int| 0 <= x < nodes.len() && !is_child(nodes, x) ==> (#[trigger] nodes[x]).lambda_death == 0
    &&& exists|s: Seq<MstEdge>, idx: Seq<int>| #[trigger] births_from(nodes, n, mst, s, idx)
}

/// `mst` is a spanning tree of `n` points: `n - 1` edges joining every point
/// to point 0.
pub open spec fn spans(mst: Seq<MstEdge>, n: int) -> bool {
    &&& n >= 1
    &&& mst.len() == n - 1
    &&& forall|v: int| 0 <= v < n ==> #[trigger] linked(mst, mst.len() as int, v)
}

/// Relies on slice::sort_unstable_by_key: the same edges, by ascending weight.
#[verifier::external_body]
fn sort_by_weight(edges: Vec<MstEdge>) -> (r: Vec<MstEdge>)
    ensures
        r@.to_multiset() == edges@.to_multiset(),
        forall|i: int, j: int| 0 <= i <= j < r@.len() ==> r@[i].weight <= r@[j].weight,
{
    let mut edges = edges;
    edges.sort_unstable_by_key(|e| e.weight);
    edges
}

pub(crate) fn concat_points(a: &Vec<usize>, b: &Vec<usize>) -> (r: Vec<usize>)
    ensures
        r@ == a@ + b@,
{
    let mut r: Vec<usize> = Vec::new();
    let mut i: usize = 0;
    while i < a.len()
        invariant
            i <= a@.len(),
            r@ == a@.subrange(0, i as int),
        decreases a@.len() - i,
    {
        r.push(a[i]);
        i = i + 1;
    }
    let mut j: usize = 0;
    while j < b.len()
        invariant
            j <= b@.len(),
            r@ == a@ + b@.subrange(0, j as int),
        decreases b@.len() - j,
    {
        r.push(b[j]);
        j = j + 1;
    }
    assert(r@ =~= a@ + b@);
    r
}

pub open spec fn edges_within(mst: Seq<MstEdge>, n: int) -> bool {
    forall|j: int| 0 <= j < mst.len() ==> (#[trigger] mst[j]).from < n && mst[j].to < n
}

/// The parts of the arena while it is being built, field by field.
pub open spec fn tree_parts(
    kids: Seq<Vec<usize>>,
    births: Seq<u64>,
    deaths: Seq<u64>,
    pts: Seq<Vec<usize>>,
    parent_of: Seq<int>,
    n: int,
) -> bool {
    let len = kids.len();
    &&& births.len() == len && deaths.len() == len && pts.len() == len && parent_of.len() == len
    &&& n <= len
    &&& forall|i: int|
        0 <= i < n ==> (#[trigger] kids[i])@.len() == 0 && pts[i]@ == seq![i as usize] && births[i] == 0
    &&& forall|k: int|
        n <= k < len ==> {
            let c = (#[trigger] kids[k])@;
            &&& c.len() == 2
            &&& c[0] < k && c[1] < k && c[0] != c[1]
            &&& pts[k]@ == pts[c[0] as int]@ + pts[c[1] as int]@
            &&& parent_of[c[0] as int] == k && parent_of[c[1] as int] == k
            &&& deaths[k] <= births[k]
        }
    &&& forall|k1: int, k2: int| n <= k1 < k2 < len ==> #[trigger] births[k1] >= #[trigger] births[k2]
    &&& forall|x: int|
        0 <= x < len ==> (#[trigger] parent_of[x] == -1 && deaths[x] == 0) || (x < parent_of[x] < len
            && n <= parent_of[x] && deaths[x] == births[parent_of[x]] && kids[parent_of[x]]@.contains(x as usize))
}

/// Node `t` carries the parts at position `t`.
pub open spec fn corresponds(ns: Seq<HdbscanNode>, kids0: Seq<Vec<usize>>, pts0: Seq<Vec<usize>>, births: Seq<u64>, deaths: Seq<u64>) -> bool {
    &&& ns.len() == kids0.len()
    &&& forall|t: int| 0 <= t < ns.len() ==> (#[trigger] ns[t]).children == kids0[t] && ns[t].points == pts0[t]
            && ns[t].lambda_birth == births[t] && ns[t].lambda_death == deaths[t]
}

proof fn lemma_tree_part_0(
    ns: Seq<HdbscanNode>,
    kids0: Seq<Vec<usize>>,
    pts0: Seq<Vec<usize>>,
    births: Seq<u64>,
    deaths: Seq<u64>,
    parent_of: Seq<int>,
    n: int,
)
    requires
        0 <= n,
        tree_parts(kids0, births, deaths, pts0, parent_of, n),
        corresponds(ns, kids0, pts0, births, deaths),
    ensures
        forall|x: int| 0 <= x < ns.len() && parent_of[x] != -1 ==> is_child(ns, x),
{
        assert forall|x: int| 0 <= x < ns.len() && parent_of[x] != -1 implies is_child(ns, x) by {
            let k = parent_of[x];
            assert(ns[k].children@.contains(x as usize));
        }
}

proof fn lemma_tree_part_1(
    ns: Seq<HdbscanNode>,
    kids0: Seq<Vec<usize>>,
    pts0: Seq<Vec<usize>>,
    births: Seq<u64>,
    deaths: Seq<u64>,
    parent_of: Seq<int>,
    n: int,
)
    requires
        0 <= n,
        tree_parts(kids0, births, deaths, pts0, parent_of, n),
        corresponds(ns, kids0, pts0, births, deaths),
    ensures
        forall|x: int| 0 <= x < ns.len() && !is_child(ns, x) ==> (#[trigger] ns[x]).lambda_death == 0,
{
        assert forall|x: int| 0 <= x < ns.len() && !is_child(ns, x) implies (#[trigger] ns[x]).lambda_death == 0 by {
            if parent_of[x] != -1 {
                let k = parent_of[x];
                assert(ns[k].children@.contains(x as usize));
            }
        }
}

proof fn lemma_tree_part_2(
    ns: Seq<HdbscanNode>,
    kids0: Seq<Vec<usize>>,
    pts0: Seq<Vec<usize>>,
    births: Seq<u64>,
    deaths: Seq<u64>,
    parent_of: Seq<int>,
    n: int,
)
    requires
        0 <= n,
        tree_parts(kids0, births, deaths, pts0, parent_of, n),
        corresponds(ns, kids0, pts0, births, deaths),
    ensures
        forall|k: int| n <= k < ns.len() ==> {
            let c = (#[trigger] ns[k]).children@;
            &&& c.len() == 2
            &&& c[0] < k && c[1] < k && c[0] != c[1]
            &&& ns[k].points@ == ns[c[0] as int].points@ + ns[c[1] as int].points@
            &&& ns[c[0] as int].lambda_death == ns[k].lambda_birth
            &&& ns[c[1] as int].lambda_death == ns[k].lambda_birth
            &&& ns[k].lambda_death <= ns[k].lambda_birth
        },
{
        assert forall|k: int| n <= k < ns.len() implies {
            let c = (#[trigger] ns[k]).children@;
            &&& c.len() == 2
            &&& c[0] < k && c[1] < k && c[0] != c[1]
            &&& ns[k].points@ == ns[c[0] as int].points@ + ns[c[1] as int].points@
            &&& ns[c[0] as int].lambda_death == ns[k].lambda_birth
            &&& ns[c[1] as int].lambda_death == ns[k].lambda_birth
            &&& ns[k].lambda_death <= ns[k].lambda_birth
        } by {
            let c = kids0[k]@;
            assert(parent_of[c[0] as int] == k);
            assert(parent_of[c[1] as int] == k);
        }
}

proof fn lemma_tree_part_3(
    ns: Seq<HdbscanNode>,
    kids0: Seq<Vec<usize>>,
    pts0: Seq<Vec<usize>>,
    births: Seq<u64>,
    deaths: Seq<u64>,
    parent_of: Seq<int>,
    n: int,
)
    requires
        0 <= n,
        tree_parts(kids0, births, deaths, pts0, parent_of, n),
        corresponds(ns, kids0, pts0, births, deaths),
    ensures
        forall|i: int| 0 <= i < n ==> (#[trigger] ns[i]).children@.len() == 0 && ns[i].points@ == seq![i as usize]
            && ns[i].lambda_birth == 0,
{
        assert forall|i: int| 0 <= i < n implies (#[trigger] ns[i]).children@.len() == 0 && ns[i].points@ == seq![i as usize]
            && ns[i].lambda_birth == 0 by {
            assert(kids0[i]@.len() == 0);
        }
}

proof fn lemma_tree_part_4(
    ns: Seq<HdbscanNode>,
    kids0: Seq<Vec<usize>>,
    pts0: Seq<Vec<usize>>,
    births: Seq<u64>,
    deaths: Seq<u64>,
    parent_of: Seq<int>,
    n: int,
)
    requires
        0 <= n,
        tree_parts(kids0, births, deaths, pts0, parent_of, n),
        corresponds(ns, kids0, pts0, births, deaths),
    ensures
        forall|k1: int, k2: int| n <= k1 < k2 < ns.len() ==> #[trigger] ns[k1].lambda_birth >= #[trigger] ns[k2].lambda_birth,
{
        assert forall|k1: int, k2: int| n <= k1 < k2 < ns.len() implies #[trigger] ns[k1].lambda_birth >= #[trigger] ns[k2].lambda_birth by {
            assert(ns[k1].lambda_birth == births[k1]);
            assert(ns[k2].lambda_birth == births[k2]);
            assert(births.len() == kids0.len());
            assert(births[k1] >= births[k2]);
        }
}

proof fn lemma_tree_part_5(
    ns: Seq<HdbscanNode>,
    kids0: Seq<Vec<usize>>,
    pts0: Seq<Vec<usize>>,
    births: Seq<u64>,
    deaths: Seq<u64>,
    parent_of: Seq<int>,
    n: int,
)
    requires
        0 <= n,
        tree_parts(kids0, births, deaths, pts0, parent_of, n),
        corresponds(ns, kids0, pts0, births, deaths),
    ensures
        forall|k1: int, k2: int, x: usize|
            0 <= k1 < ns.len() && 0 <= k2 < ns.len() && #[trigger] ns[k1].children@.contains(x)
                && #[trigger] ns[k2].children@.contains(x) ==> k1 == k2,
{
        assert forall|k1: int, k2: int, x: usize|
            0 <= k1 < ns.len() && 0 <= k2 < ns.len() && #[trigger] ns[k1].children@.contains(x)
                && #[trigger] ns[k2].children@.contains(x) implies k1 == k2 by {
            assert forall|k: int| 0 <= k < ns.len() && ns[k].children@.contains(x) implies parent_of[x as int] == k by {
                let c = kids0[k]@;
                assert(ns[k].children == kids0[k]);
                if k < n {
                    assert(c.len() == 0);
                } else {
                    let t = choose|t: int| 0 <= t < c.len() && c[t] == x;
                    assert(t == 0 || t == 1);
                }
            }
        }
}

proof fn lemma_parts_to_tree(
    ns: Seq<HdbscanNode>,
    kids0: Seq<Vec<usize>>,
    pts0: Seq<Vec<usize>>,
    births: Seq<u64>,
    deaths: Seq<u64>,
    parent_of: Seq<int>,
    n: int,
    mst: Seq<MstEdge>,
    sorted: Seq<MstEdge>,
    idx: Seq<int>,
)
    requires
        0 <= n,
        tree_parts(kids0, births, deaths, pts0, parent_of, n),
        corresponds(ns, kids0, pts0, births, deaths),
        sorted.to_multiset() == mst.to_multiset(),
        sorted_by_weight(sorted),
        idx.len() == kids0.len() - n,
        forall|a: int, b: int| 0 <= a < b < idx.len() ==> idx[a] < idx[b],
        forall|k: int| 0 <= k < idx.len() ==> 0 <= #[trigger] idx[k] < sorted.len() && births[n + k] == lambda_of(sorted[idx[k]].weight),
        joins_ends(kids0, pts0, n, sorted, idx),
    ensures
        cluster_tree(ns, n, mst),
        forall|x: int| 0 <= x < ns.len() && parent_of[x] != -1 ==> is_child(ns, x),
{
    lemma_tree_part_0(ns, kids0, pts0, births, deaths, parent_of, n);
    lemma_tree_part_1(ns, kids0, pts0, births, deaths, parent_of, n);
    lemma_tree_part_2(ns, kids0, pts0, births, deaths, parent_of, n);
    lemma_tree_part_3(ns, kids0, pts0, births, deaths, parent_of, n);
    lemma_tree_part_4(ns, kids0, pts0, births, deaths, parent_of, n);
    lemma_tree_part_5(ns, kids0, pts0, births, deaths, parent_of, n);
        assert forall|k: int|
            0 <= k < idx.len() implies ns[ns[n + k].children@[0] as int].points@.contains(sorted[#[trigger] idx[k]].from)
                && ns[ns[n + k].children@[1] as int].points@.contains(sorted[idx[k]].to) by {
            let c = kids0[n + k]@;
            assert(ns[n + k].children == kids0[n + k]);
            assert(c.len() == 2 && c[0] < n + k && c[1] < n + k);
            assert(ns[c[0] as int].points == pts0[c[0] as int]);
            assert(ns[c[1] as int].points == pts0[c[1] as int]);
        }
        assert(births_from(ns, n, mst, sorted, idx));
}

fn assemble_tree(
    kids: Vec<Vec<usize>>,
    births: Vec<u64>,
    deaths: Vec<u64>,
    pts: Vec<Vec<usize>>,
    parent_of: Ghost<Seq<int>>,
    n: usize,
    mst: Ghost<Seq<MstEdge>>,
    sorted: Ghost<Seq<MstEdge>>,
    idx: Ghost<Seq<int>>,
) -> (nodes: Vec<HdbscanNode>)
    requires
        tree_parts(kids@, births@, deaths@, pts@, parent_of@, n as int),
        sorted@.to_multiset() == mst@.to_multiset(),
        sorted_by_weight(sorted@),
        idx@.len() == kids@.len() - n,
        forall|a: int, b: int| 0 <= a < b < idx@.len() ==> idx@[a] < idx@[b],
        forall|k: int| 0 <= k < idx@.len() ==> 0 <= #[trigger] idx@[k] < sorted@.len() && births@[n + k] == lambda_of(sorted@[idx@[k]].weight),
        joins_ends(kids@, pts@, n as int, sorted@, idx@),
    ensures
        cluster_tree(nodes@, n as int, mst@),
        nodes@.len() == kids@.len(),
        forall|x: int| 0 <= x < nodes@.len() && parent_of@[x] != -1 ==> is_child(nodes@, x),
{
    let ghost kids0 = kids@;
    let ghost pts0 = pts@;
    let ghost len = kids@.len();
    let mut kids = kids;
    let mut pts = pts;
    let mut rev: Vec<HdbscanNode> = Vec::new();
    while kids.len() > 0
        invariant
            kids@.len() == pts@.len(),
            kids@.len() <= len,
            kids@ == kids0.subrange(0, kids@.len() as int),
            pts@ == pts0.subrange(0, pts@.len() as int),
            births@.len() == len && deaths@.len() == len && kids0.len() == len && pts0.len() == len,
            rev@.len() == len - kids@.len(),
            forall|t: int| 0 <= t < rev@.len() ==> (#[trigger] rev@[t]).children == kids0[len - 1 - t] && rev@[t].points == pts0[len - 1 - t]
                && rev@[t].lambda_birth == births@[len - 1 - t] && rev@[t].lambda_death == deaths@[len - 1 - t],
        decreases kids@.len(),
    {
        let c = kids.pop().unwrap();
        let p = pts.pop().unwrap();
        let k = kids.len();
        rev.push(HdbscanNode { children: c, lambda_birth: births[k], lambda_death: deaths[k], points: p });
    }
    let mut nodes: Vec<HdbscanNode> = Vec::new();
    while rev.len() > 0
        invariant
            nodes@.len() + rev@.len() == len,
            births@.len() == len && deaths@.len() == len && kids0.len() == len && pts0.len() == len,
            forall|t: int| 0 <= t < rev@.len() ==> (#[trigger] rev@[t]).children == kids0[len - 1 - t] && rev@[t].points == pts0[len - 1 - t]
                && rev@[t].lambda_birth == births@[len - 1 - t] && rev@[t].lambda_death == deaths@[len - 1 - t],
            forall|t: int| 0 <= t < nodes@.len() ==> (#[trigger] nodes@[t]).children == kids0[t] && nodes@[t].points == pts0[t]
                && nodes@[t].lambda_birth == births@[t] && nodes@[t].lambda_death == deaths@[t],
        decreases rev@.len(),
    {
        let node = rev.pop().unwrap();
        nodes.push(node);
    }
    proof {
        assert(corresponds(nodes@, kids0, pts0, births@, deaths@));
        lemma_parts_to_tree(nodes@, kids0, pts0, births@, deaths@, parent_of@, n as int, mst@, sorted@, idx@);
    }
    nodes
}

/// Number of representatives among the points below `k`.
pub open spec fn roots_below(uf: UnionFind, k: int) -> nat
    decreases k,
{
    if k <= 0 {
        0
    } else {
        roots_below(uf, k - 1) + if uf.root(k - 1) == k - 1 {
            1nat
        } else {
            0nat
        }
    }
}

proof fn lemma_roots_all(uf: UnionFind, k: int)
    requires
        0 <= k,
        forall|r: int| 0 <= r < k ==> #[trigger] uf.root(r) == r,
    ensures
        roots_below(uf, k) == k,
    decreases k,
{
    if k > 0 {
        lemma_roots_all(uf, k - 1);
    }
}

proof fn lemma_roots_same(a: UnionFind, b: UnionFind, k: int)
    requires
        0 <= k,
        forall|r: int| 0 <= r < k ==> #[trigger] b.root(r) == a.root(r),
    ensures
        roots_below(b, k) == roots_below(a, k),
    decreases k,
{
    if k > 0 {
        lemma_roots_same(a, b, k - 1);
    }
}

proof fn lemma_roots_lose_one(a: UnionFind, b: UnionFind, loser: int, k: int)
    requires
        0 <= k,
        forall|r: int| 0 <= r < k && r != loser ==> ((b.root(r) == r) == (a.root(r) == r)),
        a.root(loser) == loser,
        b.root(loser) != loser,
    ensures
        roots_below(b, k) + (if 0 <= loser < k { 1int } else { 0int }) == roots_below(a, k),
    decreases k,
{
    if k > 0 {
        lemma_roots_lose_one(a, b, loser, k - 1);
    }
}

proof fn lemma_one_root(uf: UnionFind, c: int, k: int)
    requires
        0 <= k,
        forall|r: int| 0 <= r < k ==> (uf.root(r) == r) == (r == c),
    ensures
        roots_below(uf, k) == (if 0 <= c < k { 1int } else { 0int }),
    decreases k,
{
    if k > 0 {
        lemma_one_root(uf, c, k - 1);
    }
}

/// Every point joined to 0 by the first `k` edges shares point 0's representative,
/// when each edge's ends share one.
proof fn lemma_linked_same_root(uf: UnionFind, mst: Seq<MstEdge>, n: int, k: int, v: int)
    requires
        uf.wf(),
        uf.len() == n,
        0 <= k <= mst.len(),
        forall|j: int| 0 <= j < mst.len() ==> (#[trigger] mst[j]).from < n && mst[j].to < n,
        forall|j: int| 0 <= j < mst.len() ==> uf.root(#[trigger] mst[j].from as int) == uf.root(mst[j].to as int),
        linked(mst, k, v),
    ensures
        uf.root(v) == uf.root(0),
    decreases k,
{
    if k > 0 {
        if linked(mst, k - 1, v) {
            lemma_linked_same_root(uf, mst, n, k - 1, v);
        } else {
            let e = mst[k - 1];
            lemma_linked_same_root(uf, mst, n, k - 1, e.from as int);
        }
    }
}

/// After a union, each point still lies in the part of its representative,
/// and the new node joins the parts that hold the ends of its edge.
#[verifier::spinoff_prover]
proof fn lemma_union_keeps_parts(
    uf2: UnionFind,
    uf: UnionFind,
    old_pts: Seq<Vec<usize>>,
    pts: Seq<Vec<usize>>,
    old_active: Seq<usize>,
    active: Seq<usize>,
    ra: int,
    rb: int,
    nr: int,
    ca: usize,
    cb: usize,
    k: int,
    n: int,
    old_kids: Seq<Vec<usize>>,
    kids: Seq<Vec<usize>>,
    old_idx: Seq<int>,
    idx: Seq<int>,
    sorted: Seq<MstEdge>,
    edge: MstEdge,
    e: int,
)
    requires
        uf2.wf(),
        uf.wf(),
        uf2.len() == n,
        uf.len() == n,
        0 <= ra < n,
        0 <= rb < n,
        nr == ra || nr == rb,
        forall|i: int| 0 <= i < n ==> #[trigger] uf.root(i) == (if uf2.root(i) == ra || uf2.root(i) == rb { nr } else { uf2.root(i) }),
        forall|x: int| 0 <= x < n ==> old_pts[old_active[#[trigger] uf2.root(x)] as int]@.contains(x as usize),
        forall|r: int| 0 <= r < n && #[trigger] uf2.root(r) == r ==> (old_active[r] as int) < k,
        uf2.root(ra) == ra,
        uf2.root(rb) == rb,
        old_active.len() == n,
        old_active[ra] == ca,
        old_active[rb] == cb,
        old_pts.len() == k,
        0 <= k <= usize::MAX,
        pts == old_pts.push(pts[k]),
        pts[k]@ == old_pts[ca as int]@ + old_pts[cb as int]@,
        active == old_active.update(nr, k as usize),
        joins_ends(old_kids, old_pts, n, sorted, old_idx),
        old_kids.len() == k,
        old_idx.len() == k - n,
        forall|j: int| n <= j < k ==> (#[trigger] old_kids[j])@.len() == 2 && old_kids[j]@[0] < j && old_kids[j]@[1] < j,
        kids == old_kids.push(kids[k]),
        kids[k]@ == seq![ca, cb],
        idx == old_idx.push(e),
        0 <= e < sorted.len(),
        sorted[e] == edge,
        old_pts[ca as int]@.contains(edge.from),
        old_pts[cb as int]@.contains(edge.to),
    ensures
        forall|x: int| 0 <= x < n ==> pts[active[#[trigger] uf.root(x)] as int]@.contains(x as usize),
        joins_ends(kids, pts, n, sorted, idx),
{
    assert forall|x: int| 0 <= x < n implies pts[active[#[trigger] uf.root(x)] as int]@.contains(x as usize) by {
        let r = uf2.root(x);
        assert(old_pts[old_active[r] as int]@.contains(x as usize));
        if r == ra || r == rb {
            assert(uf.root(x) == nr);
            assert(active[nr] == k);
            let t = choose|t: int| 0 <= t < old_pts[old_active[r] as int]@.len() && old_pts[old_active[r] as int]@[t] == x as usize;
            if r == ra {
                assert(pts[k]@[t] == x as usize);
            } else {
                assert(pts[k]@[old_pts[ca as int]@.len() + t] == x as usize);
            }
        } else {
            uf2.lemma_root(x);
            uf2.lemma_root(r);
            assert(uf.root(x) == r);
            assert(active[r] == old_active[r]);
            assert(pts[old_active[r] as int] == old_pts[old_active[r] as int]);
        }
    }
    assert forall|kk: int|
        0 <= kk < idx.len() implies pts[kids[n + kk]@[0] as int]@.contains(sorted[#[trigger] idx[kk]].from)
            && pts[kids[n + kk]@[1] as int]@.contains(sorted[idx[kk]].to) by {
        if kk < idx.len() - 1 {
            assert(idx[kk] == old_idx[kk]);
            assert(kids[n + kk] == old_kids[n + kk]);
            let j = n + kk;
            let c = old_kids[j]@;
            assert(c.len() == 2 && c[0] < j && c[1] < j);
            assert(pts[c[0] as int] == old_pts[c[0] as int]);
            assert(pts[c[1] as int] == old_pts[c[1] as int]);
        } else {
            assert(kids[k]@[0] == ca && kids[k]@[1] == cb);
        }
    }
}

/// Builds the merge hierarchy: the edges are taken by ascending weight, and
/// each one that joins two components makes a new node over the two nodes that
/// stood for them.
#[verifier::rlimit(100)]
#[verifier::spinoff_prover]
pub fn build_cluster_tree(mst: &Vec<MstEdge>, n: usize) -> (nodes: Vec<HdbscanNode>)
    requires
        edges_within(mst@, n as int),
        n + mst@.len() <= usize::MAX,
    ensures
        cluster_tree(nodes@, n as int, mst@),
        nodes@.len() <= n + mst@.len(),
        spans(mst@, n as int) ==> nodes@.len() == 2 * n - 1 && forall|x: int| 0 <= x < 2 * n - 2 ==> is_child(nodes@, x),
{
    let mut copy: Vec<MstEdge> = Vec::new();
    let mut t: usize = 0;
    while t < mst.len()
        invariant
            t <= mst@.len(),
            copy@ == mst@.subrange(0, t as int),
        decreases mst@.len() - t,
    {
        copy.push(mst[t]);
        t = t + 1;
    }
    assert(copy@ =~= mst@);
    let sorted = sort_by_weight(copy);
    proof {
        assert forall|j: int| 0 <= j < sorted@.len() implies mst@.contains(#[trigger] sorted@[j]) by {
            vstd::seq_lib::to_multiset_contains(sorted@, sorted@[j]);
            vstd::seq_lib::to_multiset_contains(mst@, sorted@[j]);
            assert(sorted@.contains(sorted@[j]));
        }
        sorted@.to_multiset_ensures();
        mst@.to_multiset_ensures();
    }
    let mut uf = UnionFind::new(n);
    let mut kids: Vec<Vec<usize>> = Vec::new();
    let mut births: Vec<u64> = Vec::new();
    let mut deaths: Vec<u64> = Vec::new();
    let mut pts: Vec<Vec<usize>> = Vec::new();
    let mut active: Vec<usize> = Vec::new();
    let ghost mut parent_of: Seq<int> = Seq::empty();
    let mut i: usize = 0;
    while i < n
        invariant
            i <= n,
            kids@.len() == i && births@.len() == i && deaths@.len() == i && pts@.len() == i && parent_of.len() == i,
            active@.len() == i,
            forall|j: int| 0 <= j < i ==> (#[trigger] kids@[j])@.len() == 0,
            forall|j: int| 0 <= j < i ==> (#[trigger] pts@[j])@ == seq![j as usize],
            forall|j: int| 0 <= j < i ==> #[trigger] births@[j] == 0,
            forall|j: int| 0 <= j < i ==> #[trigger] deaths@[j] == 0,
            forall|j: int| 0 <= j < i ==> #[trigger] parent_of[j] == -1,
            forall|j: int| 0 <= j < i ==> #[trigger] active@[j] == j,
        decreases n - i,
    {
        kids.push(Vec::new());
        births.push(0);
        deaths.push(0);
        let mut p: Vec<usize> = Vec::new();
        p.push(i);
        pts.push(p);
        active.push(i);
        assert(pts@[i as int]@ =~= seq![i]);
        proof {
            parent_of = parent_of.push(-1);
        }
        i = i + 1;
    }
    let ghost mut idx: Seq<int> = Seq::empty();
    proof {
        assert forall|r: int| 0 <= r < n implies (uf.root(r) == r) == (uf.root(r) == r) by {}
        assert(roots_below(uf, n as int) == n) by {
            lemma_roots_all(uf, n as int);
        }
        assert forall|x: int| 0 <= x < kids@.len() && parent_of[x] == -1 implies exists|r: int| 0 <= r < n && uf.root(r) == r && #[trigger] active@[r] == x by {
            assert(uf.root(x) == x);
            assert(active@[x] == x);
        }
        assert forall|x: int| 0 <= x < n implies pts@[active@[#[trigger] uf.root(x)] as int]@.contains(x as usize) by {
            assert(uf.root(x) == x);
            assert(active@[x] == x);
            assert(pts@[x]@[0] == x as usize);
        }
    }
    let mut e: usize = 0;
    while e < sorted.len()
        invariant
            e <= sorted@.len(),
            sorted@.len() == mst@.len(),
            n + mst@.len() <= usize::MAX,
            forall|j: int| 0 <= j < sorted@.len() ==> mst@.contains(#[trigger] sorted@[j]),
            sorted@.to_multiset() == mst@.to_multiset(),
            sorted_by_weight(sorted@),
            edges_within(mst@, n as int),
            tree_parts(kids@, births@, deaths@, pts@, parent_of, n as int),
            kids@.len() <= n + e,
            uf.wf(),
            uf.len() == n,
            active@.len() == n,
            forall|r: int| 0 <= r < n && #[trigger] uf.root(r) == r ==> (active@[r] as int) < kids@.len() && parent_of[active@[r] as int] == -1,
            forall|r1: int, r2: int|
                0 <= r1 < n && 0 <= r2 < n && r1 != r2 && #[trigger] uf.root(r1) == r1 && #[trigger] uf.root(r2) == r2
                    ==> active@[r1] != active@[r2],
            idx.len() == kids@.len() - n,
            forall|a: int, b: int| 0 <= a < b < idx.len() ==> idx[a] < idx[b],
            forall|k: int| 0 <= k < idx.len() ==> 0 <= #[trigger] idx[k] < e && births@[n + k] == lambda_of(sorted@[idx[k]].weight),
            kids@.len() + roots_below(uf, n as int) == 2 * n,
            forall|j: int| 0 <= j < e ==> uf.root(#[trigger] sorted@[j].from as int) == uf.root(sorted@[j].to as int),
            forall|x: int| 0 <= x < kids@.len() && parent_of[x] == -1 ==> exists|r: int| 0 <= r < n && uf.root(r) == r && #[trigger] active@[r] == x,
            kids@.len() > n ==> parent_of[kids@.len() - 1] == -1,
            forall|x: int| 0 <= x < n ==> pts@[active@[#[trigger] uf.root(x)] as int]@.contains(x as usize),
            joins_ends(kids@, pts@, n as int, sorted@, idx),
        decreases sorted@.len() - e,
    {
        let edge = sorted[e];
        proof {
            assert(mst@.contains(edge));
            let j = choose|j: int| 0 <= j < mst@.len() && mst@[j] == edge;
            assert(edge.from < n && edge.to < n);
        }
        let ghost uf0 = uf;
        let ra = uf.find(edge.from);
        let ghost uf1 = uf;
        let rb = uf.find(edge.to);
        proof {
            uf0.lemma_root(edge.from as int);
            uf0.lemma_root(edge.to as int);
            uf0.lemma_root(ra as int);
            uf1.lemma_root(ra as int);
            uf.lemma_root(ra as int);
            uf.lemma_root(rb as int);
            assert forall|j: int| 0 <= j < e implies uf.root(#[trigger] sorted@[j].from as int) == uf.root(sorted@[j].to as int) by {
                let ed = sorted@[j];
                assert(mst@.contains(ed));
                let jj = choose|jj: int| 0 <= jj < mst@.len() && mst@[jj] == ed;
                assert(ed.from < n && ed.to < n);
                assert(uf0.root(ed.from as int) == uf0.root(ed.to as int));
            }
            assert(uf.root(edge.from as int) == ra);
            assert(uf.root(edge.to as int) == rb);
            assert forall|x: int| 0 <= x < n implies pts@[active@[#[trigger] uf.root(x)] as int]@.contains(x as usize) by {
                assert(uf.root(x) == uf0.root(x));
            }
            assert(roots_below(uf, n as int) == roots_below(uf0, n as int)) by {
                lemma_roots_same(uf0, uf, n as int);
            }
            assert forall|x: int| 0 <= x < kids@.len() && parent_of[x] == -1 implies exists|r: int| 0 <= r < n && uf.root(r) == r && #[trigger] active@[r] == x by {
                let r = choose|r: int| 0 <= r < n && uf0.root(r) == r && #[trigger] active@[r] == x;
                assert(uf.root(r) == r);
            }
        }
        if ra != rb {
            let lam = lambda(edge.weight);
            let ca = active[ra];
            let cb = active[rb];
            let k = kids.len();
            let ghost len0 = kids@.len();
            let ghost births0 = births@;
            let ghost deaths0 = deaths@;
            let ghost old_kids = kids@;
            let ghost old_pts = pts@;
            let ghost old_parent = parent_of;
            let ghost old_active = active@;
            let ghost uf_before = uf;
            proof {
                assert(pts@[ca as int]@.contains(edge.from));
                assert(pts@[cb as int]@.contains(edge.to));
            }
            assert(ca != cb);
            deaths.set(ca, lam);
            deaths.set(cb, lam);
            let ghost uf2 = uf;
            let merged = uf.union(ra, rb);
            let ghost uf3 = uf;
            let nr = uf.find(ra);
            proof {
                uf3.lemma_root(ra as int);
                uf.lemma_roots();
            }
            let new_points = concat_points(&pts[ca], &pts[cb]);
            let mut c: Vec<usize> = Vec::new();
            c.push(ca);
            c.push(cb);
            kids.push(c);
            births.push(lam);
            deaths.push(0);
            pts.push(new_points);
            let ghost old_idx = idx;
            proof {
                parent_of = parent_of.push(-1).update(ca as int, k as int).update(cb as int, k as int);
                idx = idx.push(e as int);
                assert(idx == old_idx.push(e as int));
            }
            active.set(nr, k);
            proof {
                assert forall|r: int| 0 <= r < n && #[trigger] uf.root(r) == r implies r == nr || (uf2.root(r) == r && r != ra && r != rb) by {
                    uf2.lemma_root(r);
                }
                let loser: int = if nr == ra { rb as int } else { ra as int };
                assert forall|r: int| 0 <= r < n && r != loser implies ((uf.root(r) == r) == (uf2.root(r) == r)) by {
                    uf2.lemma_root(r);
                }
                lemma_roots_lose_one(uf2, uf, loser, n as int);
                assert forall|j: int| 0 <= j < e + 1 implies uf.root(#[trigger] sorted@[j].from as int) == uf.root(sorted@[j].to as int) by {
                    let ed = sorted@[j];
                    assert(mst@.contains(ed));
                    let jj = choose|jj: int| 0 <= jj < mst@.len() && mst@[jj] == ed;
                    if j < e {
                        assert(uf2.root(ed.from as int) == uf2.root(ed.to as int));
                    } else {
                        assert(ed == edge);
                        assert(uf2.root(ed.from as int) == ra as int);
                        assert(uf2.root(ed.to as int) == rb as int);
                    }
                }
                assert forall|x: int| 0 <= x < kids@.len() && parent_of[x] == -1 implies exists|r: int| 0 <= r < n && uf.root(r) == r && #[trigger] active@[r] == x by {
                    if x == k {
                        assert(active@[nr as int] == x);
                    } else {
                        assert(old_parent[x] == -1);
                        let r = choose|r: int| 0 <= r < n && uf2.root(r) == r && #[trigger] old_active[r] == x;
                        uf2.lemma_root(r);
                        assert(r != ra && r != rb);
                        assert(uf.root(r) == r);
                        assert(r != nr);
                        assert(active@[r] == x);
                    }
                }
                assert forall|r: int| 0 <= r < n && #[trigger] uf.root(r) == r implies (active@[r] as int) < kids@.len() && parent_of[active@[r] as int] == -1 by {
                    uf2.lemma_root(r);
                    if r != nr {
                        assert(uf2.root(r) == r);
                        assert(active@[r] != ca);
                        assert(active@[r] != cb);
                    }
                }
                assert forall|r1: int, r2: int|
                    0 <= r1 < n && 0 <= r2 < n && r1 != r2 && #[trigger] uf.root(r1) == r1 && #[trigger] uf.root(r2) == r2
                        implies active@[r1] != active@[r2] by {
                    uf2.lemma_root(r1);
                    uf2.lemma_root(r2);
                }
                assert forall|kk: int| 0 <= kk < idx.len() implies 0 <= #[trigger] idx[kk] < e + 1 && births@[n + kk] == lambda_of(sorted@[idx[kk]].weight) by {
                    if kk < idx.len() - 1 {
                        assert(births@[n + kk] == births0[n + kk]);
                    }
                }
                assert forall|k1: int, k2: int| n <= k1 < k2 < kids@.len() implies #[trigger] births@[k1] >= #[trigger] births@[k2] by {
                    if k2 == k {
                        let t = k1 - n;
                        assert(idx[t] < e);
                        lemma_lambda_antitone(sorted@[idx[t]].weight, sorted@[e as int].weight);
                    } else {
                        assert(births0[k1] >= births0[k2]);
                    }
                }
                assert forall|x: int| 0 <= x < kids@.len() implies (#[trigger] parent_of[x] == -1 && deaths@[x] == 0) || (x < parent_of[x] < kids@.len()
                    && n <= parent_of[x] && deaths@[x] == births@[parent_of[x]] && kids@[parent_of[x]]@.contains(x as usize)) by {
                    if x < len0 && x != ca && x != cb && parent_of[x] != -1 {
                        assert(births@[parent_of[x]] == births0[parent_of[x]]);
                        assert(kids@[parent_of[x]] == old_kids[parent_of[x]]);
                    }
                    if x == ca || x == cb {
                        assert(kids@[k as int]@ == seq![ca, cb]);
                        assert(kids@[k as int]@[0] == ca);
                        assert(kids@[k as int]@[1] == cb);
                    }
                }
                assert forall|kk: int| n <= kk < kids@.len() implies {
                    let c = (#[trigger] kids@[kk])@;
                    &&& c.len() == 2
                    &&& c[0] < kk && c[1] < kk && c[0] != c[1]
                    &&& pts@[kk]@ == pts@[c[0] as int]@ + pts@[c[1] as int]@
                    &&& parent_of[c[0] as int] == kk && parent_of[c[1] as int] == kk
                    &&& deaths@[kk] <= births@[kk]
                } by {
                    if kk < k {
                        let c = kids@[kk]@;
                        assert(parent_of[c[0] as int] != -1);
                        assert(parent_of[c[1] as int] != -1);
                        assert(c[0] != ca && c[0] != cb && c[1] != ca && c[1] != cb);
                        if kk == ca || kk == cb {
                            assert(births@[kk] >= births@[k as int]);
                        } else {
                            assert(deaths@[kk] == deaths0[kk]);
                            if old_parent[kk] != -1 {
                                assert(births@[old_parent[kk]] == births0[old_parent[kk]]);
                                assert(births0[kk] >= births0[old_parent[kk]]);
                            }
                        }
                    }
                }
                assert(births@.len() == kids@.len() && deaths@.len() == kids@.len() && pts@.len() == kids@.len() && parent_of.len() == kids@.len());
                assert forall|ii: int| 0 <= ii < n implies (#[trigger] kids@[ii])@.len() == 0 && pts@[ii]@ == seq![ii as usize] && births@[ii] == 0 by {
                    assert(kids@[ii] == old_kids[ii]);
                    assert(pts@[ii] == old_pts[ii]);
                    assert(old_kids[ii]@.len() == 0 && old_pts[ii]@ == seq![ii as usize] && births0[ii] == 0);
                    assert(births@[ii] == births0[ii]);
                }
                assert(tree_parts(kids@, births@, deaths@, pts@, parent_of, n as int));
                assert forall|x: int| 0 <= x < n implies old_pts[old_active[#[trigger] uf2.root(x)] as int]@.contains(x as usize) by {
                    assert(uf2.root(x) == uf0.root(x));
                }
                assert forall|r: int| 0 <= r < n && #[trigger] uf2.root(r) == r implies (old_active[r] as int) < k by {
                    assert(uf2.root(r) == uf0.root(r));
                }
                assert forall|j: int| n <= j < k implies (#[trigger] old_kids[j])@.len() == 2 && old_kids[j]@[0] < j && old_kids[j]@[1] < j by {
                    assert(old_kids[j]@.len() == 2);
                }
                assert(kids@[k as int]@ =~= seq![ca, cb]);
                lemma_union_keeps_parts(uf2, uf, old_pts, pts@, old_active, active@, ra as int, rb as int, nr as int, ca, cb,
                    k as int, n as int, old_kids, kids@, old_idx, idx, sorted@, edge, e as int);
            }
        } else {
            proof {
                assert forall|j: int| 0 <= j < e + 1 implies uf.root(#[trigger] sorted@[j].from as int) == uf.root(sorted@[j].to as int) by {
                    if j == e {
                        assert(sorted@[j] == edge);
                    }
                }
            }
        }
        e = e + 1;
    }
    let ghost whole = spans(mst@, n as int) ==> kids@.len() == 2 * n - 1 && forall|x: int| 0 <= x < 2 * n - 2 ==> parent_of[x] != -1;
    proof {
        if spans(mst@, n as int) {
            assert forall|j: int| 0 <= j < mst@.len() implies uf.root(#[trigger] mst@[j].from as int) == uf.root(mst@[j].to as int) by {
                vstd::seq_lib::to_multiset_contains(mst@, mst@[j]);
                vstd::seq_lib::to_multiset_contains(sorted@, mst@[j]);
                assert(mst@.contains(mst@[j]));
                let t = choose|t: int| 0 <= t < sorted@.len() && sorted@[t] == mst@[j];
                assert(uf.root(sorted@[t].from as int) == uf.root(sorted@[t].to as int));
            }
            uf.lemma_root(0);
            let c = uf.root(0);
            assert forall|r: int| 0 <= r < n implies (uf.root(r) == r) == (r == c) by {
                lemma_linked_same_root(uf, mst@, n as int, mst@.len() as int, r);
            }
            lemma_one_root(uf, c, n as int);
            assert(kids@.len() == 2 * n - 1);
            if n >= 2 {
                assert forall|x: int| 0 <= x < 2 * n - 2 implies parent_of[x] != -1 by {
                    if parent_of[x] == -1 {
                        let r = choose|r: int| 0 <= r < n && uf.root(r) == r && #[trigger] active@[r] == x;
                        let r2 = choose|r2: int| 0 <= r2 < n && uf.root(r2) == r2 && #[trigger] active@[r2] == kids@.len() - 1;
                        assert(r == c && r2 == c);
                    }
                }
            }
        }
    }
    assert(whole);
    let ghost kl = kids@.len();
    let nodes = assemble_tree(kids, births, deaths, pts, Ghost(parent_of), n, Ghost(mst@), Ghost(sorted@), Ghost(idx));
    proof {
        if spans(mst@, n as int) {
            assert(nodes@.len() == kl);
            assert forall|x: int| 0 <= x < 2 * n - 2 implies is_child(nodes@, x) by {
                assert(parent_of[x] != -1);
            }
        }
    }
    nodes

}

/// Fixed-point scale of square roots in stabilities.
pub const SQRT_SCALE: u64 = 1000;

/// Bound on the number of points in one node, so that stabilities fit.
pub const MAX_POINTS: u64 = 4_294_967_296;

/// `r` is the integer square root of `m`.
pub open spec fn is_isqrt(m: int, r: int) -> bool {
    0 <= r && r * r <= m < (r + 1) * (r + 1)
}

pub open spec fn isqrt(m: int) -> int {
    choose|r: int| is_isqrt(m, r)
}

/// Floor of the square root of `m`, by bisection.
pub fn integer_sqrt(m: u64) -> (r: u64)
    requires
        m < 0x10_0000_0000_0000,
    ensures
        is_isqrt(m as int, r as int),
{
    let mut lo: u64 = 0;
    let mut hi: u64 = 0x800_0000;
    assert(hi * hi > m) by (nonlinear_arith)
        requires
            hi == 0x800_0000,
            m < 0x10_0000_0000_0000,
    ;
    while hi - lo > 1
        invariant
            lo < hi <= 0x800_0000,
            lo * lo <= m,
            m < hi * hi,
        decreases hi - lo,
    {
        let mid = lo + (hi - lo) / 2;
        assert(mid * mid <= 0x40_0000_0000_0000) by (nonlinear_arith)
            requires
                mid <= 0x800_0000,
        ;
        if mid * mid <= m {
            lo = mid;
        } else {
            hi = mid;
        }
    }
    assert(hi == lo + 1);
    lo
}

pub open spec fn lifespan(node: HdbscanNode) -> int {
    if node.lambda_birth >= node.lambda_death {
        node.lambda_birth - node.lambda_death
    } else {
        0
    }
}

/// Size of a node as stabilities count it: sizes past `MAX_POINTS`, beyond
/// any real input, count as `MAX_POINTS`.
pub open spec fn capped_size(node: HdbscanNode) -> int {
    if node.points@.len() <= MAX_POINTS {
        node.points@.len() as int
    } else {
        MAX_POINTS as int
    }
}

/// Stability of a node: its lifespan in lambda times the square root of its
/// size (scaled by `SQRT_SCALE`); 0 for single points and undersized nodes.
pub open spec fn stability_of(node: HdbscanNode, min_cluster_size: int) -> int {
    if node.children@.len() == 0 || node.points@.len() < min_cluster_size {
        0
    } else {
        lifespan(node) * isqrt(capped_size(node) * (SQRT_SCALE * SQRT_SCALE))
    }
}

/// Every node is a single point or has two children with smaller ids.
pub open spec fn binary_tree(nodes: Seq<HdbscanNode>) -> bool {
    forall|k: int|
        0 <= k < nodes.len() ==> {
            let c = (#[trigger] nodes[k]).children@;
            c.len() == 0 || (c.len() == 2 && c[0] < k && c[1] < k)
        }
}

pub open spec fn sat_add(a: int, b: int) -> int {
    if a + b > u128::MAX {
        u128::MAX as int
    } else {
        a + b
    }
}

/// Best total stability of disjoint clusters chosen inside node `i`.
pub open spec fn best(nodes: Seq<HdbscanNode>, min_cluster_size: int, i: int) -> int
    decreases i,
{
    if 0 <= i < nodes.len() && nodes[i].children@.len() == 2 && nodes[i].children@[0] < i && nodes[i].children@[1] < i
        && nodes[i].points@.len() >= min_cluster_size {
        let cs = children_best(nodes, min_cluster_size, i);
        if stability_of(nodes[i], min_cluster_size) > cs {
            stability_of(nodes[i], min_cluster_size)
        } else {
            cs
        }
    } else {
        0
    }
}

pub open spec fn children_best(nodes: Seq<HdbscanNode>, min_cluster_size: int, i: int) -> int
    decreases i, 0int,
{
    if 0 <= i < nodes.len() && nodes[i].children@.len() == 2 && nodes[i].children@[0] < i && nodes[i].children@[1] < i {
        sat_add(
            best(nodes, min_cluster_size, nodes[i].children@[0] as int),
            best(nodes, min_cluster_size, nodes[i].children@[1] as int),
        )
    } else {
        0
    }
}

/// Excess of mass: node `i` is more stable than the best its children offer.
pub open spec fn chosen(nodes: Seq<HdbscanNode>, min_cluster_size: int, i: int) -> bool {
    nodes[i].children@.len() == 2 && nodes[i].points@.len() >= min_cluster_size && stability_of(nodes[i], min_cluster_size)
        > children_best(nodes, min_cluster_size, i)
}

/// Some node above `i` is chosen.
pub open spec fn covered(nodes: Seq<HdbscanNode>, min_cluster_size: int, i: int) -> bool
    decreases nodes.len() - i,
{
    exists|p: int|
        i < p < nodes.len() && #[trigger] nodes[p].children@.contains(i as usize) && (chosen(nodes, min_cluster_size, p)
            || covered(nodes, min_cluster_size, p))
}

fn node_stability(node: &HdbscanNode, min_cluster_size: usize) -> (r: u128)
    ensures
        r == stability_of(*node, min_cluster_size as int),
{
    if node.children.len() == 0 || node.points.len() < min_cluster_size {
        return 0;
    }
    let life: u64 = if node.lambda_birth >= node.lambda_death {
        node.lambda_birth - node.lambda_death
    } else {
        0
    };
    let size: u64 = if node.points.len() as u64 <= MAX_POINTS {
        node.points.len() as u64
    } else {
        MAX_POINTS
    };
    assert(size * 1_000_000 < 0x10_0000_0000_0000) by (nonlinear_arith)
        requires
            size <= MAX_POINTS,
    ;
    let root = integer_sqrt(size * 1_000_000);
    proof {
        let m = (size * 1_000_000) as int;
        assert(is_isqrt(m, root as int));
        assert(exists|r: int| is_isqrt(m, r));
        assert(is_isqrt(m, isqrt(m)));
        lemma_isqrt_unique((size * 1_000_000) as int, root as int, isqrt((size * 1_000_000) as int));
        assert(root <= 0x800_0000) by (nonlinear_arith)
            requires
                root * root <= size * 1_000_000,
                size * 1_000_000 < 0x10_0000_0000_0000,
        ;
        assert((life as u128) * (root as u128) <= 0xFFFF_FFFF_FFFF_FFFF * 0x800_0000) by (nonlinear_arith)
            requires
                life <= 0xFFFF_FFFF_FFFF_FFFF,
                root <= 0x800_0000,
        ;
    }
    (life as u128) * (root as u128)
}

pub proof fn lemma_isqrt_unique(m: int, a: int, b: int)
    requires
        is_isqrt(m, a),
        is_isqrt(m, b),
    ensures
        a == b,
{
    if a < b {
        assert((a + 1) * (a + 1) <= b * b) by (nonlinear_arith)
            requires
                0 <= a < b,
        ;
    }
    if b < a {
        assert((b + 1) * (b + 1) <= a * a) by (nonlinear_arith)
            requires
                0 <= b < a,
        ;
    }
}

/// Some node at `t` or above, with `x` among its children, is chosen or covered.
pub open spec fn covered_from(nodes: Seq<HdbscanNode>, min_cluster_size: int, t: int, x: int) -> bool {
    exists|p: int|
        t <= p < nodes.len() && #[trigger] nodes[p].children@.contains(x as usize) && (chosen(nodes, min_cluster_size, p)
            || covered(nodes, min_cluster_size, p))
}

/// Stability of every node, and the nodes that excess-of-mass selection keeps:
/// those chosen whose ancestors are all unchosen, a disjoint family.
pub fn select_clusters(nodes: &Vec<HdbscanNode>, min_cluster_size: usize) -> (r: (Vec<u128>, Vec<bool>))
    requires
        binary_tree(nodes@),
    ensures
        r.0@.len() == nodes@.len(),
        r.1@.len() == nodes@.len(),
        forall|i: int| 0 <= i < nodes@.len() ==> #[trigger] r.0@[i] == stability_of(nodes@[i], min_cluster_size as int),
        forall|i: int|
            0 <= i < nodes@.len() ==> #[trigger] r.1@[i] == (chosen(nodes@, min_cluster_size as int, i) && !covered(
                nodes@,
                min_cluster_size as int,
                i,
            )),
{
    let len = nodes.len();
    let ghost ns = nodes@;
    let ghost m = min_cluster_size as int;
    let mut stab: Vec<u128> = Vec::new();
    let mut bestv: Vec<u128> = Vec::new();
    let mut ch: Vec<bool> = Vec::new();
    let mut i: usize = 0;
    while i < len
        invariant
            i <= len,
            len == ns.len(),
            ns == nodes@,
            m == min_cluster_size as int,
            binary_tree(ns),
            stab@.len() == i && bestv@.len() == i && ch@.len() == i,
            forall|t: int| 0 <= t < i ==> #[trigger] stab@[t] == stability_of(ns[t], m),
            forall|t: int| 0 <= t < i ==> #[trigger] bestv@[t] == best(ns, m, t),
            forall|t: int| 0 <= t < i ==> #[trigger] ch@[t] == chosen(ns, m, t),
        decreases len - i,
    {
        assert(ns[i as int].children@.len() == 0 || ns[i as int].children@.len() == 2);
        let st = node_stability(&nodes[i], min_cluster_size);
        let mut b: u128 = 0;
        let mut c: bool = false;
        if nodes[i].children.len() == 2 && nodes[i].points.len() >= min_cluster_size {
            let c0 = nodes[i].children[0];
            let c1 = nodes[i].children[1];
            let b0 = bestv[c0];
            let b1 = bestv[c1];
            let cs: u128 = if b0 > u128::MAX - b1 {
                u128::MAX
            } else {
                b0 + b1
            };
            assert(cs == children_best(ns, m, i as int));
            if st > cs {
                b = st;
                c = true;
            } else {
                b = cs;
            }
        } else {
            assert(best(ns, m, i as int) == 0);
            assert(!chosen(ns, m, i as int));
        }
        stab.push(st);
        bestv.push(b);
        ch.push(c);
        i = i + 1;
    }
    let mut cov: Vec<bool> = Vec::new();
    let mut sel: Vec<bool> = Vec::new();
    let mut j: usize = 0;
    while j < len
        invariant
            j <= len,
            cov@.len() == j && sel@.len() == j,
            forall|x: int| 0 <= x < j ==> !(#[trigger] cov@[x]),
        decreases len - j,
    {
        cov.push(false);
        sel.push(false);
        j = j + 1;
    }
    let mut t: usize = len;
    while t > 0
        invariant
            t <= len,
            len == ns.len(),
            ns == nodes@,
            m == min_cluster_size as int,
            binary_tree(ns),
            ch@.len() == len && cov@.len() == len && sel@.len() == len,
            forall|x: int| 0 <= x < len ==> #[trigger] ch@[x] == chosen(ns, m, x),
            forall|x: int| t <= x < len ==> #[trigger] sel@[x] == (chosen(ns, m, x) && !covered(ns, m, x)),
            forall|x: int| 0 <= x < t ==> #[trigger] cov@[x] == covered_from(ns, m, t as int, x),
        decreases t,
    {
        t = t - 1;
        let ghost cov0 = cov@;
        assert(cov@[t as int] == covered(ns, m, t as int));
        let here = ch[t] && !cov[t];
        sel.set(t, here);
        if (ch[t] || cov[t]) && nodes[t].children.len() == 2 {
            let c0 = nodes[t].children[0];
            let c1 = nodes[t].children[1];
            cov.set(c0, true);
            cov.set(c1, true);
        }
        proof {
            assert forall|x: int| 0 <= x < t implies #[trigger] cov@[x] == covered_from(ns, m, t as int, x) by {
                let kids = ns[t as int].children@;
                if kids.contains(x as usize) && (chosen(ns, m, t as int) || covered(ns, m, t as int)) {
                    assert(kids.len() == 2);
                    assert(kids[0] as int == x || kids[1] as int == x);
                } else {
                    assert(cov@[x] == cov0[x]);
                    if covered_from(ns, m, t as int, x) {
                        let p = choose|p: int|
                            t <= p < ns.len() && #[trigger] ns[p].children@.contains(x as usize) && (chosen(ns, m, p)
                                || covered(ns, m, p));
                        assert(p != t);
                    }
                }
            }
        }
    }
    (stab, sel)
}

pub open spec fn qualifies(nodes: Seq<HdbscanNode>, selected: Seq<bool>, min_cluster_size: int, k: int) -> bool {
    selected[k] && nodes[k].points@.len() >= min_cluster_size
}

/// Number of qualifying nodes before node `k`: the label that node `k` hands out.
pub open spec fn rank_of(nodes: Seq<HdbscanNode>, selected: Seq<bool>, min_cluster_size: int, k: int) -> int
    decreases k,
{
    if k <= 0 {
        0
    } else {
        rank_of(nodes, selected, min_cluster_size, k - 1) + if qualifies(nodes, selected, min_cluster_size, k - 1) {
            1int
        } else {
            0int
        }
    }
}

proof fn lemma_rank_bounds(nodes: Seq<HdbscanNode>, selected: Seq<bool>, min_cluster_size: int, k: int)
    requires
        0 <= k,
    ensures
        0 <= rank_of(nodes, selected, min_cluster_size, k) <= k,
    decreases k,
{
    if k > 0 {
        lemma_rank_bounds(nodes, selected, min_cluster_size, k - 1);
    }
}

/// Point `p` is labelled by node `k`: the first qualifying node that holds it.
pub open spec fn first_holder(nodes: Seq<HdbscanNode>, selected: Seq<bool>, min_cluster_size: int, k: int, p: int) -> bool {
    &&& qualifies(nodes, selected, min_cluster_size, k)
    &&& nodes[k].points@.contains(p as usize)
    &&& forall|j: int| 0 <= j < k && qualifies(nodes, selected, min_cluster_size, j) ==> !(#[trigger] nodes[j].points@.contains(p as usize))
}

/// Flat labels: each selected node with at least `min_cluster_size` points, in
/// id order, gives its label to those of its points that have none yet; the
/// points left over are noise (-1).
pub fn extract_flat_clusters(nodes: &Vec<HdbscanNode>, selected: &Vec<bool>, n: usize, min_cluster_size: usize) -> (labels: Vec<i32>)
    requires
        selected@.len() == nodes@.len(),
        nodes@.len() < i32::MAX,
        forall|k: int, t: int| 0 <= k < nodes@.len() && 0 <= t < nodes@[k].points@.len() ==> #[trigger] nodes@[k].points@[t] < n,
    ensures
        labels@.len() == n,
        forall|p: int| 0 <= p < n ==> #[trigger] labels@[p] >= -1,
        forall|p: int|
            0 <= p < n && #[trigger] labels@[p] >= 0 ==> exists|k: int|
                0 <= k < nodes@.len() && first_holder(nodes@, selected@, min_cluster_size as int, k, p) && labels@[p]
                    == rank_of(nodes@, selected@, min_cluster_size as int, k),
        forall|p: int, k: int|
            0 <= p < n && 0 <= k < nodes@.len() && #[trigger] labels@[p] == -1 && qualifies(nodes@, selected@, min_cluster_size as int, k)
                ==> !(#[trigger] nodes@[k].points@.contains(p as usize)),
{
    let ghost ns = nodes@;
    let ghost sl = selected@;
    let ghost m = min_cluster_size as int;
    let mut labels: Vec<i32> = Vec::new();
    let mut i: usize = 0;
    while i < n
        invariant
            i <= n,
            labels@.len() == i,
            forall|p: int| 0 <= p < i ==> #[trigger] labels@[p] == -1,
        decreases n - i,
    {
        labels.push(-1);
        i = i + 1;
    }
    let mut cluster_id: i32 = 0;
    let mut k: usize = 0;
    while k < nodes.len()
        invariant
            k <= nodes@.len(),
            ns == nodes@,
            sl == selected@,
            m == min_cluster_size as int,
            selected@.len() == nodes@.len(),
            nodes@.len() < i32::MAX,
            forall|k: int, t: int| 0 <= k < nodes@.len() && 0 <= t < nodes@[k].points@.len() ==> #[trigger] nodes@[k].points@[t] < n,
            labels@.len() == n,
            cluster_id == rank_of(ns, sl, m, k as int),
            forall|p: int| 0 <= p < n ==> #[trigger] labels@[p] >= -1,
            forall|p: int, j: int|
                0 <= p < n && 0 <= j < k && #[trigger] labels@[p] == -1 && qualifies(ns, sl, m, j) ==> !(#[trigger] ns[j].points@.contains(p as usize)),
            forall|p: int|
                0 <= p < n && #[trigger] labels@[p] >= 0 ==> exists|j: int| 0 <= j < k && first_holder(ns, sl, m, j, p) && labels@[p] == rank_of(ns, sl, m, j),
        decreases nodes@.len() - k,
    {
        proof {
            lemma_rank_bounds(ns, sl, m, k as int);
        }
        if selected[k] && nodes[k].points.len() >= min_cluster_size {
            let ghost old_labels = labels@;
            let pts = &nodes[k].points;
            let mut t: usize = 0;
            while t < pts.len()
                invariant
                    t <= pts@.len(),
                    pts@ == ns[k as int].points@,
                    forall|u: int| 0 <= u < pts@.len() ==> #[trigger] pts@[u] < n,
                    labels@.len() == n,
                    old_labels.len() == n,
                    cluster_id >= 0,
                    forall|p: int| 0 <= p < n && old_labels[p] != -1 ==> #[trigger] labels@[p] == old_labels[p],
                    forall|p: int|
                        0 <= p < n && old_labels[p] == -1 ==> (#[trigger] labels@[p] == -1 && !pts@.subrange(0, t as int).contains(p as usize))
                            || (labels@[p] == cluster_id && pts@.subrange(0, t as int).contains(p as usize)),
                decreases pts@.len() - t,
            {
                let pt = pts[t];
                if labels[pt] == -1 {
                    labels.set(pt, cluster_id);
                }
                proof {
                    assert forall|p: int| 0 <= p < n && old_labels[p] == -1 implies (#[trigger] labels@[p] == -1 && !pts@.subrange(0, t + 1).contains(p as usize))
                        || (labels@[p] == cluster_id && pts@.subrange(0, t + 1).contains(p as usize)) by {
                        assert(pts@.subrange(0, t + 1) =~= pts@.subrange(0, t as int).push(pt));
                        if pts@.subrange(0, t as int).contains(p as usize) {
                            let u = choose|u: int| 0 <= u < t && pts@.subrange(0, t as int)[u] == p as usize;
                            assert(pts@.subrange(0, t + 1)[u] == p as usize);
                        }
                        if p == pt as int {
                            assert(pts@.subrange(0, t + 1)[t as int] == pt);
                        } else if pts@.subrange(0, t + 1).contains(p as usize) {
                            let u = choose|u: int| 0 <= u < t + 1 && #[trigger] pts@.subrange(0, t + 1)[u] == p as usize;
                            assert(pts@.subrange(0, t as int)[u] == p as usize);
                        }
                    }
                }
                t = t + 1;
            }
            proof {
                assert(pts@.subrange(0, pts@.len() as int) =~= pts@);
                assert forall|p: int| 0 <= p < n && #[trigger] labels@[p] >= 0 implies exists|j: int| 0 <= j < k + 1 && first_holder(ns, sl, m, j, p) && labels@[p] == rank_of(ns, sl, m, j) by {
                    if old_labels[p] == -1 {
                        assert(first_holder(ns, sl, m, k as int, p));
                    } else {
                        let j = choose|j: int| 0 <= j < k && first_holder(ns, sl, m, j, p) && old_labels[p] == rank_of(ns, sl, m, j);
                        assert(first_holder(ns, sl, m, j, p));
                    }
                }
            }
            cluster_id = cluster_id + 1;
        }
        k = k + 1;
    }
    labels
}

/// Every point that a node of the hierarchy holds is below `n`.
pub proof fn lemma_tree_points(nodes: Seq<HdbscanNode>, n: int, mst: Seq<MstEdge>, k: int)
    requires
        cluster_tree(nodes, n, mst),
        0 <= k < nodes.len(),
    ensures
        forall|t: int| 0 <= t < nodes[k].points@.len() ==> (#[trigger] nodes[k].points@[t] as int) < n,
    decreases k,
{
    if k >= n {
        let c = nodes[k].children@;
        lemma_tree_points(nodes, n, mst, c[0] as int);
        lemma_tree_points(nodes, n, mst, c[1] as int);
        assert forall|t: int| 0 <= t < nodes[k].points@.len() implies (#[trigger] nodes[k].points@[t] as int) < n by {
            let a = nodes[c[0] as int].points@;
            if t >= a.len() {
                assert(nodes[k].points@[t] == nodes[c[1] as int].points@[t - a.len()]);
            } else {
                assert(nodes[k].points@[t] == a[t]);
            }
        }
    }
}

} // verus!
