//! Ward linkage in fixed point: cosine distance of weighted centroids,
//! scaled by the cluster weights.

use vstd::prelude::*;

use crate::hierarchy::{is_isqrt, isqrt, lemma_isqrt_unique};
use crate::spanning::DIST_SCALE;

verus! {

/// Fixed-point scale of unit directions in the Ward computation: 2^20.
pub const UNIT_SCALE: u128 = 0x10_0000;

/// Bound on the number of coordinates of an embedding.
pub const MAX_DIMS: usize = 4096;

/// Bound (exclusive) on a coordinate of a weighted centroid sum: 2^56.
pub const CENTROID_LIMIT: i128 = 0x100_0000_0000_0000;

/// Largest Ward distance; larger values are held here.
pub const WARD_CAP: u64 = 0xFFFF_FFFF_FFFF_FFFE;

/// Floor of the square root of `m`, by bisection.
pub fn wide_sqrt(m: u128) -> (r: u128)
    requires
        m <= 0x1000_0000_0000_0000_0000_0000_0000_0000,
    ensures
        is_isqrt(m as int, r as int),
        r == isqrt(m as int),
{
    let mut lo: u128 = 0;
    let mut hi: u128 = 0x4000_0000_0000_0001;
    assert(hi * hi > m) by (nonlinear_arith)
        requires
            hi == 0x4000_0000_0000_0001,
            m <= 0x1000_0000_0000_0000_0000_0000_0000_0000,
    ;
    while hi - lo > 1
        invariant
            lo < hi <= 0x4000_0000_0000_0001,
            lo * lo <= m,
            m < hi * hi,
        decreases hi - lo,
    {
        let mid = lo + (hi - lo) / 2;
        assert(mid * mid <= 0x1000_0000_0000_0000_8000_0000_0000_0001) by (nonlinear_arith)
            requires
                mid <= 0x4000_0000_0000_0001,
        ;
        if mid * mid <= m {
            lo = mid;
        } else {
            hi = mid;
        }
    }
    assert(hi == lo + 1);
    proof {
        assert(is_isqrt(m as int, lo as int));
        assert(exists|r: int| is_isqrt(m as int, r));
        lemma_isqrt_unique(m as int, lo as int, isqrt(m as int));
    }
    lo
}

pub open spec fn norm_sq(c: Seq<i128>, k: int) -> int
    decreases k,
{
    if k <= 0 {
        0
    } else {
        norm_sq(c, k - 1) + c[k - 1] * c[k - 1]
    }
}

/// Coordinate `x` of a direction of length `n`, scaled to `UNIT_SCALE`,
/// rounded towards zero.
pub open spec fn unit_coord(x: int, n: int) -> int {
    if n <= 0 {
        0
    } else if x >= 0 {
        (x * UNIT_SCALE) / n
    } else {
        -((-x * UNIT_SCALE) / n)
    }
}

pub open spec fn unit_dot(a: Seq<i128>, na: int, b: Seq<i128>, nb: int, k: int) -> int
    decreases k,
{
    if k <= 0 {
        0
    } else {
        unit_dot(a, na, b, nb, k - 1) + unit_coord(a[k - 1] as int, na) * unit_coord(b[k - 1] as int, nb)
    }
}

/// Cosine distance between the directions of `a` and `b`, in the distance
/// fixed point; a zero vector is at distance 1 from everything.
pub open spec fn centroid_gap(a: Seq<i128>, b: Seq<i128>) -> int {
    let na = isqrt(norm_sq(a, a.len() as int));
    let nb = isqrt(norm_sq(b, b.len() as int));
    let dt = unit_dot(a, na, b, nb, a.len() as int);
    let one = (UNIT_SCALE * UNIT_SCALE) as int;
    let num = if dt >= one {
        0
    } else if dt <= -one {
        2 * one
    } else {
        one - dt
    };
    num * DIST_SCALE / one
}

/// `sqrt(2 wa wb / (wa + wb))`, scaled by 2^10.
pub open spec fn ward_factor(wa: int, wb: int) -> int {
    if wa + wb <= 0 {
        0
    } else {
        isqrt((2 * wa * wb * 0x10_0000) / (wa + wb))
    }
}

/// Ward distance of two clusters with weighted centroid sums `a`, `b` and
/// total weights `wa`, `wb`: the centroids' cosine distance scaled by
/// `sqrt(2 wa wb / (wa + wb))`, held at `WARD_CAP`.
pub open spec fn ward_of(a: Seq<i128>, wa: int, b: Seq<i128>, wb: int) -> int {
    let v = ward_factor(wa, wb) * centroid_gap(a, b) / 0x400;
    if v > WARD_CAP {
        WARD_CAP as int
    } else {
        v
    }
}

pub open spec fn centroid_ok(c: Seq<i128>) -> bool {
    c.len() <= MAX_DIMS && forall|j: int| 0 <= j < c.len() ==> -CENTROID_LIMIT < #[trigger] c[j] < CENTROID_LIMIT
}

proof fn lemma_norm_sq_bounds(c: Seq<i128>, k: int)
    requires
        centroid_ok(c),
        0 <= k <= c.len(),
    ensures
        0 <= norm_sq(c, k) <= k * 0x1_0000_0000_0000_0000_0000_0000_0000,
        forall|j: int| 0 <= j < k ==> c[j] * c[j] <= #[trigger] norm_sq(c, k) + 0 * j,
    decreases k,
{
    if k > 0 {
        lemma_norm_sq_bounds(c, k - 1);
        let x = c[k - 1] as int;
        assert(x * x <= 0x1_0000_0000_0000_0000_0000_0000_0000) by (nonlinear_arith)
            requires
                -0x100_0000_0000_0000 < x < 0x100_0000_0000_0000,
        ;
        assert(x * x >= 0) by (nonlinear_arith);
    }
}

fn norm_of(c: &Vec<i128>) -> (r: u128)
    requires
        centroid_ok(c@),
    ensures
        r == isqrt(norm_sq(c@, c@.len() as int)),
        is_isqrt(norm_sq(c@, c@.len() as int), r as int),
        forall|j: int| 0 <= j < c@.len() ==> -(r as int) <= #[trigger] c@[j] <= r,
{
    let mut s: u128 = 0;
    let mut j: usize = 0;
    proof {
        lemma_norm_sq_bounds(c@, c@.len() as int);
    }
    while j < c.len()
        invariant
            j <= c@.len(),
            centroid_ok(c@),
            s == norm_sq(c@, j as int),
            s <= j * 0x1_0000_0000_0000_0000_0000_0000_0000,
        decreases c@.len() - j,
    {
        let x = c[j];
        let ax: u128 = if x >= 0 {
            x as u128
        } else {
            (-x) as u128
        };
        assert(ax * ax == x * x) by (nonlinear_arith)
            requires
                ax == x || ax == -x,
        ;
        assert(ax * ax <= 0x1_0000_0000_0000_0000_0000_0000_0000) by (nonlinear_arith)
            requires
                ax < 0x100_0000_0000_0000,
        ;
        s = s + ax * ax;
        j = j + 1;
    }
    let r = wide_sqrt(s);
    proof {
        assert forall|j: int| 0 <= j < c@.len() implies -(r as int) <= #[trigger] c@[j] <= r by {
            lemma_norm_sq_bounds(c@, c@.len() as int);
            let x = c@[j] as int;
            assert(x * x <= s);
            assert(-(r as int) <= x <= r) by (nonlinear_arith)
                requires
                    x * x <= s,
                    s < (r + 1) * (r + 1),
                    r >= 0,
            ;
        }
    }
    r
}

fn unit_coordinate(x: i128, n: u128) -> (r: i128)
    requires
        -(n as int) <= x <= n,
        n < 0x1_0000_0000_0000_0000_0000,
    ensures
        r == unit_coord(x as int, n as int),
        -(UNIT_SCALE as int) <= r <= UNIT_SCALE,
{
    if n == 0 {
        return 0;
    }
    let ax: u128 = if x >= 0 {
        x as u128
    } else {
        (-x) as u128
    };
    assert(ax * UNIT_SCALE <= n * UNIT_SCALE) by (nonlinear_arith)
        requires
            ax <= n,
    ;
    let q = ax * UNIT_SCALE / n;
    assert(q <= UNIT_SCALE) by (nonlinear_arith)
        requires
            q == (ax * UNIT_SCALE) as int / (n as int),
            ax <= n,
            n > 0,
    ;
    if x >= 0 {
        q as i128
    } else {
        -(q as i128)
    }
}

/// Ward distance between two clusters (see `ward_of`).
pub fn ward_distance(a: &Vec<i128>, wa: u64, b: &Vec<i128>, wb: u64) -> (r: u64)
    requires
        centroid_ok(a@),
        centroid_ok(b@),
        a@.len() == b@.len(),
        wa <= 0x100_0000_0000,
        wb <= 0x100_0000_0000,
    ensures
        r == ward_of(a@, wa as int, b@, wb as int),
{
    let na = norm_of(a);
    let nb = norm_of(b);
    assert(na < 0x1_0000_0000_0000_0000_0000) by {
        lemma_norm_sq_bounds(a@, a@.len() as int);
        assert(norm_sq(a@, a@.len() as int) <= 0x1000_0000_0000_0000_0000_0000_0000_0000) by (nonlinear_arith)
            requires
                norm_sq(a@, a@.len() as int) <= a@.len() * 0x1_0000_0000_0000_0000_0000_0000_0000,
                a@.len() <= 4096,
        ;
        assert(na * na <= norm_sq(a@, a@.len() as int));
        assert(na < 0x1_0000_0000_0000_0000_0000) by (nonlinear_arith)
            requires
                na * na <= 0x1000_0000_0000_0000_0000_0000_0000_0000,
                na >= 0,
        ;
    }
    assert(nb < 0x1_0000_0000_0000_0000_0000) by {
        lemma_norm_sq_bounds(b@, b@.len() as int);
        assert(norm_sq(b@, b@.len() as int) <= 0x1000_0000_0000_0000_0000_0000_0000_0000) by (nonlinear_arith)
            requires
                norm_sq(b@, b@.len() as int) <= b@.len() * 0x1_0000_0000_0000_0000_0000_0000_0000,
                b@.len() <= 4096,
        ;
        assert(nb * nb <= norm_sq(b@, b@.len() as int));
        assert(nb < 0x1_0000_0000_0000_0000_0000) by (nonlinear_arith)
            requires
                nb * nb <= 0x1000_0000_0000_0000_0000_0000_0000_0000,
                nb >= 0,
        ;
    }
    let mut dt: i128 = 0;
    let mut j: usize = 0;
    while j < a.len()
        invariant
            j <= a@.len(),
            a@.len() == b@.len(),
            a@.len() <= MAX_DIMS,
            na < 0x1_0000_0000_0000_0000_0000,
            nb < 0x1_0000_0000_0000_0000_0000,
            forall|t: int| 0 <= t < a@.len() ==> -(na as int) <= #[trigger] a@[t] <= na,
            forall|t: int| 0 <= t < b@.len() ==> -(nb as int) <= #[trigger] b@[t] <= nb,
            dt == unit_dot(a@, na as int, b@, nb as int, j as int),
            -(j * 0x100_0000_0000) <= dt <= j * 0x100_0000_0000,
        decreases a@.len() - j,
    {
        let ua = unit_coordinate(a[j], na);
        let ub = unit_coordinate(b[j], nb);
        assert(-0x100_0000_0000 <= ua * ub <= 0x100_0000_0000) by (nonlinear_arith)
            requires
                -0x10_0000 <= ua <= 0x10_0000,
                -0x10_0000 <= ub <= 0x10_0000,
        ;
        dt = dt + ua * ub;
        j = j + 1;
    }
    let one: i128 = 0x100_0000_0000;
    let num: u128 = if dt >= one {
        0
    } else if dt <= -one {
        (2 * one) as u128
    } else {
        (one - dt) as u128
    };
    let gap: u128 = num * (DIST_SCALE as u128) / (one as u128);
    assert(gap <= 2 * DIST_SCALE) by (nonlinear_arith)
        requires
            gap == (num * (DIST_SCALE as u128)) as int / (one as int),
            num <= 2 * one,
            one == 0x100_0000_0000,
    ;
    let factor: u128 = if (wa as u128) + (wb as u128) == 0 {
        0
    } else {
        assert(2 * (wa as u128) * (wb as u128) <= 0x2_0000_0000_0000_0000_0000) by (nonlinear_arith)
            requires
                wa <= 0x100_0000_0000,
                wb <= 0x100_0000_0000,
        ;
        let p = 2 * (wa as u128) * (wb as u128);
        assert(p <= 0x2_0000_0000_0000_0000_0000) by (nonlinear_arith)
            requires
                p == 2 * wa * wb,
                wa <= 0x100_0000_0000,
                wb <= 0x100_0000_0000,
        ;
        let m = p * 0x10_0000 / ((wa as u128) + (wb as u128));
        assert(m <= p * 0x10_0000) by (nonlinear_arith)
            requires
                m == (p * 0x10_0000) as int / ((wa as u128) + (wb as u128)) as int,
                (wa as u128) + (wb as u128) >= 1,
        ;
        wide_sqrt(m)
    };
    assert(factor <= 0x10_0000_0000_0000) by {
        if (wa as u128) + (wb as u128) != 0 {
            assert(factor * factor <= 0x20_0000_0000_0000_0000_0000_0000);
            assert(factor <= 0x10_0000_0000_0000) by (nonlinear_arith)
                requires
                    factor * factor <= 0x20_0000_0000_0000_0000_0000_0000,
                    factor >= 0,
            ;
        }
    }
    assert(factor * gap <= 0x10_0000_0000_0000 * 0x1_0000_0000) by (nonlinear_arith)
        requires
            factor <= 0x10_0000_0000_0000,
            gap <= 2 * DIST_SCALE,
    ;
    let v = factor * gap / 0x400;
    if v > WARD_CAP as u128 {
        WARD_CAP
    } else {
        v as u64
    }
}

} // verus!
