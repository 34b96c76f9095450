//! Points, squared distances, and exact point-to-segment comparisons.
//!
//! Distances to segments are rationals: a numerator over a positive
//! denominator, both exact integers.  Comparing two such distances
//! cross-multiplies; the coordinate bound keeps every product inside
//! 128 bits.

use vstd::prelude::*;

verus! {

/// Largest coordinate magnitude the library accepts.  The bound keeps
/// every distance comparison exact in 128-bit arithmetic.
pub const COORD_LIMIT: i64 = 0x80000;

/// A 2D point with integer coordinates.
#[derive(Clone, Copy, Debug, PartialEq, Eq, Structural)]
pub struct Point {
    pub x: i64,
    pub y: i64,
}

/// A coordinate within the representable range.
pub open spec fn coord_ok(c: int) -> bool {
    -0x80000 <= c <= 0x80000
}

/// Both coordinates of `p` within the representable range.
pub open spec fn point_ok(p: Point) -> bool {
    coord_ok(p.x as int) && coord_ok(p.y as int)
}

/// Every point of the sequence within the representable range.
pub open spec fn points_ok(s: Seq<Point>) -> bool {
    forall|i: int| 0 <= i < s.len() ==> point_ok(#[trigger] s[i])
}

/// Squared Euclidean distance between two points.
pub open spec fn dist_sq(p: Point, q: Point) -> int {
    (p.x - q.x) * (p.x - q.x) + (p.y - q.y) * (p.y - q.y)
}

/// Squared distance, on machine integers.
pub fn dist_sq_i64(p: Point, q: Point) -> (d: i64)
    requires
        point_ok(p),
        point_ok(q),
    ensures
        d == dist_sq(p, q),
        0 <= d <= 0x200_0000_0000,
{
    let dx = p.x - q.x;
    let dy = p.y - q.y;
    proof {
        crate::num::lemma_mul_bound(dx as int, dx as int, 0x100000, 0x100000);
        crate::num::lemma_mul_bound(dy as int, dy as int, 0x100000, 0x100000);
        assert(dx as int * dx as int >= 0) by (nonlinear_arith);
        assert(dy as int * dy as int >= 0) by (nonlinear_arith);
    }
    dx * dx + dy * dy
}

/// Dot product of the vectors `a -> b` and `a -> p`.
pub open spec fn dot_toward(a: Point, b: Point, p: Point) -> int {
    (b.x - a.x) * (p.x - a.x) + (b.y - a.y) * (p.y - a.y)
}

/// Numerator of the squared distance from `p` to the segment `a -> b`,
/// over the denominator [`seg_dist_den`].  The projection of `p` onto
/// the segment's line is clamped to the segment: beyond either endpoint
/// the distance is to that endpoint.
pub open spec fn seg_dist_num(a: Point, b: Point, p: Point) -> int {
    let len2 = dist_sq(a, b);
    if len2 == 0 {
        dist_sq(a, p)
    } else if dot_toward(a, b, p) < 0 {
        dist_sq(a, p) * len2
    } else if dot_toward(b, a, p) < 0 {
        dist_sq(b, p) * len2
    } else {
        dist_sq(a, p) * len2 - dot_toward(a, b, p) * dot_toward(a, b, p)
    }
}

/// Denominator of the squared distance from `p` to the segment `a -> b`.
pub open spec fn seg_dist_den(a: Point, b: Point, p: Point) -> int {
    let len2 = dist_sq(a, b);
    if len2 == 0 {
        1
    } else {
        len2
    }
}

/// The squared distance from `p` to segment 1 is at most the squared
/// distance from `p` to segment 2 (fractions compared cross-multiplied).
pub open spec fn seg_le(a1: Point, b1: Point, a2: Point, b2: Point, p: Point) -> bool {
    seg_dist_num(a1, b1, p) * seg_dist_den(a2, b2, p) <= seg_dist_num(a2, b2, p) * seg_dist_den(
        a1,
        b1,
        p,
    )
}

/// Strict version of [`seg_le`].
pub open spec fn seg_lt(a1: Point, b1: Point, a2: Point, b2: Point, p: Point) -> bool {
    seg_dist_num(a1, b1, p) * seg_dist_den(a2, b2, p) < seg_dist_num(a2, b2, p) * seg_dist_den(
        a1,
        b1,
        p,
    )
}

/// Numerator and denominator of the squared point-to-segment distance,
/// on machine integers, with the bounds every caller needs.
pub fn seg_dist_parts(a: Point, b: Point, p: Point) -> (r: (i128, i128))
    requires
        point_ok(a),
        point_ok(b),
        point_ok(p),
    ensures
        r.0 == seg_dist_num(a, b, p),
        r.1 == seg_dist_den(a, b, p),
        -0x8_0000_0000_0000_0000_0000 <= r.0 <= 0x8_0000_0000_0000_0000_0000,
        1 <= r.1 <= 0x200_0000_0000,
{
    let len2 = dist_sq_i64(a, b) as i128;
    let dap = dist_sq_i64(a, p) as i128;
    if len2 == 0 {
        (dap, 1)
    } else {
        let dot_a = dot_toward_i128(a, b, p);
        let dot_b = dot_toward_i128(b, a, p);
        proof {
            crate::num::lemma_mul_bound(dap as int, len2 as int, 0x200_0000_0000, 0x200_0000_0000);
            crate::num::lemma_mul_bound(
                dot_a as int,
                dot_a as int,
                0x200_0000_0000,
                0x200_0000_0000,
            );
        }
        if dot_a < 0 {
            (dap * len2, len2)
        } else if dot_b < 0 {
            let dbp = dist_sq_i64(b, p) as i128;
            proof {
                crate::num::lemma_mul_bound(
                    dbp as int,
                    len2 as int,
                    0x200_0000_0000,
                    0x200_0000_0000,
                );
            }
            (dbp * len2, len2)
        } else {
            (dap * len2 - dot_a * dot_a, len2)
        }
    }
}

/// Dot product on machine integers.
fn dot_toward_i128(a: Point, b: Point, p: Point) -> (r: i128)
    requires
        point_ok(a),
        point_ok(b),
        point_ok(p),
    ensures
        r == dot_toward(a, b, p),
        -0x200_0000_0000 <= r <= 0x200_0000_0000,
{
    let vx = (b.x - a.x) as i128;
    let vy = (b.y - a.y) as i128;
    let wx = (p.x - a.x) as i128;
    let wy = (p.y - a.y) as i128;
    proof {
        crate::num::lemma_mul_bound(vx as int, wx as int, 0x100000, 0x100000);
        crate::num::lemma_mul_bound(vy as int, wy as int, 0x100000, 0x100000);
    }
    vx * wx + vy * wy
}

/// Compares the squared distances from `p` to two segments, exactly:
/// returns whether segment 1 is strictly nearer.
pub fn seg_strictly_nearer(a1: Point, b1: Point, a2: Point, b2: Point, p: Point) -> (r: bool)
    requires
        point_ok(a1),
        point_ok(b1),
        point_ok(a2),
        point_ok(b2),
        point_ok(p),
    ensures
        r == seg_lt(a1, b1, a2, b2, p),
{
    let (n1, d1) = seg_dist_parts(a1, b1, p);
    let (n2, d2) = seg_dist_parts(a2, b2, p);
    proof {
        crate::num::lemma_mul_bound(n1 as int, d2 as int, 0x8_0000_0000_0000_0000_0000, 0x200_0000_0000);
        crate::num::lemma_mul_bound(n2 as int, d1 as int, 0x8_0000_0000_0000_0000_0000, 0x200_0000_0000);
    }
    n1 * d2 < n2 * d1
}

/// A segment-distance denominator is always positive.
pub proof fn lemma_seg_den_pos(a: Point, b: Point, p: Point)
    ensures
        seg_dist_den(a, b, p) >= 1,
{
    assert((a.x - b.x) * (a.x - b.x) >= 0) by (nonlinear_arith);
    assert((a.y - b.y) * (a.y - b.y) >= 0) by (nonlinear_arith);
}

/// Fraction order with positive denominators is transitive; the mixed
/// strict/non-strict form yields a strict result.
pub proof fn lemma_frac_lt_le_trans(n1: int, d1: int, n2: int, d2: int, n3: int, d3: int)
    by (nonlinear_arith)
    requires
        d1 > 0,
        d2 > 0,
        d3 > 0,
        n1 * d2 < n2 * d1,
        n2 * d3 <= n3 * d2,
    ensures
        n1 * d3 < n3 * d1,
{
}

} // verus!
