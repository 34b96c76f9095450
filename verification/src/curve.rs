//! The piecewise-cubic curve derived from a cyclic control polygon.
//!
//! A polygon of `n` points yields `n` cubic pieces through the uniform
//! cubic B-spline rule; piece `k` is shaped by the four cyclically
//! consecutive points starting at `k`.  Coefficients are stored times 6
//! so they stay integers.  The curve's parameter runs over
//! `[0, n * FP_ONE)` in units of `1 / FP_ONE` of a piece, and sampling
//! rounds each coordinate to the nearest integer.

use crate::geom::{Point, points_ok};
use crate::num::rdiv;
use vstd::arithmetic::div_mod::lemma_fundamental_div_mod;
use vstd::prelude::*;

verus! {

/// Fixed-point scale of the curve parameter: one piece spans `FP_ONE`
/// parameter steps.
pub const FP_ONE: u64 = 0x10000;

/// Largest number of control points (and so curve pieces) accepted.
pub const MAX_POINTS: usize = 0x100000;

/// Returned when fewer than two control points are supplied.
#[derive(Clone, Copy, Debug, PartialEq, Eq, Structural)]
pub struct InsufficientPoints;

/// One cubic piece; `x0..x3` are six times the coefficients of
/// `1, u, u^2, u^3` for the x coordinate, `y0..y3` likewise.
#[derive(Clone, Copy, Debug, PartialEq, Eq, Structural)]
pub struct CubicPiece {
    pub x0: i64,
    pub x1: i64,
    pub x2: i64,
    pub x3: i64,
    pub y0: i64,
    pub y1: i64,
    pub y2: i64,
    pub y3: i64,
}

/// The control point `k` positions past index 0, wrapping around.
pub open spec fn cyc(s: Seq<Point>, k: int) -> Point
    recommends
        s.len() > 0,
{
    s[k % (s.len() as int)]
}

/// Piece `k` carries the B-spline coefficients of the four cyclically
/// consecutive control points starting at `k`.
pub open spec fn piece_matches(s: Seq<Point>, k: int, pc: CubicPiece) -> bool {
    let p0 = cyc(s, k);
    let p1 = cyc(s, k + 1);
    let p2 = cyc(s, k + 2);
    let p3 = cyc(s, k + 3);
    &&& pc.x0 == p0.x + 4 * p1.x + p2.x
    &&& pc.x1 == 3 * (p2.x - p0.x)
    &&& pc.x2 == 3 * (p0.x - 2 * p1.x + p2.x)
    &&& pc.x3 == p3.x - 3 * p2.x + 3 * p1.x - p0.x
    &&& pc.y0 == p0.y + 4 * p1.y + p2.y
    &&& pc.y1 == 3 * (p2.y - p0.y)
    &&& pc.y2 == 3 * (p0.y - 2 * p1.y + p2.y)
    &&& pc.y3 == p3.y - 3 * p2.y + 3 * p1.y - p0.y
}

/// The whole piece sequence is the cyclic B-spline conversion of `s`.
pub open spec fn curve_matches(s: Seq<Point>, pieces: Seq<CubicPiece>) -> bool {
    &&& pieces.len() == s.len()
    &&& forall|k: int| 0 <= k < s.len() ==> piece_matches(s, k, #[trigger] pieces[k])
}

/// Coefficient bound guaranteed by bounded control points; it is what
/// sampling needs to stay inside 128-bit arithmetic.
pub open spec fn piece_ok(pc: CubicPiece) -> bool {
    &&& -0x600000 <= pc.x0 <= 0x600000
    &&& -0x600000 <= pc.x1 <= 0x600000
    &&& -0x600000 <= pc.x2 <= 0x600000
    &&& -0x600000 <= pc.x3 <= 0x600000
    &&& -0x600000 <= pc.y0 <= 0x600000
    &&& -0x600000 <= pc.y1 <= 0x600000
    &&& -0x600000 <= pc.y2 <= 0x600000
    &&& -0x600000 <= pc.y3 <= 0x600000
}

/// Numerator of the x coordinate of a piece evaluated at fixed-point
/// `u`, over the denominator `6 * FP_ONE^3`.
pub open spec fn eval_num_x(pc: CubicPiece, u: int) -> int {
    pc.x0 * 0x1_0000_0000_0000 + pc.x1 * u * 0x1_0000_0000 + pc.x2 * u * u * 0x10000 + pc.x3 * u
        * u * u
}

/// Numerator of the y coordinate; see [`eval_num_x`].
pub open spec fn eval_num_y(pc: CubicPiece, u: int) -> int {
    pc.y0 * 0x1_0000_0000_0000 + pc.y1 * u * 0x1_0000_0000 + pc.y2 * u * u * 0x10000 + pc.y3 * u
        * u * u
}

/// The point a piece sequence takes at parameter `t`, rounded to the
/// nearest integer coordinates.
pub open spec fn curve_point_at(pieces: Seq<CubicPiece>, t: int) -> Point
    recommends
        0 <= t < pieces.len() * 0x10000,
{
    let k = t / 0x10000;
    let u = t % 0x10000;
    Point {
        x: rdiv(eval_num_x(pieces[k], u), 0x6_0000_0000_0000) as i64,
        y: rdiv(eval_num_y(pieces[k], u), 0x6_0000_0000_0000) as i64,
    }
}

/// The derived curve: a cyclic sequence of cubic pieces.  The parameter
/// domain always starts at zero and ends at `pieces.len() * FP_ONE`.
#[derive(Clone, Debug)]
pub struct CubicCurve {
    pub pieces: Vec<CubicPiece>,
}

impl CubicCurve {
    /// Coefficient bounds hold of every piece.
    pub open spec fn wf(&self) -> bool {
        &&& self.pieces@.len() <= MAX_POINTS
        &&& forall|k: int| 0 <= k < self.pieces@.len() ==> piece_ok(#[trigger] self.pieces@[k])
    }

    /// Number of cubic pieces; equals the number of control points the
    /// curve was built from.
    pub fn segment_count(&self) -> (n: usize)
        ensures
            n == self.pieces@.len(),
    {
        self.pieces.len()
    }

    /// The parameter domain always starts at zero.
    pub fn domain_start(&self) -> (r: u64)
        ensures
            r == 0,
    {
        0
    }

    /// End of the parameter domain in fixed-point steps.
    pub fn domain_end(&self) -> (r: u64)
        requires
            self.pieces@.len() <= MAX_POINTS,
        ensures
            r == self.pieces@.len() * FP_ONE,
    {
        (self.pieces.len() as u64) * FP_ONE
    }

    /// Evaluates the curve at parameter `t`: the piece `t / FP_ONE` at
    /// offset `t % FP_ONE`.  Outside the domain there is nothing to
    /// sample and the result is `None`.
    pub fn sample(&self, t: u64) -> (r: Option<Point>)
        requires
            self.wf(),
        ensures
            r is Some <==> t < self.pieces@.len() * FP_ONE,
            r is Some ==> r->Some_0 == curve_point_at(self.pieces@, t as int),
    {
        let n = self.pieces.len() as u64;
        if t >= n * FP_ONE {
            return None;
        }
        proof {
            lemma_fundamental_div_mod(t as int, 0x10000);
        }
        let k = (t / FP_ONE) as usize;
        let u = (t % FP_ONE) as i128;
        assert(k < self.pieces@.len());
        let pc = self.pieces[k];
        let x = eval_coord(pc.x0, pc.x1, pc.x2, pc.x3, u);
        let y = eval_coord(pc.y0, pc.y1, pc.y2, pc.y3, u);
        Some(Point { x, y })
    }
}

/// Evaluates one cubic coordinate at fixed-point `u`, rounding to the
/// nearest integer.
fn eval_coord(c0: i64, c1: i64, c2: i64, c3: i64, u: i128) -> (r: i64)
    requires
        -0x600000 <= c0 <= 0x600000,
        -0x600000 <= c1 <= 0x600000,
        -0x600000 <= c2 <= 0x600000,
        -0x600000 <= c3 <= 0x600000,
        0 <= u < 0x10000,
    ensures
        r == rdiv(
            c0 * 0x1_0000_0000_0000 + c1 * u * 0x1_0000_0000 + c2 * u * u * 0x10000 + c3 * u * u
                * u,
            0x6_0000_0000_0000,
        ),
{
    proof {
        crate::num::lemma_mul_bound(c1 as int, u as int, 0x600000, 0x10000);
        crate::num::lemma_mul_bound(c2 as int, u as int, 0x600000, 0x10000);
        crate::num::lemma_mul_bound(c2 as int * u as int, u as int, 0x6000000000, 0x10000);
        crate::num::lemma_mul_bound(c3 as int, u as int, 0x600000, 0x10000);
        crate::num::lemma_mul_bound(c3 as int * u as int, u as int, 0x6000000000, 0x10000);
        crate::num::lemma_mul_bound(
            c3 as int * u as int * u as int,
            u as int,
            0x60000000000000,
            0x10000,
        );
    }
    let num = (c0 as i128) * 0x1_0000_0000_0000 + (c1 as i128) * u * 0x1_0000_0000 + (c2 as i128)
        * u * u * 0x10000 + (c3 as i128) * u * u * u;
    let q = crate::num::rdiv_i128(num, 0x6_0000_0000_0000);
    proof {
        crate::num::lemma_rdiv_between(num as int, 0x6_0000_0000_0000, -0x800000, 0x800000);
    }
    q as i64
}

/// The derived curve is a function of the control polygon alone: two
/// curves built from the same points are equal piece by piece.
pub proof fn lemma_curve_determined(s: Seq<Point>, p1: Seq<CubicPiece>, p2: Seq<CubicPiece>)
    requires
        curve_matches(s, p1),
        curve_matches(s, p2),
    ensures
        p1 == p2,
{
    assert forall|k: int| 0 <= k < p1.len() implies p1[k] == p2[k] by {
        assert(piece_matches(s, k, p1[k]));
        assert(piece_matches(s, k, p2[k]));
    }
    assert(p1 =~= p2);
}

/// Converts a cyclic control polygon into its piecewise-cubic curve.
/// Fails exactly when fewer than two control points are supplied.
pub fn build_cyclic_curve(points: &Vec<Point>) -> (r: Result<CubicCurve, InsufficientPoints>)
    requires
        points_ok(points@),
        points@.len() <= MAX_POINTS,
    ensures
        r is Ok <==> points@.len() >= 2,
        r is Ok ==> curve_matches(points@, r->Ok_0.pieces@) && r->Ok_0.wf(),
{
    let n = points.len();
    if n < 2 {
        return Err(InsufficientPoints);
    }
    let mut pieces: Vec<CubicPiece> = Vec::new();
    for k in 0..n
        invariant
            n == points@.len(),
            2 <= n <= MAX_POINTS,
            points_ok(points@),
            pieces@.len() == k,
            forall|j: int| 0 <= j < k ==> piece_matches(points@, j, #[trigger] pieces@[j]),
            forall|j: int| 0 <= j < k ==> piece_ok(#[trigger] pieces@[j]),
    {
        let p0 = points[k];
        let p1 = points[(k + 1) % n];
        let p2 = points[(k + 2) % n];
        let p3 = points[(k + 3) % n];
        proof {
            assert(cyc(points@, k as int) == points@[k as int]) by {
                vstd::arithmetic::div_mod::lemma_small_mod(k as nat, n as nat);
            }
        }
        let pc = CubicPiece {
            x0: p0.x + 4 * p1.x + p2.x,
            x1: 3 * (p2.x - p0.x),
            x2: 3 * (p0.x - 2 * p1.x + p2.x),
            x3: p3.x - 3 * p2.x + 3 * p1.x - p0.x,
            y0: p0.y + 4 * p1.y + p2.y,
            y1: 3 * (p2.y - p0.y),
            y2: 3 * (p0.y - 2 * p1.y + p2.y),
            y3: p3.y - 3 * p2.y + 3 * p1.y - p0.y,
        };
        pieces.push(pc);
    }
    Ok(CubicCurve { pieces })
}

} // verus!
