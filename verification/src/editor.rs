//! The map aggregate: one cyclic control polygon, its derived curve,
//! auxiliary markers, and display metadata, with every structural edit.
//!
//! Every edit is atomic: either the polygon and the derived curve both
//! change, or neither does.  A well-formed aggregate never exposes a
//! stale curve.

use crate::curve::{
    CubicCurve, InsufficientPoints, MAX_POINTS, build_cyclic_curve, curve_matches,
};
use crate::geom::{Point, dist_sq, point_ok, points_ok};
use crate::num::rdiv;
use vstd::prelude::*;

verus! {

/// Default edge length of the display size, in coordinate units.
pub const DEFAULT_SIZE: i64 = 8192;

/// Sum of the x coordinates of a point sequence.
pub open spec fn sum_x(s: Seq<Point>) -> int
    decreases s.len(),
{
    if s.len() == 0 {
        0
    } else {
        sum_x(s.drop_last()) + s.last().x
    }
}

/// Sum of the y coordinates of a point sequence.
pub open spec fn sum_y(s: Seq<Point>) -> int
    decreases s.len(),
{
    if s.len() == 0 {
        0
    } else {
        sum_y(s.drop_last()) + s.last().y
    }
}

/// Least x coordinate of a non-empty point sequence.
pub open spec fn min_x(s: Seq<Point>) -> int
    recommends
        s.len() > 0,
    decreases s.len(),
{
    if s.len() <= 1 {
        s[0].x as int
    } else {
        let m = min_x(s.drop_last());
        if m <= s.last().x {
            m
        } else {
            s.last().x as int
        }
    }
}

/// Greatest x coordinate of a non-empty point sequence.
pub open spec fn max_x(s: Seq<Point>) -> int
    recommends
        s.len() > 0,
    decreases s.len(),
{
    if s.len() <= 1 {
        s[0].x as int
    } else {
        let m = max_x(s.drop_last());
        if m >= s.last().x {
            m
        } else {
            s.last().x as int
        }
    }
}

/// Least y coordinate of a non-empty point sequence.
pub open spec fn min_y(s: Seq<Point>) -> int
    recommends
        s.len() > 0,
    decreases s.len(),
{
    if s.len() <= 1 {
        s[0].y as int
    } else {
        let m = min_y(s.drop_last());
        if m <= s.last().y {
            m
        } else {
            s.last().y as int
        }
    }
}

/// Greatest y coordinate of a non-empty point sequence.
pub open spec fn max_y(s: Seq<Point>) -> int
    recommends
        s.len() > 0,
    decreases s.len(),
{
    if s.len() <= 1 {
        s[0].y as int
    } else {
        let m = max_y(s.drop_last());
        if m >= s.last().y {
            m
        } else {
            s.last().y as int
        }
    }
}

/// Every element of a non-empty sequence lies inside the min/max box.
pub proof fn lemma_minmax_contains(s: Seq<Point>, i: int)
    requires
        0 <= i < s.len(),
    ensures
        min_x(s) <= s[i].x <= max_x(s),
        min_y(s) <= s[i].y <= max_y(s),
    decreases s.len(),
{
    if s.len() > 1 && i < s.len() - 1 {
        lemma_minmax_contains(s.drop_last(), i);
    }
}

/// The coordinate sums of a bounded sequence are bounded by its length.
pub proof fn lemma_sum_bound(s: Seq<Point>)
    requires
        points_ok(s),
    ensures
        -(s.len() * 0x80000) <= sum_x(s) <= s.len() * 0x80000,
        -(s.len() * 0x80000) <= sum_y(s) <= s.len() * 0x80000,
    decreases s.len(),
{
    if s.len() > 0 {
        assert(points_ok(s.drop_last()));
        lemma_sum_bound(s.drop_last());
    }
}

/// A byte a backing-image path may contain: printable, not a quote and
/// not a backslash, so paths embed in the text format unescaped.
pub open spec fn path_byte_ok(b: u8) -> bool {
    32 <= b <= 126 && b != 34 && b != 92
}

/// All bytes of a path acceptable.
pub open spec fn path_ok(s: Seq<u8>) -> bool {
    forall|i: int| 0 <= i < s.len() ==> path_byte_ok(#[trigger] s[i])
}

/// The target of a nearest-handle query: nothing, a control point
/// index, or an auxiliary-marker index.
#[derive(Clone, Copy, Debug, PartialEq, Eq, Structural)]
pub enum CurveHandle {
    NoTarget,
    CtrlPt(usize),
    Tuesday(usize),
}

impl Default for CurveHandle {
    /// The default handle points at nothing.
    fn default() -> (r: Self)
        ensures
            r == CurveHandle::NoTarget,
    {
        CurveHandle::NoTarget
    }
}

/// Returned when a point cannot be added because no segment exists.
#[derive(Clone, Copy, Debug, PartialEq, Eq, Structural, Hash)]
pub struct AddPointError;

/// Returned when a removal would leave fewer than two control points;
/// carries the current count.
#[derive(Clone, Copy, Debug, PartialEq, Eq, Structural)]
pub struct TooFewPoints {
    pub count: usize,
}

/// An axis-aligned rectangle given by two corners.
#[derive(Clone, Copy, Debug, PartialEq, Eq, Structural)]
pub struct Rect {
    pub min: Point,
    pub max: Point,
}

impl Rect {
    /// Centre of the rectangle, halves rounded up.
    pub fn center(&self) -> (r: Point)
        requires
            point_ok(self.min),
            point_ok(self.max),
        ensures
            r.x == rdiv(self.min.x + self.max.x, 2),
            r.y == rdiv(self.min.y + self.max.y, 2),
            point_ok(r),
    {
        let x = crate::num::rdiv_i128((self.min.x + self.max.x) as i128, 2);
        let y = crate::num::rdiv_i128((self.min.y + self.max.y) as i128, 2);
        proof {
            crate::num::lemma_rdiv_between(self.min.x + self.max.x, 2, -0x80000, 0x80000);
            crate::num::lemma_rdiv_between(self.min.y + self.max.y, 2, -0x80000, 0x80000);
        }
        Point { x: x as i64, y: y as i64 }
    }

    /// Extent of the rectangle on each axis.
    pub fn size(&self) -> (r: Point)
        requires
            point_ok(self.min),
            point_ok(self.max),
        ensures
            r.x == self.max.x - self.min.x,
            r.y == self.max.y - self.min.y,
    {
        Point { x: self.max.x - self.min.x, y: self.max.y - self.min.y }
    }
}

/// The aggregate: control polygon, derived curve, auxiliary markers
/// ("tuesdays", standalone annotation points), backing-image path and
/// display size.
#[derive(Clone, Debug)]
pub struct CurveMap {
    /// Derived piecewise-cubic curve; rebuilt after every structural
    /// edit of the polygon.
    pub curve: CubicCurve,
    /// The cyclic control polygon; the segment from the last point back
    /// to the first always exists.
    pub points: Vec<Point>,
    /// Auxiliary markers: annotation points outside the spline shape.
    pub tuesdays: Vec<Point>,
    /// Backing-image path, as bytes of a printable string.
    pub background: Vec<u8>,
    /// Display size of the backing image.
    pub size: Point,
}

impl CurveMap {
    /// All coordinates and sizes within representable limits; says
    /// nothing about the curve.
    pub open spec fn bounds_wf(&self) -> bool {
        &&& points_ok(self.points@)
        &&& self.points@.len() <= MAX_POINTS
        &&& points_ok(self.tuesdays@)
        &&& self.tuesdays@.len() <= MAX_POINTS
        &&& point_ok(self.size)
        &&& path_ok(self.background@)
    }

    /// A well-formed aggregate: bounded, at least two control points,
    /// and the stored curve is exactly the one derived from the
    /// polygon.
    pub open spec fn wf(&self) -> bool {
        &&& self.bounds_wf()
        &&& self.points@.len() >= 2
        &&& curve_matches(self.points@, self.curve.pieces@)
        &&& self.curve.wf()
    }

    /// Control points and markers in one sequence, in the order the
    /// combined statistics (centre, bounding box) run over them.
    pub open spec fn all_handles(&self) -> Seq<Point> {
        self.points@ + self.tuesdays@
    }

    /// Builds an aggregate from an initial control polygon.  Fails
    /// exactly when fewer than two points are supplied; otherwise the
    /// derived curve is built, the marker list starts empty and the
    /// display metadata takes its defaults.
    pub fn new(points: Vec<Point>) -> (r: Result<CurveMap, InsufficientPoints>)
        requires
            points_ok(points@),
            points@.len() <= MAX_POINTS,
        ensures
            r is Ok <==> points@.len() >= 2,
            r is Ok ==> {
                let m = r->Ok_0;
                &&& m.wf()
                &&& m.points@ == points@
                &&& m.tuesdays@.len() == 0
                &&& m.background@ == default_background_bytes()
                &&& m.size == (Point { x: DEFAULT_SIZE, y: DEFAULT_SIZE })
            },
    {
        match build_cyclic_curve(&points) {
            Ok(curve) => Ok(
                CurveMap {
                    curve,
                    points,
                    tuesdays: Vec::new(),
                    background: default_background(),
                    size: Point { x: DEFAULT_SIZE, y: DEFAULT_SIZE },
                },
            ),
            Err(e) => Err(e),
        }
    }

    /// Recomputes the derived curve from the control polygon.  Fails
    /// exactly when the polygon has fewer than two points, and then
    /// changes nothing.
    pub fn sync(&mut self) -> (r: Result<(), InsufficientPoints>)
        requires
            old(self).bounds_wf(),
        ensures
            final(self).points@ == old(self).points@,
            final(self).tuesdays@ == old(self).tuesdays@,
            final(self).background@ == old(self).background@,
            final(self).size == old(self).size,
            r is Ok <==> old(self).points@.len() >= 2,
            r is Ok ==> final(self).wf(),
            r is Err ==> *final(self) == *old(self),
    {
        match build_cyclic_curve(&self.points) {
            Ok(curve) => {
                self.curve = curve;
                Ok(())
            },
            Err(e) => Err(e),
        }
    }

    /// Read access to the control polygon.
    pub fn control_points(&self) -> (r: &Vec<Point>)
        ensures
            r@ == self.points@,
    {
        &self.points
    }

    /// Read access to the derived curve.
    pub fn curve(&self) -> (r: &CubicCurve)
        ensures
            *r == self.curve,
    {
        &self.curve
    }

    /// Componentwise least and greatest coordinates over all control
    /// points and markers combined.
    pub fn bounding_rect(&self) -> (r: Rect)
        requires
            self.bounds_wf(),
            self.points@.len() >= 1,
        ensures
            r.min.x == min_x(self.all_handles()),
            r.max.x == max_x(self.all_handles()),
            r.min.y == min_y(self.all_handles()),
            r.max.y == max_y(self.all_handles()),
            point_ok(r.min),
            point_ok(r.max),
    {
        let ghost all = self.all_handles();
        let first = self.points[0];
        let mut lo_x = first.x;
        let mut hi_x = first.x;
        let mut lo_y = first.y;
        let mut hi_y = first.y;
        proof {
            assert(all.take(1) =~= seq![all[0]]);
        }
        let n = self.points.len();
        let mut i: usize = 1;
        while i < n
            invariant
                1 <= i <= n,
                n == self.points@.len(),
                self.bounds_wf(),
                all == self.all_handles(),
                lo_x == min_x(all.take(i as int)),
                hi_x == max_x(all.take(i as int)),
                lo_y == min_y(all.take(i as int)),
                hi_y == max_y(all.take(i as int)),
                crate::geom::coord_ok(lo_x as int),
                crate::geom::coord_ok(hi_x as int),
                crate::geom::coord_ok(lo_y as int),
                crate::geom::coord_ok(hi_y as int),
            decreases n - i,
        {
            let p = self.points[i];
            proof {
                assert(all.take(i + 1).drop_last() =~= all.take(i as int));
                assert(all.take(i + 1).last() == p);
            }
            if p.x < lo_x {
                lo_x = p.x;
            }
            if p.x > hi_x {
                hi_x = p.x;
            }
            if p.y < lo_y {
                lo_y = p.y;
            }
            if p.y > hi_y {
                hi_y = p.y;
            }
            i = i + 1;
        }
        let m = self.tuesdays.len();
        let mut j: usize = 0;
        while j < m
            invariant
                0 <= j <= m,
                n == self.points@.len(),
                m == self.tuesdays@.len(),
                self.bounds_wf(),
                all == self.all_handles(),
                lo_x == min_x(all.take(n + j)),
                hi_x == max_x(all.take(n + j)),
                lo_y == min_y(all.take(n + j)),
                hi_y == max_y(all.take(n + j)),
                crate::geom::coord_ok(lo_x as int),
                crate::geom::coord_ok(hi_x as int),
                crate::geom::coord_ok(lo_y as int),
                crate::geom::coord_ok(hi_y as int),
                n >= 1,
            decreases m - j,
        {
            let p = self.tuesdays[j];
            proof {
                assert(all.take(n + j + 1).drop_last() =~= all.take(n + j));
                assert(all.take(n + j + 1).last() == p);
            }
            if p.x < lo_x {
                lo_x = p.x;
            }
            if p.x > hi_x {
                hi_x = p.x;
            }
            if p.y < lo_y {
                lo_y = p.y;
            }
            if p.y > hi_y {
                hi_y = p.y;
            }
            j = j + 1;
        }
        proof {
            assert(all.take(n + m) =~= all);
        }
        Rect { min: Point { x: lo_x, y: lo_y }, max: Point { x: hi_x, y: hi_y } }
    }

    /// Arithmetic mean of all control points and markers combined,
    /// halves rounded up.
    pub fn find_center(&self) -> (r: Point)
        requires
            self.bounds_wf(),
            self.points@.len() >= 1,
        ensures
            r.x == rdiv(sum_x(self.all_handles()), self.all_handles().len() as int),
            r.y == rdiv(sum_y(self.all_handles()), self.all_handles().len() as int),
            point_ok(r),
    {
        let ghost all = self.all_handles();
        let mut acc_x: i128 = 0;
        let mut acc_y: i128 = 0;
        let n = self.points.len();
        let m = self.tuesdays.len();
        let mut i: usize = 0;
        while i < n
            invariant
                0 <= i <= n,
                n == self.points@.len(),
                self.bounds_wf(),
                all == self.all_handles(),
                acc_x == sum_x(all.take(i as int)),
                acc_y == sum_y(all.take(i as int)),
                -((i as int) * 0x80000) <= acc_x <= (i as int) * 0x80000,
                -((i as int) * 0x80000) <= acc_y <= (i as int) * 0x80000,
            decreases n - i,
        {
            let p = self.points[i];
            proof {
                assert(all.take(i + 1).drop_last() =~= all.take(i as int));
                assert(all.take(i + 1).last() == p);
            }
            acc_x = acc_x + p.x as i128;
            acc_y = acc_y + p.y as i128;
            i = i + 1;
        }
        let mut j: usize = 0;
        while j < m
            invariant
                0 <= j <= m,
                n == self.points@.len(),
                m == self.tuesdays@.len(),
                self.bounds_wf(),
                all == self.all_handles(),
                acc_x == sum_x(all.take(n + j)),
                acc_y == sum_y(all.take(n + j)),
                -((n + j) as int * 0x80000) <= acc_x <= (n + j) as int * 0x80000,
                -((n + j) as int * 0x80000) <= acc_y <= (n + j) as int * 0x80000,
            decreases m - j,
        {
            let p = self.tuesdays[j];
            proof {
                assert(all.take(n + j + 1).drop_last() =~= all.take(n + j));
                assert(all.take(n + j + 1).last() == p);
            }
            acc_x = acc_x + p.x as i128;
            acc_y = acc_y + p.y as i128;
            j = j + 1;
        }
        proof {
            assert(all.take(n + m) =~= all);
        }
        let cnt = (n + m) as i128;
        let cx = crate::num::rdiv_i128(acc_x, cnt);
        let cy = crate::num::rdiv_i128(acc_y, cnt);
        proof {
            crate::num::lemma_rdiv_between(acc_x as int, cnt as int, -0x80000, 0x80000);
            crate::num::lemma_rdiv_between(acc_y as int, cnt as int, -0x80000, 0x80000);
        }
        Point { x: cx as i64, y: cy as i64 }
    }
}

/// The sequence `s` shifted by `d`.
pub open spec fn translated(s: Seq<Point>, d: Point) -> Seq<Point> {
    Seq::new(s.len(), |i: int| Point { x: (s[i].x + d.x) as i64, y: (s[i].y + d.y) as i64 })
}

/// Every shifted coordinate stays within the representable range.
pub open spec fn translate_ok(s: Seq<Point>, d: Point) -> bool {
    forall|i: int| 0 <= i < s.len() ==> crate::geom::coord_ok((#[trigger] s[i]).x + d.x)
        && crate::geom::coord_ok(s[i].y + d.y)
}

impl CurveMap {
    /// Recomputes the curve after a structural edit; private because
    /// the polygon is known to be valid at every call site.
    fn rebuild_curve(&mut self)
        requires
            points_ok(old(self).points@),
            2 <= old(self).points@.len() <= MAX_POINTS,
        ensures
            final(self).points@ == old(self).points@,
            final(self).tuesdays@ == old(self).tuesdays@,
            final(self).background@ == old(self).background@,
            final(self).size == old(self).size,
            curve_matches(final(self).points@, final(self).curve.pieces@),
            final(self).curve.wf(),
    {
        match build_cyclic_curve(&self.points) {
            Ok(curve) => {
                self.curve = curve;
            },
            Err(_) => {
                proof {
                    assert(false);
                }
            },
        }
    }

    /// Adds `delta` to every control point and every marker, then
    /// rebuilds the curve.
    pub fn translate(&mut self, delta: Point)
        requires
            old(self).wf(),
            translate_ok(old(self).points@, delta),
            translate_ok(old(self).tuesdays@, delta),
        ensures
            final(self).points@ == translated(old(self).points@, delta),
            final(self).tuesdays@ == translated(old(self).tuesdays@, delta),
            final(self).background@ == old(self).background@,
            final(self).size == old(self).size,
            final(self).wf(),
    {
        let ghost orig = *old(self);
        let ghost opts = old(self).points@;
        let ghost otues = old(self).tuesdays@;
        let n = self.points.len();
        let mut i: usize = 0;
        while i < n
            invariant
                0 <= i <= n,
                n == self.points@.len(),
                self.points@.len() == opts.len(),
                points_ok(opts),
                translate_ok(opts, delta),
                forall|j: int| 0 <= j < i ==> self.points@[j] == translated(opts, delta)[j],
                forall|j: int| i <= j < n ==> self.points@[j] == opts[j],
                self.tuesdays@ == otues,
                self.background@ == orig.background@,
                self.size == orig.size,
            decreases n - i,
        {
            let p = self.points[i];
            proof {
                assert(p == opts[i as int]);
                assert(crate::geom::coord_ok(opts[i as int].x + delta.x));
                assert(crate::geom::coord_ok(opts[i as int].y + delta.y));
            }
            self.points.set(i, Point { x: p.x + delta.x, y: p.y + delta.y });
            i = i + 1;
        }
        proof {
            assert(self.points@ =~= translated(opts, delta));
        }
        let m = self.tuesdays.len();
        let mut j: usize = 0;
        while j < m
            invariant
                0 <= j <= m,
                m == self.tuesdays@.len(),
                self.tuesdays@.len() == otues.len(),
                points_ok(otues),
                translate_ok(otues, delta),
                forall|k: int| 0 <= k < j ==> self.tuesdays@[k] == translated(otues, delta)[k],
                forall|k: int| j <= k < m ==> self.tuesdays@[k] == otues[k],
                self.points@ == translated(opts, delta),
                2 <= opts.len() <= MAX_POINTS,
                otues.len() <= MAX_POINTS,
                self.background@ == orig.background@,
                self.size == orig.size,
            decreases m - j,
        {
            let p = self.tuesdays[j];
            proof {
                assert(p == otues[j as int]);
                assert(crate::geom::coord_ok(otues[j as int].x + delta.x));
                assert(crate::geom::coord_ok(otues[j as int].y + delta.y));
            }
            self.tuesdays.set(j, Point { x: p.x + delta.x, y: p.y + delta.y });
            j = j + 1;
        }
        proof {
            assert(self.tuesdays@ =~= translated(otues, delta));
            assert(points_ok(self.points@));
            assert(points_ok(self.tuesdays@));
        }
        self.rebuild_curve();
    }

    /// Overwrites the control point at `index` and rebuilds the curve.
    pub fn move_point(&mut self, index: usize, new_pos: Point)
        requires
            old(self).wf(),
            index < old(self).points@.len(),
            point_ok(new_pos),
        ensures
            final(self).points@ == old(self).points@.update(index as int, new_pos),
            final(self).tuesdays@ == old(self).tuesdays@,
            final(self).background@ == old(self).background@,
            final(self).size == old(self).size,
            final(self).wf(),
    {
        self.points.set(index, new_pos);
        self.rebuild_curve();
    }

    /// Removes the control point at `index` and rebuilds the curve,
    /// returning the removed position.  Fails exactly when the removal
    /// would leave fewer than two points, carrying the current count,
    /// and then changes nothing.
    pub fn remove_point(&mut self, index: usize) -> (r: Result<Point, TooFewPoints>)
        requires
            old(self).wf(),
            index < old(self).points@.len(),
        ensures
            r is Ok <==> old(self).points@.len() > 2,
            r is Ok ==> r->Ok_0 == old(self).points@[index as int],
            r is Ok ==> final(self).points@ == old(self).points@.remove(index as int),
            r is Ok ==> final(self).tuesdays@ == old(self).tuesdays@
                && final(self).background@ == old(self).background@
                && final(self).size == old(self).size
                && final(self).wf(),
            r is Err ==> *final(self) == *old(self) && r->Err_0.count == old(self).points@.len(),
    {
        if self.points.len() <= 2 {
            return Err(TooFewPoints { count: self.points.len() });
        }
        let removed = self.points.remove(index);
        self.rebuild_curve();
        Ok(removed)
    }
}

/// Start point of cyclic segment `k`.
pub open spec fn seg_a(s: Seq<Point>, k: int) -> Point {
    s[k]
}

/// End point of cyclic segment `k`: the next control point, wrapping
/// from the last back to the first.
pub open spec fn seg_b(s: Seq<Point>, k: int) -> Point {
    s[(k + 1) % (s.len() as int)]
}

/// Segment `k` is at most as far from `p` as segment `j`.
pub open spec fn seg_le_idx(s: Seq<Point>, p: Point, k: int, j: int) -> bool {
    crate::geom::seg_le(seg_a(s, k), seg_b(s, k), seg_a(s, j), seg_b(s, j), p)
}

/// Segment `k` is strictly nearer to `p` than segment `j`.
pub open spec fn seg_lt_idx(s: Seq<Point>, p: Point, k: int, j: int) -> bool {
    crate::geom::seg_lt(seg_a(s, k), seg_b(s, k), seg_a(s, j), seg_b(s, j), p)
}

/// Segment `k` has the least distance to `p` of all cyclic segments,
/// and is the first segment in index order with that distance.
pub open spec fn seg_min_at(s: Seq<Point>, p: Point, k: int) -> bool {
    &&& 0 <= k < s.len()
    &&& forall|j: int| 0 <= j < s.len() ==> #[trigger] seg_le_idx(s, p, k, j)
    &&& forall|j: int| 0 <= j < k ==> #[trigger] seg_lt_idx(s, p, k, j)
}

/// Transitivity of the segment-distance order, strict through
/// non-strict.
proof fn lemma_seg_lt_le_trans(s: Seq<Point>, p: Point, a: int, b: int, c: int)
    requires
        0 <= a < s.len(),
        0 <= b < s.len(),
        0 <= c < s.len(),
        seg_lt_idx(s, p, a, b),
        seg_le_idx(s, p, b, c),
    ensures
        seg_lt_idx(s, p, a, c),
{
    crate::geom::lemma_seg_den_pos(seg_a(s, a), seg_b(s, a), p);
    crate::geom::lemma_seg_den_pos(seg_a(s, b), seg_b(s, b), p);
    crate::geom::lemma_seg_den_pos(seg_a(s, c), seg_b(s, c), p);
    crate::geom::lemma_frac_lt_le_trans(
        crate::geom::seg_dist_num(seg_a(s, a), seg_b(s, a), p),
        crate::geom::seg_dist_den(seg_a(s, a), seg_b(s, a), p),
        crate::geom::seg_dist_num(seg_a(s, b), seg_b(s, b), p),
        crate::geom::seg_dist_den(seg_a(s, b), seg_b(s, b), p),
        crate::geom::seg_dist_num(seg_a(s, c), seg_b(s, c), p),
        crate::geom::seg_dist_den(seg_a(s, c), seg_b(s, c), p),
    );
}

/// Least squared distance from `p` to any point of a non-empty
/// sequence.
pub open spec fn min_dist(s: Seq<Point>, p: Point) -> int
    recommends
        s.len() > 0,
    decreases s.len(),
{
    if s.len() <= 1 {
        dist_sq(s[0], p)
    } else {
        let m = min_dist(s.drop_last(), p);
        if m <= dist_sq(s.last(), p) {
            m
        } else {
            dist_sq(s.last(), p)
        }
    }
}

/// Index `i` holds the nearest point of `s` to `p`, at squared
/// distance `d`, and is the first index at that distance.
pub open spec fn ctrl_min_at(s: Seq<Point>, p: Point, i: int, d: int) -> bool {
    &&& 0 <= i < s.len()
    &&& d == dist_sq(s[i], p)
    &&& d == min_dist(s, p)
    &&& forall|j: int| 0 <= j < s.len() ==> d <= dist_sq(#[trigger] s[j], p)
    &&& forall|j: int| 0 <= j < i ==> d < dist_sq(#[trigger] s[j], p)
}

/// Scans a point list for the nearest point to `p`, first index wins
/// on ties.
fn closest_in(v: &Vec<Point>, p: Point) -> (r: Option<(usize, i64)>)
    requires
        points_ok(v@),
        point_ok(p),
    ensures
        r is Some <==> v@.len() > 0,
        r is Some ==> ctrl_min_at(v@, p, r->Some_0.0 as int, r->Some_0.1 as int),
{
    let ghost s = v@;
    let n = v.len();
    if n == 0 {
        return None;
    }
    let mut best_i: usize = 0;
    let mut best_d: i64 = crate::geom::dist_sq_i64(v[0], p);
    proof {
        assert(s.take(1) =~= seq![s[0]]);
    }
    let mut k: usize = 1;
    while k < n
        invariant
            1 <= k <= n,
            0 <= best_i < k,
            n == s.len(),
            s == v@,
            points_ok(s),
            point_ok(p),
            best_d == dist_sq(s[best_i as int], p),
            best_d == min_dist(s.take(k as int), p),
            forall|j: int| 0 <= j < k ==> best_d <= dist_sq(#[trigger] s[j], p),
            forall|j: int| 0 <= j < best_i ==> best_d < dist_sq(#[trigger] s[j], p),
        decreases n - k,
    {
        let d = crate::geom::dist_sq_i64(v[k], p);
        proof {
            assert(s.take(k + 1).drop_last() =~= s.take(k as int));
            assert(s.take(k + 1).last() == s[k as int]);
        }
        if d < best_d {
            best_d = d;
            best_i = k;
        }
        k = k + 1;
    }
    proof {
        assert(s.take(n as int) =~= s);
    }
    Some((best_i, best_d))
}

impl CurveMap {
    /// Index of the cyclic polygon edge nearest to `point`; the edge
    /// from the last point back to the first counts.  Ties go to the
    /// first edge in index order.  There is always a segment, because a
    /// polygon never has fewer than one point here.
    pub fn closest_segment(&self, point: Point) -> (r: Option<usize>)
        requires
            self.bounds_wf(),
            self.points@.len() >= 1,
            point_ok(point),
        ensures
            r is Some,
            seg_min_at(self.points@, point, r->Some_0 as int),
    {
        let ghost s = self.points@;
        let n = self.points.len();
        let mut best: usize = 0;
        proof {
            assert(seg_le_idx(s, point, 0, 0));
        }
        let mut k: usize = 1;
        while k < n
            invariant
                1 <= k <= n,
                0 <= best < k,
                n == s.len(),
                s == self.points@,
                self.bounds_wf(),
                point_ok(point),
                forall|j: int| 0 <= j < k ==> #[trigger] seg_le_idx(s, point, best as int, j),
                forall|j: int| 0 <= j < best ==> #[trigger] seg_lt_idx(s, point, best as int, j),
            decreases n - k,
        {
            let a_k = self.points[k];
            let b_k = self.points[(k + 1) % n];
            let a_b = self.points[best];
            let b_b = self.points[(best + 1) % n];
            proof {
                assert(a_k == seg_a(s, k as int));
                assert(b_k == seg_b(s, k as int));
                assert(a_b == seg_a(s, best as int));
                assert(b_b == seg_b(s, best as int));
            }
            let nearer = crate::geom::seg_strictly_nearer(a_k, b_k, a_b, b_b, point);
            if nearer {
                proof {
                    assert(seg_lt_idx(s, point, k as int, best as int));
                    assert forall|j: int| 0 <= j < k implies #[trigger] seg_lt_idx(
                        s,
                        point,
                        k as int,
                        j,
                    ) by {
                        if j != best {
                            assert(seg_le_idx(s, point, best as int, j));
                            lemma_seg_lt_le_trans(s, point, k as int, best as int, j);
                        }
                    }
                    assert forall|j: int| 0 <= j < k + 1 implies #[trigger] seg_le_idx(
                        s,
                        point,
                        k as int,
                        j,
                    ) by {
                        if j < k {
                            assert(seg_lt_idx(s, point, k as int, j));
                        }
                    }
                }
                best = k;
            } else {
                proof {
                    assert(seg_le_idx(s, point, best as int, k as int));
                }
            }
            k = k + 1;
        }
        Some(best)
    }

    /// Index and squared distance of the control point nearest to
    /// `point`; ties go to the first index.
    pub fn closest_control_point(&self, point: Point) -> (r: Option<(usize, i64)>)
        requires
            self.bounds_wf(),
            point_ok(point),
        ensures
            r is Some <==> self.points@.len() > 0,
            r is Some ==> ctrl_min_at(self.points@, point, r->Some_0.0 as int, r->Some_0.1 as int),
    {
        closest_in(&self.points, point)
    }

    /// Index and squared distance of the auxiliary marker nearest to
    /// `point`; ties go to the first index.
    pub fn closest_tuesday(&self, point: Point) -> (r: Option<(usize, i64)>)
        requires
            self.bounds_wf(),
            point_ok(point),
        ensures
            r is Some <==> self.tuesdays@.len() > 0,
            r is Some ==> ctrl_min_at(self.tuesdays@, point, r->Some_0.0 as int, r->Some_0.1 as int),
    {
        closest_in(&self.tuesdays, point)
    }

    /// The nearest handle of either kind, with its squared distance.
    /// On an exact tie between a control point and a marker the marker
    /// wins.  A well-formed aggregate always has control points, so
    /// there is always a target.
    pub fn closest_handle(&self, point: Point) -> (r: (CurveHandle, i64))
        requires
            self.wf(),
            point_ok(point),
        ensures
            !(r.0 is NoTarget),
            r.0 is CtrlPt ==> ctrl_min_at(self.points@, point, r.0->CtrlPt_0 as int, r.1 as int)
                && (self.tuesdays@.len() > 0 ==> r.1 < min_dist(self.tuesdays@, point)),
            r.0 is Tuesday ==> self.tuesdays@.len() > 0
                && ctrl_min_at(self.tuesdays@, point, r.0->Tuesday_0 as int, r.1 as int)
                && r.1 <= min_dist(self.points@, point),
    {
        let pt = closest_in(&self.points, point);
        let tue = closest_in(&self.tuesdays, point);
        match (pt, tue) {
            (Some((h, hd)), Some((t, td))) => {
                if hd < td {
                    (CurveHandle::CtrlPt(h), hd)
                } else {
                    (CurveHandle::Tuesday(t), td)
                }
            },
            (Some((h, hd)), None) => (CurveHandle::CtrlPt(h), hd),
            (None, _) => {
                proof {
                    assert(false);
                }
                (CurveHandle::NoTarget, 0)
            },
        }
    }

    /// Squared distance of the nearest handle of either kind.
    pub open spec fn nearest_handle_dist(&self, p: Point) -> int {
        if self.tuesdays@.len() == 0 {
            min_dist(self.points@, p)
        } else if min_dist(self.points@, p) <= min_dist(self.tuesdays@, p) {
            min_dist(self.points@, p)
        } else {
            min_dist(self.tuesdays@, p)
        }
    }

    /// The nearest handle, downgraded to no target when its distance
    /// exceeds `grab_radius`.  Distances compare squared, so the radius
    /// is squared too.
    pub fn interactable_handle(&self, point: Point, grab_radius: i64) -> (r: CurveHandle)
        requires
            self.wf(),
            point_ok(point),
            0 <= grab_radius <= 0x4000_0000,
        ensures
            r is NoTarget <==> self.nearest_handle_dist(point) > grab_radius * grab_radius,
            r is CtrlPt ==> ctrl_min_at(
                self.points@,
                point,
                r->CtrlPt_0 as int,
                self.nearest_handle_dist(point),
            ) && (self.tuesdays@.len() > 0 ==> self.nearest_handle_dist(point) < min_dist(
                self.tuesdays@,
                point,
            )),
            r is Tuesday ==> self.tuesdays@.len() > 0 && ctrl_min_at(
                self.tuesdays@,
                point,
                r->Tuesday_0 as int,
                self.nearest_handle_dist(point),
            ) && self.nearest_handle_dist(point) <= min_dist(self.points@, point),
    {
        let (handle, d) = self.closest_handle(point);
        proof {
            crate::num::lemma_mul_bound(
                grab_radius as int,
                grab_radius as int,
                0x4000_0000,
                0x4000_0000,
            );
            assert(d == self.nearest_handle_dist(point));
        }
        if d <= grab_radius * grab_radius {
            handle
        } else {
            CurveHandle::NoTarget
        }
    }
}

/// The sequence `s` rotated right by `n` positions (left for negative
/// `n`): the element at index `i` comes from index `(i - n) mod len`.
pub open spec fn rotated(s: Seq<Point>, n: int) -> Seq<Point> {
    Seq::new(s.len(), |i: int| s[(i - n) % (s.len() as int)])
}

/// Splitting at `kl` and swapping the halves realises a rotation
/// whenever `kl + n` is a multiple of the length.
proof fn lemma_rotated_split(s: Seq<Point>, kl: int, n: int)
    requires
        s.len() >= 1,
        0 <= kl < s.len(),
        (kl + n) % (s.len() as int) == 0,
    ensures
        s.subrange(kl, s.len() as int) + s.subrange(0, kl) =~= rotated(s, n),
{
    let len = s.len() as int;
    let cat = s.subrange(kl, len) + s.subrange(0, kl);
    assert forall|i: int| 0 <= i < len implies cat[i] == rotated(s, n)[i] by {
        let q = (kl + n) / len;
        vstd::arithmetic::div_mod::lemma_fundamental_div_mod(kl + n, len);
        // i - n == (i + kl) - q * len, so both reduce alike modulo len
        vstd::arithmetic::mul::lemma_mul_unary_negation(len, q);
        assert(i - n == len * (-q) + (i + kl));
        vstd::arithmetic::div_mod::lemma_mod_multiples_vanish(-q, i + kl, len);
        if i < len - kl {
            vstd::arithmetic::div_mod::lemma_small_mod((i + kl) as nat, len as nat);
            assert(cat[i] == s[kl + i]);
        } else {
            vstd::arithmetic::div_mod::lemma_mod_sub_multiples_vanish(i + kl, len);
            vstd::arithmetic::div_mod::lemma_small_mod((i + kl - len) as nat, len as nat);
            assert(cat[i] == s[i + kl - len]);
        }
    }
}

impl CurveMap {
    /// Inserts `point` immediately after the first endpoint of the
    /// nearest segment and rebuilds the curve, returning the new
    /// point's index.  A well-formed aggregate always has a segment,
    /// so the insertion always succeeds.
    pub fn add_point(&mut self, point: Point) -> (r: Result<usize, AddPointError>)
        requires
            old(self).wf(),
            point_ok(point),
            old(self).points@.len() < MAX_POINTS,
        ensures
            r is Ok,
            ({
                let i = r->Ok_0;
                &&& 1 <= i <= old(self).points@.len()
                &&& seg_min_at(old(self).points@, point, i - 1)
                &&& final(self).points@ == old(self).points@.insert(i as int, point)
            }),
            final(self).tuesdays@ == old(self).tuesdays@,
            final(self).background@ == old(self).background@,
            final(self).size == old(self).size,
            final(self).wf(),
    {
        let seg = match self.closest_segment(point) {
            Some(seg) => seg,
            None => {
                proof {
                    assert(false);
                }
                return Err(AddPointError);
            },
        };
        let i = seg + 1;
        self.points.insert(i, point);
        self.rebuild_curve();
        Ok(i)
    }

    /// Cyclically rotates the control-point list right by `n`
    /// positions (left for negative `n`) and rebuilds the curve.  The
    /// shape is unchanged; only which point is index 0 moves.
    pub fn rotate_points(&mut self, n: isize)
        requires
            old(self).wf(),
        ensures
            final(self).points@ == rotated(old(self).points@, n as int),
            final(self).tuesdays@ == old(self).tuesdays@,
            final(self).background@ == old(self).background@,
            final(self).size == old(self).size,
            final(self).wf(),
    {
        let ghost opts = old(self).points@;
        let len = self.points.len();
        let mag_mod: usize = if n >= 0 {
            (n as usize) % len
        } else {
            let mag = -(n as i128);
            (mag % (len as i128)) as usize
        };
        let kl: usize = if n >= 0 {
            (len - mag_mod) % len
        } else {
            mag_mod
        };
        proof {
            let li = len as int;
            let ni = n as int;
            if n >= 0 {
                vstd::arithmetic::div_mod::lemma_fundamental_div_mod(ni, li);
                if mag_mod == 0 {
                    vstd::arithmetic::div_mod::lemma_mod_self_0(li);
                    assert(kl + ni == li * (ni / li) + 0);
                    vstd::arithmetic::div_mod::lemma_mod_multiples_vanish(ni / li, 0, li);
                    vstd::arithmetic::div_mod::lemma_small_mod(0nat, li as nat);
                } else {
                    vstd::arithmetic::div_mod::lemma_small_mod((li - mag_mod) as nat, li as nat);
                    assert(kl + ni == li * (ni / li) + li);
                    vstd::arithmetic::div_mod::lemma_mod_multiples_vanish(ni / li, li, li);
                    vstd::arithmetic::div_mod::lemma_mod_self_0(li);
                }
            } else {
                let q2 = (-ni) / li;
                vstd::arithmetic::div_mod::lemma_fundamental_div_mod(-ni, li);
                vstd::arithmetic::mul::lemma_mul_unary_negation(li, q2);
                assert(kl + ni == li * (-q2) + 0);
                vstd::arithmetic::div_mod::lemma_mod_multiples_vanish(-q2, 0, li);
                vstd::arithmetic::div_mod::lemma_small_mod(0nat, li as nat);
            }
            assert((kl + ni) % li == 0);
        }
        let tail = self.points.split_off(kl);
        let mut newv = tail;
        newv.append(&mut self.points);
        self.points = newv;
        proof {
            lemma_rotated_split(opts, kl as int, n as int);
            assert(self.points@ =~= rotated(opts, n as int));
            assert forall|i: int| 0 <= i < self.points@.len() implies point_ok(
                #[trigger] self.points@[i],
            ) by {
                let li = opts.len() as int;
                assert(self.points@[i] == opts[(i - n as int) % li]);
            }
        }
        self.rebuild_curve();
    }
}

/// The shift that recentring applies: minus the centre of the
/// bounding rectangle.
pub open spec fn recenter_delta(m: CurveMap) -> Point {
    let all = m.all_handles();
    Point {
        x: (-rdiv(min_x(all) + max_x(all), 2)) as i64,
        y: (-rdiv(min_y(all) + max_y(all), 2)) as i64,
    }
}

/// One coordinate scaled about centre `c`: the offset from `c` is
/// multiplied by `t / cur` and rounded to the nearest integer.
pub open spec fn scale_coord(v: int, c: int, cur: int, t: int) -> int {
    c + rdiv((v - c) * t, cur)
}

/// A point sequence scaled about `c`, per axis by `t / cur`.
pub open spec fn scaled(s: Seq<Point>, c: Point, cur: Point, t: Point) -> Seq<Point> {
    Seq::new(
        s.len(),
        |i: int| Point {
            x: scale_coord(s[i].x as int, c.x as int, cur.x as int, t.x as int) as i64,
            y: scale_coord(s[i].y as int, c.y as int, cur.y as int, t.y as int) as i64,
        },
    )
}

/// The arithmetic-mean centre of all control points and markers,
/// halves rounded up; what [`CurveMap::find_center`] returns.
pub open spec fn mean_center(m: CurveMap) -> Point {
    let all = m.all_handles();
    Point {
        x: rdiv(sum_x(all), all.len() as int) as i64,
        y: rdiv(sum_y(all), all.len() as int) as i64,
    }
}

/// Width of the bounding rectangle over control points and markers.
pub open spec fn bounding_size_x(m: CurveMap) -> int {
    max_x(m.all_handles()) - min_x(m.all_handles())
}

/// Height of the bounding rectangle over control points and markers.
pub open spec fn bounding_size_y(m: CurveMap) -> int {
    max_y(m.all_handles()) - min_y(m.all_handles())
}

/// The coordinate sums lie between length-times-min and
/// length-times-max.
proof fn lemma_sum_in_minmax(s: Seq<Point>)
    requires
        s.len() >= 1,
    ensures
        s.len() * min_x(s) <= sum_x(s) <= s.len() * max_x(s),
        s.len() * min_y(s) <= sum_y(s) <= s.len() * max_y(s),
    decreases s.len(),
{
    let len = s.len() as int;
    if s.len() == 1 {
        assert(s.drop_last().len() == 0);
        assert(sum_x(s.drop_last()) == 0);
        assert(sum_y(s.drop_last()) == 0);
        assert(sum_x(s) == s[0].x);
        assert(sum_y(s) == s[0].y);
        assert(len * min_x(s) == min_x(s)) by (nonlinear_arith)
            requires
                len == 1,
        ;
        assert(len * max_x(s) == max_x(s)) by (nonlinear_arith)
            requires
                len == 1,
        ;
        assert(len * min_y(s) == min_y(s)) by (nonlinear_arith)
            requires
                len == 1,
        ;
        assert(len * max_y(s) == max_y(s)) by (nonlinear_arith)
            requires
                len == 1,
        ;
    } else {
        let d = s.drop_last();
        lemma_sum_in_minmax(d);
        assert(len * min_x(s) <= sum_x(s)) by (nonlinear_arith)
            requires
                len == d.len() + 1,
                len >= 2,
                sum_x(s) == sum_x(d) + s.last().x,
                d.len() * min_x(d) <= sum_x(d),
                min_x(s) <= min_x(d),
                min_x(s) <= s.last().x,
        ;
        assert(sum_x(s) <= len * max_x(s)) by (nonlinear_arith)
            requires
                len == d.len() + 1,
                len >= 2,
                sum_x(s) == sum_x(d) + s.last().x,
                sum_x(d) <= d.len() * max_x(d),
                max_x(d) <= max_x(s),
                s.last().x <= max_x(s),
        ;
        assert(len * min_y(s) <= sum_y(s)) by (nonlinear_arith)
            requires
                len == d.len() + 1,
                len >= 2,
                sum_y(s) == sum_y(d) + s.last().y,
                d.len() * min_y(d) <= sum_y(d),
                min_y(s) <= min_y(d),
                min_y(s) <= s.last().y,
        ;
        assert(sum_y(s) <= len * max_y(s)) by (nonlinear_arith)
            requires
                len == d.len() + 1,
                len >= 2,
                sum_y(s) == sum_y(d) + s.last().y,
                sum_y(d) <= d.len() * max_y(d),
                max_y(d) <= max_y(s),
                s.last().y <= max_y(s),
        ;
    }
}

/// Applying a monotone map to every x coordinate maps the least and
/// greatest x coordinates through the same function.
proof fn lemma_min_map_x(s: Seq<Point>, s2: Seq<Point>, f: spec_fn(int) -> int)
    requires
        s.len() == s2.len(),
        s.len() >= 1,
        forall|i: int| 0 <= i < s.len() ==> (#[trigger] s2[i]).x == f(s[i].x as int),
        forall|a: int, b: int| a <= b ==> #[trigger] f(a) <= #[trigger] f(b),
    ensures
        min_x(s2) == f(min_x(s)),
        max_x(s2) == f(max_x(s)),
    decreases s.len(),
{
    if s.len() > 1 {
        let d = s.drop_last();
        let d2 = s2.drop_last();
        assert(forall|i: int| 0 <= i < d.len() ==> (#[trigger] d2[i]).x == f(d[i].x as int));
        lemma_min_map_x(d, d2, f);
        assert(s2.last().x == f(s.last().x as int));
        if min_x(d) <= s.last().x {
            assert(f(min_x(d)) <= f(s.last().x as int));
        } else {
            assert(f(s.last().x as int) <= f(min_x(d)));
        }
        if max_x(d) >= s.last().x {
            assert(f(s.last().x as int) <= f(max_x(d)));
        } else {
            assert(f(max_x(d)) <= f(s.last().x as int));
        }
    }
}

/// Applying a monotone map to every y coordinate maps the least and
/// greatest y coordinates through the same function.
proof fn lemma_min_map_y(s: Seq<Point>, s2: Seq<Point>, f: spec_fn(int) -> int)
    requires
        s.len() == s2.len(),
        s.len() >= 1,
        forall|i: int| 0 <= i < s.len() ==> (#[trigger] s2[i]).y == f(s[i].y as int),
        forall|a: int, b: int| a <= b ==> #[trigger] f(a) <= #[trigger] f(b),
    ensures
        min_y(s2) == f(min_y(s)),
        max_y(s2) == f(max_y(s)),
    decreases s.len(),
{
    if s.len() > 1 {
        let d = s.drop_last();
        let d2 = s2.drop_last();
        assert(forall|i: int| 0 <= i < d.len() ==> (#[trigger] d2[i]).y == f(d[i].y as int));
        lemma_min_map_y(d, d2, f);
        assert(s2.last().y == f(s.last().y as int));
        if min_y(d) <= s.last().y {
            assert(f(min_y(d)) <= f(s.last().y as int));
        } else {
            assert(f(s.last().y as int) <= f(min_y(d)));
        }
        if max_y(d) >= s.last().y {
            assert(f(s.last().y as int) <= f(max_y(d)));
        } else {
            assert(f(max_y(d)) <= f(s.last().y as int));
        }
    }
}

impl CurveMap {
    /// Translates the whole aggregate so the centre of its bounding
    /// rectangle moves to the origin.
    pub fn recenter(&mut self)
        requires
            old(self).wf(),
        ensures
            final(self).points@ == translated(old(self).points@, recenter_delta(*old(self))),
            final(self).tuesdays@ == translated(old(self).tuesdays@, recenter_delta(*old(self))),
            final(self).background@ == old(self).background@,
            final(self).size == old(self).size,
            final(self).wf(),
    {
        let ghost all = self.all_handles();
        let rect = self.bounding_rect();
        let c = rect.center();
        let delta = Point { x: -c.x, y: -c.y };
        proof {
            assert(delta == recenter_delta(*old(self)));
            crate::num::lemma_rdiv_nearest(min_x(all) + max_x(all), 2);
            crate::num::lemma_rdiv_nearest(min_y(all) + max_y(all), 2);
            assert forall|i: int| 0 <= i < all.len() implies crate::geom::coord_ok(
                (#[trigger] all[i]).x + delta.x,
            ) && crate::geom::coord_ok(all[i].y + delta.y) by {
                lemma_minmax_contains(all, i);
            }
            assert forall|i: int| 0 <= i < self.points@.len() implies crate::geom::coord_ok(
                (#[trigger] self.points@[i]).x + delta.x,
            ) && crate::geom::coord_ok(self.points@[i].y + delta.y) by {
                assert(all[i] == self.points@[i]);
            }
            assert forall|i: int| 0 <= i < self.tuesdays@.len() implies crate::geom::coord_ok(
                (#[trigger] self.tuesdays@[i]).x + delta.x,
            ) && crate::geom::coord_ok(self.tuesdays@[i].y + delta.y) by {
                assert(all[self.points@.len() + i] == self.tuesdays@[i]);
            }
        }
        self.translate(delta);
    }
}

/// The scaled coordinate stays within `t` of the centre.
proof fn lemma_scale_coord_range(v: int, c: int, cur: int, t: int)
    requires
        1 <= cur,
        1 <= t,
        -cur <= v - c <= cur,
    ensures
        c - t <= scale_coord(v, c, cur, t) <= c + t,
{
    crate::num::lemma_mul_le_mono(-cur, v - c, t);
    crate::num::lemma_mul_le_mono(v - c, cur, t);
    assert((-t) * cur == (-cur) * t) by (nonlinear_arith);
    assert(t * cur == cur * t) by (nonlinear_arith);
    crate::num::lemma_rdiv_between((v - c) * t, cur, -t, t);
}

/// Scales one coordinate about `c` by `t / cur`, rounding to the
/// nearest integer.
fn scale_point_coord(v: i64, c: i64, cur: i64, t: i64) -> (r: i64)
    requires
        crate::geom::coord_ok(v as int),
        crate::geom::coord_ok(c as int),
        1 <= cur <= 0x100000,
        1 <= t <= 0x80000,
        -cur <= v - c <= cur,
        crate::geom::coord_ok(c + t),
        crate::geom::coord_ok(c - t),
    ensures
        r == scale_coord(v as int, c as int, cur as int, t as int),
        crate::geom::coord_ok(r as int),
{
    proof {
        crate::num::lemma_mul_bound((v - c) as int, t as int, 0x100000, 0x80000);
        lemma_scale_coord_range(v as int, c as int, cur as int, t as int);
    }
    let num = ((v - c) as i128) * (t as i128);
    let q = crate::num::rdiv_i128(num, cur as i128);
    c + (q as i64)
}

impl CurveMap {
    /// Scales the aggregate about its mean centre so the bounding
    /// rectangle's extent becomes exactly `size` on each axis, then
    /// rebuilds the curve.  The display-size field is untouched.
    pub fn scale_curve_to(&mut self, size: Point)
        requires
            old(self).wf(),
            1 <= size.x,
            1 <= size.y,
            bounding_size_x(*old(self)) >= 1,
            bounding_size_y(*old(self)) >= 1,
            mean_center(*old(self)).x + size.x <= 0x80000,
            mean_center(*old(self)).x - size.x >= -0x80000,
            mean_center(*old(self)).y + size.y <= 0x80000,
            mean_center(*old(self)).y - size.y >= -0x80000,
        ensures
            ({
                let c = mean_center(*old(self));
                let cur = Point {
                    x: bounding_size_x(*old(self)) as i64,
                    y: bounding_size_y(*old(self)) as i64,
                };
                &&& final(self).points@ == scaled(old(self).points@, c, cur, size)
                &&& final(self).tuesdays@ == scaled(old(self).tuesdays@, c, cur, size)
            }),
            final(self).background@ == old(self).background@,
            final(self).size == old(self).size,
            final(self).wf(),
            bounding_size_x(*final(self)) == size.x,
            bounding_size_y(*final(self)) == size.y,
    {
        let ghost orig = *old(self);
        let ghost all0 = self.all_handles();
        let ghost opts = self.points@;
        let ghost otues = self.tuesdays@;
        let c = self.find_center();
        let rect = self.bounding_rect();
        let cur = rect.size();
        proof {
            assert(c == mean_center(orig));
            lemma_sum_in_minmax(all0);
            let li = all0.len() as int;
            assert(min_x(all0) * li == li * min_x(all0)) by (nonlinear_arith);
            assert(max_x(all0) * li == li * max_x(all0)) by (nonlinear_arith);
            assert(min_y(all0) * li == li * min_y(all0)) by (nonlinear_arith);
            assert(max_y(all0) * li == li * max_y(all0)) by (nonlinear_arith);
            crate::num::lemma_rdiv_between(sum_x(all0), li, min_x(all0), max_x(all0));
            crate::num::lemma_rdiv_between(sum_y(all0), li, min_y(all0), max_y(all0));
            assert(min_x(all0) <= c.x <= max_x(all0));
            assert(min_y(all0) <= c.y <= max_y(all0));
        }
        let n = self.points.len();
        let mut i: usize = 0;
        while i < n
            invariant
                0 <= i <= n,
                n == self.points@.len(),
                self.points@.len() == opts.len(),
                points_ok(opts),
                self.tuesdays@ == otues,
                self.background@ == orig.background@,
                self.size == orig.size,
                all0 == opts + otues,
                c == mean_center(orig),
                crate::geom::point_ok(c),
                min_x(all0) <= c.x <= max_x(all0),
                min_y(all0) <= c.y <= max_y(all0),
                cur.x == max_x(all0) - min_x(all0),
                cur.y == max_y(all0) - min_y(all0),
                1 <= cur.x <= 0x100000,
                1 <= cur.y <= 0x100000,
                1 <= size.x,
                1 <= size.y,
                crate::geom::coord_ok(c.x + size.x),
                crate::geom::coord_ok(c.x - size.x),
                crate::geom::coord_ok(c.y + size.y),
                crate::geom::coord_ok(c.y - size.y),
                forall|j: int| 0 <= j < i ==> self.points@[j] == scaled(opts, c, cur, size)[j],
                forall|j: int| i <= j < n ==> self.points@[j] == opts[j],
                forall|j: int| 0 <= j < i ==> crate::geom::point_ok(#[trigger] self.points@[j]),
            decreases n - i,
        {
            let p = self.points[i];
            proof {
                assert(p == opts[i as int]);
                assert(all0[i as int] == opts[i as int]);
                lemma_minmax_contains(all0, i as int);
            }
            let nx = scale_point_coord(p.x, c.x, cur.x, size.x);
            let ny = scale_point_coord(p.y, c.y, cur.y, size.y);
            self.points.set(i, Point { x: nx, y: ny });
            i = i + 1;
        }
        proof {
            assert(self.points@ =~= scaled(opts, c, cur, size));
        }
        let m = self.tuesdays.len();
        let mut j: usize = 0;
        while j < m
            invariant
                0 <= j <= m,
                m == self.tuesdays@.len(),
                self.tuesdays@.len() == otues.len(),
                points_ok(otues),
                self.points@ == scaled(opts, c, cur, size),
                points_ok(self.points@),
                2 <= opts.len() <= MAX_POINTS,
                otues.len() <= MAX_POINTS,
                self.background@ == orig.background@,
                self.size == orig.size,
                all0 == opts + otues,
                c == mean_center(orig),
                crate::geom::point_ok(c),
                min_x(all0) <= c.x <= max_x(all0),
                min_y(all0) <= c.y <= max_y(all0),
                cur.x == max_x(all0) - min_x(all0),
                cur.y == max_y(all0) - min_y(all0),
                1 <= cur.x <= 0x100000,
                1 <= cur.y <= 0x100000,
                1 <= size.x,
                1 <= size.y,
                crate::geom::coord_ok(c.x + size.x),
                crate::geom::coord_ok(c.x - size.x),
                crate::geom::coord_ok(c.y + size.y),
                crate::geom::coord_ok(c.y - size.y),
                forall|k: int| 0 <= k < j ==> self.tuesdays@[k] == scaled(otues, c, cur, size)[k],
                forall|k: int| j <= k < m ==> self.tuesdays@[k] == otues[k],
                forall|k: int| 0 <= k < j ==> crate::geom::point_ok(#[trigger] self.tuesdays@[k]),
            decreases m - j,
        {
            let p = self.tuesdays[j];
            proof {
                assert(p == otues[j as int]);
                assert(all0[opts.len() + j] == otues[j as int]);
                lemma_minmax_contains(all0, opts.len() + j as int);
            }
            let nx = scale_point_coord(p.x, c.x, cur.x, size.x);
            let ny = scale_point_coord(p.y, c.y, cur.y, size.y);
            self.tuesdays.set(j, Point { x: nx, y: ny });
            j = j + 1;
        }
        proof {
            assert(self.tuesdays@ =~= scaled(otues, c, cur, size));
            assert(points_ok(self.tuesdays@));
            let all_new = self.points@ + self.tuesdays@;
            let fx = |v: int| scale_coord(v, c.x as int, cur.x as int, size.x as int);
            let fy = |v: int| scale_coord(v, c.y as int, cur.y as int, size.y as int);
            assert forall|a: int, b: int| a <= b implies #[trigger] fx(a) <= #[trigger] fx(b) by {
                crate::num::lemma_mul_le_mono(a - c.x, b - c.x, size.x as int);
                crate::num::lemma_rdiv_ordered(
                    (a - c.x) * (size.x as int),
                    (b - c.x) * (size.x as int),
                    cur.x as int,
                );
            }
            assert forall|a: int, b: int| a <= b implies #[trigger] fy(a) <= #[trigger] fy(b) by {
                crate::num::lemma_mul_le_mono(a - c.y, b - c.y, size.y as int);
                crate::num::lemma_rdiv_ordered(
                    (a - c.y) * (size.y as int),
                    (b - c.y) * (size.y as int),
                    cur.y as int,
                );
            }
            assert forall|k: int| 0 <= k < all0.len() implies (#[trigger] all_new[k]).x == fx(
                all0[k].x as int,
            ) && all_new[k].y == fy(all0[k].y as int) by {
                lemma_minmax_contains(all0, k);
                if k < opts.len() {
                    assert(all_new[k] == scaled(opts, c, cur, size)[k]);
                } else {
                    assert(all_new[k] == scaled(otues, c, cur, size)[k - opts.len()]);
                }
                lemma_scale_coord_range(all0[k].x as int, c.x as int, cur.x as int, size.x as int);
                lemma_scale_coord_range(all0[k].y as int, c.y as int, cur.y as int, size.y as int);
            }
            lemma_min_map_x(all0, all_new, fx);
            lemma_min_map_y(all0, all_new, fy);
            let ax = (min_x(all0) - c.x) * (size.x as int);
            assert((max_x(all0) - c.x) * (size.x as int) == ax + (size.x as int) * (cur.x as int))
                by (nonlinear_arith)
                requires
                    cur.x == max_x(all0) - min_x(all0),
                    ax == (min_x(all0) - c.x) * (size.x as int),
            ;
            crate::num::lemma_rdiv_shift(ax, cur.x as int, size.x as int);
            let ay = (min_y(all0) - c.y) * (size.y as int);
            assert((max_y(all0) - c.y) * (size.y as int) == ay + (size.y as int) * (cur.y as int))
                by (nonlinear_arith)
                requires
                    cur.y == max_y(all0) - min_y(all0),
                    ay == (min_y(all0) - c.y) * (size.y as int),
            ;
            crate::num::lemma_rdiv_shift(ay, cur.y as int, size.y as int);
            assert(max_x(all_new) - min_x(all_new) == size.x);
            assert(max_y(all_new) - min_y(all_new) == size.y);
        }
        self.rebuild_curve();
    }
}

/// Law: removing the control point at `i` and re-inserting the
/// removed position at the same index reproduces the original polygon
/// exactly.  The derived curve is a function of the polygon alone, so
/// it is reproduced as well (see `lemma_curve_determined`).
pub proof fn lemma_remove_insert_roundtrip(s: Seq<Point>, i: int)
    requires
        0 <= i < s.len(),
    ensures
        s.remove(i).insert(i, s[i]) == s,
{
    assert(s.remove(i).insert(i, s[i]) =~= s);
}

/// Law: rotating the control-point list by `n` and then by `-n`
/// restores the original order exactly, for any integer `n`.
pub proof fn lemma_rotate_roundtrip(s: Seq<Point>, n: int)
    requires
        s.len() >= 1,
    ensures
        rotated(rotated(s, n), -n) == s,
{
    let len = s.len() as int;
    assert forall|i: int| 0 <= i < len implies rotated(rotated(s, n), -n)[i] == s[i] by {
        let r = (i + n) % len;
        vstd::arithmetic::div_mod::lemma_fundamental_div_mod(i + n, len);
        let q = (i + n) / len;
        vstd::arithmetic::mul::lemma_mul_unary_negation(len, q);
        assert(r - n == len * (-q) + i);
        vstd::arithmetic::div_mod::lemma_mod_multiples_vanish(-q, i, len);
        vstd::arithmetic::div_mod::lemma_small_mod(i as nat, len as nat);
        assert(rotated(s, n)[(i - (-n)) % len] == s[((i + n) % len - n) % len]);
    }
    assert(rotated(rotated(s, n), -n) =~= s);
}

/// Bytes of the default backing-image path, `bg.png`.
pub open spec fn default_background_bytes() -> Seq<u8> {
    seq![98u8, 103u8, 46u8, 112u8, 110u8, 103u8]
}

/// Builds the default backing-image path.
fn default_background() -> (r: Vec<u8>)
    ensures
        r@ == default_background_bytes(),
        path_ok(r@),
{
    let mut v: Vec<u8> = Vec::new();
    v.push(98);
    v.push(103);
    v.push(46);
    v.push(112);
    v.push(110);
    v.push(103);
    proof {
        assert(v@ =~= default_background_bytes());
    }
    v
}

impl Default for CurveMap {
    /// The default aggregate: a square of four control points, no
    /// markers, the default backing image and display size.
    fn default() -> (m: CurveMap)
        ensures
            m.wf(),
            m.points@ == seq![
                Point { x: -100i64, y: 100i64 },
                Point { x: 100i64, y: 100i64 },
                Point { x: 100i64, y: -100i64 },
                Point { x: -100i64, y: -100i64 },
            ],
            m.tuesdays@.len() == 0,
            m.background@ == default_background_bytes(),
            m.size == (Point { x: DEFAULT_SIZE, y: DEFAULT_SIZE }),
    {
        let mut pts: Vec<Point> = Vec::new();
        pts.push(Point { x: -100, y: 100 });
        pts.push(Point { x: 100, y: 100 });
        pts.push(Point { x: 100, y: -100 });
        pts.push(Point { x: -100, y: -100 });
        proof {
            assert(pts@ =~= seq![
                Point { x: -100i64, y: 100i64 },
                Point { x: 100i64, y: 100i64 },
                Point { x: 100i64, y: -100i64 },
                Point { x: -100i64, y: -100i64 },
            ]);
        }
        match CurveMap::new(pts) {
            Ok(m) => m,
            Err(_) => {
                proof {
                    assert(false);
                }
                CurveMap {
                    curve: CubicCurve { pieces: Vec::new() },
                    points: Vec::new(),
                    tuesdays: Vec::new(),
                    background: Vec::new(),
                    size: Point { x: 0, y: 0 },
                }
            },
        }
    }
}

} // verus!
