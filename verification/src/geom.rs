//! Plane geometry over exact fixed-point coordinates.
//!
//! A coordinate is an `i64` holding millionths of a user unit, kept within
//! `[-MAX_COORD, MAX_COORD]`.  Every operation clamps back into that range,
//! so all geometry here is total and exact: no rounding drift, no overflow.

use vstd::prelude::*;

verus! {

/// Millionths of a user unit per user unit.
pub const SCALE: i64 = 1_000_000;

/// Largest coordinate magnitude, in millionths of a unit (one billion units).
pub const MAX_COORD: i64 = 1_000_000_000_000_000;

/// Clamp a mathematical value into the coordinate range.
pub open spec fn clamp_coord(v: int) -> int {
    if v > MAX_COORD as int {
        MAX_COORD as int
    } else if v < -(MAX_COORD as int) {
        -(MAX_COORD as int)
    } else {
        v
    }
}

/// Whether a value lies in the coordinate range.
pub open spec fn coord_in_range(v: int) -> bool {
    -(MAX_COORD as int) <= v <= MAX_COORD as int
}

/// A point of the plane; both fields are coordinates in millionths of a unit.
#[derive(Debug, PartialEq, Eq, Structural, Clone, Copy)]
pub struct Point(pub i64, pub i64);

impl DeepView for Point {
    type V = Point;

    open spec fn deep_view(&self) -> Point {
        *self
    }
}

/// For point vectors the deep view and the view coincide.
pub broadcast proof fn lemma_vec_point_deep_view(v: Vec<Point>)
    ensures
        #[trigger] v.deep_view() == v@,
{
    assert(v.deep_view() =~= v@);
}

/// Coordinate-range sum of two values, as executable code.
pub fn sat_add(a: i64, b: i64) -> (r: i64)
    ensures
        r as int == clamp_coord(a as int + b as int),
{
    let s: i128 = a as i128 + b as i128;
    if s > MAX_COORD as i128 {
        MAX_COORD
    } else if s < -MAX_COORD as i128 {
        -MAX_COORD
    } else {
        s as i64
    }
}

/// Componentwise clamped translation of `a` by `d`.
pub open spec fn spec_translate(a: Point, d: Point) -> Point {
    Point(clamp_coord(a.0 + d.0) as i64, clamp_coord(a.1 + d.1) as i64)
}

pub open spec fn spec_pt_min(a: Point, b: Point) -> Point {
    Point(if a.0 <= b.0 { a.0 } else { b.0 }, if a.1 <= b.1 { a.1 } else { b.1 })
}

pub open spec fn spec_pt_max(a: Point, b: Point) -> Point {
    Point(if a.0 >= b.0 { a.0 } else { b.0 }, if a.1 >= b.1 { a.1 } else { b.1 })
}

impl Point {
    /// Move this point by the offset `to`, clamping into the coordinate range.
    pub fn translate(self, to: Point) -> (r: Point)
        ensures
            r == spec_translate(self, to),
    {
        Point(sat_add(self.0, to.0), sat_add(self.1, to.1))
    }

    /// Componentwise minimum.
    pub fn min(self, other: Point) -> (r: Point)
        ensures
            r == spec_pt_min(self, other),
    {
        Point(
            if self.0 <= other.0 { self.0 } else { other.0 },
            if self.1 <= other.1 { self.1 } else { other.1 },
        )
    }

    /// Componentwise maximum.
    pub fn max(self, other: Point) -> (r: Point)
        ensures
            r == spec_pt_max(self, other),
    {
        Point(
            if self.0 >= other.0 { self.0 } else { other.0 },
            if self.1 >= other.1 { self.1 } else { other.1 },
        )
    }
}

/// An axis-aligned rectangle: minimum corner, then maximum corner.
#[derive(Debug, PartialEq, Eq, Structural, Clone, Copy)]
pub struct BoundingBox(pub Point, pub Point);

/// The identity element of box aggregation: an impossible box whose minimum
/// corner sits at the largest representable point and vice versa.
pub open spec fn degenerate_box() -> BoundingBox {
    BoundingBox(Point(i64::MAX, i64::MAX), Point(i64::MIN, i64::MIN))
}

/// Union of two boxes: componentwise minimum of minima, maximum of maxima.
pub open spec fn spec_box_union(a: BoundingBox, b: BoundingBox) -> BoundingBox {
    BoundingBox(spec_pt_min(a.0, b.0), spec_pt_max(a.1, b.1))
}

/// Box around a point sequence: fold of `min`/`max` from the degenerate box.
pub open spec fn spec_points_bounding(s: Seq<Point>) -> BoundingBox
    decreases s.len(),
{
    if s.len() == 0 {
        degenerate_box()
    } else {
        let b = spec_points_bounding(s.drop_last());
        BoundingBox(spec_pt_min(b.0, s.last()), spec_pt_max(b.1, s.last()))
    }
}

/// Rectangle rendering of a box: origin, then extent per axis.
pub open spec fn spec_to_rect(b: BoundingBox) -> [i64; 4] {
    [b.0.0, b.0.1, sat_diff(b.1.0, b.0.0), sat_diff(b.1.1, b.0.1)]
}

/// Difference of two coordinates, clamped into `i64`.
pub open spec fn sat_diff(a: i64, b: i64) -> i64 {
    if a - b > i64::MAX as int {
        i64::MAX
    } else if a - b < i64::MIN as int {
        i64::MIN
    } else {
        (a - b) as i64
    }
}

/// Executable clamped difference.
pub fn sat_sub_i64(a: i64, b: i64) -> (r: i64)
    ensures
        r == sat_diff(a, b),
{
    let d: i128 = a as i128 - b as i128;
    if d > i64::MAX as i128 {
        i64::MAX
    } else if d < i64::MIN as i128 {
        i64::MIN
    } else {
        d as i64
    }
}

impl BoundingBox {
    /// The box as `[x, y, extent along x, extent along y]`.
    pub fn to_rect(&self) -> (r: [i64; 4])
        ensures
            r == spec_to_rect(*self),
    {
        let p1 = self.0;
        let p2 = self.1;
        [p1.0, p1.1, sat_sub_i64(p2.0, p1.0), sat_sub_i64(p2.1, p1.1)]
    }

    /// The identity element of box aggregation.
    pub fn degenerate() -> (r: BoundingBox)
        ensures
            r == degenerate_box(),
    {
        BoundingBox(Point(i64::MAX, i64::MAX), Point(i64::MIN, i64::MIN))
    }
}

/// Anything with an axis-aligned bounding box.
pub trait Bounding {
    /// The box this value's geometry occupies.
    spec fn spec_bounding(&self) -> BoundingBox;

    /// Compute the box; it must agree with the specification.
    fn bounding(&self) -> (r: BoundingBox)
        ensures
            r == self.spec_bounding(),
    ;
}

impl Bounding for BoundingBox {
    open spec fn spec_bounding(&self) -> BoundingBox {
        *self
    }

    fn bounding(&self) -> (r: BoundingBox) {
        *self
    }
}

impl<T: Bounding> Bounding for (T, T) {
    open spec fn spec_bounding(&self) -> BoundingBox {
        spec_box_union(self.0.spec_bounding(), self.1.spec_bounding())
    }

    fn bounding(&self) -> (r: BoundingBox) {
        let b1 = self.0.bounding();
        let b2 = self.1.bounding();
        BoundingBox(b1.0.min(b2.0), b1.1.max(b2.1))
    }
}

/// Box aggregation over a sequence, folded left from the degenerate box.
pub open spec fn spec_seq_bounding<T: Bounding>(s: Seq<T>) -> BoundingBox
    decreases s.len(),
{
    if s.len() == 0 {
        degenerate_box()
    } else {
        spec_box_union(spec_seq_bounding(s.drop_last()), s.last().spec_bounding())
    }
}

impl<T: Bounding> Bounding for Vec<T> {
    open spec fn spec_bounding(&self) -> BoundingBox {
        spec_seq_bounding(self@)
    }

    fn bounding(&self) -> (r: BoundingBox) {
        let mut acc = BoundingBox::degenerate();
        let mut i: usize = 0;
        while i < self.len()
            invariant
                i <= self.len(),
                acc == spec_seq_bounding(self@.subrange(0, i as int)),
            decreases self.len() - i,
        {
            let b = self[i].bounding();
            acc = BoundingBox(acc.0.min(b.0), acc.1.max(b.1));
            proof {
                assert(self@.subrange(0, i + 1 as int).drop_last() =~= self@.subrange(
                    0,
                    i as int,
                ));
                assert(self@.subrange(0, i + 1 as int).last() == self@[i as int]);
            }
            i = i + 1;
        }
        proof {
            assert(self@.subrange(0, self@.len() as int) =~= self@);
        }
        acc
    }
}

/// A flattened subpath: a resolved, absolute point list with a closed flag.
#[derive(Debug, PartialEq, Clone)]
pub struct Polygon {
    pub closed: bool,
    pub points: Vec<Point>,
}

/// Mathematical shadow of `Polygon`.
pub struct SpecPolygon {
    pub closed: bool,
    pub points: Seq<Point>,
}

impl View for Polygon {
    type V = SpecPolygon;

    open spec fn view(&self) -> SpecPolygon {
        SpecPolygon { closed: self.closed, points: self.points@ }
    }
}

impl DeepView for Polygon {
    type V = SpecPolygon;

    open spec fn deep_view(&self) -> SpecPolygon {
        self@
    }
}

/// What `Polygon::from` builds: the point list is closed exactly when its
/// first and last points coincide, and then the duplicate last point is
/// dropped.
pub open spec fn spec_polygon_from(points: Seq<Point>) -> SpecPolygon {
    let closed = points.len() == 0 || points[0] == points[points.len() - 1];
    SpecPolygon {
        closed,
        points: if closed && points.len() > 0 {
            points.drop_last()
        } else {
            points
        },
    }
}

impl Polygon {
    /// Seal a point list into a polygon, detecting a closed ring.
    pub fn from(points: Vec<Point>) -> (r: Polygon)
        ensures
            r@ == spec_polygon_from(points@),
    {
        let mut points = points;
        let closed = points.len() == 0 || points[0] == points[points.len() - 1];
        if closed && points.len() > 0 {
            points.pop();
        }
        Polygon { closed, points }
    }

    /// Translate every point by `(dx, dy)`, clamped into the coordinate range.
    pub fn translate(&mut self, dx: i64, dy: i64)
        ensures
            final(self).closed == old(self).closed,
            final(self).points@ == old(self).points@.map_values(
                |p: Point| spec_translate(p, Point(dx, dy)),
            ),
    {
        let mut i: usize = 0;
        while i < self.points.len()
            invariant
                i <= self.points.len(),
                self.closed == old(self).closed,
                self.points@.len() == old(self).points@.len(),
                forall|j: int|
                    0 <= j < i ==> self.points@[j] == spec_translate(
                        old(self).points@[j],
                        Point(dx, dy),
                    ),
                forall|j: int| i <= j < self.points@.len() ==> self.points@[j] == old(
                    self,
                ).points@[j],
            decreases self.points.len() - i,
        {
            let p = self.points[i];
            self.points.set(i, p.translate(Point(dx, dy)));
            proof {
                assert(self.points@[i as int] == spec_translate(
                    old(self).points@[i as int],
                    Point(dx, dy),
                ));
            }
            i = i + 1;
        }
        proof {
            assert(self.points@ =~= old(self).points@.map_values(
                |p: Point| spec_translate(p, Point(dx, dy)),
            ));
        }
    }
}

impl Bounding for Polygon {
    open spec fn spec_bounding(&self) -> BoundingBox {
        spec_points_bounding(self.points@)
    }

    fn bounding(&self) -> (r: BoundingBox) {
        let mut min = Point(i64::MAX, i64::MAX);
        let mut max = Point(i64::MIN, i64::MIN);
        let mut i: usize = 0;
        while i < self.points.len()
            invariant
                i <= self.points.len(),
                BoundingBox(min, max) == spec_points_bounding(self.points@.subrange(0, i as int)),
            decreases self.points.len() - i,
        {
            let p = self.points[i];
            min = min.min(p);
            max = max.max(p);
            proof {
                assert(self.points@.subrange(0, i + 1 as int).drop_last() =~= self@.points.subrange(
                    0,
                    i as int,
                ));
            }
            i = i + 1;
        }
        proof {
            assert(self.points@.subrange(0, self.points@.len() as int) =~= self.points@);
        }
        BoundingBox(min, max)
    }
}

/// Once any point has been folded in, a point bounding box is a real
/// rectangle: its minimum corner lies at or below its maximum corner on both
/// axes.
pub proof fn lemma_points_bounding_ordered(s: Seq<Point>)
    requires
        s.len() > 0,
    ensures
        spec_points_bounding(s).0.0 <= spec_points_bounding(s).1.0,
        spec_points_bounding(s).0.1 <= spec_points_bounding(s).1.1,
    decreases s.len(),
{
    if s.len() > 1 {
        lemma_points_bounding_ordered(s.drop_last());
    }
}

/// Aggregating an empty sequence yields the degenerate box.
pub proof fn lemma_bounding_empty<T: Bounding>()
    ensures
        spec_seq_bounding(Seq::<T>::empty()) == degenerate_box(),
{
}

/// The degenerate box is the identity of box union, on either side.
pub proof fn lemma_union_degenerate_identity(b: BoundingBox)
    ensures
        spec_box_union(degenerate_box(), b) == b,
        spec_box_union(b, degenerate_box()) == b,
{
    assert(spec_box_union(degenerate_box(), b) == BoundingBox(b.0, b.1));
    assert(b == BoundingBox(b.0, b.1));
    assert(spec_box_union(b, degenerate_box()) == BoundingBox(b.0, b.1));
}

} // verus!
