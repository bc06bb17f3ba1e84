//! Bounding volume primitives and their pairwise overlap tests.

use crate::types::Vector2;
use vstd::prelude::*;

verus! {

/// Something that can be tested for overlap against a `T`.
pub trait Collidable<T> {
    /// Whether `self` and `other` touch or overlap.
    fn collides(&self, other: &T) -> bool;
}

/// Something that can be enclosed in a circle for spatial partitioning.
pub trait Delimitable {
    /// The circle that stands for `self` in the partitioning structure.
    fn bounding_circle(&self) -> Circle;
}

/// The square of an integer.
pub open spec fn square(v: int) -> int {
    v * v
}

/// How far `p` lies outside the closed interval `[low, high]`, zero inside it.
pub open spec fn axis_gap(p: int, low: int, high: int) -> int {
    if p < low {
        low - p
    } else if p > high {
        p - high
    } else {
        0
    }
}

/// The squared distance from `p` to the nearest point of `b`.
pub open spec fn sqdist_spec(p: Vector2, b: AABB) -> int {
    square(axis_gap(p.x as int, b.min_x(), b.max_x())) + square(
        axis_gap(p.y as int, b.min_y(), b.max_y()),
    )
}

proof fn lemma_square_bound(v: int, bound: int)
    requires
        -bound <= v <= bound,
    ensures
        0 <= square(v) <= square(bound),
{
    assert(0 <= v * v <= bound * bound) by (nonlinear_arith)
        requires
            -bound <= v <= bound,
    ;
}

/// An axis-aligned box, given by its center and its two half-sizes.
#[derive(Debug, Clone, Copy)]
pub struct AABB {
    pub center: Vector2,
    pub halfws: [u32; 2],
}

impl AABB {
    /// The least x coordinate covered by the box.
    pub open spec fn min_x(self) -> int {
        self.center.x - self.halfws[0]
    }

    /// The greatest x coordinate covered by the box.
    pub open spec fn max_x(self) -> int {
        self.center.x + self.halfws[0]
    }

    /// The least y coordinate covered by the box.
    pub open spec fn min_y(self) -> int {
        self.center.y - self.halfws[1]
    }

    /// The greatest y coordinate covered by the box.
    pub open spec fn max_y(self) -> int {
        self.center.y + self.halfws[1]
    }

    /// Whether both corners of the box are representable points.
    pub open spec fn representable(self) -> bool {
        &&& i32::MIN <= self.min_x()
        &&& self.max_x() <= i32::MAX
        &&& i32::MIN <= self.min_y()
        &&& self.max_y() <= i32::MAX
    }

    /// The radius of the bounding circle: the two half-sizes added up,
    /// which is no less than the way from the center to a corner. Where the
    /// sum is greater than the greatest radius, it is that radius.
    pub open spec fn bounding_radius(self) -> int {
        if self.halfws[0] + self.halfws[1] <= u32::MAX {
            self.halfws[0] + self.halfws[1]
        } else {
            u32::MAX as int
        }
    }

    /// Whether this box and `other` share a point: their centers are no
    /// further apart on either axis than the half-sizes on that axis add up to.
    pub open spec fn overlaps(self, other: AABB) -> bool {
        &&& vstd::math::abs(self.center.x - other.center.x) <= self.halfws[0] + other.halfws[0]
        &&& vstd::math::abs(self.center.y - other.center.y) <= self.halfws[1] + other.halfws[1]
    }

    /// Tells whether both corners of the box are representable points.
    pub fn is_representable(&self) -> (ok: bool)
        ensures
            ok == self.representable(),
    {
        let cx: i64 = self.center.x as i64;
        let cy: i64 = self.center.y as i64;
        let hw: i64 = self.halfws[0] as i64;
        let hh: i64 = self.halfws[1] as i64;
        cx - hw >= i32::MIN as i64 && cx + hw <= i32::MAX as i64 && cy - hh >= i32::MIN as i64 && cy
            + hh <= i32::MAX as i64
    }

    /// The corner with the least coordinates.
    pub fn min(&self) -> (corner: Vector2)
        requires
            self.representable(),
        ensures
            corner.x == self.min_x(),
            corner.y == self.min_y(),
    {
        let x: i64 = self.center.x as i64 - self.halfws[0] as i64;
        let y: i64 = self.center.y as i64 - self.halfws[1] as i64;
        Vector2 { x: x as i32, y: y as i32 }
    }

    /// The corner with the greatest coordinates.
    pub fn max(&self) -> (corner: Vector2)
        requires
            self.representable(),
        ensures
            corner.x == self.max_x(),
            corner.y == self.max_y(),
    {
        let x: i64 = self.center.x as i64 + self.halfws[0] as i64;
        let y: i64 = self.center.y as i64 + self.halfws[1] as i64;
        Vector2 { x: x as i32, y: y as i32 }
    }
}

impl Delimitable for AABB {
    /// The circle round the center whose radius is `bounding_radius`. Where
    /// the two half-sizes add up to a radius, the circle encloses the box,
    /// its corners included.
    fn bounding_circle(&self) -> (circle: Circle)
        ensures
            circle.center == self.center,
            circle.radius == self.bounding_radius(),
            self.halfws[0] + self.halfws[1] <= u32::MAX ==> square(circle.radius as int) >= square(
                self.halfws[0] as int,
            ) + square(self.halfws[1] as int),
    {
        let sum: u64 = self.halfws[0] as u64 + self.halfws[1] as u64;
        let radius: u32 = if sum <= u32::MAX as u64 {
            sum as u32
        } else {
            u32::MAX
        };
        proof {
            lemma_sum_reaches_corner(self.halfws[0] as int, self.halfws[1] as int);
        }
        Circle { center: self.center, radius }
    }
}

/// A circle whose radius is the sum of two lengths reaches the corner that
/// lies the one length aside and the other length up.
proof fn lemma_sum_reaches_corner(a: int, b: int)
    requires
        0 <= a,
        0 <= b,
    ensures
        square(a + b) >= square(a) + square(b),
{
    assert((a + b) * (a + b) >= a * a + b * b) by (nonlinear_arith)
        requires
            0 <= a,
            0 <= b,
    ;
}

/// A box whose corners are representable points has half-sizes that add up
/// to a radius.
pub proof fn lemma_representable_box_has_bounding_radius(b: AABB)
    requires
        b.representable(),
    ensures
        b.halfws[0] + b.halfws[1] <= u32::MAX,
        b.bounding_radius() == b.halfws[0] + b.halfws[1],
{
}

/// The bounding circle of a box encloses it: no point of the box, the
/// corners included, is further from the center than the radius. This holds
/// of every box whose half-sizes add up to a radius, and so of every box
/// whose corners are representable points.
pub proof fn lemma_bounding_circle_encloses(b: AABB, p: Vector2)
    requires
        b.halfws[0] + b.halfws[1] <= u32::MAX,
        b.min_x() <= p.x <= b.max_x(),
        b.min_y() <= p.y <= b.max_y(),
    ensures
        square(p.x - b.center.x) + square(p.y - b.center.y) <= square(b.bounding_radius()),
{
    lemma_square_bound(p.x - b.center.x, b.halfws[0] as int);
    lemma_square_bound(p.y - b.center.y, b.halfws[1] as int);
    lemma_sum_reaches_corner(b.halfws[0] as int, b.halfws[1] as int);
}

impl Collidable<AABB> for AABB {
    fn collides(&self, other: &AABB) -> (hit: bool)
        ensures
            hit == self.overlaps(*other),
    {
        let dx: i64 = self.center.x as i64 - other.center.x as i64;
        let dy: i64 = self.center.y as i64 - other.center.y as i64;
        let rx: i64 = self.halfws[0] as i64 + other.halfws[0] as i64;
        let ry: i64 = self.halfws[1] as i64 + other.halfws[1] as i64;
        -rx <= dx && dx <= rx && -ry <= dy && dy <= ry
    }
}

impl Collidable<Circle> for AABB {
    fn collides(&self, other: &Circle) -> (hit: bool)
        ensures
            hit == other.overlaps_box(*self),
    {
        other.collides(self)
    }
}

/// A circle, given by its center and its radius.
#[derive(Debug, Clone, Copy, PartialEq, Eq, Structural)]
pub struct Circle {
    pub center: Vector2,
    pub radius: u32,
}

impl Circle {
    /// Whether two circles share a point: the squared distance of their
    /// centers is at most the square of the sum of their radii.
    pub open spec fn overlaps(self, other: Circle) -> bool {
        square(self.center.x - other.center.x) + square(self.center.y - other.center.y) <= square(
            self.radius + other.radius,
        )
    }

    /// Whether the circle shares a point with the box `b`.
    pub open spec fn overlaps_box(self, b: AABB) -> bool {
        sqdist_spec(self.center, b) <= square(self.radius as int)
    }
}

impl Delimitable for Circle {
    fn bounding_circle(&self) -> (circle: Circle)
        ensures
            circle == *self,
    {
        *self
    }
}

impl Collidable<Circle> for Circle {
    fn collides(&self, other: &Circle) -> (hit: bool)
        ensures
            hit == self.overlaps(*other),
    {
        let dx: i128 = self.center.x as i128 - other.center.x as i128;
        let dy: i128 = self.center.y as i128 - other.center.y as i128;
        let radius_sum: i128 = self.radius as i128 + other.radius as i128;
        proof {
            lemma_square_bound(dx as int, 0xffff_ffff);
            lemma_square_bound(dy as int, 0xffff_ffff);
            lemma_square_bound(radius_sum as int, 0x1_ffff_fffe);
        }
        let sq_dist: i128 = dx * dx + dy * dy;
        sq_dist <= radius_sum * radius_sum
    }
}

impl Collidable<AABB> for Circle {
    fn collides(&self, other: &AABB) -> (hit: bool)
        ensures
            hit == self.overlaps_box(*other),
    {
        let sq_dist: i128 = sqdist_vector2_aabb(&self.center, other);
        let radius: i128 = self.radius as i128;
        proof {
            lemma_square_bound(radius as int, 0xffff_ffff);
        }
        sq_dist <= radius * radius
    }
}

/// The squared distance between the point `p` and the nearest point of the
/// box `b`; zero where `p` lies in the box.
pub fn sqdist_vector2_aabb(p: &Vector2, b: &AABB) -> (sq_dist: i128)
    ensures
        sq_dist == sqdist_spec(*p, *b),
        0 <= sq_dist,
{
    let mut sq_dist: i128 = 0;
    let px: i128 = p.x as i128;
    let py: i128 = p.y as i128;
    let min_x: i128 = b.center.x as i128 - b.halfws[0] as i128;
    let max_x: i128 = b.center.x as i128 + b.halfws[0] as i128;
    let min_y: i128 = b.center.y as i128 - b.halfws[1] as i128;
    let max_y: i128 = b.center.y as i128 + b.halfws[1] as i128;
    proof {
        lemma_square_bound(axis_gap(px as int, min_x as int, max_x as int), 0x2_0000_0000);
        lemma_square_bound(axis_gap(py as int, min_y as int, max_y as int), 0x2_0000_0000);
    }

    // along x
    if px < min_x {
        sq_dist += (min_x - px) * (min_x - px);
    }
    if px > max_x {
        sq_dist += (px - max_x) * (px - max_x);
    }
    // along y
    if py < min_y {
        sq_dist += (min_y - py) * (min_y - py);
    }
    if py > max_y {
        sq_dist += (py - max_y) * (py - max_y);
    }
    sq_dist
}

} // verus!
