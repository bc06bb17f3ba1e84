//! Common value types of the engine.

use vstd::prelude::*;
use vstd::std_specs::ops::AddSpecImpl;
use vstd::std_specs::ops::SubSpecImpl;

verus! {

/// A point or displacement on the integer grid.
#[derive(Clone, Copy, Debug, PartialEq, Eq, Structural)]
pub struct Vector2 {
    pub x: i32,
    pub y: i32,
}

impl Vector2 {
    /// The vector with the given coordinates.
    pub fn new(x: i32, y: i32) -> (v: Vector2)
        ensures
            v == (Vector2 { x, y }),
    {
        Vector2 { x, y }
    }

    /// The origin.
    pub fn zero() -> (v: Vector2)
        ensures
            v == (Vector2 { x: 0, y: 0 }),
    {
        Vector2 { x: 0, y: 0 }
    }

    /// The vector with both coordinates one.
    pub fn one() -> (v: Vector2)
        ensures
            v == (Vector2 { x: 1, y: 1 }),
    {
        Vector2 { x: 1, y: 1 }
    }

    /// The dot product as a mathematical integer.
    pub open spec fn dot_spec(self, rhs: Vector2) -> int {
        self.x * rhs.x + self.y * rhs.y
    }

    /// The dot product. It always fits: each product is at most 2^62 in
    /// magnitude, so the sum is within 128 bits with room to spare.
    pub fn dot(&self, rhs: Vector2) -> (d: i128)
        ensures
            d == self.dot_spec(rhs),
    {
        let a: i128 = self.x as i128;
        let b: i128 = rhs.x as i128;
        let c: i128 = self.y as i128;
        let e: i128 = rhs.y as i128;
        assert(-0x4000_0000_0000_0000 <= a * b <= 0x4000_0000_0000_0000) by (nonlinear_arith)
            requires
                -0x8000_0000 <= a <= 0x7fff_ffff,
                -0x8000_0000 <= b <= 0x7fff_ffff,
        ;
        assert(-0x4000_0000_0000_0000 <= c * e <= 0x4000_0000_0000_0000) by (nonlinear_arith)
            requires
                -0x8000_0000 <= c <= 0x7fff_ffff,
                -0x8000_0000 <= e <= 0x7fff_ffff,
        ;
        a * b + c * e
    }
}

impl core::ops::Add for Vector2 {
    type Output = Vector2;

    /// Componentwise sum.
    fn add(self, rhs: Vector2) -> (sum: Vector2) {
        Vector2 { x: self.x + rhs.x, y: self.y + rhs.y }
    }
}

impl AddSpecImpl for Vector2 {
    open spec fn obeys_add_spec() -> bool {
        true
    }

    /// Both coordinate sums must be representable.
    open spec fn add_req(self, rhs: Vector2) -> bool {
        &&& i32::MIN <= self.x + rhs.x <= i32::MAX
        &&& i32::MIN <= self.y + rhs.y <= i32::MAX
    }

    open spec fn add_spec(self, rhs: Vector2) -> Vector2 {
        Vector2 { x: (self.x + rhs.x) as i32, y: (self.y + rhs.y) as i32 }
    }
}

impl core::ops::Sub for Vector2 {
    type Output = Vector2;

    /// Componentwise difference.
    fn sub(self, rhs: Vector2) -> (diff: Vector2) {
        Vector2 { x: self.x - rhs.x, y: self.y - rhs.y }
    }
}

impl SubSpecImpl for Vector2 {
    open spec fn obeys_sub_spec() -> bool {
        true
    }

    /// Both coordinate differences must be representable.
    open spec fn sub_req(self, rhs: Vector2) -> bool {
        &&& i32::MIN <= self.x - rhs.x <= i32::MAX
        &&& i32::MIN <= self.y - rhs.y <= i32::MAX
    }

    open spec fn sub_spec(self, rhs: Vector2) -> Vector2 {
        Vector2 { x: (self.x - rhs.x) as i32, y: (self.y - rhs.y) as i32 }
    }
}

} // verus!
