use vstd::prelude::*;

verus! {

/// An integer point (or vector) in three dimensions.
///
/// Plain value semantics: copied freely, compared field by field. All
/// arithmetic is component-wise; the scalar variants broadcast one value
/// to the three axes.
#[derive(Debug, Clone, Copy, PartialEq, Eq, Structural)]
pub struct Point3D {
    /// The x coordinate.
    pub x: i32,
    /// The y coordinate.
    pub y: i32,
    /// The z coordinate.
    pub z: i32,
}

/// Rust's truncating integer division (round toward zero), as a function
/// on unbounded integers. It agrees with Euclidean `/` on non-negative
/// operands and is unspecified for `b == 0`.
pub open spec fn div_trunc(a: int, b: int) -> int {
    if a == 0 {
        0
    } else if a > 0 && b > 0 {
        a / b
    } else if a < 0 && b < 0 {
        (a * -1) / (b * -1)
    } else if a < 0 {
        ((a * -1) / b) * -1
    } else {
        (a / (b * -1)) * -1
    }
}

proof fn lemma_div_nonneg_le(x: int, d: int)
    by (nonlinear_arith)
    requires
        0 <= x,
        1 <= d,
    ensures
        0 <= x / d <= x,
{
}

proof fn lemma_div_halves(x: int, d: int)
    by (nonlinear_arith)
    requires
        0 <= x,
        2 <= d,
    ensures
        x / d <= x / 2,
{
}

/// Truncating division of two `i32` values stays inside the `i32` range,
/// except for the overflowing pair `(i32::MIN, -1)`.
proof fn lemma_div_trunc_in_range(a: int, b: int)
    requires
        i32::MIN <= a <= i32::MAX,
        i32::MIN <= b <= i32::MAX,
        b != 0,
        !(a == i32::MIN && b == -1),
    ensures
        i32::MIN <= div_trunc(a, b) <= i32::MAX,
{
    if a == 0 {
    } else if a > 0 && b > 0 {
        lemma_div_nonneg_le(a, b);
    } else if a < 0 && b < 0 {
        if b == -1 {
            lemma_div_nonneg_le(a * -1, 1);
        } else {
            lemma_div_nonneg_le(a * -1, b * -1);
            lemma_div_halves(a * -1, b * -1);
        }
    } else if a < 0 {
        lemma_div_nonneg_le(a * -1, b);
    } else {
        lemma_div_nonneg_le(a, b * -1);
    }
}

/// Truncating `i32` division through `checked_div`, so that the exact
/// result is pinned by `div_trunc`.
fn div_i32(a: i32, b: i32) -> (r: i32)
    requires
        b != 0,
        !(a == i32::MIN && b == -1),
    ensures
        r == div_trunc(a as int, b as int),
{
    proof {
        lemma_div_trunc_in_range(a as int, b as int);
    }
    match a.checked_div(b) {
        Some(v) => v,
        None => vstd::pervasive::unreached(),
    }
}

impl Point3D {
    /// Create a new point from its three coordinates.
    pub fn new(x: i32, y: i32, z: i32) -> (p: Self)
        ensures
            p == (Point3D { x, y, z }),
    {
        Self { x, y, z }
    }

    /// Component-wise addition.
    pub fn add(self, rhs: Self) -> (r: Self)
        requires
            i32::MIN <= self.x + rhs.x <= i32::MAX,
            i32::MIN <= self.y + rhs.y <= i32::MAX,
            i32::MIN <= self.z + rhs.z <= i32::MAX,
        ensures
            r.x == self.x + rhs.x,
            r.y == self.y + rhs.y,
            r.z == self.z + rhs.z,
    {
        Self { x: self.x + rhs.x, y: self.y + rhs.y, z: self.z + rhs.z }
    }

    /// Component-wise subtraction.
    pub fn sub(self, rhs: Self) -> (r: Self)
        requires
            i32::MIN <= self.x - rhs.x <= i32::MAX,
            i32::MIN <= self.y - rhs.y <= i32::MAX,
            i32::MIN <= self.z - rhs.z <= i32::MAX,
        ensures
            r.x == self.x - rhs.x,
            r.y == self.y - rhs.y,
            r.z == self.z - rhs.z,
    {
        Self { x: self.x - rhs.x, y: self.y - rhs.y, z: self.z - rhs.z }
    }

    /// Component-wise multiplication.
    pub fn mul(self, rhs: Self) -> (r: Self)
        requires
            i32::MIN <= self.x * rhs.x <= i32::MAX,
            i32::MIN <= self.y * rhs.y <= i32::MAX,
            i32::MIN <= self.z * rhs.z <= i32::MAX,
        ensures
            r.x == self.x * rhs.x,
            r.y == self.y * rhs.y,
            r.z == self.z * rhs.z,
    {
        Self { x: self.x * rhs.x, y: self.y * rhs.y, z: self.z * rhs.z }
    }

    /// Component-wise truncating division. Dividing by zero, and the one
    /// overflowing pair `(i32::MIN, -1)`, are the caller's responsibility
    /// and are excluded here.
    pub fn div(self, rhs: Self) -> (r: Self)
        requires
            rhs.x != 0 && !(self.x == i32::MIN && rhs.x == -1),
            rhs.y != 0 && !(self.y == i32::MIN && rhs.y == -1),
            rhs.z != 0 && !(self.z == i32::MIN && rhs.z == -1),
        ensures
            r.x == div_trunc(self.x as int, rhs.x as int),
            r.y == div_trunc(self.y as int, rhs.y as int),
            r.z == div_trunc(self.z as int, rhs.z as int),
    {
        Self { x: div_i32(self.x, rhs.x), y: div_i32(self.y, rhs.y), z: div_i32(self.z, rhs.z) }
    }

    /// Add the same scalar to the three components.
    pub fn add_scalar(self, rhs: i32) -> (r: Self)
        requires
            i32::MIN <= self.x + rhs <= i32::MAX,
            i32::MIN <= self.y + rhs <= i32::MAX,
            i32::MIN <= self.z + rhs <= i32::MAX,
        ensures
            r.x == self.x + rhs,
            r.y == self.y + rhs,
            r.z == self.z + rhs,
    {
        self.add(Point3D::new(rhs, rhs, rhs))
    }

    /// Subtract the same scalar from the three components.
    pub fn sub_scalar(self, rhs: i32) -> (r: Self)
        requires
            i32::MIN <= self.x - rhs <= i32::MAX,
            i32::MIN <= self.y - rhs <= i32::MAX,
            i32::MIN <= self.z - rhs <= i32::MAX,
        ensures
            r.x == self.x - rhs,
            r.y == self.y - rhs,
            r.z == self.z - rhs,
    {
        self.sub(Point3D::new(rhs, rhs, rhs))
    }

    /// Multiply the three components by the same scalar.
    pub fn mul_scalar(self, rhs: i32) -> (r: Self)
        requires
            i32::MIN <= self.x * rhs <= i32::MAX,
            i32::MIN <= self.y * rhs <= i32::MAX,
            i32::MIN <= self.z * rhs <= i32::MAX,
        ensures
            r.x == self.x * rhs,
            r.y == self.y * rhs,
            r.z == self.z * rhs,
    {
        self.mul(Point3D::new(rhs, rhs, rhs))
    }

    /// Divide the three components by the same scalar (truncating).
    pub fn div_scalar(self, rhs: i32) -> (r: Self)
        requires
            rhs != 0,
            !(self.x == i32::MIN && rhs == -1),
            !(self.y == i32::MIN && rhs == -1),
            !(self.z == i32::MIN && rhs == -1),
        ensures
            r.x == div_trunc(self.x as int, rhs as int),
            r.y == div_trunc(self.y as int, rhs as int),
            r.z == div_trunc(self.z as int, rhs as int),
    {
        self.div(Point3D::new(rhs, rhs, rhs))
    }

    /// Equality against a scalar: all three components equal that scalar.
    /// Used as shorthand for uniform extents.
    pub fn eq_scalar(self, rhs: i32) -> (r: bool)
        ensures
            r == (self.x == rhs && self.y == rhs && self.z == rhs),
    {
        self.x == rhs && self.y == rhs && self.z == rhs
    }
}

impl Default for Point3D {
    /// The origin.
    fn default() -> (r: Self)
        ensures
            r == (Point3D { x: 0, y: 0, z: 0 }),
    {
        Point3D { x: 0, y: 0, z: 0 }
    }
}

impl From<(i32, i32, i32)> for Point3D {
    /// A point from its `(x, y, z)` tuple.
    fn from(value: (i32, i32, i32)) -> (r: Self) {
        Point3D { x: value.0, y: value.1, z: value.2 }
    }
}

impl vstd::std_specs::convert::FromSpecImpl<(i32, i32, i32)> for Point3D {
    open spec fn obeys_from_spec() -> bool {
        true
    }

    open spec fn from_spec(value: (i32, i32, i32)) -> Self {
        Point3D { x: value.0, y: value.1, z: value.2 }
    }
}

impl From<i32> for Point3D {
    /// A uniform point: the same scalar on the three axes.
    fn from(value: i32) -> (r: Self) {
        Point3D { x: value, y: value, z: value }
    }
}

impl vstd::std_specs::convert::FromSpecImpl<i32> for Point3D {
    open spec fn obeys_from_spec() -> bool {
        true
    }

    open spec fn from_spec(value: i32) -> Self {
        Point3D { x: value, y: value, z: value }
    }
}

} // verus!
