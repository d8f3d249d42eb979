//! Points and displacements on the integer grid.
//!
//! Every coordinate is a whole number of grid units, so sums, products and
//! comparisons are exact. Lengths are rounded down to a whole unit.

use crate::numeric::{abs, int_sqrt, isqrt, lemma_mul_bounds};
use vstd::prelude::*;
use vstd::std_specs::ops::{AddSpecImpl, DivSpecImpl, MulSpecImpl, NegSpecImpl, SubSpecImpl};

verus! {

/// An angle in arc seconds, counter-clockwise from the positive x axis.
pub type Angle = i64;

/// A full turn, in arc seconds.
pub const FULL_TURN: i64 = 1_296_000;

/// Half a turn, in arc seconds.
pub const HALF_TURN: i64 = 648_000;

/// A point in 2D space, or the displacement between two points.
#[derive(Debug, Clone, Default, Copy, PartialEq, Eq, Structural)]
pub struct Vector {
    pub x: i32,
    pub y: i32,
}

/// The square of the distance between `a` and `b`.
pub open spec fn sqr_distance(a: Vector, b: Vector) -> int {
    (a.x - b.x) * (a.x - b.x) + (a.y - b.y) * (a.y - b.y)
}

/// The distance between `a` and `b`, rounded down to a whole unit.
pub open spec fn distance(a: Vector, b: Vector) -> int {
    int_sqrt(sqr_distance(a, b))
}

/// Whether `value` fits in a coordinate.
pub open spec fn fits_coordinate(value: int) -> bool {
    i32::MIN <= value <= i32::MAX
}

/// The signed difference between two angles, taken the short way round:
/// congruent to `theta2 - theta1` modulo a full turn, and at most half a turn
/// in size.
pub open spec fn is_angle_delta(theta1: int, theta2: int, delta: int) -> bool {
    &&& (delta - (theta2 - theta1)) % (FULL_TURN as int) == 0
    &&& -HALF_TURN <= delta <= HALF_TURN
}

/// A squared distance is never negative, and is bounded by the coordinate range.
pub proof fn lemma_sqr_distance_bounds(a: Vector, b: Vector)
    ensures
        0 <= sqr_distance(a, b) <= 2 * 0xffff_ffff * 0xffff_ffff,
{
    let dx = a.x - b.x;
    let dy = a.y - b.y;
    lemma_mul_bounds(dx, dx, 0xffff_ffff, 0xffff_ffff);
    lemma_mul_bounds(dy, dy, 0xffff_ffff, 0xffff_ffff);
    assert(dx * dx >= 0) by (nonlinear_arith);
    assert(dy * dy >= 0) by (nonlinear_arith);
}

/// The distance between two points is zero exactly when they coincide.
pub proof fn lemma_distance_zero(a: Vector, b: Vector)
    ensures
        distance(a, b) == 0 <==> a == b,
{
    let dx = a.x - b.x;
    let dy = a.y - b.y;
    lemma_sqr_distance_bounds(a, b);
    crate::numeric::lemma_int_sqrt_zero(sqr_distance(a, b));
    assert(dx * dx >= 0) by (nonlinear_arith);
    assert(dy * dy >= 0) by (nonlinear_arith);
    assert(dx != 0 ==> dx * dx > 0) by (nonlinear_arith);
    assert(dy != 0 ==> dy * dy > 0) by (nonlinear_arith);
}

/// The distance from `a` to `b` is the distance from `b` to `a`.
pub proof fn lemma_distance_symmetric(a: Vector, b: Vector)
    ensures
        distance(a, b) == distance(b, a),
{
    let dx = a.x - b.x;
    let dy = a.y - b.y;
    assert(dx * dx == (-dx) * (-dx)) by (nonlinear_arith);
    assert(dy * dy == (-dy) * (-dy)) by (nonlinear_arith);
    assert(sqr_distance(a, b) == sqr_distance(b, a));
}

/// The product of two sums of two squares is no less than the square of the
/// sum of the products.
proof fn lemma_cauchy_schwarz(x1: int, y1: int, x2: int, y2: int)
    ensures
        (x1 * x2 + y1 * y2) * (x1 * x2 + y1 * y2) <= (x1 * x1 + y1 * y1) * (x2 * x2 + y2 * y2),
{
    let a = x1 * x2;
    let b = y1 * y2;
    let c = x1 * y2;
    let d = x2 * y1;
    let p = x1 * x1;
    let q = y1 * y1;
    let r = x2 * x2;
    let t = y2 * y2;
    assert(p * r == a * a) by (nonlinear_arith)
        requires
            p == x1 * x1,
            r == x2 * x2,
            a == x1 * x2,
    ;
    assert(p * t == c * c) by (nonlinear_arith)
        requires
            p == x1 * x1,
            t == y2 * y2,
            c == x1 * y2,
    ;
    assert(q * r == d * d) by (nonlinear_arith)
        requires
            q == y1 * y1,
            r == x2 * x2,
            d == x2 * y1,
    ;
    assert(q * t == b * b) by (nonlinear_arith)
        requires
            q == y1 * y1,
            t == y2 * y2,
            b == y1 * y2,
    ;
    assert(a * b == c * d) by (nonlinear_arith)
        requires
            a == x1 * x2,
            b == y1 * y2,
            c == x1 * y2,
            d == x2 * y1,
    ;
    assert((p + q) * (r + t) == p * r + p * t + q * r + q * t) by (nonlinear_arith);
    assert((a + b) * (a + b) == a * a + 2 * (a * b) + b * b) by (nonlinear_arith);
    assert((c - d) * (c - d) == c * c - 2 * (c * d) + d * d) by (nonlinear_arith);
    assert((c - d) * (c - d) >= 0) by (nonlinear_arith);
}

/// The way round is no shorter than the straight way, with no allowance
/// for rounding, where the first part is counted by a length that is no less
/// than the distance from `a` to `b` before it is rounded.
pub proof fn lemma_triangle_reached(a: Vector, b: Vector, c: Vector, reach: int)
    requires
        reach >= 0,
        reach * reach >= sqr_distance(a, b),
    ensures
        distance(a, c) <= reach + distance(b, c),
{
    let x1 = a.x - b.x;
    let y1 = a.y - b.y;
    let x2 = b.x - c.x;
    let y2 = b.y - c.y;
    let whole = sqr_distance(a, c);
    let first = sqr_distance(a, b);
    let second = sqr_distance(b, c);
    let dot = x1 * x2 + y1 * y2;
    lemma_sqr_distance_bounds(a, c);
    lemma_sqr_distance_bounds(a, b);
    lemma_sqr_distance_bounds(b, c);
    crate::numeric::lemma_int_sqrt_exists(whole);
    crate::numeric::lemma_int_sqrt_exists(second);
    let p = distance(a, c);
    let r = distance(b, c);
    assert(whole == first + second + 2 * dot) by (nonlinear_arith)
        requires
            whole == (x1 + x2) * (x1 + x2) + (y1 + y2) * (y1 + y2),
            first == x1 * x1 + y1 * y1,
            second == x2 * x2 + y2 * y2,
            dot == x1 * x2 + y1 * y2,
    ;
    lemma_cauchy_schwarz(x1, y1, x2, y2);
    assert(dot * dot <= first * second);
    if p >= reach + r + 1 {
        crate::numeric::lemma_square_monotone(reach + r + 1, p);
        let s = reach;
        let t = r + 1;
        let ss = s * s;
        let tt = t * t;
        let st = s * t;
        assert((reach + r + 1) * (reach + r + 1) == ss + tt + 2 * st) by (nonlinear_arith)
            requires
                s == reach,
                t == r + 1,
                ss == s * s,
                tt == t * t,
                st == s * t,
        ;
        assert(second < tt);
        assert(dot > st);
        assert(st >= 0) by (nonlinear_arith)
            requires
                st == s * t,
                s >= 0,
                t >= 1,
        ;
        assert(dot * dot > st * st) by (nonlinear_arith)
            requires
                dot > st,
                st >= 0,
        ;
        assert(first * second <= ss * tt) by (nonlinear_arith)
            requires
                0 <= first <= ss,
                0 <= second < tt,
        ;
        lemma_product_of_squares(s, t);
        assert(false);
    }
}

/// The square of a product is the product of the squares.
proof fn lemma_product_of_squares(s: int, t: int)
    ensures
        (s * t) * (s * t) == (s * s) * (t * t),
{
    assert((s * t) * (s * t) == (s * s) * (t * t)) by (nonlinear_arith);
}

/// No distance is negative, and none exceeds the diagonal of the coordinate
/// range.
pub proof fn lemma_distance_bounds(a: Vector, b: Vector)
    ensures
        0 <= distance(a, b) <= 0x1_6a09_e667,
{
    lemma_sqr_distance_bounds(a, b);
    crate::numeric::lemma_int_sqrt_exists(sqr_distance(a, b));
    let d = distance(a, b);
    if d > 0x1_6a09_e667 {
        crate::numeric::lemma_square_monotone(0x1_6a09_e668, d);
        assert(0x1_6a09_e668int * 0x1_6a09_e668int > 2 * 0xffff_ffff * 0xffff_ffff)
            by (nonlinear_arith);
    }
}

/// Computes the distance between `a` and `b`, rounded down to a whole unit.
pub fn distance_between(a: Vector, b: Vector) -> (d: u64)
    ensures
        d == distance(a, b),
        d <= 0x1_6a09_e667,
{
    let dx: i64 = a.x as i64 - b.x as i64;
    let dy: i64 = a.y as i64 - b.y as i64;
    proof {
        lemma_mul_bounds(dx as int, dx as int, 0xffff_ffff, 0xffff_ffff);
        lemma_mul_bounds(dy as int, dy as int, 0xffff_ffff, 0xffff_ffff);
        assert(dx * dx >= 0) by (nonlinear_arith);
        assert(dy * dy >= 0) by (nonlinear_arith);
    }
    let sx: i128 = (dx as i128) * (dx as i128);
    let sy: i128 = (dy as i128) * (dy as i128);
    let d = isqrt((sx + sy) as u128);
    proof {
        if d > 0x1_6a09_e667 {
            crate::numeric::lemma_square_monotone(0x1_6a09_e668, d as int);
            assert(0x1_6a09_e668int * 0x1_6a09_e668int > 2 * 0xffff_ffff * 0xffff_ffff)
                by (nonlinear_arith);
        }
    }
    d
}

/// Whether `x` lies between `a` and `b`, in whichever order they come.
pub open spec fn between(x: int, a: int, b: int) -> bool {
    (a <= x <= b) || (b <= x <= a)
}

/// Whether `p` lies in the smallest upright rectangle that holds `a` and `b`.
pub open spec fn boxed(a: Vector, b: Vector, p: Vector) -> bool {
    between(p.x as int, a.x as int, b.x as int) && between(p.y as int, a.y as int, b.y as int)
}

/// Whether every point of `points` lies in the smallest upright rectangle
/// that holds `a` and `b`.
pub open spec fn all_boxed(a: Vector, b: Vector, points: Seq<Vector>) -> bool {
    forall|i: int| 0 <= i < points.len() ==> boxed(a, b, #[trigger] points[i])
}

/// The point that lies `offset` along the segment from `a` to `b`, which is
/// `length` long, each coordinate rounded down; `a` where the segment has no
/// length.
pub open spec fn interpolate(a: Vector, b: Vector, offset: int, length: int) -> Vector {
    if length <= 0 {
        a
    } else {
        Vector {
            x: (a.x + ((b.x - a.x) * offset) / length) as i32,
            y: (a.y + ((b.y - a.y) * offset) / length) as i32,
        }
    }
}

/// A coordinate that lies a part of the way from one coordinate to another
/// lies between the two.
pub proof fn lemma_interpolate_between(from: int, to: int, offset: int, length: int)
    requires
        length > 0,
        0 <= offset <= length,
    ensures
        from <= to ==> from <= from + ((to - from) * offset) / length <= to,
        from >= to ==> to <= from + ((to - from) * offset) / length <= from,
{
    let delta = to - from;
    let step = (delta * offset) / length;
    vstd::arithmetic::div_mod::lemma_fundamental_div_mod(delta * offset, length);
    vstd::arithmetic::div_mod::lemma_mod_bound(delta * offset, length);
    let rest = (delta * offset) % length;
    assert(delta >= 0 ==> 0 <= step <= delta) by (nonlinear_arith)
        requires
            delta * offset == length * step + rest,
            0 <= rest < length,
            0 <= offset <= length,
            length > 0,
    ;
    assert(delta <= 0 ==> delta <= step <= 0) by (nonlinear_arith)
        requires
            delta * offset == length * step + rest,
            0 <= rest < length,
            0 <= offset <= length,
            length > 0,
    ;
}

/// Computes the point that lies `offset` along the segment from `a` to `b`,
/// which is `length` long.
pub fn interpolated(a: Vector, b: Vector, offset: u128, length: u128) -> (point: Vector)
    requires
        offset <= length <= 0xffff_ffff_ffff_ffff_ffff,
    ensures
        point == interpolate(a, b, offset as int, length as int),
        boxed(a, b, point),
{
    if length == 0 {
        a
    } else {
        proof {
            lemma_interpolate_between(a.x as int, b.x as int, offset as int, length as int);
            lemma_interpolate_between(a.y as int, b.y as int, offset as int, length as int);
            lemma_mul_bounds(b.x - a.x, offset as int, 0xffff_ffff, 0xffff_ffff_ffff_ffff_ffff);
            lemma_mul_bounds(b.y - a.y, offset as int, 0xffff_ffff, 0xffff_ffff_ffff_ffff_ffff);
        }
        let dx: i128 = b.x as i128 - a.x as i128;
        let dy: i128 = b.y as i128 - a.y as i128;
        let x = a.x as i128 + crate::numeric::div_floor(dx * offset as i128, length as i128);
        let y = a.y as i128 + crate::numeric::div_floor(dy * offset as i128, length as i128);
        Vector { x: x as i32, y: y as i32 }
    }
}

impl Vector {
    pub fn new(x: i32, y: i32) -> (v: Self)
        ensures
            v == (Vector { x, y }),
    {
        Self { x, y }
    }

    /// The square of the length of this vector.
    pub open spec fn spec_sqr_length(self) -> int {
        self.x * self.x + self.y * self.y
    }

    /// The length of this vector, rounded down to a whole unit.
    pub open spec fn spec_length(self) -> int {
        int_sqrt(self.spec_sqr_length())
    }

    /// The dot product of this vector and `other`.
    pub open spec fn spec_dot(self, other: Vector) -> int {
        self.x * other.x + self.y * other.y
    }

    /// Calculates the length of this vector, by pythagoras, rounded down.
    pub fn length(&self) -> (len: u64)
        ensures
            len == self.spec_length(),
    {
        isqrt(self.sqr_length() as u128)
    }

    /// Calculates the length of this vector, squared, by pythagoras.
    pub fn sqr_length(&self) -> (len: u64)
        ensures
            len == self.spec_sqr_length(),
    {
        proof {
            lemma_mul_bounds(self.x as int, self.x as int, 0x8000_0000, 0x8000_0000);
            lemma_mul_bounds(self.y as int, self.y as int, 0x8000_0000, 0x8000_0000);
            assert(self.x * self.x >= 0) by (nonlinear_arith);
            assert(self.y * self.y >= 0) by (nonlinear_arith);
        }
        let sx: i64 = (self.x as i64) * (self.x as i64);
        let sy: i64 = (self.y as i64) * (self.y as i64);
        sx as u64 + sy as u64
    }

    /// The zero vector.
    pub fn zero() -> (v: Self)
        ensures
            v == (Vector { x: 0, y: 0 }),
    {
        Self { x: 0, y: 0 }
    }

    /// The vector which goes one unit to the right.
    pub fn right() -> (v: Self)
        ensures
            v == (Vector { x: 1, y: 0 }),
    {
        Self { x: 1, y: 0 }
    }

    /// The vector which goes one unit up.
    pub fn up() -> (v: Self)
        ensures
            v == (Vector { x: 0, y: 1 }),
    {
        Self { x: 0, y: 1 }
    }

    /// Calculates the dot product of this vector and another vector.
    pub fn dot(&self, other: Vector) -> (d: i64)
        requires
            self.spec_dot(other) <= i64::MAX,
        ensures
            d == self.spec_dot(other),
    {
        proof {
            lemma_mul_bounds(self.x as int, other.x as int, 0x8000_0000, 0x8000_0000);
            lemma_mul_bounds(self.y as int, other.y as int, 0x8000_0000, 0x8000_0000);
        }
        let px: i128 = (self.x as i128) * (other.x as i128);
        let py: i128 = (self.y as i128) * (other.y as i128);
        (px + py) as i64
    }

    /// Whether the projection of this vector onto `project_to` is defined and
    /// fits in a vector.
    pub open spec fn projects_onto(self, project_to: Vector) -> bool {
        &&& project_to.spec_sqr_length() > 0
        &&& fits_coordinate(
            (project_to.x * self.spec_dot(project_to)) / project_to.spec_sqr_length(),
        )
        &&& fits_coordinate(
            (project_to.y * self.spec_dot(project_to)) / project_to.spec_sqr_length(),
        )
    }

    /// Projects this vector onto another, rounding each coordinate down.
    pub fn project(&self, project_to: Vector) -> (v: Vector)
        requires
            self.projects_onto(project_to),
        ensures
            v.x == (project_to.x * self.spec_dot(project_to)) / project_to.spec_sqr_length(),
            v.y == (project_to.y * self.spec_dot(project_to)) / project_to.spec_sqr_length(),
    {
        proof {
            lemma_mul_bounds(self.x as int, project_to.x as int, 0x8000_0000, 0x8000_0000);
            lemma_mul_bounds(self.y as int, project_to.y as int, 0x8000_0000, 0x8000_0000);
            lemma_mul_bounds(
                project_to.x as int,
                self.spec_dot(project_to),
                0x8000_0000,
                0x8000_0000_0000_0000,
            );
            lemma_mul_bounds(
                project_to.y as int,
                self.spec_dot(project_to),
                0x8000_0000,
                0x8000_0000_0000_0000,
            );
        }
        let dot: i128 = (self.x as i128) * (project_to.x as i128) + (self.y as i128) * (
        project_to.y as i128);
        let denominator: i128 = project_to.sqr_length() as i128;
        let x = crate::numeric::div_floor((project_to.x as i128) * dot, denominator);
        let y = crate::numeric::div_floor((project_to.y as i128) * dot, denominator);
        Vector { x: x as i32, y: y as i32 }
    }

    /// Rotates this vector clockwise by 90 degrees.
    pub fn clockwise_90deg(&self) -> (v: Vector)
        requires
            self.x > i32::MIN,
        ensures
            v == (Vector { x: self.y, y: (-self.x) as i32 }),
    {
        Vector { x: self.y, y: -self.x }
    }

    /// Rotates this vector anticlockwise by 90 degrees.
    pub fn anticlockwise_90deg(&self) -> (v: Vector)
        requires
            self.y > i32::MIN,
        ensures
            v == (Vector { x: (-self.y) as i32, y: self.x }),
    {
        Vector { x: -self.y, y: self.x }
    }

    /// Returns the signed distance from `angle1` to `angle2`, at least minus
    /// half a turn and less than half a turn.
    pub fn angle_distnace(angle1: Angle, angle2: Angle) -> (diff: Angle)
        ensures
            is_angle_delta(angle1 as int, angle2 as int, diff as int),
            diff < HALF_TURN,
    {
        let full: i128 = FULL_TURN as i128;
        let half: i128 = HALF_TURN as i128;
        let shifted: i128 = angle2 as i128 - angle1 as i128 + half;
        let turns = crate::numeric::div_floor(shifted, full);
        proof {
            assert(-0x1_0000_0000_0000_0000_0000 <= turns <= 0x1_0000_0000_0000_0000_0000)
                by (nonlinear_arith)
                requires
                    full * turns <= shifted < full * turns + full,
                    full == 1_296_000,
                    -0x2_0000_0000_0000_0000 <= shifted <= 0x2_0000_0000_0000_0000,
            ;
        }
        let diff: i128 = shifted - full * turns - half;
        proof {
            let delta = diff as int - (angle2 as int - angle1 as int);
            assert(delta == (FULL_TURN as int) * (-(turns as int)));
            assert(delta % (FULL_TURN as int) == 0) by (nonlinear_arith)
                requires
                    delta == (FULL_TURN as int) * (-(turns as int)),
                    FULL_TURN as int == 1_296_000,
            ;
        }
        diff as i64
    }

    /// Gets the minimum of the x-coordinates and the minimum of the
    /// y-coordinates.
    pub fn min(&self, other: Vector) -> (v: Vector)
        ensures
            v.x == if self.x <= other.x {
                self.x
            } else {
                other.x
            },
            v.y == if self.y <= other.y {
                self.y
            } else {
                other.y
            },
    {
        Vector {
            x: if self.x <= other.x {
                self.x
            } else {
                other.x
            },
            y: if self.y <= other.y {
                self.y
            } else {
                other.y
            },
        }
    }

    /// Gets the maximum of the x-coordinates and the maximum of the
    /// y-coordinates.
    pub fn max(&self, other: Vector) -> (v: Vector)
        ensures
            v.x == if self.x >= other.x {
                self.x
            } else {
                other.x
            },
            v.y == if self.y >= other.y {
                self.y
            } else {
                other.y
            },
    {
        Vector {
            x: if self.x >= other.x {
                self.x
            } else {
                other.x
            },
            y: if self.y >= other.y {
                self.y
            } else {
                other.y
            },
        }
    }
}

/// `+` operator for addition.
impl core::ops::Add for Vector {
    type Output = Self;

    fn add(self, rhs: Self) -> (sum: Self) {
        Self { x: self.x + rhs.x, y: self.y + rhs.y }
    }
}

impl AddSpecImpl for Vector {
    open spec fn obeys_add_spec() -> bool {
        true
    }

    open spec fn add_req(self, rhs: Self) -> bool {
        fits_coordinate(self.x + rhs.x) && fits_coordinate(self.y + rhs.y)
    }

    open spec fn add_spec(self, rhs: Self) -> Self {
        Vector { x: (self.x + rhs.x) as i32, y: (self.y + rhs.y) as i32 }
    }
}

/// `-` operator for subtraction.
impl core::ops::Sub for Vector {
    type Output = Self;

    fn sub(self, rhs: Self) -> (difference: Self) {
        Self { x: self.x - rhs.x, y: self.y - rhs.y }
    }
}

impl SubSpecImpl for Vector {
    open spec fn obeys_sub_spec() -> bool {
        true
    }

    open spec fn sub_req(self, rhs: Self) -> bool {
        fits_coordinate(self.x - rhs.x) && fits_coordinate(self.y - rhs.y)
    }

    open spec fn sub_spec(self, rhs: Self) -> Self {
        Vector { x: (self.x - rhs.x) as i32, y: (self.y - rhs.y) as i32 }
    }
}

/// `* i32` operator for scaling (up).
impl core::ops::Mul<i32> for Vector {
    type Output = Self;

    fn mul(self, rhs: i32) -> (product: Self) {
        Self { x: self.x * rhs, y: self.y * rhs }
    }
}

impl MulSpecImpl<i32> for Vector {
    open spec fn obeys_mul_spec() -> bool {
        true
    }

    open spec fn mul_req(self, rhs: i32) -> bool {
        fits_coordinate(self.x * rhs) && fits_coordinate(self.y * rhs)
    }

    open spec fn mul_spec(self, rhs: i32) -> Self {
        Vector { x: (self.x * rhs) as i32, y: (self.y * rhs) as i32 }
    }
}

/// `/ i32` operator for scaling (down), rounding each coordinate down.
impl core::ops::Div<i32> for Vector {
    type Output = Self;

    fn div(self, rhs: i32) -> (quotient: Self) {
        let x = crate::numeric::div_floor(self.x as i128, rhs as i128);
        let y = crate::numeric::div_floor(self.y as i128, rhs as i128);
        proof {
            assert(abs(x as int) <= abs(self.x as int) && abs(y as int) <= abs(self.y as int))
                by (nonlinear_arith)
                requires
                    rhs >= 1,
                    rhs * x <= self.x < rhs * x + rhs,
                    rhs * y <= self.y < rhs * y + rhs,
            ;
        }
        Self { x: x as i32, y: y as i32 }
    }
}

impl DivSpecImpl<i32> for Vector {
    open spec fn obeys_div_spec() -> bool {
        true
    }

    open spec fn div_req(self, rhs: i32) -> bool {
        rhs > 0
    }

    open spec fn div_spec(self, rhs: i32) -> Self {
        Vector { x: (self.x as int / rhs as int) as i32, y: (self.y as int / rhs as int) as i32 }
    }
}

/// Unary `-` operator for multiplying by -1.
impl core::ops::Neg for Vector {
    type Output = Self;

    fn neg(self) -> (negated: Self) {
        Self { x: -self.x, y: -self.y }
    }
}

impl NegSpecImpl for Vector {
    open spec fn obeys_neg_spec() -> bool {
        true
    }

    open spec fn neg_req(self) -> bool {
        self.x > i32::MIN && self.y > i32::MIN
    }

    open spec fn neg_spec(self) -> Self {
        Vector { x: (-self.x) as i32, y: (-self.y) as i32 }
    }
}

} // verus!
