//! Collision tests between points, line segments, circles and sectors on the
//! integer grid.
//!
//! Whether two shapes meet is decided exactly. Where they meet is a point of
//! the grid: square roots and quotients are rounded down. The points in which
//! a segment crosses a circle are sought along the axis in which the segment
//! is longer, so that rounding moves them by little: each lies less than three
//! units from the boundary.

use crate::numeric::{div_floor, int_sqrt, isqrt, lemma_mul_bounds};
use crate::tower::{shortest_angle, shortest_angle_distance};
use crate::vector::{
    all_boxed, between, boxed, fits_coordinate, interpolate, interpolated,
    lemma_interpolate_between, sqr_distance, Angle, Vector,
};
use vstd::prelude::*;

verus! {

/// The largest size of a coordinate of a point that takes part in a
/// collision test with a circle.
pub const GEOMETRY_LIMIT: i32 = 262_144;

/// The largest radius of a circle that takes part in a collision test.
pub const RADIUS_LIMIT: u32 = 524_288;

/// The points in which a line segment meets a circle: each endpoint that
/// lies in the circle, and each point in which the segment crosses its
/// boundary, two at most.
/// A line fully enclosed by a circle meets it in its two endpoints.
#[derive(Debug, Clone, Copy, PartialEq, Eq, Structural)]
pub enum LineCircleCollision {
    Zero,
    One(Vector),
    Two(Vector, Vector),
}

/// The real roots of a quadratic equation, rounded down.
#[derive(Debug, Clone, Copy, PartialEq, Eq, Structural)]
pub enum QuadraticSolution {
    NoRoots,
    RepeatedRoot(i128),
    Roots(i128, i128),
}

/// The collision that `points` stand for, if they are two at most.
pub open spec fn collision_of(points: Seq<Vector>) -> Option<LineCircleCollision> {
    if points.len() == 0 {
        Some(LineCircleCollision::Zero)
    } else if points.len() == 1 {
        Some(LineCircleCollision::One(points[0]))
    } else if points.len() == 2 {
        Some(LineCircleCollision::Two(points[0], points[1]))
    } else {
        None
    }
}

impl LineCircleCollision {
    /// The points of the collision, in order.
    pub open spec fn points(self) -> Seq<Vector> {
        match self {
            LineCircleCollision::Zero => Seq::empty(),
            LineCircleCollision::One(x) => seq![x],
            LineCircleCollision::Two(a, b) => seq![a, b],
        }
    }

    pub fn from_vec(v: Vec<Vector>) -> (collision: Option<LineCircleCollision>)
        ensures
            collision == collision_of(v@),
    {
        if v.len() == 0 {
            Some(LineCircleCollision::Zero)
        } else if v.len() == 1 {
            Some(LineCircleCollision::One(v[0]))
        } else if v.len() == 2 {
            Some(LineCircleCollision::Two(v[0], v[1]))
        } else {
            None
        }
    }

    /// The points of the collision, in order.
    pub fn into_vec(self) -> (points: Vec<Vector>)
        ensures
            points@ == self.points(),
    {
        let mut points: Vec<Vector> = Vec::with_capacity(2);
        match self {
            LineCircleCollision::Zero => {},
            LineCircleCollision::One(x) => {
                points.push(x);
            },
            LineCircleCollision::Two(a, b) => {
                points.push(a);
                points.push(b);
            },
        }
        proof {
            assert(points@ =~= self.points());
        }
        points
    }
}

impl QuadraticSolution {
    /// The roots, in order.
    pub open spec fn roots(self) -> Seq<i128> {
        match self {
            QuadraticSolution::NoRoots => Seq::empty(),
            QuadraticSolution::RepeatedRoot(x) => seq![x],
            QuadraticSolution::Roots(a, b) => seq![a, b],
        }
    }

    /// The roots, in order.
    pub fn into_vec(self) -> (roots: Vec<i128>)
        ensures
            roots@ == self.roots(),
    {
        let mut roots: Vec<i128> = Vec::with_capacity(2);
        match self {
            QuadraticSolution::NoRoots => {},
            QuadraticSolution::RepeatedRoot(x) => {
                roots.push(x);
            },
            QuadraticSolution::Roots(a, b) => {
                roots.push(a);
                roots.push(b);
            },
        }
        proof {
            assert(roots@ =~= self.roots());
        }
        roots
    }
}

/// Whether `p` is near enough to the origin for a collision test with a
/// circle.
pub open spec fn in_reach(p: Vector) -> bool {
    &&& -GEOMETRY_LIMIT <= p.x <= GEOMETRY_LIMIT
    &&& -GEOMETRY_LIMIT <= p.y <= GEOMETRY_LIMIT
}

/// Whether every point of `points` is near enough to the origin for
/// collision tests.
pub open spec fn all_in_reach(points: Seq<Vector>) -> bool {
    forall|i: int| 0 <= i < points.len() ==> in_reach(#[trigger] points[i])
}

/// Whether `p` lies in the circle round `centre`, its boundary included.
pub open spec fn inside_circle(centre: Vector, radius: u32, p: Vector) -> bool {
    sqr_distance(p, centre) <= radius * radius
}

/// The list `found` with `p` at its end, unless it holds `p` or two points
/// already.
pub open spec fn merged(found: Seq<Vector>, p: Vector) -> Seq<Vector> {
    if found.len() >= 2 || found.contains(p) {
        found
    } else {
        found.push(p)
    }
}

/// Returns the point `p` if it lies in the circle round `centre`.
pub fn point_circle_collision(centre: Vector, radius: u32, p: Vector) -> (hit: Option<Vector>)
    ensures
        hit == if inside_circle(centre, radius, p) {
            Some(p)
        } else {
            None::<Vector>
        },
{
    let dx: i128 = p.x as i128 - centre.x as i128;
    let dy: i128 = p.y as i128 - centre.y as i128;
    proof {
        lemma_mul_bounds(dx as int, dx as int, 0xffff_ffff, 0xffff_ffff);
        lemma_mul_bounds(dy as int, dy as int, 0xffff_ffff, 0xffff_ffff);
        lemma_mul_bounds(radius as int, radius as int, 0xffff_ffff, 0xffff_ffff);
    }
    if dx * dx + dy * dy <= (radius as i128) * (radius as i128) {
        Some(p)
    } else {
        None
    }
}

/// The discriminant of `ax² + bx + c`.
pub open spec fn discriminant(a: int, b: int, c: int) -> int {
    b * b - 4 * a * c
}

/// The quotient of `n` by `d`, which is not zero, rounded down.
pub open spec fn floor_ratio(n: int, d: int) -> int {
    if d > 0 {
        n / d
    } else {
        (-n) / (-d)
    }
}

/// Whether the coefficients of `ax² + bx + c` are small enough for its roots
/// to be computed, and `a` is not zero.
pub open spec fn quadratic_in_range(a: int, b: int, c: int) -> bool {
    &&& a != 0
    &&& -0x100_0000_0000 <= a <= 0x100_0000_0000
    &&& -0x1000_0000_0000_0000 <= b <= 0x1000_0000_0000_0000
    &&& -0x1_0000_0000_0000_0000_0000 <= c <= 0x1_0000_0000_0000_0000_0000
}

/// The real roots of `ax² + bx + c = 0`, the greater first where `a` is
/// positive: two where the discriminant is positive, one where it is zero,
/// none where it is negative. The square root of the discriminant and the
/// roots are rounded down.
pub open spec fn quadratic_solution(a: int, b: int, c: int) -> QuadraticSolution {
    let d = discriminant(a, b, c);
    if d > 0 {
        QuadraticSolution::Roots(
            floor_ratio(-b + int_sqrt(d), 2 * a) as i128,
            floor_ratio(-b - int_sqrt(d), 2 * a) as i128,
        )
    } else if d == 0 {
        QuadraticSolution::RepeatedRoot(floor_ratio(-b, 2 * a) as i128)
    } else {
        QuadraticSolution::NoRoots
    }
}

/// Divides `n` by `d`, rounding down.
fn ratio_floor(n: i128, d: i128) -> (q: i128)
    requires
        d != 0,
        n > i128::MIN,
        d > i128::MIN,
    ensures
        q == floor_ratio(n as int, d as int),
{
    if d > 0 {
        div_floor(n, d)
    } else {
        div_floor(-n, -d)
    }
}

/// A quotient by a number that is not zero is no larger than what is
/// divided, but for the rounding.
pub proof fn lemma_floor_ratio_bounds(n: int, d: int, limit: int)
    requires
        d != 0,
        -limit <= n <= limit,
    ensures
        -limit - 1 <= floor_ratio(n, d) <= limit,
{
    let m = if d > 0 {
        n
    } else {
        -n
    };
    let e = if d > 0 {
        d
    } else {
        -d
    };
    let q = m / e;
    vstd::arithmetic::div_mod::lemma_fundamental_div_mod(m, e);
    vstd::arithmetic::div_mod::lemma_mod_bound(m, e);
    let r = m % e;
    assert(-limit - 1 <= q <= limit) by (nonlinear_arith)
        requires
            m == e * q + r,
            0 <= r < e,
            e >= 1,
            -limit <= m <= limit,
    ;
}

/// Solves `ax² + bx + c = 0`.
pub fn quadratic(a: i128, b: i128, c: i128) -> (solution: QuadraticSolution)
    requires
        quadratic_in_range(a as int, b as int, c as int),
    ensures
        solution == quadratic_solution(a as int, b as int, c as int),
{
    proof {
        lemma_mul_bounds(b as int, b as int, 0x1000_0000_0000_0000, 0x1000_0000_0000_0000);
        lemma_mul_bounds(a as int, c as int, 0x100_0000_0000, 0x1_0000_0000_0000_0000_0000);
        assert(4 * a * c == 4 * (a * c)) by (nonlinear_arith);
    }
    let discriminant: i128 = b * b - 4 * (a * c);
    if discriminant > 0 {
        let root = isqrt(discriminant as u128) as i128;
        proof {
            lemma_floor_ratio_bounds(-b + root, 2 * a, 0x2_0000_0000_0000_0000);
            lemma_floor_ratio_bounds(-b - root, 2 * a, 0x2_0000_0000_0000_0000);
        }
        let root1 = ratio_floor(-b + root, 2 * a);
        let root2 = ratio_floor(-b - root, 2 * a);
        QuadraticSolution::Roots(root1, root2)
    } else if discriminant == 0 {
        proof {
            lemma_floor_ratio_bounds(-b as int, 2 * a, 0x2_0000_0000_0000_0000);
        }
        QuadraticSolution::RepeatedRoot(ratio_floor(-b, 2 * a))
    } else {
        QuadraticSolution::NoRoots
    }
}

/// Puts `p` at the end of `found`, unless it holds `p` or two points already.
fn merge(found: &mut Vec<Vector>, p: Vector)
    ensures
        final(found)@ == merged(old(found)@, p),
{
    if found.len() >= 2 {
        return ;
    }
    let mut i: usize = 0;
    while i < found.len()
        invariant
            i <= found@.len(),
            found@ == old(found)@,
            forall|k: int| 0 <= k < i ==> found@[k] != p,
        decreases found@.len() - i,
    {
        if found[i].x == p.x && found[i].y == p.y {
            return ;
        }
        i += 1;
    }
    found.push(p);
}

/// The endpoints of the segment from `a` to `b` that lie in the circle.
pub open spec fn endpoints_inside(centre: Vector, radius: u32, a: Vector, b: Vector) -> Seq<Vector> {
    let first = if inside_circle(centre, radius, a) {
        seq![a]
    } else {
        Seq::empty()
    };
    if inside_circle(centre, radius, b) {
        merged(first, b)
    } else {
        first
    }
}

/// The point above `x` of the line through `a` and `b`, which is not
/// upright; its height is rounded down.
pub open spec fn point_above(a: Vector, b: Vector, x: int) -> Vector {
    if a.x < b.x {
        interpolate(a, b, x - a.x, b.x - a.x)
    } else {
        interpolate(b, a, x - b.x, a.x - b.x)
    }
}

/// Whether the greater root of `ax² + bx + c = 0`, or the smaller, is no
/// less than `bound`, where `a` is positive and `d` is the discriminant, which
/// is not negative. The root is not rounded: `(-b ± √d) / 2a >= bound` as
/// `±√d >= 2a·bound + b`.
pub open spec fn root_at_least(a: int, b: int, d: int, greater: bool, bound: int) -> bool {
    let slope = 2 * a * bound + b;
    if greater {
        slope <= 0 || d >= slope * slope
    } else {
        slope <= 0 && d <= slope * slope
    }
}

/// Whether the greater root of `ax² + bx + c = 0`, or the smaller, is no
/// more than `bound`, where `a` is positive and `d` is the discriminant, which
/// is not negative.
pub open spec fn root_at_most(a: int, b: int, d: int, greater: bool, bound: int) -> bool {
    let slope = 2 * a * bound + b;
    if greater {
        slope >= 0 && d <= slope * slope
    } else {
        slope >= 0 || d >= slope * slope
    }
}

/// Whether the greater root of `ax² + bx + c = 0`, or the smaller, lies
/// between `lo` and `hi`.
pub open spec fn root_between(a: int, b: int, d: int, greater: bool, lo: int, hi: int) -> bool {
    root_at_least(a, b, d, greater, lo) && root_at_most(a, b, d, greater, hi)
}

/// The point of the line through `a` and `b` at `at`: above `at` where the
/// line is not upright, beside `at` where it is.
pub open spec fn crossing_point(a: Vector, b: Vector, at: int) -> Vector {
    if a.x != b.x {
        point_above(a, b, at)
    } else {
        Vector { x: a.x, y: at as i32 }
    }
}

/// The list `found`, with the point of the line through `a` and `b` at `at`
/// where `within` says that it is a point of the segment.
pub open spec fn with_root(found: Seq<Vector>, a: Vector, b: Vector, within: bool, at: int) -> Seq<
    Vector,
> {
    if within {
        merged(found, crossing_point(a, b, at))
    } else {
        found
    }
}

/// What the line through `a` and `b` is above the centre's height at the
/// origin, times the width of the segment.
pub open spec fn crossing_offset(centre: Vector, a: Vector, b: Vector) -> int {
    (b.y - centre.y) * (b.x - a.x) - (b.y - a.y) * b.x
}

/// The coefficient of the square in the equation for the places at which the
/// line through `a` and `b` crosses the circle: of `x²` where the line is not
/// upright, of `y²` where it is.
pub open spec fn crossing_a(a: Vector, b: Vector) -> int {
    if a.x != b.x {
        (b.x - a.x) * (b.x - a.x) + (b.y - a.y) * (b.y - a.y)
    } else {
        1
    }
}

/// The coefficient of `x`, or of `y`, in that equation.
pub open spec fn crossing_b(centre: Vector, a: Vector, b: Vector) -> int {
    if a.x != b.x {
        2 * ((b.y - a.y) * crossing_offset(centre, a, b) - centre.x * ((b.x - a.x) * (b.x
            - a.x)))
    } else {
        -2 * centre.y
    }
}

/// The constant of that equation.
pub open spec fn crossing_c(centre: Vector, radius: u32, a: Vector, b: Vector) -> int {
    if a.x != b.x {
        (centre.x * centre.x) * ((b.x - a.x) * (b.x - a.x)) + crossing_offset(centre, a, b)
            * crossing_offset(centre, a, b) - (radius * radius) * ((b.x - a.x) * (b.x - a.x))
    } else {
        centre.y * centre.y + (a.x - centre.x) * (a.x - centre.x) - radius * radius
    }
}

/// The discriminant of that equation: negative where the line through `a`
/// and `b` misses the circle, zero where it touches it.
pub open spec fn crossing_discriminant(centre: Vector, radius: u32, a: Vector, b: Vector) -> int {
    discriminant(crossing_a(a, b), crossing_b(centre, a, b), crossing_c(centre, radius, a, b))
}

/// The least of the places of the segment from `a` to `b`: the least `x`
/// where it is not upright, the least `y` where it is.
pub open spec fn least_place(a: Vector, b: Vector) -> int {
    if a.x != b.x {
        if a.x < b.x {
            a.x as int
        } else {
            b.x as int
        }
    } else if a.y < b.y {
        a.y as int
    } else {
        b.y as int
    }
}

/// The greatest of the places of the segment from `a` to `b`.
pub open spec fn greatest_place(a: Vector, b: Vector) -> int {
    if a.x != b.x {
        if a.x < b.x {
            b.x as int
        } else {
            a.x as int
        }
    } else if a.y < b.y {
        b.y as int
    } else {
        a.y as int
    }
}

/// Whether the line through `a` and `b` crosses the boundary of the circle
/// on the segment from `a` to `b`, at the greater of the two places at which
/// it crosses it, or at the smaller.
pub open spec fn crosses_within(centre: Vector, radius: u32, a: Vector, b: Vector, greater: bool) -> bool {
    crossing_discriminant(centre, radius, a, b) >= 0 && root_between(
        crossing_a(a, b),
        crossing_b(centre, a, b),
        crossing_discriminant(centre, radius, a, b),
        greater,
        least_place(a, b),
        greatest_place(a, b),
    )
}

/// The place at which the line through `a` and `b` crosses the boundary of
/// the circle, the greater of the two places or the smaller, where the
/// discriminant is not negative. The place is rounded down.
pub open spec fn crossing_place(centre: Vector, radius: u32, a: Vector, b: Vector, greater: bool) -> int {
    let root = int_sqrt(crossing_discriminant(centre, radius, a, b));
    floor_ratio(
        if greater {
            -crossing_b(centre, a, b) + root
        } else {
            -crossing_b(centre, a, b) - root
        },
        2 * crossing_a(a, b),
    )
}

/// The point of the line through `a` and `b` at that place.
pub open spec fn crossing_at(centre: Vector, radius: u32, a: Vector, b: Vector, greater: bool) -> Vector {
    crossing_point(a, b, crossing_place(centre, radius, a, b, greater))
}

/// Whether the greater root of `ax² + bx + c = 0`, or the smaller, lies
/// where the place `at` says, to which it was rounded: the greater root at
/// `at` or less than a unit above it, the smaller root less than a unit from
/// `at`. The root itself is not rounded here.
pub open spec fn root_near(a: int, b: int, d: int, greater: bool, at: int) -> bool {
    if greater {
        root_at_least(a, b, d, true, at) && !root_at_least(a, b, d, true, at + 1)
    } else {
        root_at_least(a, b, d, false, at - 1) && !root_at_least(a, b, d, false, at + 1)
    }
}

/// Whether `p` lies less than three units from the boundary of the circle.
pub open spec fn near_boundary(centre: Vector, radius: u32, p: Vector) -> bool {
    &&& sqr_distance(p, centre) < (radius + 3) * (radius + 3)
    &&& radius >= 3 ==> sqr_distance(p, centre) > (radius - 3) * (radius - 3)
}

/// Whether `p` is the point in which the segment from `a` to `b` crosses the
/// boundary of the circle at the greater place, or at the smaller: the line
/// crosses the boundary on the segment, less than a unit from the place of
/// `p`, and `p` is the point of the line at its place, near the boundary.
pub open spec fn crossed_at(
    centre: Vector,
    radius: u32,
    a: Vector,
    b: Vector,
    greater: bool,
    p: Vector,
) -> bool {
    &&& crosses_within(centre, radius, a, b, greater)
    &&& p == crossing_at(centre, radius, a, b, greater)
    &&& root_near(
        crossing_a(a, b),
        crossing_b(centre, a, b),
        crossing_discriminant(centre, radius, a, b),
        greater,
        crossing_place(centre, radius, a, b, greater),
    )
    &&& near_boundary(centre, radius, p)
}

/// Whether `p` is an end of the segment from `a` to `b` that lies in the
/// circle, or a point in which the segment crosses its boundary.
pub open spec fn met_at(centre: Vector, radius: u32, a: Vector, b: Vector, p: Vector) -> bool {
    ||| (p == a || p == b) && inside_circle(centre, radius, p)
    ||| crossed_at(centre, radius, a, b, true, p)
    ||| crossed_at(centre, radius, a, b, false, p)
}

/// The place to which a root is rounded lies less than a unit from the
/// root.
pub proof fn lemma_rounded_root_near(a: int, b: int, d: int, greater: bool)
    requires
        a > 0,
        d >= 0,
    ensures
        root_near(
            a,
            b,
            d,
            greater,
            floor_ratio(
                if greater {
                    -b + int_sqrt(d)
                } else {
                    -b - int_sqrt(d)
                },
                2 * a,
            ),
        ),
{
    let s = int_sqrt(d);
    crate::numeric::lemma_int_sqrt_exists(d);
    let top = if greater {
        -b + s
    } else {
        -b - s
    };
    let twice = 2 * a;
    let at = top / twice;
    vstd::arithmetic::div_mod::lemma_fundamental_div_mod(top, twice);
    vstd::arithmetic::div_mod::lemma_mod_bound(top, twice);
    let rest = top % twice;
    let slope = 2 * a * at + b;
    assert(twice * at == 2 * a * at) by (nonlinear_arith)
        requires
            twice == 2 * a,
    ;
    assert(2 * a * (at + 1) + b == slope + twice && 2 * a * (at - 1) + b == slope - twice)
        by (nonlinear_arith)
        requires
            slope == 2 * a * at + b,
            twice == 2 * a,
    ;
    assert(slope + rest == top + b);
    if greater {
        // slope <= s < slope + 2a
        if slope > 0 {
            crate::numeric::lemma_square_monotone(slope, s);
        }
        let above = slope + twice;
        crate::numeric::lemma_square_monotone(s + 1, above);
    } else {
        // slope <= -s < slope + 2a
        let below = slope - twice;
        crate::numeric::lemma_square_monotone(s + 1, -below);
        assert((-below) * (-below) == below * below) by (nonlinear_arith);
        let above = slope + twice;
        if above <= 0 {
            crate::numeric::lemma_square_monotone(-above, s - 1);
            assert((-above) * (-above) == above * above) by (nonlinear_arith);
            assert((s - 1) * (s - 1) < s * s) by (nonlinear_arith)
                requires
                    s >= 1,
            ;
        }
    }
}

/// The list `found` with the points in which the segment from `a` to `b`
/// crosses the boundary of the circle, that at the greater place first. Whether
/// the segment reaches as far as the line crosses the boundary is decided
/// exactly; the place is then rounded down.
pub open spec fn crossings(found: Seq<Vector>, centre: Vector, radius: u32, a: Vector, b: Vector) -> Seq<
    Vector,
> {
    match quadratic_solution(
        crossing_a(a, b),
        crossing_b(centre, a, b),
        crossing_c(centre, radius, a, b),
    ) {
        QuadraticSolution::NoRoots => found,
        QuadraticSolution::RepeatedRoot(x) => with_root(
            found,
            a,
            b,
            crosses_within(centre, radius, a, b, true),
            x as int,
        ),
        QuadraticSolution::Roots(x1, x2) => with_root(
            with_root(found, a, b, crosses_within(centre, radius, a, b, true), x1 as int),
            a,
            b,
            crosses_within(centre, radius, a, b, false),
            x2 as int,
        ),
    }
}

/// The points in which the segment from `a` to `b` meets the circle: first
/// its endpoints that lie in the circle, then the points in which it crosses
/// the boundary, none twice and two at most.
pub open spec fn placed_points(centre: Vector, radius: u32, a: Vector, b: Vector) -> Seq<
    Vector,
> {
    crossings(endpoints_inside(centre, radius, a, b), centre, radius, a, b)
}

/// Merging never makes a list of two points at most longer than two points.
pub proof fn lemma_merged_short(found: Seq<Vector>, p: Vector)
    requires
        found.len() <= 2,
    ensures
        merged(found, p).len() <= 2,
        found.len() <= merged(found, p).len(),
        forall|i: int| 0 <= i < found.len() ==> merged(found, p)[i] == found[i],
{
}

/// A root that lies between two whole numbers still lies between them once
/// it is rounded down.
pub proof fn lemma_rounded_root_between(a: int, b: int, d: int, greater: bool, lo: int, hi: int)
    requires
        a > 0,
        d >= 0,
        root_between(a, b, d, greater, lo, hi),
    ensures
        lo <= floor_ratio(
            if greater {
                -b + int_sqrt(d)
            } else {
                -b - int_sqrt(d)
            },
            2 * a,
        ) <= hi,
{
    let s = int_sqrt(d);
    crate::numeric::lemma_int_sqrt_exists(d);
    let low = 2 * a * lo + b;
    let high = 2 * a * hi + b;
    let top = if greater {
        -b + s
    } else {
        -b - s
    };
    // the root of the discriminant, with its sign, lies between the slopes
    let signed = if greater {
        s
    } else {
        -s
    };
    assert(low <= signed) by {
        if greater {
            if low > 0 {
                crate::numeric::lemma_int_sqrt_of_square(low);
                crate::numeric::lemma_int_sqrt_monotone(low * low, d);
            }
        } else {
            crate::numeric::lemma_int_sqrt_of_square(-low);
            assert((-low) * (-low) == low * low) by (nonlinear_arith);
            crate::numeric::lemma_int_sqrt_monotone(d, low * low);
        }
    }
    assert(signed <= high) by {
        if greater {
            crate::numeric::lemma_int_sqrt_of_square(high);
            crate::numeric::lemma_int_sqrt_monotone(d, high * high);
        } else {
            if high < 0 {
                crate::numeric::lemma_int_sqrt_of_square(-high);
                assert((-high) * (-high) == high * high) by (nonlinear_arith);
                crate::numeric::lemma_int_sqrt_monotone(high * high, d);
            }
        }
    }
    let q = top / (2 * a);
    vstd::arithmetic::div_mod::lemma_fundamental_div_mod(top, 2 * a);
    vstd::arithmetic::div_mod::lemma_mod_bound(top, 2 * a);
    let rest = top % (2 * a);
    assert(lo <= q <= hi) by (nonlinear_arith)
        requires
            a > 0,
            top == (2 * a) * q + rest,
            0 <= rest < 2 * a,
            2 * a * lo <= top <= 2 * a * hi,
    ;
}

/// Decides whether the greater root of `ax² + bx + c = 0`, or the smaller,
/// lies between `lo` and `hi`.
fn is_root_between(a: i128, b: i128, d: i128, greater: bool, lo: i128, hi: i128) -> (within: bool)
    requires
        0 < a <= 0x100_0000_0000,
        -0x1000_0000_0000_0000 <= b <= 0x1000_0000_0000_0000,
        0 <= d <= 0x1000_0000_0000_0000_0000_0000_0000_0000,
        -0x4_0000 <= lo <= 0x4_0000,
        -0x4_0000 <= hi <= 0x4_0000,
    ensures
        within == root_between(a as int, b as int, d as int, greater, lo as int, hi as int),
{
    proof {
        lemma_mul_bounds(a as int, lo as int, 0x100_0000_0000, 0x4_0000);
        lemma_mul_bounds(a as int, hi as int, 0x100_0000_0000, 0x4_0000);
        assert(2 * a * lo == 2 * (a * lo)) by (nonlinear_arith);
        assert(2 * a * hi == 2 * (a * hi)) by (nonlinear_arith);
    }
    let low: i128 = 2 * (a * lo) + b;
    let high: i128 = 2 * (a * hi) + b;
    proof {
        lemma_mul_bounds(low as int, low as int, 0x2000_0000_0000_0000, 0x2000_0000_0000_0000);
        lemma_mul_bounds(high as int, high as int, 0x2000_0000_0000_0000, 0x2000_0000_0000_0000);
    }
    if greater {
        (low <= 0 || d >= low * low) && (high >= 0 && d <= high * high)
    } else {
        (low <= 0 && d <= low * low) && (high >= 0 || d >= high * high)
    }
}

/// Puts the point of the line through `a` and `b` at `at` at the end of
/// `found`, where `within` says that it is a point of the segment.
fn add_root(found: &mut Vec<Vector>, a: Vector, b: Vector, within: bool, at: i128)
    requires
        within ==> least_place(a, b) <= at <= greatest_place(a, b),
    ensures
        final(found)@ == with_root(old(found)@, a, b, within, at as int),
        all_boxed(a, b, old(found)@) ==> all_boxed(a, b, final(found)@),
{
    if within {
        if a.x != b.x {
            let (left, right) = if a.x < b.x {
                (a, b)
            } else {
                (b, a)
            };
            let offset: u128 = (at - left.x as i128) as u128;
            let width: u128 = (right.x as i128 - left.x as i128) as u128;
            let point = interpolated(left, right, offset, width);
            proof {
                lemma_interpolate_between(
                    left.x as int,
                    right.x as int,
                    offset as int,
                    width as int,
                );
                lemma_interpolate_between(
                    left.y as int,
                    right.y as int,
                    offset as int,
                    width as int,
                );
            }
            merge(found, point);
        } else {
            merge(found, Vector { x: a.x, y: at as i32 });
        }
    }
}

/// Computes the equation for the places at which the line through `a` and
/// `b` crosses the circle, and the least and the greatest place of the
/// segment.
fn crossing_equation(centre: Vector, radius: u32, a: Vector, b: Vector) -> (equation: (
    i128,
    i128,
    i128,
    i128,
    i128,
))
    requires
        in_reach(centre),
        in_reach(a),
        in_reach(b),
        radius <= RADIUS_LIMIT,
    ensures
        equation.0 == crossing_a(a, b),
        equation.1 == crossing_b(centre, a, b),
        equation.2 == crossing_c(centre, radius, a, b),
        equation.3 == least_place(a, b),
        equation.4 == greatest_place(a, b),
        equation.0 > 0,
        quadratic_in_range(equation.0 as int, equation.1 as int, equation.2 as int),
{
    let r: i128 = radius as i128;
    let cx: i128 = centre.x as i128;
    let cy: i128 = centre.y as i128;
    proof {
        lemma_mul_bounds(r as int, r as int, 0x8_0000, 0x8_0000);
        lemma_mul_bounds(cx as int, cx as int, 0x4_0000, 0x4_0000);
        lemma_mul_bounds(cy as int, cy as int, 0x4_0000, 0x4_0000);
    }
    if a.x != b.x {
        let dx: i128 = b.x as i128 - a.x as i128;
        let dy: i128 = b.y as i128 - a.y as i128;
        let above: i128 = b.y as i128 - centre.y as i128;
        proof {
            lemma_mul_bounds(above as int, dx as int, 0x8_0000, 0x8_0000);
            lemma_mul_bounds(dy as int, b.x as int, 0x8_0000, 0x4_0000);
            lemma_mul_bounds(dx as int, dx as int, 0x8_0000, 0x8_0000);
            lemma_mul_bounds(dy as int, dy as int, 0x8_0000, 0x8_0000);
            assert(dx * dx >= 0) by (nonlinear_arith);
            assert(dy * dy >= 0) by (nonlinear_arith);
            assert(dx != 0 ==> dx * dx > 0) by (nonlinear_arith);
        }
        let offset: i128 = above * dx - dy * b.x as i128;
        let width: i128 = dx * dx;
        proof {
            lemma_mul_bounds(dy as int, offset as int, 0x8_0000, 0x60_0000_0000);
            lemma_mul_bounds(cx as int, width as int, 0x4_0000, 0x40_0000_0000);
            lemma_mul_bounds(cx * cx, width as int, 0x10_0000_0000, 0x40_0000_0000);
            lemma_mul_bounds(offset as int, offset as int, 0x60_0000_0000, 0x60_0000_0000);
            lemma_mul_bounds(r * r, width as int, 0x40_0000_0000, 0x40_0000_0000);
        }
        (
            width + dy * dy,
            2 * (dy * offset - cx * width),
            (cx * cx) * width + offset * offset - (r * r) * width,
            if a.x < b.x {
                a.x as i128
            } else {
                b.x as i128
            },
            if a.x < b.x {
                b.x as i128
            } else {
                a.x as i128
            },
        )
    } else {
        let beside: i128 = a.x as i128 - centre.x as i128;
        proof {
            lemma_mul_bounds(beside as int, beside as int, 0x8_0000, 0x8_0000);
        }
        assert(-0x4_0000 <= cy <= 0x4_0000);
        (
            1,
            0 - 2 * cy,
            cy * cy + beside * beside - r * r,
            if a.y < b.y {
                a.y as i128
            } else {
                b.y as i128
            },
            if a.y < b.y {
                b.y as i128
            } else {
                a.y as i128
            },
        )
    }
}

/// Returns the points in which the line segment from `a` to `b` meets the
/// circle round `centre`: its endpoints that lie in the circle, and the
/// points in which it crosses the boundary.
fn placed_collision(centre: Vector, radius: u32, a: Vector, b: Vector) -> (hit:
    LineCircleCollision)
    requires
        in_reach(centre),
        in_reach(a),
        in_reach(b),
        radius <= RADIUS_LIMIT,
        !steep(a, b),
    ensures
        hit.points() == placed_points(centre, radius, a, b),
        all_boxed(a, b, hit.points()),
        hit is Zero <==> segment_outside(centre, radius, a, b),
        inside_circle(centre, radius, a) && inside_circle(centre, radius, b) && a != b ==> hit
            == LineCircleCollision::Two(a, b),
        inside_circle(centre, radius, a) || inside_circle(centre, radius, b) ==> hit
            != LineCircleCollision::Zero,
        !inside_circle(centre, radius, a) && !inside_circle(centre, radius, b)
            && !crosses_within(centre, radius, a, b, true) && !crosses_within(
            centre,
            radius,
            a,
            b,
            false,
        ) ==> hit == LineCircleCollision::Zero,
        !inside_circle(centre, radius, a) && !inside_circle(centre, radius, b)
            && crossing_discriminant(centre, radius, a, b) == 0 && crosses_within(
            centre,
            radius,
            a,
            b,
            true,
        ) ==> hit == LineCircleCollision::One(crossing_at(centre, radius, a, b, true)),
        !inside_circle(centre, radius, a) && !inside_circle(centre, radius, b)
            && crossing_discriminant(centre, radius, a, b) > 0 && crosses_within(
            centre,
            radius,
            a,
            b,
            true,
        ) && crosses_within(centre, radius, a, b, false) && crossing_at(centre, radius, a, b, true)
            != crossing_at(centre, radius, a, b, false) ==> hit == LineCircleCollision::Two(
            crossing_at(centre, radius, a, b, true),
            crossing_at(centre, radius, a, b, false),
        ),
        !inside_circle(centre, radius, a) && !inside_circle(centre, radius, b)
            && crossing_discriminant(centre, radius, a, b) > 0 && crosses_within(
            centre,
            radius,
            a,
            b,
            true,
        ) && crosses_within(centre, radius, a, b, false) && crossing_at(centre, radius, a, b, true)
            == crossing_at(centre, radius, a, b, false) ==> hit == LineCircleCollision::One(
            crossing_at(centre, radius, a, b, true),
        ),
        forall|i: int|
            0 <= i < hit.points().len() ==> met_at(centre, radius, a, b, #[trigger] hit.points()[i]),
{
    let mut collisions: Vec<Vector> = Vec::with_capacity(2);
    if point_circle_collision(centre, radius, a).is_some() {
        collisions.push(a);
    }
    if point_circle_collision(centre, radius, b).is_some() {
        merge(&mut collisions, b);
    }
    let ghost ends = collisions@;
    proof {
        assert(ends =~= endpoints_inside(centre, radius, a, b));
        if inside_circle(centre, radius, a) && inside_circle(centre, radius, b) && a != b {
            assert(ends =~= seq![a, b]);
        }
    }
    let (qa, qb, qc, lo, hi) = crossing_equation(centre, radius, a, b);
    proof {
        lemma_mul_bounds(qb as int, qb as int, 0x1000_0000_0000_0000, 0x1000_0000_0000_0000);
        lemma_mul_bounds(qa as int, qc as int, 0x100_0000_0000, 0x1_0000_0000_0000_0000_0000);
        assert(4 * qa * qc == 4 * (qa * qc)) by (nonlinear_arith);
    }
    let d: i128 = qb * qb - 4 * (qa * qc);
    match quadratic(qa, qb, qc) {
        QuadraticSolution::NoRoots => {},
        QuadraticSolution::RepeatedRoot(x) => {
            let within = is_root_between(qa, qb, d, true, lo, hi);
            proof {
                if within {
                    lemma_rounded_root_between(
                        qa as int,
                        qb as int,
                        d as int,
                        true,
                        lo as int,
                        hi as int,
                    );
                    crate::numeric::lemma_int_sqrt_is(0, 0);
                }
            }
            add_root(&mut collisions, a, b, within, x);
        },
        QuadraticSolution::Roots(x1, x2) => {
            let first = is_root_between(qa, qb, d, true, lo, hi);
            let second = is_root_between(qa, qb, d, false, lo, hi);
            proof {
                if first {
                    lemma_rounded_root_between(
                        qa as int,
                        qb as int,
                        d as int,
                        true,
                        lo as int,
                        hi as int,
                    );
                }
                if second {
                    lemma_rounded_root_between(
                        qa as int,
                        qb as int,
                        d as int,
                        false,
                        lo as int,
                        hi as int,
                    );
                }
            }
            add_root(&mut collisions, a, b, first, x1);
            add_root(&mut collisions, a, b, second, x2);
        },
    }
    proof {
        assert(collisions@ == placed_points(centre, radius, a, b));
        assert(ends.len() <= 2);
        assert(all_boxed(a, b, ends));
        lemma_placed_points(centre, radius, a, b);
        lemma_misses_where_outside_placed(centre, radius, a, b);
        if d >= 0 {
            lemma_rounded_root_near(qa as int, qb as int, d as int, true);
            lemma_rounded_root_near(qa as int, qb as int, d as int, false);
            if crosses_within(centre, radius, a, b, true) {
                lemma_rounded_root_between(
                    qa as int,
                    qb as int,
                    d as int,
                    true,
                    lo as int,
                    hi as int,
                );
                lemma_crossing_near_circle(centre, radius, a, b, true);
                if radius >= 3 {
                    lemma_crossing_far_from_centre(centre, radius, a, b, true);
                }
            }
            if crosses_within(centre, radius, a, b, false) {
                lemma_rounded_root_between(
                    qa as int,
                    qb as int,
                    d as int,
                    false,
                    lo as int,
                    hi as int,
                );
                lemma_crossing_near_circle(centre, radius, a, b, false);
                if radius >= 3 {
                    lemma_crossing_far_from_centre(centre, radius, a, b, false);
                }
            }
        }
        assert forall|i: int| 0 <= i < ends.len() implies met_at(
            centre,
            radius,
            a,
            b,
            #[trigger] ends[i],
        ) by {}
        assert forall|i: int| 0 <= i < collisions@.len() implies met_at(
            centre,
            radius,
            a,
            b,
            #[trigger] collisions@[i],
        ) by {
            if i < ends.len() {
                assert(collisions@[i] == ends[i]);
            }
        }
    }
    match LineCircleCollision::from_vec(collisions) {
        Some(hit) => {
            proof {
                assert(hit.points() =~= placed_points(centre, radius, a, b));
            }
            hit
        },
        None => LineCircleCollision::Zero,
    }
}

/// The points in which a segment meets a circle are two at most, and begin
/// with the endpoints that lie in the circle.
proof fn lemma_placed_points(centre: Vector, radius: u32, a: Vector, b: Vector)
    ensures
        placed_points(centre, radius, a, b).len() <= 2,
        endpoints_inside(centre, radius, a, b).len() <= placed_points(
            centre,
            radius,
            a,
            b,
        ).len(),
        forall|i: int|
            0 <= i < endpoints_inside(centre, radius, a, b).len() ==> placed_points(
                centre,
                radius,
                a,
                b,
            )[i] == endpoints_inside(centre, radius, a, b)[i],
{
    let ends = endpoints_inside(centre, radius, a, b);
    assert(ends.len() <= 2);
    match quadratic_solution(
        crossing_a(a, b),
        crossing_b(centre, a, b),
        crossing_c(centre, radius, a, b),
    ) {
        QuadraticSolution::NoRoots => {},
        QuadraticSolution::RepeatedRoot(x) => {
            lemma_merged_short(ends, crossing_point(a, b, x as int));
        },
        QuadraticSolution::Roots(x1, x2) => {
            lemma_merged_short(ends, crossing_point(a, b, x1 as int));
            let once = with_root(
                ends,
                a,
                b,
                crosses_within(centre, radius, a, b, true),
                x1 as int,
            );
            lemma_merged_short(once, crossing_point(a, b, x2 as int));
        },
    }
}

/// Whether the point of the segment from `a` to `b` that lies `part` of
/// `whole` parts of the way from `a` to `b` lies in the circle, its boundary
/// included.
pub open spec fn segment_point_inside(
    centre: Vector,
    radius: u32,
    a: Vector,
    b: Vector,
    part: int,
    whole: int,
) -> bool {
    &&& whole > 0
    &&& 0 <= part <= whole
    &&& (whole * (a.x - centre.x) + part * (b.x - a.x)) * (whole * (a.x - centre.x) + part * (b.x
        - a.x)) + (whole * (a.y - centre.y) + part * (b.y - a.y)) * (whole * (a.y - centre.y)
        + part * (b.y - a.y)) <= (radius * radius) * (whole * whole)
}

/// Whether the segment from `a` to `b` lies outside the circle: none of the
/// points that divide it in a ratio of whole numbers lies in the circle.
pub open spec fn segment_outside(centre: Vector, radius: u32, a: Vector, b: Vector) -> bool {
    forall|part: int, whole: int| !#[trigger] segment_point_inside(centre, radius, a, b, part, whole)
}

/// The square of a product is the product of the squares.
proof fn lemma_product_square(x: int, y: int)
    ensures
        (x * y) * (x * y) == (x * x) * (y * y),
{
    assert((x * y) * (x * y) == (x * x) * (y * y)) by (nonlinear_arith);
}

/// The product of two products is the product of the products of their
/// factors, taken crosswise.
proof fn lemma_product_swap(x: int, y: int, z: int, w: int)
    ensures
        (x * y) * (z * w) == (x * z) * (y * w),
{
    assert((x * y) * (z * w) == (x * z) * (y * w)) by (nonlinear_arith);
}

/// Four times the leading coefficient times the value of a quadratic is the
/// square of its slope less the discriminant.
proof fn lemma_slope_square(a: int, b: int, c: int, x: int)
    ensures
        4 * a * (a * (x * x) + b * x + c) == (2 * a * x + b) * (2 * a * x + b) - discriminant(
            a,
            b,
            c,
        ),
{
    let xx = x * x;
    let ax = a * x;
    assert(a * xx == ax * x) by (nonlinear_arith)
        requires
            xx == x * x,
            ax == a * x,
    ;
    assert(2 * a * x == 2 * ax) by (nonlinear_arith)
        requires
            ax == a * x,
    ;
    assert((2 * ax + b) * (2 * ax + b) == 4 * (ax * ax) + 4 * (ax * b) + b * b)
        by (nonlinear_arith);
    assert(4 * a * (ax * x + b * x + c) == 4 * (ax * ax) + 4 * (ax * b) + 4 * a * c)
        by (nonlinear_arith)
        requires
            ax == a * x,
    ;
}

/// The same of a quadratic in a place given as `x` of `w` parts, all of it
/// times the square of `w`.
proof fn lemma_slope_square_of_ratio(a: int, b: int, c: int, x: int, w: int)
    ensures
        4 * a * (a * (x * x) + b * (x * w) + c * (w * w)) == (2 * a * x + b * w) * (2 * a * x + b
            * w) - discriminant(a, b, c) * (w * w),
{
    let bw = b * w;
    let cww = c * (w * w);
    lemma_slope_square(a, bw, cww, x);
    assert(bw * x == b * (x * w)) by (nonlinear_arith)
        requires
            bw == b * w,
    ;
    lemma_product_square(b, w);
    let ww = w * w;
    let ac = a * c;
    assert(4 * a * cww == 4 * ac * ww) by (nonlinear_arith)
        requires
            cww == c * ww,
            ac == a * c,
    ;
    let bb = b * b;
    assert((bb - 4 * ac) * ww == bb * ww - 4 * ac * ww) by (nonlinear_arith);
    assert(4 * a * c == 4 * ac) by (nonlinear_arith)
        requires
            ac == a * c,
    ;
    assert(discriminant(a, bw, cww) == discriminant(a, b, c) * ww);
}

/// The equation for the places at which a line crosses the circle tells how
/// far from the circle each point of the line is: for the point that lies
/// `part` of `whole` parts of the way from `a` to `b`, the square of its
/// distance from the centre less the square of the radius, times the square of
/// `whole`, and for a line that is not upright times the square of its width,
/// is the value of the equation at `whole` times the place of the point.
proof fn lemma_line_equation(
    centre: Vector,
    radius: u32,
    a: Vector,
    b: Vector,
    part: int,
    whole: int,
)
    ensures
        ({
            let place = if a.x != b.x {
                whole * a.x + part * (b.x - a.x)
            } else {
                whole * a.y + part * (b.y - a.y)
            };
            let scale = if a.x != b.x {
                (b.x - a.x) * (b.x - a.x)
            } else {
                1
            };
            let across = whole * (a.x - centre.x) + part * (b.x - a.x);
            let up = whole * (a.y - centre.y) + part * (b.y - a.y);
            scale * (across * across + up * up - (radius * radius) * (whole * whole)) == crossing_a(
                a,
                b,
            ) * (place * place) + crossing_b(centre, a, b) * (place * whole) + crossing_c(
                centre,
                radius,
                a,
                b,
            ) * (whole * whole)
        }),
{
    let cx = centre.x as int;
    let cy = centre.y as int;
    let dx = b.x - a.x;
    let dy = b.y - a.y;
    let rr = radius * radius;
    let q = whole;
    let qq = whole * whole;
    let across = whole * (a.x - centre.x) + part * dx;
    let up = whole * (a.y - centre.y) + part * dy;
    if a.x != b.x {
        let place = whole * a.x + part * dx;
        let k = crossing_offset(centre, a, b);
        let m = dx * dx;
        let n = dy * dy;
        // the point lies `across` beside the centre, and `rise / dx` above it
        let rise = dy * place + k * q;
        assert(across == place - q * cx) by (nonlinear_arith)
            requires
                across == q * (a.x - cx) + part * dx,
                place == q * a.x + part * dx,
        ;
        assert(dx * up == rise) by (nonlinear_arith)
            requires
                up == q * (a.y - cy) + part * dy,
                rise == dy * place + k * q,
                place == q * a.x + part * dx,
                k == (b.y - cy) * dx - dy * b.x,
                dx == b.x - a.x,
                dy == b.y - a.y,
        ;
        assert(m * (up * up) == rise * rise) by (nonlinear_arith)
            requires
                dx * up == rise,
                m == dx * dx,
        ;
        let pp = place * place;
        let pq = place * q;
        assert(across * across == pp - 2 * (cx * pq) + (cx * cx) * qq) by (nonlinear_arith)
            requires
                across == place - q * cx,
                pp == place * place,
                pq == place * q,
                qq == q * q,
        ;
        let steep = dy * place;
        let level = k * q;
        lemma_product_square(dy, place);
        lemma_product_square(k, q);
        lemma_product_swap(dy, place, k, q);
        assert(rise * rise == steep * steep + 2 * (steep * level) + level * level)
            by (nonlinear_arith)
            requires
                rise == steep + level,
        ;
        assert(rise * rise == n * pp + 2 * ((dy * k) * pq) + (k * k) * qq);
        let left = m * (across * across + up * up - rr * qq);
        assert(left == m * (across * across) + m * (up * up) - m * (rr * qq)) by (nonlinear_arith)
            requires
                left == m * (across * across + up * up - rr * qq),
        ;
        assert(m * (across * across) == m * pp - 2 * ((cx * m) * pq) + ((cx * cx) * m) * qq)
            by (nonlinear_arith)
            requires
                across * across == pp - 2 * (cx * pq) + (cx * cx) * qq,
        ;
        assert(m * (rr * qq) == (rr * m) * qq) by (nonlinear_arith);
        let qa = crossing_a(a, b);
        let qb = crossing_b(centre, a, b);
        let qc = crossing_c(centre, radius, a, b);
        assert(qa * pp == m * pp + n * pp) by (nonlinear_arith)
            requires
                qa == m + n,
        ;
        assert(qb * pq == 2 * ((dy * k) * pq) - 2 * ((cx * m) * pq)) by (nonlinear_arith)
            requires
                qb == 2 * (dy * k - cx * m),
        ;
        assert(qc * qq == ((cx * cx) * m) * qq + (k * k) * qq - (rr * m) * qq) by (nonlinear_arith)
            requires
                qc == (cx * cx) * m + k * k - rr * m,
        ;
    } else {
        let place = whole * a.y + part * dy;
        let beside = a.x - cx;
        assert(across == q * beside);
        assert(up == place - q * cy) by (nonlinear_arith)
            requires
                up == q * (a.y - cy) + part * dy,
                place == q * a.y + part * dy,
        ;
        let pp = place * place;
        let pq = place * q;
        assert(across * across == (beside * beside) * qq) by (nonlinear_arith)
            requires
                across == q * beside,
                qq == q * q,
        ;
        assert(up * up == pp - 2 * (cy * pq) + (cy * cy) * qq) by (nonlinear_arith)
            requires
                up == place - q * cy,
                pp == place * place,
                pq == place * q,
                qq == q * q,
        ;
        let qc = crossing_c(centre, radius, a, b);
        assert(qc * qq == (cy * cy) * qq + (beside * beside) * qq - rr * qq) by (nonlinear_arith)
            requires
                qc == cy * cy + beside * beside - rr,
        ;
        assert((-2 * cy) * pq == -2 * (cy * pq)) by (nonlinear_arith);
    }
}

/// A segment that lies outside the circle does not meet it.
proof fn lemma_outside_misses_placed(centre: Vector, radius: u32, a: Vector, b: Vector)
    requires
        segment_outside(centre, radius, a, b),
    ensures
        placed_points(centre, radius, a, b).len() == 0,
{
    let qa = crossing_a(a, b);
    let qb = crossing_b(centre, a, b);
    let qc = crossing_c(centre, radius, a, b);
    let d = crossing_discriminant(centre, radius, a, b);
    let rr = radius * radius;
    let scale = if a.x != b.x {
        (b.x - a.x) * (b.x - a.x)
    } else {
        1
    };
    let from = if a.x != b.x {
        a.x as int
    } else {
        a.y as int
    };
    let to = if a.x != b.x {
        b.x as int
    } else {
        b.y as int
    };
    assert(scale > 0 && qa > 0) by (nonlinear_arith)
        requires
            scale == if a.x != b.x {
                (b.x - a.x) * (b.x - a.x)
            } else {
                1
            },
            qa == if a.x != b.x {
                (b.x - a.x) * (b.x - a.x) + (b.y - a.y) * (b.y - a.y)
            } else {
                1
            },
    ;
    // neither end lies in the circle
    assert(!segment_point_inside(centre, radius, a, b, 0, 1));
    assert(!segment_point_inside(centre, radius, a, b, 1, 1));
    assert(!inside_circle(centre, radius, a));
    assert(!inside_circle(centre, radius, b));
    assert(endpoints_inside(centre, radius, a, b) =~= Seq::empty());
    // so the equation is positive at both ends
    lemma_line_equation(centre, radius, a, b, 0, 1);
    lemma_line_equation(centre, radius, a, b, 1, 1);
    let at_from = qa * (from * from) + qb * from + qc;
    let at_to = qa * (to * to) + qb * to + qc;
    assert(at_from > 0) by (nonlinear_arith)
        requires
            scale > 0,
            scale * (sqr_distance(a, centre) - rr) == qa * (from * from) + qb * (from * 1) + qc * (
            1 * 1),
            sqr_distance(a, centre) > rr,
            at_from == qa * (from * from) + qb * from + qc,
    ;
    assert(at_to > 0) by (nonlinear_arith)
        requires
            scale > 0,
            scale * (sqr_distance(b, centre) - rr) == qa * (to * to) + qb * (to * 1) + qc * (1 * 1),
            sqr_distance(b, centre) > rr,
            at_to == qa * (to * to) + qb * to + qc,
    ;
    lemma_slope_square(qa, qb, qc, from);
    lemma_slope_square(qa, qb, qc, to);
    let slope_from = 2 * qa * from + qb;
    let slope_to = 2 * qa * to + qb;
    assert(slope_from * slope_from > d && slope_to * slope_to > d) by (nonlinear_arith)
        requires
            qa > 0,
            at_from > 0,
            at_to > 0,
            4 * qa * at_from == slope_from * slope_from - d,
            4 * qa * at_to == slope_to * slope_to - d,
    ;
    if d >= 0 && (crosses_within(centre, radius, a, b, true) || crosses_within(
        centre,
        radius,
        a,
        b,
        false,
    )) {
        // the segment reaches from one side of the middle of the chord to the
        // other, and the middle of the chord lies in the circle
        let lo = least_place(a, b);
        let hi = greatest_place(a, b);
        let slope_lo = 2 * qa * lo + qb;
        let slope_hi = 2 * qa * hi + qb;
        assert(slope_lo * slope_lo > d && slope_hi * slope_hi > d);
        assert(slope_lo <= 0 && slope_hi >= 0);
        let part = if from < to {
            -slope_from
        } else {
            slope_from
        };
        let whole = if from < to {
            2 * qa * (to - from)
        } else {
            2 * qa * (from - to)
        };
        assert(from != to) by {
            if from == to {
                assert(slope_lo == slope_hi);
                assert(slope_lo * slope_lo > 0) by (nonlinear_arith)
                    requires
                        slope_lo * slope_lo > d,
                        d >= 0,
                ;
            }
        }
        assert(whole > 0 && slope_to == slope_from + 2 * qa * (to - from)) by (nonlinear_arith)
            requires
                qa > 0,
                from != to,
                whole == if from < to {
                    2 * qa * (to - from)
                } else {
                    2 * qa * (from - to)
                },
                slope_from == 2 * qa * from + qb,
                slope_to == 2 * qa * to + qb,
        ;
        assert(2 * qa * (from - to) == -(2 * qa * (to - from))) by (nonlinear_arith);
        if from < to {
            assert(lo == from && hi == to);
            assert(slope_lo == slope_from && slope_hi == slope_to);
        } else {
            assert(lo == to && hi == from);
            assert(slope_lo == slope_to && slope_hi == slope_from);
        }
        assert(0 <= part <= whole);
        lemma_line_equation(centre, radius, a, b, part, whole);
        let place = whole * from + part * (to - from);
        let sign = if from < to {
            to - from
        } else {
            from - to
        };
        assert(place == -qb * sign && whole == 2 * qa * sign) by (nonlinear_arith)
            requires
                place == whole * from + part * (to - from),
                whole == 2 * qa * sign,
                part == if from < to {
                    -(2 * qa * from + qb)
                } else {
                    2 * qa * from + qb
                },
                sign == if from < to {
                    to - from
                } else {
                    from - to
                },
        ;
        let value = qa * (place * place) + qb * (place * whole) + qc * (whole * whole);
        // the slope is level there
        let slope = 2 * qa * place + qb * whole;
        let twice = 2 * qa;
        assert(twice * place == -(qb * whole)) by (nonlinear_arith)
            requires
                place == -qb * sign,
                whole == twice * sign,
        ;
        assert(slope == 0);
        lemma_slope_square_of_ratio(qa, qb, qc, place, whole);
        let ww = whole * whole;
        assert(slope * slope == 0) by (nonlinear_arith)
            requires
                slope == 0,
        ;
        assert(4 * qa * value == slope * slope - d * ww);
        assert(value <= 0) by (nonlinear_arith)
            requires
                4 * qa * value == 0 - d * ww,
                ww == whole * whole,
                qa > 0,
                d >= 0,
        ;
        let across = whole * (a.x - centre.x) + part * (b.x - a.x);
        let up = whole * (a.y - centre.y) + part * (b.y - a.y);
        assert(across * across + up * up <= rr * (whole * whole)) by (nonlinear_arith)
            requires
                scale > 0,
                scale * (across * across + up * up - rr * (whole * whole)) == value,
                value <= 0,
        ;
        assert(segment_point_inside(centre, radius, a, b, part, whole));
        assert(false);
    }
}

/// A segment of which a point lies in the circle meets it.
proof fn lemma_inside_meets_placed(
    centre: Vector,
    radius: u32,
    a: Vector,
    b: Vector,
    part: int,
    whole: int,
)
    requires
        segment_point_inside(centre, radius, a, b, part, whole),
    ensures
        placed_points(centre, radius, a, b).len() > 0,
{
    lemma_placed_points(centre, radius, a, b);
    if !inside_circle(centre, radius, a) && !inside_circle(centre, radius, b) {
        let qa = crossing_a(a, b);
        let qb = crossing_b(centre, a, b);
        let qc = crossing_c(centre, radius, a, b);
        let d = crossing_discriminant(centre, radius, a, b);
        let rr = radius * radius;
        let scale = if a.x != b.x {
            (b.x - a.x) * (b.x - a.x)
        } else {
            1
        };
        let from = if a.x != b.x {
            a.x as int
        } else {
            a.y as int
        };
        let to = if a.x != b.x {
            b.x as int
        } else {
            b.y as int
        };
        assert(scale > 0 && qa > 0) by (nonlinear_arith)
            requires
                scale == if a.x != b.x {
                    (b.x - a.x) * (b.x - a.x)
                } else {
                    1
                },
                qa == if a.x != b.x {
                    (b.x - a.x) * (b.x - a.x) + (b.y - a.y) * (b.y - a.y)
                } else {
                    1
                },
        ;
        // the equation is positive at both ends, and not at the point
        lemma_line_equation(centre, radius, a, b, 0, 1);
        lemma_line_equation(centre, radius, a, b, 1, 1);
        lemma_line_equation(centre, radius, a, b, part, whole);
        let at_from = qa * (from * from) + qb * from + qc;
        let at_to = qa * (to * to) + qb * to + qc;
        assert(at_from > 0) by (nonlinear_arith)
            requires
                scale > 0,
                scale * (sqr_distance(a, centre) - rr) == qa * (from * from) + qb * (from * 1) + qc
                    * (1 * 1),
                sqr_distance(a, centre) > rr,
                at_from == qa * (from * from) + qb * from + qc,
        ;
        assert(at_to > 0) by (nonlinear_arith)
            requires
                scale > 0,
                scale * (sqr_distance(b, centre) - rr) == qa * (to * to) + qb * (to * 1) + qc * (1
                    * 1),
                sqr_distance(b, centre) > rr,
                at_to == qa * (to * to) + qb * to + qc,
        ;
        let place = whole * from + part * (to - from);
        let value = qa * (place * place) + qb * (place * whole) + qc * (whole * whole);
        let across = whole * (a.x - centre.x) + part * (b.x - a.x);
        let up = whole * (a.y - centre.y) + part * (b.y - a.y);
        assert(value <= 0) by (nonlinear_arith)
            requires
                scale > 0,
                scale * (across * across + up * up - rr * (whole * whole)) == value,
                across * across + up * up <= rr * (whole * whole),
        ;
        lemma_slope_square(qa, qb, qc, from);
        lemma_slope_square(qa, qb, qc, to);
        let slope_from = 2 * qa * from + qb;
        let slope_to = 2 * qa * to + qb;
        assert(slope_from * slope_from > d && slope_to * slope_to > d) by (nonlinear_arith)
            requires
                qa > 0,
                at_from > 0,
                at_to > 0,
                4 * qa * at_from == slope_from * slope_from - d,
                4 * qa * at_to == slope_to * slope_to - d,
        ;
        // the slope at the point, times `whole`
        let slope = 2 * qa * place + qb * whole;
        let ww = whole * whole;
        lemma_slope_square_of_ratio(qa, qb, qc, place, whole);
        assert(slope * slope - d * ww == 4 * qa * value);
        assert(slope * slope <= d * ww && d >= 0) by (nonlinear_arith)
            requires
                slope * slope - d * ww == 4 * qa * value,
                qa > 0,
                value <= 0,
                ww == whole * whole,
                whole > 0,
        ;
        // the slope at the point lies between the slopes at the ends
        let steep = 2 * qa;
        let step = to - from;
        assert(steep * place == whole * (steep * from) + part * (steep * step))
            by (nonlinear_arith)
            requires
                place == whole * from + part * step,
        ;
        assert(steep * step == slope_to - slope_from) by (nonlinear_arith)
            requires
                step == to - from,
                slope_from == steep * from + qb,
                slope_to == steep * to + qb,
        ;
        assert(whole * slope_from == whole * (steep * from) + qb * whole) by (nonlinear_arith)
            requires
                slope_from == steep * from + qb,
        ;
        assert(slope == whole * slope_from + part * (slope_to - slope_from));
        let lo = least_place(a, b);
        let hi = greatest_place(a, b);
        let slope_lo = 2 * qa * lo + qb;
        let slope_hi = 2 * qa * hi + qb;
        assert(slope_lo <= slope_hi) by (nonlinear_arith)
            requires
                qa > 0,
                lo <= hi,
                slope_lo == 2 * qa * lo + qb,
                slope_hi == 2 * qa * hi + qb,
        ;
        if from <= to {
            assert(lo == from && hi == to);
            assert(slope_lo == slope_from && slope_hi == slope_to);
        } else {
            assert(lo == to && hi == from);
            assert(slope_lo == slope_to && slope_hi == slope_from);
        }
        assert(whole * slope_lo <= slope <= whole * slope_hi) by (nonlinear_arith)
            requires
                slope == whole * slope_from + part * (slope_to - slope_from),
                0 <= part <= whole,
                (slope_lo == slope_from && slope_hi == slope_to) || (slope_lo == slope_to
                    && slope_hi == slope_from),
                slope_lo <= slope_hi,
        ;
        assert(slope_lo <= 0) by (nonlinear_arith)
            requires
                whole > 0,
                whole * slope_lo <= slope,
                slope * slope <= d * ww,
                slope_lo * slope_lo > d,
                d >= 0,
                ww == whole * whole,
        ;
        assert(slope_hi >= 0) by (nonlinear_arith)
            requires
                whole > 0,
                slope <= whole * slope_hi,
                slope * slope <= d * ww,
                slope_hi * slope_hi > d,
                d >= 0,
                ww == whole * whole,
        ;
        assert(crosses_within(centre, radius, a, b, true));
    }
}

/// A segment misses a circle exactly where it lies outside it.
proof fn lemma_misses_where_outside_placed(centre: Vector, radius: u32, a: Vector, b: Vector)
    ensures
        placed_points(centre, radius, a, b).len() == 0 <==> segment_outside(
            centre,
            radius,
            a,
            b,
        ),
{
    if segment_outside(centre, radius, a, b) {
        lemma_outside_misses_placed(centre, radius, a, b);
    } else {
        let (part, whole) = choose|part: int, whole: int| #[trigger]
            segment_point_inside(centre, radius, a, b, part, whole);
        lemma_inside_meets_placed(centre, radius, a, b, part, whole);
    }
}

/// The value of `ax² + bx + c` at the place to which a root is rounded is
/// less than the root of the discriminant, rounded down, and `a` together.
proof fn lemma_value_at_rounded_root(a: int, b: int, c: int, greater: bool)
    requires
        a > 0,
        discriminant(a, b, c) >= 0,
    ensures
        ({
            let s = int_sqrt(discriminant(a, b, c));
            let at = floor_ratio(
                if greater {
                    -b + s
                } else {
                    -b - s
                },
                2 * a,
            );
            a * (at * at) + b * at + c < s + a
        }),
{
    let d = discriminant(a, b, c);
    let s = int_sqrt(d);
    crate::numeric::lemma_int_sqrt_exists(d);
    let top = if greater {
        -b + s
    } else {
        -b - s
    };
    let twice = 2 * a;
    let at = top / twice;
    vstd::arithmetic::div_mod::lemma_fundamental_div_mod(top, twice);
    vstd::arithmetic::div_mod::lemma_mod_bound(top, twice);
    let rest = top % twice;
    let slope = 2 * a * at + b;
    assert(twice * at == 2 * a * at) by (nonlinear_arith)
        requires
            twice == 2 * a,
    ;
    assert(slope + rest == top + b);
    // the slope lies less than `s + 2a` from nothing
    let reach = s + twice;
    assert(-reach < slope < reach);
    let size = if slope >= 0 {
        slope
    } else {
        -slope
    };
    crate::numeric::lemma_square_monotone(size, reach - 1);
    assert(size * size == slope * slope) by (nonlinear_arith)
        requires
            size == slope || size == -slope,
    ;
    let value = a * (at * at) + b * at + c;
    lemma_slope_square(a, b, c, at);
    assert(4 * a * value == slope * slope - d);
    assert((reach - 1) * (reach - 1) < s * s + 4 * a * (s + a)) by (nonlinear_arith)
        requires
            reach == s + 2 * a,
            a > 0,
            s >= 0,
    ;
    assert(value < s + a) by (nonlinear_arith)
        requires
            4 * a * value < 4 * a * (s + a),
            a > 0,
    ;
}

/// The discriminant of `ax² + bx + c` is no more than the square of `a` and
/// `4a` times what the value lies below nothing at the whole place nearest to
/// the least value.
proof fn lemma_discriminant_bound(a: int, b: int, c: int, low: int)
    requires
        a > 0,
        ({
            let at = (a - b) / (2 * a);
            a * (at * at) + b * at + c >= -low
        }),
    ensures
        discriminant(a, b, c) <= a * a + 4 * a * low,
{
    let d = discriminant(a, b, c);
    let top = a - b;
    let twice = 2 * a;
    let at = top / twice;
    vstd::arithmetic::div_mod::lemma_fundamental_div_mod(top, twice);
    vstd::arithmetic::div_mod::lemma_mod_bound(top, twice);
    let rest = top % twice;
    let slope = 2 * a * at + b;
    assert(twice * at == 2 * a * at) by (nonlinear_arith)
        requires
            twice == 2 * a,
    ;
    assert(slope + rest == a);
    assert(-a < slope <= a);
    let size = if slope >= 0 {
        slope
    } else {
        -slope
    };
    crate::numeric::lemma_square_monotone(size, a);
    assert(size * size == slope * slope) by (nonlinear_arith)
        requires
            size == slope || size == -slope,
    ;
    let value = a * (at * at) + b * at + c;
    lemma_slope_square(a, b, c, at);
    assert(4 * a * value >= -(4 * a * low)) by (nonlinear_arith)
        requires
            value >= -low,
            a > 0,
    ;
}

/// The value at `x` of the equation for the places at which the line
/// through `a` and `b`, which is not upright, crosses the circle: the square
/// of the distance from the centre to the point of the line above `x`, less
/// the square of the radius, times the square of the width of the segment.
proof fn lemma_value_at_place(centre: Vector, radius: u32, a: Vector, b: Vector, x: int)
    requires
        a.x != b.x,
    ensures
        ({
            let dx = b.x - a.x;
            let rise = dx * (a.y - centre.y) + (x - a.x) * (b.y - a.y);
            crossing_a(a, b) * (x * x) + crossing_b(centre, a, b) * x + crossing_c(
                centre,
                radius,
                a,
                b,
            ) == (dx * dx) * ((x - centre.x) * (x - centre.x)) + rise * rise - (radius * radius)
                * (dx * dx)
        }),
{
    let dx = b.x - a.x;
    let w2 = dx * dx;
    let rr = radius * radius;
    let qa = crossing_a(a, b);
    let qb = crossing_b(centre, a, b);
    let qc = crossing_c(centre, radius, a, b);
    let part = x - a.x;
    lemma_line_equation(centre, radius, a, b, part, dx);
    let place = dx * a.x + part * dx;
    let across = dx * (a.x - centre.x) + part * dx;
    let rise = dx * (a.y - centre.y) + part * (b.y - a.y);
    let beside = x - centre.x;
    assert(place == dx * x) by (nonlinear_arith)
        requires
            place == dx * a.x + part * dx,
            part == x - a.x,
    ;
    assert(across == dx * beside) by (nonlinear_arith)
        requires
            across == dx * (a.x - centre.x) + part * dx,
            part == x - a.x,
            beside == x - centre.x,
    ;
    lemma_product_square(dx, x);
    lemma_product_square(dx, beside);
    let xx = x * x;
    assert(place * dx == w2 * x) by (nonlinear_arith)
        requires
            place == dx * x,
            w2 == dx * dx,
    ;
    let value = qa * xx + qb * x + qc;
    assert(qa * (place * place) + qb * (place * dx) + qc * (dx * dx) == w2 * value)
        by (nonlinear_arith)
        requires
            place * place == w2 * xx,
            place * dx == w2 * x,
            dx * dx == w2,
            value == qa * xx + qb * x + qc,
    ;
    let other = w2 * (beside * beside) + rise * rise - rr * w2;
    assert(w2 * other == w2 * value);
    assert(w2 > 0) by (nonlinear_arith)
        requires
            w2 == dx * dx,
            dx != 0,
    ;
    assert(other == value) by (nonlinear_arith)
        requires
            w2 * other == w2 * value,
            w2 > 0,
    ;
}

/// Rounding a height down moves a point by less than a unit: where `base`
/// and the square of `t` together lie below the square of `w` times `lim`, and
/// `wv` lies less than `w` below `t`, `base` and the square of `wv` together
/// lie below the square of `w` times `lim + 1`.
proof fn lemma_rounded_down_height(base: int, t: int, w: int, wv: int, lim: int)
    requires
        w > 0,
        lim >= 0,
        base >= 0,
        t - w < wv <= t,
        base + t * t < (w * w) * (lim * lim),
    ensures
        base + wv * wv < (w * w) * ((lim + 1) * (lim + 1)),
{
    let size = if t >= 0 {
        t
    } else {
        -t
    };
    let reach = w * lim;
    assert(size * size == t * t) by (nonlinear_arith)
        requires
            size == t || size == -t,
    ;
    lemma_product_square(w, lim);
    assert(reach >= 0) by (nonlinear_arith)
        requires
            reach == w * lim,
            w > 0,
            lim >= 0,
    ;
    if size >= reach {
        crate::numeric::lemma_square_monotone(reach, size);
        assert(false);
    }
    let rest = t - wv;
    assert(wv * wv == t * t - 2 * (t * rest) + rest * rest) by (nonlinear_arith)
        requires
            rest == t - wv,
    ;
    assert(-(reach * w) <= t * rest <= reach * w) by (nonlinear_arith)
        requires
            -reach < t < reach,
            0 <= rest < w,
    ;
    assert(rest * rest < w * w) by (nonlinear_arith)
        requires
            0 <= rest < w,
    ;
    let ww = w * w;
    assert(reach * w == ww * lim) by (nonlinear_arith)
        requires
            reach == w * lim,
            ww == w * w,
    ;
    assert(ww * ((lim + 1) * (lim + 1)) == ww * (lim * lim) + 2 * (ww * lim) + ww)
        by (nonlinear_arith);
}

/// A point in which a segment that is not steep crosses the boundary of a
/// circle lies less than three units outside the circle.
proof fn lemma_crossing_near_circle(
    centre: Vector,
    radius: u32,
    a: Vector,
    b: Vector,
    greater: bool,
)
    requires
        !steep(a, b),
        crossing_discriminant(centre, radius, a, b) >= 0,
        least_place(a, b) <= crossing_place(centre, radius, a, b, greater) <= greatest_place(
            a,
            b,
        ),
    ensures
        sqr_distance(crossing_at(centre, radius, a, b, greater), centre) < (radius + 3) * (radius
            + 3),
{
    let r = radius as int;
    let rr = r * r;
    let cx = centre.x as int;
    let cy = centre.y as int;
    let qa = crossing_a(a, b);
    let qb = crossing_b(centre, a, b);
    let qc = crossing_c(centre, radius, a, b);
    let d = crossing_discriminant(centre, radius, a, b);
    let s = int_sqrt(d);
    let x0 = crossing_place(centre, radius, a, b, greater);
    let p = crossing_at(centre, radius, a, b, greater);
    crate::numeric::lemma_int_sqrt_exists(d);
    let dx = b.x - a.x;
    let dy = b.y - a.y;
    let w2 = dx * dx;
    let n = dy * dy;
    assert(qa > 0 && (a.x != b.x ==> w2 > 0 && n >= 0 && qa == w2 + n)) by (nonlinear_arith)
        requires
            qa == if a.x != b.x {
                dx * dx + dy * dy
            } else {
                1
            },
            w2 == dx * dx,
            n == dy * dy,
            dx == b.x - a.x,
    ;
    lemma_value_at_rounded_root(qa, qb, qc, greater);
    let value = qa * (x0 * x0) + qb * x0 + qc;
    assert(value < s + qa);
    let lim = r + 2;
    if a.x != b.x {
        let wide = crate::numeric::abs(dx);
        let high = crate::numeric::abs(dy);
        crate::numeric::lemma_square_monotone(high, wide);
        assert(wide * wide == w2 && high * high == n) by (nonlinear_arith)
            requires
                wide == dx || wide == -dx,
                high == dy || high == -dy,
                w2 == dx * dx,
                n == dy * dy,
        ;
        assert(qa <= 2 * w2);
        // the discriminant is no more than the circle is wide
        let low = rr * w2;
        let xv = (qa - qb) / (2 * qa);
        lemma_value_at_place(centre, radius, a, b, xv);
        let beside_v = xv - cx;
        let rise_v = dx * (a.y - cy) + (xv - a.x) * dy;
        assert(w2 * (beside_v * beside_v) >= 0 && rise_v * rise_v >= 0) by (nonlinear_arith)
            requires
                w2 > 0,
        ;
        lemma_discriminant_bound(qa, qb, qc, low);
        let t = r * w2;
        assert(low == r * t) by (nonlinear_arith)
            requires
                low == rr * w2,
                rr == r * r,
                t == r * w2,
        ;
        assert(t >= 0) by (nonlinear_arith)
            requires
                t == r * w2,
                r >= 0,
                w2 > 0,
        ;
        let big = qa + 3 * t;
        assert(qa * (r * t) <= 2 * (t * t)) by (nonlinear_arith)
            requires
                0 < qa <= 2 * w2,
                t == r * w2,
                r >= 0,
                t >= 0,
        ;
        assert(4 * qa * low == 4 * (qa * (r * t))) by (nonlinear_arith)
            requires
                low == r * t,
        ;
        assert(big * big == qa * qa + 6 * (qa * t) + 9 * (t * t)) by (nonlinear_arith)
            requires
                big == qa + 3 * t,
        ;
        assert(qa * t >= 0 && t * t >= 0) by (nonlinear_arith)
            requires
                qa > 0,
                t >= 0,
        ;
        assert(d <= big * big);
        if s > big {
            crate::numeric::lemma_square_strictly_monotone(big, s);
            assert(false);
        }
        assert(value < 4 * w2 + 3 * t);
        // so the point of the line at the place lies less than two units
        // outside the circle
        lemma_value_at_place(centre, radius, a, b, x0);
        let u = x0 - cx;
        let rise = dx * (a.y - cy) + (x0 - a.x) * dy;
        let base = w2 * (u * u);
        assert(base + rise * rise - low == value);
        assert(w2 * (lim * lim) == low + 4 * t + 4 * w2) by (nonlinear_arith)
            requires
                lim == r + 2,
                low == r * t,
                t == r * w2,
        ;
        assert(base + rise * rise < w2 * (lim * lim));
        assert(base >= 0) by (nonlinear_arith)
            requires
                base == w2 * (u * u),
                w2 > 0,
        ;
        // and its height is rounded down
        lemma_point_above(a, b, x0, cy);
        let turned = if a.x < b.x {
            rise
        } else {
            -rise
        };
        let v = p.y - cy;
        let wv = wide * v;
        assert(turned * turned == rise * rise) by (nonlinear_arith)
            requires
                turned == rise || turned == -rise,
        ;
        lemma_rounded_down_height(base, turned, wide, wv, lim);
        lemma_product_square(wide, v);
        let whole = u * u + v * v;
        let most = (lim + 1) * (lim + 1);
        assert(w2 * whole < w2 * most) by (nonlinear_arith)
            requires
                base + wv * wv < (wide * wide) * most,
                base == w2 * (u * u),
                wv * wv == (wide * wide) * (v * v),
                wide * wide == w2,
                whole == u * u + v * v,
        ;
        assert(whole < most) by (nonlinear_arith)
            requires
                w2 * whole < w2 * most,
                w2 > 0,
        ;
        assert(sqr_distance(p, centre) == whole);
    } else {
        let beside = a.x - cx;
        let bb = beside * beside;
        assert(d == 4 * (rr - bb)) by (nonlinear_arith)
            requires
                d == qb * qb - 4 * qa * qc,
                qa == 1,
                qb == -2 * cy,
                qc == cy * cy + beside * beside - rr,
                bb == beside * beside,
        ;
        assert(bb >= 0) by (nonlinear_arith)
            requires
                bb == beside * beside,
        ;
        if s > 2 * r {
            crate::numeric::lemma_square_strictly_monotone(2 * r, s);
            assert((2 * r) * (2 * r) == 4 * rr) by (nonlinear_arith)
                requires
                    rr == r * r,
            ;
            assert(false);
        }
        let v = x0 - cy;
        assert(value == v * v + bb - rr) by (nonlinear_arith)
            requires
                value == qa * (x0 * x0) + qb * x0 + qc,
                qa == 1,
                qb == -2 * cy,
                qc == cy * cy + bb - rr,
                v == x0 - cy,
        ;
        assert(p.x == a.x && p.y == x0);
        assert(sqr_distance(p, centre) == bb + v * v);
        assert((r + 3) * (r + 3) == rr + 6 * r + 9) by (nonlinear_arith)
            requires
                rr == r * r,
        ;
    }
}

/// The point of a line that is not upright above a place of the segment
/// lies above that place, and its height is that of the line, rounded down:
/// the height above `height`, times the width of the segment, lies less than
/// the width below the rise of the line, counted from left to right.
proof fn lemma_point_above(a: Vector, b: Vector, x: int, height: int)
    requires
        a.x != b.x,
        least_place(a, b) <= x <= greatest_place(a, b),
    ensures
        ({
            let p = crossing_point(a, b, x);
            let wide = crate::numeric::abs(b.x - a.x);
            let rise = (b.x - a.x) * (a.y - height) + (x - a.x) * (b.y - a.y);
            let turned = if a.x < b.x {
                rise
            } else {
                -rise
            };
            &&& p.x == x
            &&& turned - wide < wide * (p.y - height) <= turned
        }),
{
    let dx = b.x - a.x;
    let dy = b.y - a.y;
    let p = crossing_point(a, b, x);
    let wide = crate::numeric::abs(dx);
    let rise = dx * (a.y - height) + (x - a.x) * dy;
    let lo = least_place(a, b);
    let offset = x - lo;
    let left = if a.x < b.x {
        a
    } else {
        b
    };
    let right = if a.x < b.x {
        b
    } else {
        a
    };
    assert(p == interpolate(left, right, offset, wide));
    vstd::arithmetic::div_mod::lemma_div_multiples_vanish(offset, wide);
    crate::vector::lemma_interpolate_between(left.x as int, right.x as int, offset, wide);
    crate::vector::lemma_interpolate_between(left.y as int, right.y as int, offset, wide);
    assert(right.x - left.x == wide);
    assert(p.x == x);
    let climb = right.y - left.y;
    let step = (climb * offset) / wide;
    vstd::arithmetic::div_mod::lemma_fundamental_div_mod(climb * offset, wide);
    vstd::arithmetic::div_mod::lemma_mod_bound(climb * offset, wide);
    let rest = (climb * offset) % wide;
    assert(p.y == left.y + step);
    let v = p.y - height;
    let wv = wide * v;
    let turned = wide * (left.y - height) + climb * offset;
    assert(wv == turned - rest) by (nonlinear_arith)
        requires
            wv == wide * v,
            v == left.y + step - height,
            turned == wide * (left.y - height) + climb * offset,
            climb * offset == wide * step + rest,
    ;
    assert(turned == if a.x < b.x {
        rise
    } else {
        -rise
    }) by (nonlinear_arith)
        requires
            turned == wide * (left.y - height) + climb * offset,
            rise == dx * (a.y - height) + (x - a.x) * dy,
            offset == x - left.x,
            (a.x < b.x && left == a && right == b && wide == dx && climb == dy) || (a.x > b.x
                && left == b && right == a && wide == -dx && climb == -dy),
            dx == b.x - a.x,
            dy == b.y - a.y,
    ;
}

/// Where a point lies no more than `lim` from the centre, the point one
/// place further along the line, whose height differs by less than two widths
/// of the segment for each unit of width, lies less than `lim + 3` from it.
proof fn lemma_near_neighbour(w: int, u: int, v: int, step: int, e: int, lim: int)
    requires
        w > 0,
        lim >= 0,
        step == 1 || step == -1,
        -2 * w < e < 2 * w,
        u * u + v * v <= lim * lim,
    ensures
        (w * w) * ((u + step) * (u + step)) + (w * v + e) * (w * v + e) < (w * w) * ((lim + 3) * (
        lim + 3)),
{
    let uu = u * u;
    let vv = v * v;
    let ww = w * w;
    assert(uu >= 0 && vv >= 0 && ww > 0) by (nonlinear_arith)
        requires
            uu == u * u,
            vv == v * v,
            ww == w * w,
            w > 0,
    ;
    if u > lim || -u > lim {
        let size = if u >= 0 {
            u
        } else {
            -u
        };
        crate::numeric::lemma_square_strictly_monotone(lim, size);
        assert(size * size == uu) by (nonlinear_arith)
            requires
                size == u || size == -u,
                uu == u * u,
        ;
        assert(false);
    }
    if v > lim || -v > lim {
        let size = if v >= 0 {
            v
        } else {
            -v
        };
        crate::numeric::lemma_square_strictly_monotone(lim, size);
        assert(size * size == vv) by (nonlinear_arith)
            requires
                size == v || size == -v,
                vv == v * v,
        ;
        assert(false);
    }
    let moved = (u + step) * (u + step);
    assert(moved <= uu + 2 * lim + 1) by (nonlinear_arith)
        requires
            moved == (u + step) * (u + step),
            uu == u * u,
            step == 1 || step == -1,
            -lim <= u <= lim,
    ;
    let wv = w * v;
    let ve = v * e;
    let ee = e * e;
    let wl = w * lim;
    assert(-2 * wl <= ve <= 2 * wl) by (nonlinear_arith)
        requires
            ve == v * e,
            wl == w * lim,
            -lim <= v <= lim,
            -2 * w < e < 2 * w,
            w > 0,
            lim >= 0,
    ;
    assert(ee < 4 * ww) by (nonlinear_arith)
        requires
            ee == e * e,
            ww == w * w,
            -2 * w < e < 2 * w,
            w > 0,
    ;
    lemma_product_square(w, v);
    assert((wv + e) * (wv + e) == wv * wv + 2 * (w * ve) + ee) by (nonlinear_arith)
        requires
            wv == w * v,
            ve == v * e,
            ee == e * e,
    ;
    assert(w * ve <= 2 * (ww * lim)) by (nonlinear_arith)
        requires
            ve <= 2 * wl,
            wl == w * lim,
            ww == w * w,
            w > 0,
    ;
    assert(ww * moved <= ww * uu + 2 * (ww * lim) + ww) by (nonlinear_arith)
        requires
            moved <= uu + 2 * lim + 1,
            ww > 0,
    ;
    assert(ww * uu + ww * vv <= ww * (lim * lim)) by (nonlinear_arith)
        requires
            uu + vv <= lim * lim,
            ww > 0,
    ;
    assert(ww * ((lim + 3) * (lim + 3)) == ww * (lim * lim) + 6 * (ww * lim) + 9 * ww)
        by (nonlinear_arith);
}

/// A point in which a segment that is not steep crosses the boundary of a
/// circle lies less than three units inside the circle.
proof fn lemma_crossing_far_from_centre(
    centre: Vector,
    radius: u32,
    a: Vector,
    b: Vector,
    greater: bool,
)
    requires
        !steep(a, b),
        radius >= 3,
        crossing_discriminant(centre, radius, a, b) >= 0,
        least_place(a, b) <= crossing_place(centre, radius, a, b, greater) <= greatest_place(
            a,
            b,
        ),
    ensures
        sqr_distance(crossing_at(centre, radius, a, b, greater), centre) > (radius - 3) * (radius
            - 3),
{
    let r = radius as int;
    let rr = r * r;
    let cx = centre.x as int;
    let cy = centre.y as int;
    let qa = crossing_a(a, b);
    let qb = crossing_b(centre, a, b);
    let qc = crossing_c(centre, radius, a, b);
    let d = crossing_discriminant(centre, radius, a, b);
    let x0 = crossing_place(centre, radius, a, b, greater);
    let p = crossing_at(centre, radius, a, b, greater);
    let dx = b.x - a.x;
    let dy = b.y - a.y;
    assert(qa > 0) by (nonlinear_arith)
        requires
            qa == if a.x != b.x {
                dx * dx + dy * dy
            } else {
                1
            },
            a.x != b.x ==> dx != 0,
    ;
    // the line lies on the circle or outside it one place further
    lemma_rounded_root_near(qa, qb, d, greater);
    let step: int = if greater {
        1
    } else {
        -1
    };
    let x1 = x0 + step;
    let value = qa * (x1 * x1) + qb * x1 + qc;
    lemma_slope_square(qa, qb, qc, x1);
    let slope = 2 * qa * x1 + qb;
    assert(slope * slope >= d);
    assert(value >= 0) by (nonlinear_arith)
        requires
            4 * qa * value == slope * slope - d,
            slope * slope >= d,
            qa > 0,
    ;
    let lim = r - 3;
    let u = p.x - cx;
    let v = p.y - cy;
    if a.x != b.x {
        let w2 = dx * dx;
        let wide = crate::numeric::abs(dx);
        let high = crate::numeric::abs(dy);
        lemma_point_above(a, b, x0, cy);
        lemma_value_at_place(centre, radius, a, b, x1);
        let rise = dx * (a.y - cy) + (x0 - a.x) * dy;
        let rise1 = dx * (a.y - cy) + (x1 - a.x) * dy;
        assert(rise1 == rise + step * dy) by (nonlinear_arith)
            requires
                rise == dx * (a.y - cy) + (x0 - a.x) * dy,
                rise1 == dx * (a.y - cy) + (x1 - a.x) * dy,
                x1 == x0 + step,
        ;
        let turned = if a.x < b.x {
            rise
        } else {
            -rise
        };
        let turned1 = if a.x < b.x {
            rise1
        } else {
            -rise1
        };
        let wv = wide * v;
        let e = turned1 - wv;
        assert(-high <= step * dy <= high) by (nonlinear_arith)
            requires
                step == 1 || step == -1,
                high == dy || high == -dy,
                high >= 0,
        ;
        assert(-2 * wide < e < 2 * wide);
        assert(turned1 * turned1 == rise1 * rise1) by (nonlinear_arith)
            requires
                turned1 == rise1 || turned1 == -rise1,
        ;
        assert(wide * wide == w2) by (nonlinear_arith)
            requires
                wide == dx || wide == -dx,
                w2 == dx * dx,
        ;
        assert(w2 > 0) by (nonlinear_arith)
            requires
                w2 == dx * dx,
                dx != 0,
        ;
        if u * u + v * v <= lim * lim {
            lemma_near_neighbour(wide, u, v, step, e, lim);
            assert(x1 - cx == u + step);
            assert(w2 * ((x1 - cx) * (x1 - cx)) + rise1 * rise1 < w2 * rr);
            assert(rr * w2 == w2 * rr) by (nonlinear_arith);
            assert(false);
        }
        assert(sqr_distance(p, centre) == u * u + v * v);
    } else {
        let beside = a.x - cx;
        let bb = beside * beside;
        let v1 = x1 - cy;
        assert(value == v1 * v1 + bb - rr) by (nonlinear_arith)
            requires
                value == qa * (x1 * x1) + qb * x1 + qc,
                qa == 1,
                qb == -2 * cy,
                qc == cy * cy + bb - rr,
                v1 == x1 - cy,
        ;
        assert(p.x == a.x && p.y == x0);
        if v * v + bb <= lim * lim {
            lemma_near_neighbour(1, v, beside, step, 0, lim);
            assert(1 * beside + 0 == beside);
            assert(false);
        }
        assert(sqr_distance(p, centre) == bb + v * v);
    }
}

/// Whether the segment from `a` to `b` is steep: higher than it is wide,
/// and not upright.
pub open spec fn steep(a: Vector, b: Vector) -> bool {
    a.x != b.x && crate::numeric::abs(b.y - a.y) > crate::numeric::abs(b.x - a.x)
}

/// `v` with its coordinates exchanged.
pub open spec fn flipped(v: Vector) -> Vector {
    Vector { x: v.y, y: v.x }
}

/// `v` as it is laid for a collision test of the segment from `a` to `b`:
/// flipped where the segment is steep, so that the segment is followed along
/// the axis in which it is longer, and its height changes by no more than its
/// place.
pub open spec fn laid(a: Vector, b: Vector, v: Vector) -> Vector {
    if steep(a, b) {
        flipped(v)
    } else {
        v
    }
}

/// Each of `points`, laid for the segment from `a` to `b`.
pub open spec fn laid_all(a: Vector, b: Vector, points: Seq<Vector>) -> Seq<Vector> {
    Seq::new(points.len(), |i: int| laid(a, b, points[i]))
}

/// The points in which the segment from `a` to `b` meets the circle: first
/// its endpoints that lie in the circle, then the points in which it crosses
/// the boundary, none twice and two at most. The crossings are sought along
/// the axis in which the segment is longer.
pub open spec fn line_circle_points(centre: Vector, radius: u32, a: Vector, b: Vector) -> Seq<
    Vector,
> {
    laid_all(a, b, placed_points(laid(a, b, centre), radius, laid(a, b, a), laid(a, b, b)))
}

/// The discriminant of the equation for the places at which the line through
/// `a` and `b` crosses the circle: negative where the line misses the circle,
/// zero where it touches it, positive where it cuts it.
pub open spec fn line_discriminant(centre: Vector, radius: u32, a: Vector, b: Vector) -> int {
    crossing_discriminant(laid(a, b, centre), radius, laid(a, b, a), laid(a, b, b))
}

/// Whether the line through `a` and `b` crosses the boundary of the circle
/// on the segment from `a` to `b`, at the greater of the two places at which
/// it crosses it, or at the smaller. This is decided without rounding.
pub open spec fn crosses(centre: Vector, radius: u32, a: Vector, b: Vector, greater: bool) -> bool {
    crosses_within(laid(a, b, centre), radius, laid(a, b, a), laid(a, b, b), greater)
}

/// The point of the grid at which the line through `a` and `b` crosses the
/// boundary of the circle, at the greater place or at the smaller.
pub open spec fn crossing(centre: Vector, radius: u32, a: Vector, b: Vector, greater: bool) -> Vector {
    laid(a, b, crossing_at(laid(a, b, centre), radius, laid(a, b, a), laid(a, b, b), greater))
}

/// Whether the place to which the crossing of the line through `a` and `b`
/// with the boundary of the circle is rounded lies less than a unit from the
/// crossing, counted along the axis in which the segment is longer. The
/// crossing itself is not rounded here.
pub open spec fn crossing_near(centre: Vector, radius: u32, a: Vector, b: Vector, greater: bool) -> bool {
    root_near(
        crossing_a(laid(a, b, a), laid(a, b, b)),
        crossing_b(laid(a, b, centre), laid(a, b, a), laid(a, b, b)),
        line_discriminant(centre, radius, a, b),
        greater,
        crossing_place(laid(a, b, centre), radius, laid(a, b, a), laid(a, b, b), greater),
    )
}

/// Whether `p` is the point in which the segment from `a` to `b` crosses the
/// boundary of the circle, at the greater place or at the smaller: the line
/// crosses the boundary on the segment, `p` is the point of the grid to which
/// the crossing is rounded, and it lies near the crossing and near the
/// boundary.
pub open spec fn crossed(
    centre: Vector,
    radius: u32,
    a: Vector,
    b: Vector,
    greater: bool,
    p: Vector,
) -> bool {
    &&& crosses(centre, radius, a, b, greater)
    &&& p == crossing(centre, radius, a, b, greater)
    &&& crossing_near(centre, radius, a, b, greater)
    &&& near_boundary(centre, radius, p)
}

/// Whether `p` is an end of the segment from `a` to `b` that lies in the
/// circle, or a point in which the segment crosses the boundary.
pub open spec fn meets_at(centre: Vector, radius: u32, a: Vector, b: Vector, p: Vector) -> bool {
    ||| (p == a || p == b) && inside_circle(centre, radius, p)
    ||| crossed(centre, radius, a, b, true, p)
    ||| crossed(centre, radius, a, b, false, p)
}

/// A point lies in a circle where the flipped point lies in the flipped
/// circle, and a segment lies outside one where the flipped segment lies
/// outside the other.
proof fn lemma_flipped(centre: Vector, radius: u32, a: Vector, b: Vector)
    ensures
        inside_circle(flipped(centre), radius, flipped(a)) == inside_circle(centre, radius, a),
        inside_circle(flipped(centre), radius, flipped(b)) == inside_circle(centre, radius, b),
        segment_outside(flipped(centre), radius, flipped(a), flipped(b)) == segment_outside(
            centre,
            radius,
            a,
            b,
        ),
        forall|p: Vector| boxed(flipped(a), flipped(b), p) == boxed(a, b, #[trigger] flipped(p)),
{
    assert forall|part: int, whole: int|
        segment_point_inside(flipped(centre), radius, flipped(a), flipped(b), part, whole)
        == #[trigger] segment_point_inside(centre, radius, a, b, part, whole) by {}
    if segment_outside(centre, radius, a, b) {
        assert forall|part: int, whole: int| !#[trigger] segment_point_inside(
            flipped(centre),
            radius,
            flipped(a),
            flipped(b),
            part,
            whole,
        ) by {
            assert(!segment_point_inside(centre, radius, a, b, part, whole));
        }
    }
    if segment_outside(flipped(centre), radius, flipped(a), flipped(b)) {
        assert forall|part: int, whole: int| !#[trigger] segment_point_inside(
            centre,
            radius,
            a,
            b,
            part,
            whole,
        ) by {
            assert(!segment_point_inside(
                flipped(centre),
                radius,
                flipped(a),
                flipped(b),
                part,
                whole,
            ));
        }
    }
}

/// A segment misses a circle exactly where it lies outside it, and meets it
/// in two points at most.
pub proof fn lemma_misses_where_outside(centre: Vector, radius: u32, a: Vector, b: Vector)
    ensures
        line_circle_points(centre, radius, a, b).len() == 0 <==> segment_outside(
            centre,
            radius,
            a,
            b,
        ),
        line_circle_points(centre, radius, a, b).len() <= 2,
{
    lemma_flipped(centre, radius, a, b);
    lemma_misses_where_outside_placed(laid(a, b, centre), radius, laid(a, b, a), laid(a, b, b));
    lemma_placed_points(laid(a, b, centre), radius, laid(a, b, a), laid(a, b, b));
}

/// Decides whether the segment from `a` to `b` is steep.
fn is_steep(a: Vector, b: Vector) -> (answer: bool)
    ensures
        answer == steep(a, b),
{
    let width: i64 = b.x as i64 - a.x as i64;
    let height: i64 = b.y as i64 - a.y as i64;
    let wide: i64 = if width < 0 {
        -width
    } else {
        width
    };
    let high: i64 = if height < 0 {
        -height
    } else {
        height
    };
    a.x != b.x && high > wide
}

/// Exchanges the coordinates of `v`.
fn flip(v: Vector) -> (turned: Vector)
    ensures
        turned == flipped(v),
{
    Vector { x: v.y, y: v.x }
}

/// Returns the points in which the line segment from `a` to `b` meets the
/// circle round `centre`: its endpoints that lie in the circle, and the
/// points in which it crosses the boundary. Whether it crosses the boundary
/// is decided exactly; where, to the grid: each crossing is sought along the
/// axis in which the segment is longer and rounded down.
pub fn line_circle_collision(centre: Vector, radius: u32, a: Vector, b: Vector) -> (hit:
    LineCircleCollision)
    requires
        in_reach(centre),
        in_reach(a),
        in_reach(b),
        radius <= RADIUS_LIMIT,
    ensures
        hit.points() == line_circle_points(centre, radius, a, b),
        all_boxed(a, b, hit.points()),
        hit is Zero <==> segment_outside(centre, radius, a, b),
        forall|i: int|
            0 <= i < hit.points().len() ==> meets_at(centre, radius, a, b, #[trigger] hit.points()[i]),
        inside_circle(centre, radius, a) && inside_circle(centre, radius, b) && a != b ==> hit
            == LineCircleCollision::Two(a, b),
        !inside_circle(centre, radius, a) && !inside_circle(centre, radius, b)
            && line_discriminant(centre, radius, a, b) == 0 && crosses(centre, radius, a, b, true)
            ==> hit == LineCircleCollision::One(crossing(centre, radius, a, b, true)),
        !inside_circle(centre, radius, a) && !inside_circle(centre, radius, b)
            && line_discriminant(centre, radius, a, b) > 0 && crosses(centre, radius, a, b, true)
            && crosses(centre, radius, a, b, false) ==> hit == if crossing(
            centre,
            radius,
            a,
            b,
            true,
        ) != crossing(centre, radius, a, b, false) {
            LineCircleCollision::Two(
                crossing(centre, radius, a, b, true),
                crossing(centre, radius, a, b, false),
            )
        } else {
            LineCircleCollision::One(crossing(centre, radius, a, b, true))
        },
{
    proof {
        lemma_flipped(centre, radius, a, b);
    }
    if is_steep(a, b) {
        let found = placed_collision(flip(centre), radius, flip(a), flip(b));
        let hit = match found {
            LineCircleCollision::Zero => LineCircleCollision::Zero,
            LineCircleCollision::One(p) => LineCircleCollision::One(flip(p)),
            LineCircleCollision::Two(p, q) => LineCircleCollision::Two(flip(p), flip(q)),
        };
        proof {
            assert(hit.points() =~= laid_all(a, b, found.points()));
            assert forall|i: int| 0 <= i < hit.points().len() implies boxed(
                a,
                b,
                #[trigger] hit.points()[i],
            ) by {
                assert(boxed(flipped(a), flipped(b), found.points()[i]));
                assert(hit.points()[i] == flipped(found.points()[i]));
            }
            assert forall|i: int| 0 <= i < hit.points().len() implies meets_at(
                centre,
                radius,
                a,
                b,
                #[trigger] hit.points()[i],
            ) by {
                assert(hit.points()[i] == flipped(found.points()[i]));
                assert(flipped(hit.points()[i]) == found.points()[i]);
                assert(met_at(flipped(centre), radius, flipped(a), flipped(b), found.points()[i]));
            }
        }
        hit
    } else {
        let hit = placed_collision(centre, radius, a, b);
        proof {
            assert(hit.points() =~= laid_all(a, b, hit.points()));
        }
        hit
    }
}

/// The denominator of the solution of `ax + by = c`, `dx + ey = f`.
pub open spec fn system_denominator(a: int, b: int, d: int, e: int) -> int {
    b * d - e * a
}

/// The numerator of `x` in the solution of `ax + by = c`, `dx + ey = f`.
pub open spec fn system_x(b: int, c: int, e: int, f: int) -> int {
    b * f - e * c
}

/// The numerator of `y` in the solution of `ax + by = c`, `dx + ey = f`.
pub open spec fn system_y(a: int, c: int, d: int, f: int) -> int {
    c * d - a * f
}

/// Whether every coefficient of a system of two equations is small enough
/// for the system to be solved.
pub open spec fn system_in_range(a: int, b: int, c: int, d: int, e: int, f: int) -> bool {
    let limit = 0x4000_0000_0000_0000int;
    &&& -limit <= a <= limit
    &&& -limit <= b <= limit
    &&& -limit <= c <= limit
    &&& -limit <= d <= limit
    &&& -limit <= e <= limit
    &&& -limit <= f <= limit
}

/// Solves
/// ax + by = c
/// dx + ey = f
/// simultaneously, by Cramer's rule. Returns the numerator of `x`, the
/// numerator of `y` and the denominator of both; nothing where the
/// denominator is zero, that is where the lines are parallel.
pub fn simultaneous_equations(a: i64, b: i64, c: i64, d: i64, e: i64, f: i64) -> (solution: Option<
    (i128, i128, i128),
>)
    requires
        system_in_range(a as int, b as int, c as int, d as int, e as int, f as int),
    ensures
        solution is None <==> system_denominator(a as int, b as int, d as int, e as int) == 0,
        solution matches Some(found) ==> {
            &&& found.0 == system_x(b as int, c as int, e as int, f as int)
            &&& found.1 == system_y(a as int, c as int, d as int, f as int)
            &&& found.2 == system_denominator(a as int, b as int, d as int, e as int)
        },
{
    proof {
        let limit = 0x4000_0000_0000_0000int;
        lemma_mul_bounds(b as int, d as int, limit, limit);
        lemma_mul_bounds(e as int, a as int, limit, limit);
        lemma_mul_bounds(b as int, f as int, limit, limit);
        lemma_mul_bounds(e as int, c as int, limit, limit);
        lemma_mul_bounds(c as int, d as int, limit, limit);
        lemma_mul_bounds(a as int, f as int, limit, limit);
    }
    let denominator: i128 = (b as i128) * (d as i128) - (e as i128) * (a as i128);
    if denominator == 0 {
        None
    } else {
        let x: i128 = (b as i128) * (f as i128) - (e as i128) * (c as i128);
        let y: i128 = (c as i128) * (d as i128) - (a as i128) * (f as i128);
        Some((x, y, denominator))
    }
}

/// Whether `numerator / denominator` lies between 0 and 1.
pub open spec fn unit_fraction(numerator: int, denominator: int) -> bool {
    (denominator > 0 && 0 <= numerator <= denominator) || (denominator < 0 && denominator
        <= numerator <= 0)
}

/// The point in which the segment from `a1` to `b1` meets the segment from
/// `a2` to `b2`: the point of the first at the fraction of its length at which
/// the two lines cross, where that fraction and the fraction of the second at
/// which they cross both lie between 0 and 1. Parallel segments do not meet.
pub open spec fn line_line_point(a1: Vector, b1: Vector, a2: Vector, b2: Vector) -> Option<Vector> {
    let a = b1.x - a1.x;
    let b = -(b2.x - a2.x);
    let c = a2.x - a1.x;
    let d = b1.y - a1.y;
    let e = -(b2.y - a2.y);
    let f = a2.y - a1.y;
    let denominator = system_denominator(a, b, d, e);
    let along_first = system_x(b, c, e, f);
    let along_second = system_y(a, c, d, f);
    if unit_fraction(along_first, denominator) && unit_fraction(along_second, denominator) {
        Some(
            interpolate(
                a1,
                b1,
                crate::numeric::abs(along_first),
                crate::numeric::abs(denominator),
            ),
        )
    } else {
        None
    }
}

/// Whether `numerator / denominator` lies between 0 and 1.
fn is_unit_fraction(numerator: i128, denominator: i128) -> (unit: bool)
    ensures
        unit == unit_fraction(numerator as int, denominator as int),
{
    (denominator > 0 && 0 <= numerator && numerator <= denominator) || (denominator < 0
        && denominator <= numerator && numerator <= 0)
}

/// Returns the point in which two line segments meet, if they do. Parallel
/// segments, and segments without length, do not meet.
pub fn line_line_collision(a1: Vector, b1: Vector, a2: Vector, b2: Vector) -> (hit: Option<Vector>)
    ensures
        hit == line_line_point(a1, b1, a2, b2),
        hit matches Some(p) ==> boxed(a1, b1, p),
{
    // finding the vector equation of the lines
    // so that upright lines need no care
    let direction1_x: i64 = b1.x as i64 - a1.x as i64;
    let direction1_y: i64 = b1.y as i64 - a1.y as i64;
    let direction2_x: i64 = b2.x as i64 - a2.x as i64;
    let direction2_y: i64 = b2.y as i64 - a2.y as i64;
    let solution = simultaneous_equations(
        direction1_x,
        -direction2_x,
        a2.x as i64 - a1.x as i64,
        direction1_y,
        -direction2_y,
        a2.y as i64 - a1.y as i64,
    );
    match solution {
        Some((param1, param2, denominator)) => {
            if is_unit_fraction(param1, denominator) && is_unit_fraction(param2, denominator) {
                proof {
                    let limit = 0x1_0000_0000int;
                    lemma_mul_bounds(-direction2_x as int, direction1_y as int, limit, limit);
                    lemma_mul_bounds(-direction2_y as int, direction1_x as int, limit, limit);
                    lemma_interpolate_between(
                        a1.x as int,
                        b1.x as int,
                        crate::numeric::abs(param1 as int),
                        crate::numeric::abs(denominator as int),
                    );
                    lemma_interpolate_between(
                        a1.y as int,
                        b1.y as int,
                        crate::numeric::abs(param1 as int),
                        crate::numeric::abs(denominator as int),
                    );
                }
                let offset: u128 = if param1 >= 0 {
                    param1 as u128
                } else {
                    (-param1) as u128
                };
                let length: u128 = if denominator >= 0 {
                    denominator as u128
                } else {
                    (-denominator) as u128
                };
                Some(interpolated(a1, b1, offset, length))
            } else {
                None
            }
        },
        None => None,
    }
}

/// Whether a target in the direction `bearing` lies in the field of view
/// `fov` round `direction`.
pub open spec fn within_view(bearing: int, direction: int, fov: int) -> bool {
    2 * crate::numeric::abs(shortest_angle(bearing, direction)) <= fov
}

/// Whether a target in the direction `bearing` lies in the field of view
/// `fov` round `direction`.
pub fn in_view(bearing: Angle, direction: Angle, fov: Angle) -> (seen: bool)
    ensures
        seen == within_view(bearing as int, direction as int, fov as int),
{
    let turn = shortest_angle_distance(bearing, direction);
    let size: i128 = if turn >= 0 {
        turn as i128
    } else {
        -(turn as i128)
    };
    2 * size <= fov as i128
}

/// Returns `point` if it lies in the sector: in the circle round `centre`,
/// and, seen from the centre in the direction `bearing`, in the field of view.
pub fn point_in_sector(
    centre: Vector,
    radius: u32,
    direction: Angle,
    fov: Angle,
    point: Vector,
    bearing: Angle,
) -> (hit: Option<Vector>)
    ensures
        hit == if inside_circle(centre, radius, point) && within_view(
            bearing as int,
            direction as int,
            fov as int,
        ) {
            Some(point)
        } else {
            None::<Vector>
        },
{
    match point_circle_collision(centre, radius, point) {
        Some(p) => {
            if in_view(bearing, direction, fov) {
                Some(p)
            } else {
                None
            }
        },
        None => None,
    }
}

/// Returns `point` if it lies in the sector round `centre`. `bearing_of`
/// tells in which direction a displacement points.
pub fn point_sector_collision<B: Fn(Vector) -> Angle>(
    centre: Vector,
    radius: u32,
    direction: Angle,
    fov: Angle,
    point: Vector,
    bearing_of: B,
) -> (hit: Option<Vector>)
    requires
        forall|v: Vector| bearing_of.requires((v,)),
        fits_coordinate(point.x - centre.x),
        fits_coordinate(point.y - centre.y),
    ensures
        !inside_circle(centre, radius, point) ==> hit is None,
        hit matches Some(p) ==> p == point && inside_circle(centre, radius, point),
        inside_circle(centre, radius, point) ==> exists|bearing: Angle|
            bearing_of.ensures((displacement(centre, point),), bearing) && hit == point_in_sector_spec(
                centre,
                radius,
                direction,
                fov,
                point,
                bearing,
            ),
{
    match point_circle_collision(centre, radius, point) {
        Some(p) => {
            let bearing = bearing_of(p - centre);
            let hit = point_in_sector(centre, radius, direction, fov, p, bearing);
            proof {
                assert(bearing_of.ensures((displacement(centre, point),), bearing) && hit
                    == point_in_sector_spec(centre, radius, direction, fov, point, bearing));
            }
            hit
        },
        None => None,
    }
}

/// The displacement from `from` to `to`.
pub open spec fn displacement(from: Vector, to: Vector) -> Vector {
    Vector { x: (to.x - from.x) as i32, y: (to.y - from.y) as i32 }
}

/// The point `point` where it lies in the sector, seen from the centre in
/// the direction `bearing`.
pub open spec fn point_in_sector_spec(
    centre: Vector,
    radius: u32,
    direction: Angle,
    fov: Angle,
    point: Vector,
    bearing: Angle,
) -> Option<Vector> {
    if inside_circle(centre, radius, point) && within_view(
        bearing as int,
        direction as int,
        fov as int,
    ) {
        Some(point)
    } else {
        None
    }
}

/// The list `found`, with `hit` at its end where there is one, unless the
/// list holds it or two points already.
pub open spec fn with_hit(found: Seq<Vector>, hit: Option<Vector>) -> Seq<Vector> {
    match hit {
        Some(p) => merged(found, p),
        None => found,
    }
}

/// The points in which a segment meets a sector, from the points `arc` in
/// which it meets the round part and the points `line1` and `line2` in which
/// it meets the two straight edges: the latter two where both exist, else all
/// that exist, none twice and two at most.
pub open spec fn sector_points(arc: Seq<Vector>, line1: Option<Vector>, line2: Option<Vector>) -> Seq<
    Vector,
> {
    if line1 is Some && line2 is Some {
        seq![line1->0, line2->0]
    } else {
        with_hit(with_hit(arc, line1), line2)
    }
}

/// Puts together the points in which a segment meets a sector, from the
/// points `arc` in which it meets the round part, of which there are two at
/// most, and the points in which it meets the two straight edges.
pub fn sector_collisions(arc: Vec<Vector>, line1: Option<Vector>, line2: Option<Vector>) -> (hits:
    Vec<Vector>)
    requires
        arc@.len() <= 2,
    ensures
        hits@ == sector_points(arc@, line1, line2),
        hits@.len() <= 2,
{
    match (line1, line2) {
        (Some(first), Some(second)) => {
            let mut hits: Vec<Vector> = Vec::with_capacity(2);
            hits.push(first);
            hits.push(second);
            proof {
                assert(hits@ =~= seq![first, second]);
            }
            hits
        },
        (Some(first), None) => {
            let mut hits = arc;
            merge(&mut hits, first);
            hits
        },
        (None, Some(second)) => {
            let mut hits = arc;
            merge(&mut hits, second);
            hits
        },
        (None, None) => arc,
    }
}

/// Whether `angle` is small enough for half a field of view to be added
/// to it.
pub open spec fn angle_in_range(angle: Angle) -> bool {
    -0x2000_0000_0000_0000 <= angle <= 0x2000_0000_0000_0000
}

/// Whether `p` is a point in which the segment from `a` to `b` meets the
/// round part of the sector: it meets the circle there, and `bearing_of` placed
/// it in the field of view.
pub open spec fn on_round_part<B: Fn(Vector) -> Angle>(
    centre: Vector,
    radius: u32,
    direction: Angle,
    fov: Angle,
    a: Vector,
    b: Vector,
    bearing_of: B,
    p: Vector,
) -> bool {
    &&& meets_at(centre, radius, a, b, p)
    &&& boxed(a, b, p)
    &&& exists|bearing: Angle| #[trigger]
        bearing_of.ensures((displacement(centre, p),), bearing) && within_view(
            bearing as int,
            direction as int,
            fov as int,
        )
}

/// Whether `p` is the point in which the segment from `a` to `b` meets the
/// straight edge that leaves the centre in the direction `angle`: the point
/// of an edge that `from_polar` gave, no further from the centre than the
/// end of that edge.
pub open spec fn on_straight_edge<P: Fn(Angle, u32) -> Vector>(
    centre: Vector,
    radius: u32,
    angle: Angle,
    a: Vector,
    b: Vector,
    from_polar: P,
    p: Vector,
) -> bool {
    exists|edge: Vector| #[trigger]
        from_polar.ensures((angle, radius), edge) && line_line_point(
            centre,
            displaced(centre, edge),
            a,
            b,
        ) == Some(p) && sqr_distance(p, centre) <= edge.x * edge.x + edge.y * edge.y
}

/// Whether `p` is a point in which the segment from `a` to `b` meets the
/// sector, on its round part or on one of its two straight edges.
pub open spec fn meets_sector_at<B: Fn(Vector) -> Angle, P: Fn(Angle, u32) -> Vector>(
    centre: Vector,
    radius: u32,
    direction: Angle,
    fov: Angle,
    a: Vector,
    b: Vector,
    bearing_of: B,
    from_polar: P,
    p: Vector,
) -> bool {
    ||| on_round_part(centre, radius, direction, fov, a, b, bearing_of, p)
    ||| on_straight_edge(centre, radius, (direction - fov / 2) as Angle, a, b, from_polar, p)
    ||| on_straight_edge(centre, radius, (direction + fov / 2) as Angle, a, b, from_polar, p)
}

/// A point of the segment from `from` to the point that lies `by` away from
/// it lies no further from `from` than that point.
proof fn lemma_boxed_is_nearer(from: Vector, by: Vector, p: Vector)
    requires
        boxed(from, displaced(from, by), p),
        fits_coordinate(from.x + by.x),
        fits_coordinate(from.y + by.y),
    ensures
        sqr_distance(p, from) <= by.x * by.x + by.y * by.y,
{
    let u = p.x - from.x;
    let v = p.y - from.y;
    assert(u * u <= by.x * by.x) by (nonlinear_arith)
        requires
            (0 <= u <= by.x) || (by.x <= u <= 0),
    ;
    assert(v * v <= by.y * by.y) by (nonlinear_arith)
        requires
            (0 <= v <= by.y) || (by.y <= v <= 0),
    ;
}

/// Returns the points in which the line segment from `a` to `b` meets the
/// sector round `centre`: the points in which it meets the round part, as far
/// as they lie in the field of view, and the points in which it meets the two
/// straight edges. `bearing_of` tells in which direction a displacement
/// points; `from_polar` gives the displacement of a length in a direction.
/// This function never returns more than two collisions.
pub fn line_sector_collision<B: Fn(Vector) -> Angle, P: Fn(Angle, u32) -> Vector>(
    centre: Vector,
    radius: u32,
    direction: Angle,
    fov: Angle,
    a: Vector,
    b: Vector,
    bearing_of: B,
    from_polar: P,
) -> (hits: Vec<Vector>)
    requires
        in_reach(centre),
        in_reach(a),
        in_reach(b),
        radius <= RADIUS_LIMIT,
        angle_in_range(direction),
        angle_in_range(fov),
        fov >= 0,
        forall|v: Vector| bearing_of.requires((v,)),
        forall|angle: Angle, length: u32| from_polar.requires((angle, length)),
        forall|angle: Angle, length: u32, edge: Vector|
            from_polar.ensures((angle, length), edge) ==> -length <= edge.x <= length && -length
                <= edge.y <= length,
    ensures
        hits@.len() <= 2,
        meets_sector(centre, radius, direction, fov, a, b, bearing_of, from_polar, hits@),
        forall|i: int|
            0 <= i < hits@.len() ==> meets_sector_at(
                centre,
                radius,
                direction,
                fov,
                a,
                b,
                bearing_of,
                from_polar,
                #[trigger] hits@[i],
            ),
{
    // this handles endpoints inside the arc
    let crossings = line_circle_collision(centre, radius, a, b).into_vec();
    let mut arc: Vec<Vector> = Vec::with_capacity(2);
    let mut i: usize = 0;
    while i < crossings.len()
        invariant
            i <= crossings@.len(),
            crossings@.len() <= 2,
            in_reach(centre),
            in_reach(a),
            in_reach(b),
            all_boxed(a, b, crossings@),
            forall|v: Vector| bearing_of.requires((v,)),
            seen_on_arc(crossings@.subrange(0, i as int), centre, direction, fov, bearing_of, arc@),
            forall|k: int|
                0 <= k < crossings@.len() ==> meets_at(centre, radius, a, b, #[trigger] crossings@[k]),
            forall|k: int|
                0 <= k < arc@.len() ==> on_round_part(
                    centre,
                    radius,
                    direction,
                    fov,
                    a,
                    b,
                    bearing_of,
                    #[trigger] arc@[k],
                ),
        decreases crossings@.len() - i,
    {
        let p = crossings[i];
        assert(boxed(a, b, crossings@[i as int]));
        let bearing = bearing_of(p - centre);
        let ghost before = arc@;
        if in_view(bearing, direction, fov) {
            arc.push(p);
        }
        proof {
            let taken = crossings@.subrange(0, i + 1);
            let earlier = taken.subrange(0, taken.len() - 1);
            assert(earlier =~= crossings@.subrange(0, i as int));
            assert(taken[taken.len() - 1] == p);
            assert(bearing_of.ensures((displacement(centre, p),), bearing));
            if within_view(bearing as int, direction as int, fov as int) {
                assert(arc@.subrange(0, arc@.len() - 1) =~= before);
                assert(arc@[arc@.len() - 1] == p);
                assert(meets_at(centre, radius, a, b, crossings@[i as int]));
                assert(on_round_part(centre, radius, direction, fov, a, b, bearing_of, p));
                assert forall|k: int| 0 <= k < arc@.len() implies on_round_part(
                    centre,
                    radius,
                    direction,
                    fov,
                    a,
                    b,
                    bearing_of,
                    #[trigger] arc@[k],
                ) by {
                    if k < before.len() {
                        assert(arc@[k] == before[k]);
                    }
                }
            }
            assert(bearing_of.ensures((displacement(centre, p),), bearing) && if within_view(
                bearing as int,
                direction as int,
                fov as int,
            ) {
                arc@.len() > 0 && arc@[arc@.len() - 1] == p && seen_on_arc(
                    earlier,
                    centre,
                    direction,
                    fov,
                    bearing_of,
                    arc@.subrange(0, arc@.len() - 1),
                )
            } else {
                seen_on_arc(earlier, centre, direction, fov, bearing_of, arc@)
            });
        }
        i += 1;
    }
    proof {
        assert(crossings@.subrange(0, crossings@.len() as int) =~= crossings@);
        lemma_seen_on_arc_short(crossings@, centre, direction, fov, bearing_of, arc@);
    }
    let half: Angle = fov / 2;
    let lower = from_polar(direction - half, radius);
    let upper = from_polar(direction + half, radius);
    let line1 = line_line_collision(centre, centre + lower, a, b);
    let line2 = line_line_collision(centre, centre + upper, a, b);
    let ghost seen = arc@;
    let hits = sector_collisions(arc, line1, line2);
    proof {
        assert(from_polar.ensures(((direction - fov / 2) as Angle, radius), lower));
        assert(from_polar.ensures(((direction + fov / 2) as Angle, radius), upper));
        assert(seen_on_arc(
            line_circle_points(centre, radius, a, b),
            centre,
            direction,
            fov,
            bearing_of,
            seen,
        ));
        assert(hits@ == sector_points(
            seen,
            line_line_point(centre, displaced(centre, lower), a, b),
            line_line_point(centre, displaced(centre, upper), a, b),
        ));
        assert(sector_edges_and_arc(
            centre,
            radius,
            direction,
            fov,
            a,
            b,
            bearing_of,
            from_polar,
            hits@,
            lower,
            upper,
            seen,
        ));
        if line1 is Some {
            lemma_boxed_is_nearer(centre, lower, line1->0);
            assert(on_straight_edge(
                centre,
                radius,
                (direction - fov / 2) as Angle,
                a,
                b,
                from_polar,
                line1->0,
            ));
        }
        if line2 is Some {
            lemma_boxed_is_nearer(centre, upper, line2->0);
            assert(on_straight_edge(
                centre,
                radius,
                (direction + fov / 2) as Angle,
                a,
                b,
                from_polar,
                line2->0,
            ));
        }
        assert forall|i: int| 0 <= i < hits@.len() implies meets_sector_at(
            centre,
            radius,
            direction,
            fov,
            a,
            b,
            bearing_of,
            from_polar,
            #[trigger] hits@[i],
        ) by {
            let p = hits@[i];
            if !(line1 is Some && line2 is Some) {
                let first = with_hit(seen, line1);
                if i < seen.len() {
                    assert(first[i] == seen[i]);
                    assert(p == seen[i]);
                } else if i < first.len() {
                    assert(p == first[i]);
                    assert(p == line1->0);
                } else {
                    assert(p == line2->0);
                }
            }
        }
    }
    hits
}

/// Whether `hits` are the points in which the segment from `a` to `b` meets
/// the sector whose straight edges end `lower` and `upper` away from the
/// centre, as `from_polar` gave them, and on whose round part `bearing_of`
/// placed the points `arc` in the field of view.
pub open spec fn sector_edges_and_arc<B: Fn(Vector) -> Angle, P: Fn(Angle, u32) -> Vector>(
    centre: Vector,
    radius: u32,
    direction: Angle,
    fov: Angle,
    a: Vector,
    b: Vector,
    bearing_of: B,
    from_polar: P,
    hits: Seq<Vector>,
    lower: Vector,
    upper: Vector,
    arc: Seq<Vector>,
) -> bool {
    &&& from_polar.ensures(((direction - fov / 2) as Angle, radius), lower)
    &&& from_polar.ensures(((direction + fov / 2) as Angle, radius), upper)
    &&& seen_on_arc(line_circle_points(centre, radius, a, b), centre, direction, fov, bearing_of, arc)
    &&& hits == sector_points(
        arc,
        line_line_point(centre, displaced(centre, lower), a, b),
        line_line_point(centre, displaced(centre, upper), a, b),
    )
}

/// Whether `hits` are the points in which the segment from `a` to `b` meets
/// the sector, for some answers of `bearing_of` and `from_polar`.
pub open spec fn meets_sector<B: Fn(Vector) -> Angle, P: Fn(Angle, u32) -> Vector>(
    centre: Vector,
    radius: u32,
    direction: Angle,
    fov: Angle,
    a: Vector,
    b: Vector,
    bearing_of: B,
    from_polar: P,
    hits: Seq<Vector>,
) -> bool {
    exists|lower: Vector, upper: Vector, arc: Seq<Vector>| #[trigger]
        sector_edges_and_arc(
            centre,
            radius,
            direction,
            fov,
            a,
            b,
            bearing_of,
            from_polar,
            hits,
            lower,
            upper,
            arc,
        )
}

/// The point that lies `by` away from `from`.
pub open spec fn displaced(from: Vector, by: Vector) -> Vector {
    Vector { x: (from.x + by.x) as i32, y: (from.y + by.y) as i32 }
}

/// Whether `arc` holds, in order, those of `crossings` that `bearing_of`
/// placed in the field of view `fov` round `direction`, as seen from
/// `centre`.
pub open spec fn seen_on_arc<B: Fn(Vector) -> Angle>(
    crossings: Seq<Vector>,
    centre: Vector,
    direction: Angle,
    fov: Angle,
    bearing_of: B,
    arc: Seq<Vector>,
) -> bool
    decreases crossings.len(),
{
    if crossings.len() == 0 {
        arc.len() == 0
    } else {
        let last = crossings[crossings.len() - 1];
        let before = crossings.subrange(0, crossings.len() - 1);
        exists|bearing: Angle| #[trigger]
            bearing_of.ensures((displacement(centre, last),), bearing) && if within_view(
                bearing as int,
                direction as int,
                fov as int,
            ) {
                arc.len() > 0 && arc[arc.len() - 1] == last && seen_on_arc(
                    before,
                    centre,
                    direction,
                    fov,
                    bearing_of,
                    arc.subrange(0, arc.len() - 1),
                )
            } else {
                seen_on_arc(before, centre, direction, fov, bearing_of, arc)
            }
    }
}

/// Of the crossings, no more are seen than there are.
pub proof fn lemma_seen_on_arc_short<B: Fn(Vector) -> Angle>(
    crossings: Seq<Vector>,
    centre: Vector,
    direction: Angle,
    fov: Angle,
    bearing_of: B,
    arc: Seq<Vector>,
)
    requires
        seen_on_arc(crossings, centre, direction, fov, bearing_of, arc),
    ensures
        arc.len() <= crossings.len(),
    decreases crossings.len(),
{
    if crossings.len() > 0 {
        let last = crossings[crossings.len() - 1];
        let before = crossings.subrange(0, crossings.len() - 1);
        let bearing = choose|bearing: Angle| #[trigger]
            bearing_of.ensures((displacement(centre, last),), bearing) && if within_view(
                bearing as int,
                direction as int,
                fov as int,
            ) {
                arc.len() > 0 && arc[arc.len() - 1] == last && seen_on_arc(
                    before,
                    centre,
                    direction,
                    fov,
                    bearing_of,
                    arc.subrange(0, arc.len() - 1),
                )
            } else {
                seen_on_arc(before, centre, direction, fov, bearing_of, arc)
            };
        if within_view(bearing as int, direction as int, fov as int) {
            lemma_seen_on_arc_short(
                before,
                centre,
                direction,
                fov,
                bearing_of,
                arc.subrange(0, arc.len() - 1),
            );
        } else {
            lemma_seen_on_arc_short(before, centre, direction, fov, bearing_of, arc);
        }
    }
}

} // verus!
