//! Position and velocity of a cubic Bezier curve at a lattice parameter.
//!
//! Control points lie on an integer grid. A parameter is a whole number `t` of
//! lattice steps, `resolution` of which make up the unit interval, so it stands
//! for the rational `t / resolution`. Positions and velocities are exact
//! numerators: a position over the denominator `resolution^3`, a velocity over
//! `resolution^2`.

use vstd::prelude::*;

verus! {

/// Largest magnitude of a control point's coordinate, `2^23`.
///
/// The three limits go together: within them every position numerator fits
/// in 128 bits, every velocity numerator in 64, and the square of a
/// velocity's magnitude in 128.
pub const MAX_COORD: i32 = 8_388_608;

/// Largest number of lattice steps in the unit interval, `2^16`.
pub const MAX_RESOLUTION: u32 = 65_536;

/// Largest magnitude of a parameter, in lattice steps: twice
/// `MAX_RESOLUTION`, so that a parameter may lie as far as one unit interval
/// before the start of a curve or beyond its end, at any resolution. A
/// search for a length gives up where it leaves this range.
pub const MAX_PARAM: i64 = 131_072;

/// A cubic Bezier curve as the contracts see it: four control points and the
/// resolution of the parameter lattice.
pub struct Curve {
    pub p0: (int, int),
    pub p1: (int, int),
    pub p2: (int, int),
    pub p3: (int, int),
    pub resolution: int,
}

/// The curve that four control points and a resolution stand for.
pub open spec fn curve(
    p0: (i32, i32),
    p1: (i32, i32),
    p2: (i32, i32),
    p3: (i32, i32),
    resolution: u32,
) -> Curve {
    Curve {
        p0: (p0.0 as int, p0.1 as int),
        p1: (p1.0 as int, p1.1 as int),
        p2: (p2.0 as int, p2.1 as int),
        p3: (p3.0 as int, p3.1 as int),
        resolution: resolution as int,
    }
}

/// Both coordinates of `p` are within `MAX_COORD` of the origin.
pub open spec fn point_in_range(p: (int, int)) -> bool {
    &&& -MAX_COORD <= p.0 <= MAX_COORD
    &&& -MAX_COORD <= p.1 <= MAX_COORD
}

/// The parameter is within `MAX_PARAM` steps of zero.
pub open spec fn param_in_range(t: i64) -> bool {
    -MAX_PARAM <= t <= MAX_PARAM
}

/// The third power of `n`: the denominator of a position, and the number of
/// length units in one grid unit, for a lattice of resolution `n`.
pub open spec fn cube(n: int) -> int {
    n * n * n
}

/// One coordinate of the curve at `t / n`, times `n^3`: the cubic Bernstein
/// blend of the control values `a0..a3` with the weights `u^3`, `3 u^2 t`,
/// `3 u t^2` and `t^3`, where `u = n - t`.
pub open spec fn bezier3_coord(t: int, n: int, a0: int, a1: int, a2: int, a3: int) -> int {
    let u = n - t;
    u * u * u * a0 + 3 * (u * u * t) * a1 + 3 * (u * t * t) * a2 + t * t * t * a3
}

/// One coordinate of the curve's derivative at `t / n`, times `n^2`.
pub open spec fn bezier3_slope(t: int, n: int, a0: int, a1: int, a2: int, a3: int) -> int {
    let u = n - t;
    3 * (u * u) * (a1 - a0) + 6 * (u * t) * (a2 - a1) + 3 * (t * t) * (a3 - a2)
}

impl Curve {
    /// The control points are within `MAX_COORD` of the origin, and the
    /// lattice has at least one step and at most `MAX_RESOLUTION`.
    pub open spec fn in_range(self) -> bool {
        &&& point_in_range(self.p0)
        &&& point_in_range(self.p1)
        &&& point_in_range(self.p2)
        &&& point_in_range(self.p3)
        &&& 1 <= self.resolution <= MAX_RESOLUTION
    }

    /// The four control points coincide.
    pub open spec fn is_point(self) -> bool {
        self.p0 == self.p1 && self.p1 == self.p2 && self.p2 == self.p3
    }

    /// The position at `t / resolution`, times `resolution^3`.
    pub open spec fn point(self, t: int) -> (int, int) {
        (
            bezier3_coord(t, self.resolution, self.p0.0, self.p1.0, self.p2.0, self.p3.0),
            bezier3_coord(t, self.resolution, self.p0.1, self.p1.1, self.p2.1, self.p3.1),
        )
    }

    /// The velocity at `t / resolution`, times `resolution^2`.
    pub open spec fn derivative(self, t: int) -> (int, int) {
        (
            bezier3_slope(t, self.resolution, self.p0.0, self.p1.0, self.p2.0, self.p3.0),
            bezier3_slope(t, self.resolution, self.p0.1, self.p1.1, self.p2.1, self.p3.1),
        )
    }
}

/// A product of two bounded factors is bounded by the product of the bounds.
pub proof fn lemma_mul_bounds(a: int, b: int, ma: int, mb: int)
    by (nonlinear_arith)
    requires
        -ma <= a <= ma,
        -mb <= b <= mb,
    ensures
        -(ma * mb) <= a * b <= ma * mb,
{
}

/// A curve begins at its first control point and ends at its last: at
/// parameter 0 the position is `p0`, and at parameter 1, which is
/// `resolution` steps, it is `p3`.
pub proof fn lemma_endpoints(c: Curve)
    ensures
        c.point(0) == (cube(c.resolution) * c.p0.0, cube(c.resolution) * c.p0.1),
        c.point(c.resolution) == (cube(c.resolution) * c.p3.0, cube(c.resolution) * c.p3.1),
{
    lemma_coord_endpoints(c.resolution, c.p0.0, c.p1.0, c.p2.0, c.p3.0);
    lemma_coord_endpoints(c.resolution, c.p0.1, c.p1.1, c.p2.1, c.p3.1);
}

proof fn lemma_coord_endpoints(n: int, a0: int, a1: int, a2: int, a3: int)
    by (nonlinear_arith)
    ensures
        bezier3_coord(0, n, a0, a1, a2, a3) == n * n * n * a0,
        bezier3_coord(n, n, a0, a1, a2, a3) == n * n * n * a3,
{
}

/// A curve whose four control points coincide stands still: its velocity is
/// `(0, 0)` at every parameter, and its position is that point.
pub proof fn lemma_point_curve_stands_still(c: Curve, t: int)
    requires
        c.is_point(),
    ensures
        c.derivative(t) == (0int, 0int),
        c.point(t) == (cube(c.resolution) * c.p0.0, cube(c.resolution) * c.p0.1),
{
    lemma_constant_coord(t, c.resolution, c.p0.0);
    lemma_constant_coord(t, c.resolution, c.p0.1);
}

proof fn lemma_constant_coord(t: int, n: int, a: int)
    by (nonlinear_arith)
    ensures
        bezier3_slope(t, n, a, a, a, a) == 0,
        bezier3_coord(t, n, a, a, a, a) == n * n * n * a,
{
}

fn blend(t: i64, resolution: u32, a0: i32, a1: i32, a2: i32, a3: i32) -> (r: i128)
    requires
        param_in_range(t),
        1 <= resolution <= MAX_RESOLUTION,
        -MAX_COORD <= a0 <= MAX_COORD,
        -MAX_COORD <= a1 <= MAX_COORD,
        -MAX_COORD <= a2 <= MAX_COORD,
        -MAX_COORD <= a3 <= MAX_COORD,
    ensures
        r == bezier3_coord(t as int, resolution as int, a0 as int, a1 as int, a2 as int, a3 as int),
{
    let s: i128 = t as i128;
    let u: i128 = resolution as i128 - s;
    let c0: i128 = a0 as i128;
    let c1: i128 = a1 as i128;
    let c2: i128 = a2 as i128;
    let c3: i128 = a3 as i128;
    proof {
        lemma_mul_bounds(u as int, u as int, 196608, 196608);
        lemma_mul_bounds(u * u, u as int, 38654705664, 196608);
        lemma_mul_bounds(u * u, s as int, 38654705664, 131072);
        lemma_mul_bounds(u as int, s as int, 196608, 131072);
        lemma_mul_bounds(u * s, s as int, 25769803776, 131072);
        lemma_mul_bounds(s as int, s as int, 131072, 131072);
        lemma_mul_bounds(s * s, s as int, 17179869184, 131072);
        lemma_mul_bounds(u * u * u, c0 as int, 7599824371187712, 8388608);
        lemma_mul_bounds(3 * (u * u * s), c1 as int, 15199648742375424, 8388608);
        lemma_mul_bounds(3 * (u * s * s), c2 as int, 10133099161583616, 8388608);
        lemma_mul_bounds(s * s * s, c3 as int, 2251799813685248, 8388608);
    }
    u * u * u * c0 + 3 * (u * u * s) * c1 + 3 * (u * s * s) * c2 + s * s * s * c3
}

fn slope(t: i64, resolution: u32, a0: i32, a1: i32, a2: i32, a3: i32) -> (r: i64)
    requires
        param_in_range(t),
        1 <= resolution <= MAX_RESOLUTION,
        -MAX_COORD <= a0 <= MAX_COORD,
        -MAX_COORD <= a1 <= MAX_COORD,
        -MAX_COORD <= a2 <= MAX_COORD,
        -MAX_COORD <= a3 <= MAX_COORD,
    ensures
        r == bezier3_slope(t as int, resolution as int, a0 as int, a1 as int, a2 as int, a3 as int),
{
    let u: i64 = resolution as i64 - t;
    let d0: i64 = a1 as i64 - a0 as i64;
    let d1: i64 = a2 as i64 - a1 as i64;
    let d2: i64 = a3 as i64 - a2 as i64;
    proof {
        lemma_mul_bounds(u as int, u as int, 196608, 196608);
        lemma_mul_bounds(u as int, t as int, 196608, 131072);
        lemma_mul_bounds(t as int, t as int, 131072, 131072);
        lemma_mul_bounds(3 * (u * u), d0 as int, 115964116992, 16777216);
        lemma_mul_bounds(6 * (u * t), d1 as int, 154618822656, 16777216);
        lemma_mul_bounds(3 * (t * t), d2 as int, 51539607552, 16777216);
    }
    3 * (u * u) * d0 + 6 * (u * t) * d1 + 3 * (t * t) * d2
}

/// The point of the curve at parameter `t / resolution`, as numerators over
/// `resolution^3`.
pub fn compute_bezier3_point(
    t: i64,
    p0: (i32, i32),
    p1: (i32, i32),
    p2: (i32, i32),
    p3: (i32, i32),
    resolution: u32,
) -> (r: (i128, i128))
    requires
        param_in_range(t),
        curve(p0, p1, p2, p3, resolution).in_range(),
    ensures
        (r.0 as int, r.1 as int) == curve(p0, p1, p2, p3, resolution).point(t as int),
        t == 0 ==> r.0 == cube(resolution as int) * p0.0 && r.1 == cube(resolution as int) * p0.1,
        t == resolution ==> r.0 == cube(resolution as int) * p3.0 && r.1 == cube(resolution as int)
            * p3.1,
{
    proof {
        lemma_endpoints(curve(p0, p1, p2, p3, resolution));
    }
    let x: i128 = blend(t, resolution, p0.0, p1.0, p2.0, p3.0);
    let y: i128 = blend(t, resolution, p0.1, p1.1, p2.1, p3.1);
    (x, y)
}

/// The velocity of the curve at parameter `t / resolution`, as numerators over
/// `resolution^2`.
pub fn compute_bezier3_derivative(
    t: i64,
    p0: (i32, i32),
    p1: (i32, i32),
    p2: (i32, i32),
    p3: (i32, i32),
    resolution: u32,
) -> (r: (i64, i64))
    requires
        param_in_range(t),
        curve(p0, p1, p2, p3, resolution).in_range(),
    ensures
        (r.0 as int, r.1 as int) == curve(p0, p1, p2, p3, resolution).derivative(t as int),
{
    let x: i64 = slope(t, resolution, p0.0, p1.0, p2.0, p3.0);
    let y: i64 = slope(t, resolution, p0.1, p1.1, p2.1, p3.1);
    (x, y)
}

/// Position and velocity of the curve at parameter `t / resolution`. The
/// heading of a marker placed there is the direction of the velocity; where
/// the velocity is `(0, 0)` the curve has no heading.
pub fn compute_features(
    t: i64,
    p0: (i32, i32),
    p1: (i32, i32),
    p2: (i32, i32),
    p3: (i32, i32),
    resolution: u32,
) -> (r: ((i128, i128), (i64, i64)))
    requires
        param_in_range(t),
        curve(p0, p1, p2, p3, resolution).in_range(),
    ensures
        (r.0.0 as int, r.0.1 as int) == curve(p0, p1, p2, p3, resolution).point(t as int),
        (r.1.0 as int, r.1.1 as int) == curve(p0, p1, p2, p3, resolution).derivative(t as int),
{
    let b_t = compute_bezier3_point(t, p0, p1, p2, p3, resolution);
    let b_prime_t = compute_bezier3_derivative(t, p0, p1, p2, p3, resolution);
    (b_t, b_prime_t)
}

} // verus!
