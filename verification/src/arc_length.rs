//! Arc length by the rectangle rule, and its inversion by stepping.
//!
//! A length is a whole number of units of `1 / resolution^3` of a grid unit:
//! the rounded-down magnitude of a velocity numerator (over `resolution^2`),
//! times a number of lattice steps (each `1 / resolution`). Each step is
//! measured at the velocity found where it sets out.

use vstd::prelude::*;
use crate::curve::{
    compute_bezier3_derivative, curve, lemma_mul_bounds, lemma_point_curve_stands_still,
    param_in_range, Curve, MAX_PARAM,
};
use crate::isqrt::{floor_sqrt, lemma_sqrt_floor_exists, lemma_sqrt_floor_is, sqrt_floor};

verus! {

/// The length swept over `d_t` lattice steps at the velocity `(d_x, d_y)`:
/// the velocity's magnitude, rounded down, times `d_t`.
pub open spec fn delta_arc_length(d_t: int, d_x: int, d_y: int) -> int {
    sqrt_floor(d_x * d_x + d_y * d_y) * d_t
}

impl Curve {
    /// The length of the step of `delta_t` that sets out from parameter `t`,
    /// at the velocity found at `t`.
    pub open spec fn step_length(self, t: int, delta_t: int) -> int {
        delta_arc_length(delta_t, self.derivative(t).0, self.derivative(t).1)
    }

    /// The length swept by `count` steps of `delta_t` that begin at `start`:
    /// the sum of the lengths of the steps that set out from `start`,
    /// `start + delta_t`, ..., `start + (count - 1) * delta_t`.
    pub open spec fn arc_length(self, start: int, delta_t: int, count: nat) -> int
        decreases count,
    {
        if count == 0 {
            0
        } else {
            self.arc_length(start, delta_t, (count - 1) as nat) + self.step_length(
                start + (count - 1) * delta_t,
                delta_t,
            )
        }
    }

    /// After `count` steps from `start` the search is over: the swept length
    /// makes up `needed`, or the parameter has left the range in which a
    /// velocity can be taken.
    pub open spec fn search_ends(self, needed: int, start: int, delta_t: int, count: nat) -> bool {
        ||| self.arc_length(start, delta_t, count) >= needed
        ||| start + count * delta_t > MAX_PARAM
    }

    /// `count` is the least number of steps after which the search is over.
    pub open spec fn is_first_end(self, needed: int, start: int, delta_t: int, count: nat) -> bool {
        &&& self.search_ends(needed, start, delta_t, count)
        &&& forall|i: nat| i < count ==> !#[trigger] self.search_ends(needed, start, delta_t, i)
    }

    /// The least number of steps of `delta_t` from `start` that sweep a
    /// length of at least `needed` or leave the range of the parameter.
    pub open spec fn steps_to_length(self, needed: int, start: int, delta_t: int) -> nat {
        choose|count: nat| self.is_first_end(needed, start, delta_t, count)
    }

    /// The parameter at which the search from `start` for the length
    /// `needed` comes to rest.
    pub open spec fn param_at_length(self, needed: int, start: int, delta_t: int) -> int {
        start + self.steps_to_length(needed, start, delta_t) * delta_t
    }
}

/// The least number of steps is determined: whoever has found it has found
/// `steps_to_length`.
pub proof fn lemma_first_end_is(c: Curve, needed: int, start: int, delta_t: int, count: nat)
    requires
        c.is_first_end(needed, start, delta_t, count),
    ensures
        c.steps_to_length(needed, start, delta_t) == count,
{
}

/// A step forward has no negative length.
pub proof fn lemma_step_length_nonnegative(c: Curve, t: int, delta_t: int)
    requires
        0 <= delta_t,
    ensures
        0 <= c.step_length(t, delta_t),
{
    let d = c.derivative(t);
    let square = d.0 * d.0 + d.1 * d.1;
    assert(0 <= square) by (nonlinear_arith)
        requires
            square == d.0 * d.0 + d.1 * d.1,
    ;
    lemma_sqrt_floor_exists(square);
    assert(0 <= sqrt_floor(square) * delta_t) by (nonlinear_arith)
        requires
            0 <= sqrt_floor(square),
            0 <= delta_t,
    ;
}

/// More steps forward sweep no less length.
pub proof fn lemma_arc_length_grows(c: Curve, start: int, delta_t: int, fewer: nat, more: nat)
    requires
        0 <= delta_t,
        fewer <= more,
    ensures
        0 <= c.arc_length(start, delta_t, fewer) <= c.arc_length(start, delta_t, more),
    decreases more,
{
    if more > 0 {
        lemma_step_length_nonnegative(c, start + (more - 1) * delta_t, delta_t);
        if fewer < more {
            lemma_arc_length_grows(c, start, delta_t, fewer, (more - 1) as nat);
        } else {
            lemma_arc_length_grows(c, start, delta_t, 0, (more - 1) as nat);
        }
    }
}

/// The length of `first + then` steps is the length of the first `first`
/// steps and that of `then` steps from where those ended.
pub proof fn lemma_arc_length_split(c: Curve, start: int, delta_t: int, first: nat, then: nat)
    ensures
        c.arc_length(start, delta_t, first + then) == c.arc_length(start, delta_t, first)
            + c.arc_length(start + first * delta_t, delta_t, then),
    decreases then,
{
    if then > 0 {
        lemma_arc_length_split(c, start, delta_t, first, (then - 1) as nat);
        assert((first + then - 1) * delta_t == first * delta_t + (then - 1) * delta_t)
            by (nonlinear_arith);
    }
}

proof fn lemma_least_end(c: Curve, needed: int, start: int, delta_t: int, bound: nat)
    requires
        c.search_ends(needed, start, delta_t, bound),
    ensures
        exists|count: nat| c.is_first_end(needed, start, delta_t, count),
    decreases bound,
{
    if !c.is_first_end(needed, start, delta_t, bound) {
        let earlier = choose|i: nat| i < bound && c.search_ends(needed, start, delta_t, i);
        lemma_least_end(c, needed, start, delta_t, earlier);
    }
}

/// Every search comes to rest: with a step of at least one, `steps_to_length`
/// is the least number of steps after which the length is made up or the
/// range of the parameter is left.
pub proof fn lemma_search_comes_to_rest(c: Curve, needed: int, start: int, delta_t: int)
    requires
        1 <= delta_t,
    ensures
        c.is_first_end(needed, start, delta_t, c.steps_to_length(needed, start, delta_t)),
{
    let bound: nat = if start > MAX_PARAM {
        0
    } else {
        (MAX_PARAM - start + 1) as nat
    };
    assert(start + bound * delta_t > MAX_PARAM) by (nonlinear_arith)
        requires
            1 <= delta_t,
            start + bound > MAX_PARAM,
            0 <= bound,
    ;
    lemma_least_end(c, needed, start, delta_t, bound);
}

/// A curve whose four control points coincide has no length, however many
/// steps are taken along it.
pub proof fn lemma_point_curve_has_no_length(c: Curve, start: int, step: int, count: nat)
    requires
        c.is_point(),
    ensures
        c.arc_length(start, step, count) == 0,
    decreases count,
{
    if count > 0 {
        lemma_point_curve_has_no_length(c, start, step, (count - 1) as nat);
        let from = start + (count - 1) * step;
        lemma_point_curve_stands_still(c, from);
        lemma_sqrt_floor_is(0, 0);
        assert(c.step_length(from, step) == 0) by (nonlinear_arith)
            requires
                c.step_length(from, step) == sqrt_floor(0int * 0int + 0int * 0int) * step,
                sqrt_floor(0) == 0,
        ;
    }
}

/// On a curve whose four control points coincide a search for any length
/// runs out of the range of the parameter, and so beyond the end of the
/// curve.
pub proof fn lemma_point_curve_search(c: Curve, needed: int, start: int, delta_t: int)
    requires
        c.is_point(),
        1 <= needed,
        1 <= delta_t,
    ensures
        c.param_at_length(needed, start, delta_t) > MAX_PARAM,
{
    lemma_search_comes_to_rest(c, needed, start, delta_t);
    lemma_point_curve_has_no_length(c, start, delta_t, c.steps_to_length(needed, start, delta_t));
}

/// The length swept over `d_t` lattice steps at the velocity `(d_x, d_y)`.
pub fn calculate_delta_arc_length(d_t: u32, d_x: i64, d_y: i64) -> (len: u128)
    ensures
        len == delta_arc_length(d_t as int, d_x as int, d_y as int),
{
    let ax: u128 = if d_x < 0 {
        (-(d_x as i128)) as u128
    } else {
        d_x as u128
    };
    let ay: u128 = if d_y < 0 {
        (-(d_y as i128)) as u128
    } else {
        d_y as u128
    };
    proof {
        lemma_mul_bounds(ax as int, ax as int, 0x8000_0000_0000_0000, 0x8000_0000_0000_0000);
        lemma_mul_bounds(ay as int, ay as int, 0x8000_0000_0000_0000, 0x8000_0000_0000_0000);
        assert(ax * ax == d_x * d_x) by (nonlinear_arith)
            requires
                ax == d_x || ax == -d_x,
        ;
        assert(ay * ay == d_y * d_y) by (nonlinear_arith)
            requires
                ay == d_y || ay == -d_y,
        ;
    }
    let speed: u64 = floor_sqrt(ax * ax + ay * ay);
    proof {
        lemma_mul_bounds(speed as int, d_t as int, 0xffff_ffff_ffff_ffff, 0xffff_ffff);
    }
    (speed as u128) * (d_t as u128)
}

/// A search that comes to rest within the range of the parameter has made up
/// the length: its steps are the least number whose sum reaches `needed`.
pub proof fn lemma_search_reaches_length(c: Curve, needed: int, start: int, delta_t: int)
    requires
        1 <= delta_t,
        c.param_at_length(needed, start, delta_t) <= MAX_PARAM,
    ensures
        c.arc_length(start, delta_t, c.steps_to_length(needed, start, delta_t)) >= needed,
        forall|i: nat|
            i < c.steps_to_length(needed, start, delta_t) ==> #[trigger] c.arc_length(
                start,
                delta_t,
                i,
            ) < needed,
{
    lemma_search_comes_to_rest(c, needed, start, delta_t);
    let steps = c.steps_to_length(needed, start, delta_t);
    assert forall|i: nat| i < steps implies #[trigger] c.arc_length(start, delta_t, i) < needed by {
        assert(!c.search_ends(needed, start, delta_t, i));
    }
}

/// Steps from `current_t` by `delta_t`, adding the length of each step to
/// `current_len`, until the sum reaches `total_len`, and returns the
/// parameter reached: `current_t` and the least number of steps whose
/// lengths make up what is missing.
///
/// Each step is measured at the velocity found where it sets out. The search
/// goes on beyond the end of the curve, along the same cubic; a caller that
/// wants a place on the curve tests the result against `resolution`. It gives
/// up only where no velocity can be taken any more: a result beyond
/// `MAX_PARAM` says that the length was not made up within the range of the
/// parameter, as on a curve that stands still. The sum saturates: a sum that
/// no `u128` holds has reached any target.
pub fn find_t_for_arc_length(
    current_len: u128,
    total_len: u128,
    current_t: i64,
    delta_t: u32,
    p0: (i32, i32),
    p1: (i32, i32),
    p2: (i32, i32),
    p3: (i32, i32),
    resolution: u32,
) -> (t: i64)
    requires
        param_in_range(current_t),
        1 <= delta_t,
        curve(p0, p1, p2, p3, resolution).in_range(),
    ensures
        t == curve(p0, p1, p2, p3, resolution).param_at_length(
            total_len - current_len,
            current_t as int,
            delta_t as int,
        ),
        curve(p0, p1, p2, p3, resolution).is_first_end(
            total_len - current_len,
            current_t as int,
            delta_t as int,
            curve(p0, p1, p2, p3, resolution).steps_to_length(
                total_len - current_len,
                current_t as int,
                delta_t as int,
            ),
        ),
        t <= MAX_PARAM ==> current_len + curve(p0, p1, p2, p3, resolution).arc_length(
            current_t as int,
            delta_t as int,
            curve(p0, p1, p2, p3, resolution).steps_to_length(
                total_len - current_len,
                current_t as int,
                delta_t as int,
            ),
        ) >= total_len,
        current_len >= total_len ==> t == current_t,
        current_len < total_len ==> current_t + delta_t <= t <= MAX_PARAM + delta_t,
{
    let ghost c = curve(p0, p1, p2, p3, resolution);
    let ghost needed: int = total_len - current_len;
    let ghost start: int = current_t as int;
    let ghost step: int = delta_t as int;
    let ghost mut count: nat = 0;
    let mut len: u128 = current_len;
    let mut t: i64 = current_t;
    while len < total_len && t <= MAX_PARAM
        invariant
            param_in_range(current_t),
            1 <= delta_t,
            c == curve(p0, p1, p2, p3, resolution),
            c.in_range(),
            needed == total_len - current_len,
            start == current_t,
            step == delta_t,
            t == start + count * step,
            count == 0 ==> t == start && len == current_len,
            count > 0 ==> current_len < total_len && start + step <= t <= MAX_PARAM + step,
            c.arc_length(start, step, count) >= 0,
            len == current_len + c.arc_length(start, step, count) || (len == u128::MAX
                && current_len + c.arc_length(start, step, count) > u128::MAX),
            forall|i: nat| i < count ==> !#[trigger] c.search_ends(needed, start, step, i),
        decreases MAX_PARAM + delta_t - t,
    {
        let b_prime_t = compute_bezier3_derivative(t, p0, p1, p2, p3, resolution);
        let delta_len: u128 = calculate_delta_arc_length(delta_t, b_prime_t.0, b_prime_t.1);
        len = len.saturating_add(delta_len);
        t = t + delta_t as i64;
        proof {
            assert((count + 1) * step == count * step + step) by (nonlinear_arith);
            count = count + 1;
        }
    }
    proof {
        lemma_first_end_is(c, needed, start, step, count);
    }
    t
}

} // verus!
