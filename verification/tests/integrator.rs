use bezier_arclen::arc_length::{calculate_delta_arc_length, find_t_for_arc_length};
use bezier_arclen::curve::compute_bezier3_derivative;

const P0: (i32, i32) = (50, 50);
const P1: (i32, i32) = (60, 250);
const P2: (i32, i32) = (200, 200);
const P3: (i32, i32) = (250, 50);

const L0: (i32, i32) = (0, 0);
const L1: (i32, i32) = (33, 0);
const L2: (i32, i32) = (66, 0);
const L3: (i32, i32) = (100, 0);

#[test]
fn delta_arc_length_is_speed_times_steps() {
    assert_eq!(calculate_delta_arc_length(1, 3, 4), 5);
    assert_eq!(calculate_delta_arc_length(7, 3, 4), 35);
    assert_eq!(calculate_delta_arc_length(7, -3, -4), 35);
    assert_eq!(calculate_delta_arc_length(2, 0, -9), 18);
    assert_eq!(calculate_delta_arc_length(0, 3, 4), 0);
}

#[test]
fn delta_arc_length_rounds_the_speed_down() {
    assert_eq!(calculate_delta_arc_length(1, 1, 1), 1);
    assert_eq!(calculate_delta_arc_length(10, 1, 1), 10);
    assert_eq!(calculate_delta_arc_length(3, 2, 2), 6);
    assert_eq!(calculate_delta_arc_length(1, 10, 10), 14);
}

#[test]
fn delta_arc_length_of_no_motion_is_zero() {
    assert_eq!(calculate_delta_arc_length(1, 0, 0), 0);
    assert_eq!(calculate_delta_arc_length(u32::MAX, 0, 0), 0);
}

#[test]
fn delta_arc_length_at_the_limits_of_the_inputs() {
    // floor(sqrt(2 * 2^126)) = 13043817825332782212
    assert_eq!(
        calculate_delta_arc_length(u32::MAX, i64::MIN, i64::MIN),
        13043817825332782212 * (u32::MAX as u128)
    );
    assert_eq!(
        calculate_delta_arc_length(1, i64::MAX, 0),
        i64::MAX as u128
    );
}

#[test]
fn find_t_on_a_straight_line() {
    // length from 0 to t is 99 t + t^3: ten units are first passed at t = 0.101
    let unit: u128 = 1_000_000_000;
    assert_eq!(find_t_for_arc_length(0, 10 * unit, 0, 1, L0, L1, L2, L3, 1000), 101);
}

#[test]
fn find_t_is_the_first_step_that_reaches_the_length() {
    let unit: u128 = 1_000_000_000;
    let target: u128 = 25 * unit;
    let t: i64 = find_t_for_arc_length(0, target, 0, 1, P0, P1, P2, P3, 1000);
    assert_eq!(t, 44);
    let mut sum: u128 = 0;
    let mut k: i64 = 0;
    while k < t {
        assert!(sum < target);
        let d = compute_bezier3_derivative(k, P0, P1, P2, P3, 1000);
        sum += calculate_delta_arc_length(1, d.0, d.1);
        k += 1;
    }
    assert!(sum >= target);
}

#[test]
fn find_t_goes_on_from_where_it_is() {
    let unit: u128 = 1_000_000_000;
    assert_eq!(find_t_for_arc_length(0, 25 * unit, 44, 1, P0, P1, P2, P3, 1000), 94);
    assert_eq!(
        find_t_for_arc_length(25 * unit, 50 * unit, 44, 1, P0, P1, P2, P3, 1000),
        94
    );
}

#[test]
fn find_t_moves_by_whole_steps() {
    let unit: u128 = 1_000_000_000;
    assert_eq!(find_t_for_arc_length(0, 25 * unit, 0, 7, P0, P1, P2, P3, 1000), 49);
}

#[test]
fn find_t_stays_when_the_length_is_already_there() {
    assert_eq!(find_t_for_arc_length(5, 5, 17, 1, P0, P1, P2, P3, 1000), 17);
    assert_eq!(find_t_for_arc_length(9, 5, 17, 1, P0, P1, P2, P3, 1000), 17);
    assert_eq!(find_t_for_arc_length(0, 0, 17, 1, P0, P1, P2, P3, 1000), 17);
}

#[test]
fn find_t_measures_each_step_where_it_sets_out() {
    // the curve sets out at rest: the step from 0 sweeps nothing, the step from 1/2 sweeps 3
    let z: (i32, i32) = (0, 0);
    assert_eq!(find_t_for_arc_length(0, 8, 0, 1, z, z, z, (8, 0), 2), 2);
    assert_eq!(find_t_for_arc_length(0, 24, 0, 1, z, z, z, (8, 0), 2), 2);
    assert_eq!(find_t_for_arc_length(0, 25, 0, 1, z, z, z, (8, 0), 2), 3);
}

#[test]
fn find_t_goes_on_beyond_the_end_of_the_curve() {
    // a line of length 3 at speed 3: seven steps of 1.5 make up 10.5
    assert_eq!(find_t_for_arc_length(0, 84, 0, 1, (0, 0), (1, 0), (2, 0), (3, 0), 2), 7);
    assert_eq!(find_t_for_arc_length(0, 85, 0, 1, (0, 0), (1, 0), (2, 0), (3, 0), 2), 8);
    // the bent curve is about 358.6 long
    let unit: u128 = 1_000_000_000;
    assert_eq!(find_t_for_arc_length(0, 400 * unit, 0, 1, P0, P1, P2, P3, 1000), 1085);
    assert_eq!(find_t_for_arc_length(0, 1_000_000 * unit, 0, 1, P0, P1, P2, P3, 1000), 16468);
    assert_eq!(find_t_for_arc_length(0, 1, 1001, 1, P0, P1, P2, P3, 1000), 1002);
}

#[test]
fn find_t_gives_up_at_the_edge_of_the_parameter_range() {
    let far: u128 = 1_000_000_000_000_000_000_000_000_000_000;
    assert_eq!(find_t_for_arc_length(0, far, 990, 4, P0, P1, P2, P3, 1000), 131074);
    assert_eq!(find_t_for_arc_length(0, far, -20, 7, P0, P1, P2, P3, 10), 131076);
    assert_eq!(find_t_for_arc_length(0, u128::MAX, 0, 1, P0, P1, P2, P3, 1000), 131073);
    assert_eq!(find_t_for_arc_length(0, far, 131072, 1, P0, P1, P2, P3, 1000), 131073);
}

#[test]
fn find_t_starts_before_the_curve() {
    assert_eq!(find_t_for_arc_length(0, 1, -5, 1, P0, P1, P2, P3, 1000), -4);
}

#[test]
fn find_t_on_a_point_curve_runs_out_of_the_parameter_range() {
    let p: (i32, i32) = (7, -3);
    assert_eq!(find_t_for_arc_length(0, 1, 0, 1, p, p, p, p, 100), 131073);
    assert_eq!(find_t_for_arc_length(0, 1, 0, 3, p, p, p, p, 100), 131073);
    assert_eq!(find_t_for_arc_length(0, 1, 131072, 4_000_000_000, p, p, p, p, 100), 4_000_131_072);
    assert_eq!(find_t_for_arc_length(0, 0, 5, 1, p, p, p, p, 100), 5);
}

#[test]
fn find_t_with_a_sum_that_saturates() {
    // the step from -1 to 0 sweeps 1945555039024054272 * 65536, far more than a u128 has left
    let a: (i32, i32) = (-8_388_608, 0);
    let b: (i32, i32) = (8_388_608, 0);
    assert_eq!(
        find_t_for_arc_length(u128::MAX - 1, u128::MAX, -65536, 65536, a, b, a, b, 65536),
        0
    );
}
