use bezier_arclen::curve::{
    compute_bezier3_derivative, compute_bezier3_point, compute_features, MAX_COORD, MAX_PARAM,
    MAX_RESOLUTION,
};
use bezier_arclen::isqrt::floor_sqrt;

const P0: (i32, i32) = (50, 50);
const P1: (i32, i32) = (60, 250);
const P2: (i32, i32) = (200, 200);
const P3: (i32, i32) = (250, 50);

#[test]
fn point_at_start_is_first_control_point() {
    assert_eq!(compute_bezier3_point(0, P0, P1, P2, P3, 4), (64 * 50, 64 * 50));
    assert_eq!(
        compute_bezier3_point(0, P0, P1, P2, P3, 1000),
        (50_000_000_000, 50_000_000_000)
    );
}

#[test]
fn point_at_end_is_last_control_point() {
    assert_eq!(compute_bezier3_point(4, P0, P1, P2, P3, 4), (64 * 250, 64 * 50));
    assert_eq!(
        compute_bezier3_point(1000, P0, P1, P2, P3, 1000),
        (250_000_000_000, 50_000_000_000)
    );
}

#[test]
fn point_at_half_is_the_bernstein_blend() {
    // (50 + 3 * 60 + 3 * 200 + 250) / 8 = 135, (50 + 3 * 250 + 3 * 200 + 50) / 8 = 181.25
    assert_eq!(compute_bezier3_point(2, P0, P1, P2, P3, 4), (8640, 11600));
    assert_eq!(
        compute_bezier3_point(500, P0, P1, P2, P3, 1000),
        (135_000_000_000, 181_250_000_000)
    );
}

#[test]
fn point_at_a_quarter() {
    // weights 27, 27, 9, 1 over 64
    assert_eq!(compute_bezier3_point(1, P0, P1, P2, P3, 4), (5020, 9950));
}

#[test]
fn point_outside_the_unit_interval_extrapolates() {
    assert_eq!(compute_bezier3_point(-1, P0, P1, P2, P3, 4), (4500, -9550));
    assert_eq!(compute_bezier3_point(6, P0, P1, P2, P3, 4), (14720, -14800));
}

#[test]
fn derivative_at_start_and_end_follows_the_outer_legs() {
    // 3 * (p1 - p0) and 3 * (p3 - p2), times 4^2
    assert_eq!(compute_bezier3_derivative(0, P0, P1, P2, P3, 4), (480, 9600));
    assert_eq!(compute_bezier3_derivative(4, P0, P1, P2, P3, 4), (2400, -7200));
}

#[test]
fn derivative_inside_and_outside_the_unit_interval() {
    assert_eq!(compute_bezier3_derivative(2, P0, P1, P2, P3, 4), (4080, -600));
    assert_eq!(compute_bezier3_derivative(1, P0, P1, P2, P3, 4), (2940, 4050));
    assert_eq!(compute_bezier3_derivative(-1, P0, P1, P2, P3, 4), (-3300, 16050));
    assert_eq!(compute_bezier3_derivative(6, P0, P1, P2, P3, 4), (-4560, -10200));
    assert_eq!(
        compute_bezier3_derivative(500, P0, P1, P2, P3, 1000),
        (255_000_000, -37_500_000)
    );
}

#[test]
fn derivative_of_a_point_curve_is_zero() {
    let p: (i32, i32) = (7, -3);
    let mut t: i64 = -200;
    while t <= 200 {
        assert_eq!(compute_bezier3_derivative(t, p, p, p, p, 100), (0, 0));
        t += 1;
    }
    assert_eq!(compute_bezier3_point(37, p, p, p, p, 100), (7_000_000, -3_000_000));
}

#[test]
fn features_pair_point_and_derivative() {
    let mut t: i64 = -8;
    while t <= 12 {
        let (position, tangent) = compute_features(t, P0, P1, P2, P3, 4);
        assert_eq!(position, compute_bezier3_point(t, P0, P1, P2, P3, 4));
        assert_eq!(tangent, compute_bezier3_derivative(t, P0, P1, P2, P3, 4));
        t += 1;
    }
    assert_eq!(compute_features(2, P0, P1, P2, P3, 4), ((8640, 11600), (4080, -600)));
}

#[test]
fn heading_of_the_tangent() {
    let (_, tangent) = compute_features(0, (0, 0), (0, 10), (10, 10), (10, 0), 8);
    assert_eq!(tangent, (0, 1920));
    let up: f64 = (tangent.1 as f64).atan2(tangent.0 as f64);
    assert!((up - std::f64::consts::FRAC_PI_2).abs() < 1e-12);
    let p: (i32, i32) = (3, 3);
    let (_, still) = compute_features(5, p, p, p, p, 8);
    assert_eq!((still.1 as f64).atan2(still.0 as f64), 0.0);
}

#[test]
fn evaluation_at_the_limits_of_the_inputs() {
    let a: (i32, i32) = (MAX_COORD, -MAX_COORD);
    let b: (i32, i32) = (-MAX_COORD, MAX_COORD);
    assert_eq!(
        compute_bezier3_point(MAX_PARAM, a, b, a, b, MAX_RESOLUTION),
        (-63751947518740210384896, 63751947518740210384896)
    );
    assert_eq!(
        compute_bezier3_point(-MAX_PARAM, a, b, a, b, MAX_RESOLUTION),
        (295147905179352825856000, -295147905179352825856000)
    );
    assert_eq!(
        compute_bezier3_derivative(MAX_PARAM, a, b, a, b, MAX_RESOLUTION),
        (-1945555039024054272, 1945555039024054272)
    );
    assert_eq!(
        compute_bezier3_derivative(-MAX_PARAM, a, b, a, b, MAX_RESOLUTION),
        (-5404319552844595200, 5404319552844595200)
    );
    assert_eq!(compute_bezier3_point(32768, a, b, a, b, MAX_RESOLUTION), (0, 0));
}

#[test]
fn floor_sqrt_rounds_down() {
    assert_eq!(floor_sqrt(0), 0);
    assert_eq!(floor_sqrt(1), 1);
    assert_eq!(floor_sqrt(3), 1);
    assert_eq!(floor_sqrt(4), 2);
    assert_eq!(floor_sqrt(99), 9);
    assert_eq!(floor_sqrt(100), 10);
    assert_eq!(floor_sqrt(100_000_000_000_000_000_000), 10_000_000_000);
    assert_eq!(floor_sqrt(1 << 127), 13043817825332782212);
    assert_eq!(floor_sqrt(u128::MAX), u64::MAX);
}

#[test]
fn floor_sqrt_brackets_its_argument() {
    let mut n: u128 = 0;
    while n < 5000 {
        let r: u128 = floor_sqrt(n) as u128;
        assert!(r * r <= n && n < (r + 1) * (r + 1));
        n += 1;
    }
}
