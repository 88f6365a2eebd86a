use wall_e::fixed::{
    clamp_fx, fp_cos, fp_div, fp_exp_neg, fp_hypot, fp_mod_pi, fp_mul, fp_sin, isqrt, HALF_PI_FX,
    PI_FX, SCALE, TWO_PI_FX,
};

#[test]
fn clamp_inside_below_above() {
    assert_eq!(clamp_fx(5, 0, 10), 5);
    assert_eq!(clamp_fx(-3, 0, 10), 0);
    assert_eq!(clamp_fx(99, 0, 10), 10);
    assert_eq!(clamp_fx(i64::MAX, -7, 7), 7);
    assert_eq!(clamp_fx(i64::MIN, -7, 7), -7);
}

#[test]
fn fixed_point_products() {
    assert_eq!(fp_mul(2_000_000, 3_000_000), 6_000_000);
    assert_eq!(fp_mul(-1_500_000, 2_000_000), -3_000_000);
    assert_eq!(fp_mul(1, 1), 0);
    assert_eq!(fp_mul(-1, 999_999), 0);
}

#[test]
fn fixed_point_quotients() {
    assert_eq!(fp_div(1_000_000, 3_000_000), 333_333);
    assert_eq!(fp_div(-1_000_000, 3_000_000), -333_333);
    assert_eq!(fp_div(6_000_000, 2_000_000), 3_000_000);
}

#[test]
fn integer_square_roots() {
    assert_eq!(isqrt(0), 0);
    assert_eq!(isqrt(1), 1);
    assert_eq!(isqrt(24), 4);
    assert_eq!(isqrt(25), 5);
    assert_eq!(isqrt(1_000_000_000_000), 1_000_000);
}

#[test]
fn hypotenuse_of_pythagorean_triple() {
    assert_eq!(fp_hypot(3_000_000, 4_000_000), 5_000_000);
    assert_eq!(fp_hypot(-3_000_000, 4_000_000), 5_000_000);
    assert_eq!(fp_hypot(0, 0), 0);
}

#[test]
fn cosine_at_cardinal_angles() {
    assert_eq!(fp_cos(0), SCALE);
    assert_eq!(fp_cos(PI_FX), -SCALE);
    assert_eq!(fp_cos(TWO_PI_FX), SCALE);
    assert_eq!(fp_cos(-PI_FX), -SCALE);
    assert_eq!(fp_cos(HALF_PI_FX), 0);
    // cos(pi/4) in micro-units
    assert_eq!(fp_cos(785_398), 707_107);
}

#[test]
fn sine_at_cardinal_angles() {
    assert_eq!(fp_sin(0), 0);
    assert_eq!(fp_sin(PI_FX), 0);
    assert_eq!(fp_sin(HALF_PI_FX), SCALE);
    // sin(pi/6) in micro-units
    assert_eq!(fp_sin(523_599), 500_000);
}

#[test]
fn exponential_of_negated_argument() {
    assert_eq!(fp_exp_neg(0), SCALE);
    assert_eq!(fp_exp_neg(1_000_000), 367_879);
    assert_eq!(fp_exp_neg(2_000_000), 135_334);
    assert_eq!(fp_exp_neg(500_000), 606_531);
    assert_eq!(fp_exp_neg(14_000_000), 0);
    assert_eq!(fp_exp_neg(i64::MAX), 0);
}

#[test]
fn orientation_wrap_keeps_sign() {
    assert_eq!(fp_mod_pi(7_000_000), 716_816);
    assert_eq!(fp_mod_pi(-7_000_000), -716_816);
    assert_eq!(fp_mod_pi(PI_FX), 0);
    assert_eq!(fp_mod_pi(123), 123);
}
