use ml_systems::anomaly::fixed::{
    average_path_length, exp2_neg, floor_log2, halve, ln_fixed, EULER_GAMMA, HALF, LN_2, SCALE,
};

#[test]
fn constants_are_in_millionths() {
    assert_eq!(SCALE, 1_000_000);
    assert_eq!(HALF * 2, SCALE);
    assert_eq!(LN_2, (std::f64::consts::LN_2 * 1e6).floor() as u64);
    assert_eq!(EULER_GAMMA, (0.5772156649_f64 * 1e6).round() as u64);
}

#[test]
fn floor_log2_brackets_its_argument() {
    assert_eq!(floor_log2(1), (0, 1));
    assert_eq!(floor_log2(2), (1, 2));
    assert_eq!(floor_log2(3), (1, 2));
    assert_eq!(floor_log2(4), (2, 4));
    assert_eq!(floor_log2(255), (7, 128));
    assert_eq!(floor_log2(256), (8, 256));
    assert_eq!(floor_log2(u64::MAX), (63, 1 << 63));
}

#[test]
fn ln_fixed_exact_values() {
    assert_eq!(ln_fixed(1), 0);
    assert_eq!(ln_fixed(2), 693_147);
    assert_eq!(ln_fixed(3), 1_098_609);
    assert_eq!(ln_fixed(10), 2_302_583);
    assert_eq!(ln_fixed(100), 4_605_164);
    assert_eq!(ln_fixed(255), 5_541_255);
}

#[test]
fn ln_fixed_is_within_ten_millionths_of_the_logarithm() {
    for m in [1u64, 2, 3, 5, 7, 49, 100, 1_000, 65_535, 1 << 40, u64::MAX] {
        let exact = (m as f64).ln() * 1e6;
        let got = ln_fixed(m) as f64;
        assert!((got - exact).abs() < 10.0 + exact * 2e-6, "ln({m}) = {got}, expected {exact}");
    }
}

#[test]
fn average_path_length_exact_values() {
    assert_eq!(average_path_length(0), 0);
    assert_eq!(average_path_length(1), 0);
    assert_eq!(average_path_length(2), 154_432);
    assert_eq!(average_path_length(3), 1_207_393);
    assert_eq!(average_path_length(4), 1_851_650);
    assert_eq!(average_path_length(50), 6_978_062);
    assert_eq!(average_path_length(256), 10_244_755);
}

#[test]
fn average_path_length_follows_the_formula() {
    for n in [2u64, 3, 8, 50, 256, 1_000, 1_000_000] {
        let x = n as f64;
        let exact = (2.0 * ((x - 1.0).ln() + 0.5772156649) - 2.0 * (x - 1.0) / x) * 1e6;
        let got = average_path_length(n) as f64;
        assert!((got - exact).abs() < 50.0, "c({n}) = {got}, expected {exact}");
    }
}

#[test]
fn exp2_neg_exact_values() {
    assert_eq!(exp2_neg(0), 1_000_000);
    assert_eq!(exp2_neg(1), 999_996);
    assert_eq!(exp2_neg(500_000), 707_105);
    assert_eq!(exp2_neg(1_000_000), 500_000);
    assert_eq!(exp2_neg(1_500_000), 353_552);
    assert_eq!(exp2_neg(2_000_000), 250_000);
    assert_eq!(exp2_neg(18_999_999), 1);
    assert_eq!(exp2_neg(19_000_000), 1);
    assert_eq!(exp2_neg(20_000_000), 0);
    assert_eq!(exp2_neg(u64::MAX), 0);
}

#[test]
fn exp2_neg_is_within_ten_millionths_of_the_power() {
    for x in [0u64, 1, 250_000, 333_333, 644_000, 999_999, 1_000_001, 3_700_000, 12_345_678] {
        let exact = 2f64.powf(-(x as f64) / 1e6) * 1e6;
        let got = exp2_neg(x) as f64;
        assert!((got - exact).abs() < 10.0, "2^-{x} = {got}, expected {exact}");
        assert!(got <= 1e6);
    }
}

#[test]
fn halve_divides_by_powers_of_two() {
    assert_eq!(halve(1_000_000, 0), 1_000_000);
    assert_eq!(halve(1_000_000, 1), 500_000);
    assert_eq!(halve(1_000_001, 1), 500_000);
    assert_eq!(halve(1_000_000, 19), 1);
    assert_eq!(halve(1_000_000, 20), 0);
    assert_eq!(halve(u64::MAX, 63), 1);
    assert_eq!(halve(u64::MAX, 64), 0);
    assert_eq!(halve(u64::MAX, u64::MAX), 0);
}

#[test]
fn exp2_neg_does_not_increase() {
    let mut previous = exp2_neg(0);
    let mut x: u64 = 0;
    while x < 21_000_000 {
        x += 997;
        let value = exp2_neg(x);
        assert!(value <= previous, "2^-{x}");
        previous = value;
    }
    // around whole exponents, where the two branches meet
    for k in 1u64..20 {
        let at = k * 1_000_000;
        assert!(exp2_neg(at - 1) >= exp2_neg(at));
        assert!(exp2_neg(at) >= exp2_neg(at + 1));
    }
}
