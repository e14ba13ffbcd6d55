use pulsar_topic_health::float::ratio_of;
use pulsar_topic_health::literal::parse_double;
use pulsar_topic_health::number::Double;

fn double(x: f64) -> Double {
    Double { bits: x.to_bits() }
}

fn number(d: Double) -> f64 {
    f64::from_bits(d.bits)
}

fn parsed(s: &str) -> Option<f64> {
    let v: Vec<char> = s.chars().collect();
    parse_double(&v).map(number)
}

/// Doubles of all sizes, near each other and far apart.
fn assortment() -> Vec<f64> {
    let mut list = vec![
        0.0,
        -0.0,
        1.0,
        -1.0,
        0.1,
        0.2,
        0.3,
        1.0 / 3.0,
        9007199254740991.0,
        9007199254740992.0,
        9007199254740993.0,
        1e16,
        1e-16,
        1.7976931348623157e308,
        8.98846567431158e307,
        2.2250738585072014e-308,
        2.225073858507201e-308,
        5e-324,
        1.5e-323,
        1e300,
        1e-300,
        123456.789,
        f64::INFINITY,
        f64::NEG_INFINITY,
        f64::NAN,
    ];
    // A fixed sequence of bit patterns.
    let mut x: u64 = 0x9e37_79b9_7f4a_7c15;
    for _ in 0..60 {
        x = x.wrapping_mul(6_364_136_223_846_793_005).wrapping_add(1_442_695_040_888_963_407);
        list.push(f64::from_bits(x));
        // The same significand with an exponent near zero.
        list.push(f64::from_bits((x & 0x800f_ffff_ffff_ffff) | 0x3ff0_0000_0000_0000));
        list.push(f64::from_bits(x & 0x800f_ffff_ffff_ffff));
    }
    list
}

fn same(a: Double, b: f64) -> bool {
    a.bits == b.to_bits() || (number(a).is_nan() && b.is_nan())
}

#[test]
fn arithmetic_is_that_of_the_machine() {
    let list = assortment();
    for &a in &list {
        for &b in &list {
            let (x, y) = (double(a), double(b));
            assert!(same(x.plus(y), a + b), "{a:e} + {b:e}");
            assert!(same(x.minus(y), a - b), "{a:e} - {b:e}");
            assert!(same(x.times(y), a * b), "{a:e} * {b:e}");
            assert!(same(x.over(y), a / b), "{a:e} / {b:e}");
            assert_eq!(x.is_less(y), a < b);
            assert_eq!(x.is_equal(y), a == b);
        }
    }
}

#[test]
fn single_operations_are_those_of_the_machine() {
    for a in assortment() {
        let x = double(a);
        assert!(same(x.abs(), a.abs()));
        assert!(same(x.negate(), -a));
        assert_eq!(x.to_i64(false), a as i64);
        assert_eq!(x.to_i64(true), a.round() as i64);
        assert_eq!(x.whole(), format!("{a:.0}"));
        assert_eq!(x.tenth(), format!("{a:.1}"));
        assert_eq!(x.hundredth(), format!("{a:.2}"));
        assert_eq!(x.signed_tenth(), format!("{a:+.1}"));
        assert_eq!(x.is_finite(), a.is_finite());
        assert_eq!(x.is_zero(), a == 0.0);
        assert!(same(x.max(double(2.5)), a.max(2.5)));
    }
}

#[test]
fn integers_become_the_nearest_doubles() {
    for n in [0, 1, -1, 1000, i64::MAX, i64::MIN, (1 << 53) + 1, (1 << 54) + 2, -(1 << 60) - 64] {
        assert!(same(Double::from_i64(n), n as f64), "{n}");
    }
    for n in [0, 1, u64::MAX, u64::MAX - 1024, 1 << 63] {
        assert!(same(Double::from_u64(n), n as f64), "{n}");
    }
    assert_eq!(number(ratio_of(1, 100)), 0.01);
    assert_eq!(number(ratio_of(9, 10)), 0.9);
    assert_eq!(number(ratio_of(1, 1_000_000_000)), 1e-9);
    assert_eq!(number(ratio_of(1, 1 << 52)), f64::EPSILON);
}

#[test]
fn texts_become_the_nearest_doubles() {
    let long = format!("0.{}1", "0".repeat(400));
    let digits = "1234567890".repeat(40);
    let halfway = "9007199254740993";
    let above = "9007199254740993.00000000000000000000000000000000000001";
    for s in [
        "0", "-0", "1", "1.", ".5", "0.1", "1e10", "1E-10", "1e+5", "123.456e-7", "1e308", "1e309",
        "-1e309", "1e-324", "5e-324", "2.4703282292062327e-324", "2.4703282292062328e-324",
        "2.2250738585072011e-308", "1.7976931348623158e308", "1.7976931348623159e308", "0e999999",
        "1e99999999999999999999999999999999", "1e-99999999999999999999999999999999", "inf", "-inf",
        "+Infinity", "NaN", "0.3", "3.3333333333333333333333333333333", &long, &digits, halfway,
        above,
    ] {
        let want: f64 = s.parse().unwrap();
        let got = parsed(s).unwrap();
        assert!(got.to_bits() == want.to_bits() || (got.is_nan() && want.is_nan()), "{s}");
    }
    for s in ["", "-", ".", "e5", "1e", "1e+", "0x10", "1_000", "1 ", "infinit", "--1", "1.2.3"] {
        assert_eq!(parsed(s), None, "{s}");
    }
    for a in assortment() {
        let s = format!("{a:e}");
        let got = parsed(&s).unwrap();
        assert!(got.to_bits() == a.to_bits() || a.is_nan(), "{s}");
    }
}
