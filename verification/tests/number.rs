use nexus_viewer::number::{
    format_num, NumText, Real, INFINITY_BITS, LARGE_BITS, NEG_INFINITY_BITS, SMALL_BITS,
    WHOLE_LIMIT_BITS,
};

fn number(v: f64) -> Real {
    Real { bits: v.to_bits() }
}

fn text(v: f64) -> String {
    match format_num(number(v)) {
        NumText::Whole(s) => s,
        NumText::Scientific => format!("{v:.6e}"),
        NumText::Fixed => format!("{v:.6}"),
    }
}

fn expected(v: f64) -> String {
    if v == v.trunc() && v.abs() < 1e15 {
        format!("{}", v as i64)
    } else if v != 0.0 && (v.abs() >= 1e6 || v.abs() < 1e-4) {
        format!("{v:.6e}")
    } else {
        format!("{v:.6}")
    }
}

const VALUES: [f64; 34] = [
    0.0,
    -0.0,
    1.0,
    -1.0,
    0.5,
    1.5,
    -2.75,
    60.0,
    123456.0,
    123456.7,
    999_999.5,
    1e6,
    1_000_000.5,
    -1e6,
    1e15,
    999_999_999_999_999.0,
    999_999_999_999_999.9,
    -1e15,
    4_503_599_627_370_497.5,
    1e300,
    1e-4,
    9.9e-5,
    -9.9e-5,
    0.00012,
    5e-324,
    f64::MIN_POSITIVE,
    f64::MAX,
    f64::INFINITY,
    f64::NEG_INFINITY,
    f64::NAN,
    0.1,
    -0.3,
    9007199254740993.0,
    3.0,
];

#[test]
fn limits_are_those_of_the_numbers_they_stand_for() {
    assert_eq!(INFINITY_BITS, f64::INFINITY.to_bits());
    assert_eq!(NEG_INFINITY_BITS, f64::NEG_INFINITY.to_bits());
    assert_eq!(WHOLE_LIMIT_BITS, 1e15f64.to_bits());
    assert_eq!(LARGE_BITS, 1e6f64.to_bits());
    assert_eq!(SMALL_BITS, 1e-4f64.to_bits());
}

#[test]
fn numbers_are_shown_short() {
    assert_eq!(text(60.0), "60");
    assert_eq!(text(-0.0), "0");
    assert_eq!(text(1.5), "1.500000");
    assert_eq!(text(1_000_000.5), "1.000000e6");
    assert_eq!(text(0.00005), "5.000000e-5");
    assert_eq!(text(f64::NAN), "NaN");
    assert_eq!(text(f64::INFINITY), "inf");
    for v in VALUES {
        assert_eq!(text(v), expected(v), "{v:?}");
    }
}

#[test]
fn numbers_compare_as_floating_point_does() {
    for a in VALUES {
        assert_eq!(number(a).is_nan(), a.is_nan());
        assert_eq!(number(a).is_zero(), a == 0.0);
        for b in VALUES {
            assert_eq!(number(a).is_less(number(b)), a < b, "{a:?} {b:?}");
            assert_eq!(number(a).is_at_most(number(b)), a <= b, "{a:?} {b:?}");
        }
    }
}
