use sdr_stream::ieee::{Binary32, Binary64};
use sdr_stream::json::{num, Json};
use sdr_stream::number::parse_number;

fn single(v: f32) -> Binary32 {
    Binary32 { bits: v.to_bits() }
}

fn double(v: f64) -> Binary64 {
    Binary64 { bits: v.to_bits() }
}

fn displayed(v: f64) -> String {
    let mut s = String::new();
    double(v).push_display(&mut s);
    s
}

fn fixed(v: f32, places: u32) -> String {
    let mut s = String::new();
    single(v).push_fixed(&mut s, places);
    s
}

/// A fixed walk over bit patterns.
fn next(state: &mut u64) -> u64 {
    *state = state.wrapping_mul(6364136223846793005).wrapping_add(1442695040888963407);
    let x = *state;
    (x >> 29) ^ x.rotate_left(17)
}

const PICKED: [f64; 34] = [
    0.0,
    -0.0,
    1.0,
    0.1,
    -0.1,
    0.3,
    50.4,
    1.5,
    2.5,
    1e15,
    9e15,
    9007199254740993.0,
    9007199254740991.0,
    1e16,
    1e21,
    1e22,
    1e23,
    1.7976931348623157e308,
    2.2250738585072014e-308,
    2.225073858507201e-308,
    5e-324,
    1e-323,
    1.5e-323,
    4.35,
    123456.789,
    1125899906842624.25,
    1125899906842624.5,
    562949953421312.125,
    2251799813685248.5,
    4503599627370497.5,
    9.5367431640625e-7,
    0.000001,
    299792458.0,
    -772918750.5,
];

#[test]
fn doubles_display_as_the_standard_library_displays_them() {
    for v in PICKED {
        assert_eq!(displayed(v), format!("{v}"), "{:x}", v.to_bits());
    }
    let mut state = 7u64;
    for _ in 0..1500 {
        let v = f64::from_bits(next(&mut state));
        assert_eq!(displayed(v), format!("{v}"), "{:x}", v.to_bits());
        let w = (next(&mut state) as i64 >> 12) as f64 / 1024.0;
        assert_eq!(displayed(w), format!("{w}"));
        let x = (next(&mut state) % 1_000_000) as f64 / 1000.0;
        assert_eq!(displayed(x), format!("{x}"));
    }
    assert_eq!(displayed(f64::INFINITY), "inf");
    assert_eq!(displayed(f64::NEG_INFINITY), "-inf");
    assert_eq!(displayed(f64::NAN), "NaN");
}

#[test]
fn ties_between_shortest_decimals_go_up() {
    let mut state = 11u64;
    for _ in 0..400 {
        let v = (1u64 << 50) as f64 + (next(&mut state) % (1 << 50)) as f64 + 0.25;
        assert_eq!(displayed(v), format!("{v}"));
        let w = (1u64 << 49) as f64 + (next(&mut state) % (1 << 49)) as f64 + 0.125;
        assert_eq!(displayed(w), format!("{w}"));
    }
}

#[test]
fn numerals_read_as_the_standard_library_reads_them() {
    let texts = [
        "0", "-0", "1", "+5", "-17", "00012", "1.", ".5", "-.5", "1.e3", "1.5e-3", "1E10", "1e+10", "12345678901234567890",
        "0.1", "0.30000000000000004", "9007199254740993", "9007199254740992.999", "9007199254740993.0000000000000000001",
        "1e308", "1.7976931348623157e308", "1.7976931348623158e308", "1.7976931348623159e308", "1e309", "1e400", "1e99999999999999999999",
        "-1e99999999999999999999999999999999999999999999", "1e-99999999999999999999", "0e99999999999999999999999999",
        "5e-324", "2.4703282292062327e-324", "2.4703282292062328e-324", "3e-324", "1e-400", "2.2250738585072011e-308",
        "772918750", "1786503850696", "50.4", "-22.0", "123456789012345678901234567890123456789012345678901234567890e-40",
        "", "-", "+", ".", "e", "1e", "1e+", "e5", ".e5", "1..2", "1.2.3", "--1", "-+1", "1-2", "1e5.5", "1e5e5", "+-3",
    ];
    for t in texts {
        let want = t.parse::<f64>().ok().map(|v| v.to_bits());
        assert_eq!(parse_number(t.as_bytes()).map(|v| v.bits), want, "{t}");
    }
    let mut state = 3u64;
    for _ in 0..1500 {
        let t = format!("{}e{}", next(&mut state), (next(&mut state) % 700) as i64 - 360);
        assert_eq!(parse_number(t.as_bytes()).map(|v| v.bits), Some(t.parse::<f64>().unwrap().to_bits()), "{t}");
        let t = format!("{}.{}", next(&mut state) % 100_000, next(&mut state));
        assert_eq!(parse_number(t.as_bytes()).map(|v| v.bits), Some(t.parse::<f64>().unwrap().to_bits()), "{t}");
        let v = f64::from_bits(next(&mut state));
        if v.is_finite() {
            assert_eq!(parse_number(format!("{v:e}").as_bytes()).map(|v| v.bits), Some(v.to_bits()));
        }
    }
}

#[test]
fn doubles_narrow_as_a_cast_narrows_them() {
    for v in PICKED {
        assert_eq!(double(v).to_binary32().bits, (v as f32).to_bits(), "{v}");
    }
    for v in [3.4028234663852886e38, 3.4028235677973366e38, 3.4028235677973362e38, 1e-45, 7e-46, 7.1e-46, 1e-50, f64::INFINITY, f64::NEG_INFINITY] {
        assert_eq!(double(v).to_binary32().bits, (v as f32).to_bits(), "{v}");
    }
    assert!(double(f64::NAN).to_binary32().is_nan());
    let mut state = 23u64;
    for _ in 0..2000 {
        let x = next(&mut state);
        let v = f64::from_bits((x >> 2) % (0x100 << 52) + (0x380u64 << 52) | (x & (1 << 63)));
        assert_eq!(double(v).to_binary32().bits, (v as f32).to_bits(), "{v}");
    }
}

#[test]
fn singles_print_with_fixed_decimals_as_the_standard_library_prints_them() {
    let picked: [f32; 30] = [
        0.0, -0.0, 0.04, -0.04, 0.05, 0.049999, 0.25, 0.75, 0.15, 0.35, 0.5, 1.5, 2.5, -0.5, -1.5, 0.45, 0.95, 0.96, 9.95, 9.96, 50.4, -21.4, -42.9, 56.0,
        1e10, 16777216.0, 3.4028235e38, 1e-45, f32::INFINITY, f32::NEG_INFINITY,
    ];
    for v in picked {
        assert_eq!(fixed(v, 1), format!("{v:.1}"));
        assert_eq!(fixed(v, 0), format!("{v:.0}"));
    }
    assert_eq!(fixed(f32::NAN, 1), "NaN");
    assert_eq!(fixed(-f32::NAN, 0), format!("{:.0}", -f32::NAN));
    let mut state = 5u64;
    for _ in 0..3000 {
        let v = f32::from_bits(next(&mut state) as u32);
        assert_eq!(fixed(v, 1), format!("{v:.1}"));
        assert_eq!(fixed(v, 0), format!("{v:.0}"));
        let w = (next(&mut state) % 4000) as f32 / 20.0 - 100.0;
        assert_eq!(fixed(w, 1), format!("{w:.1}"));
        assert_eq!(fixed(w, 0), format!("{w:.0}"));
    }
}

#[test]
fn integers_round_half_away_from_zero_and_saturate() {
    let u = |v: f64| num(double(v)).as_u64();
    let i = |v: f64| num(double(v)).as_i64();
    assert_eq!(u(0.5), Some(1));
    assert_eq!(u(2.5), Some(3));
    assert_eq!(u(2.4), Some(2));
    assert_eq!(u(0.49999999999999994), Some(0));
    assert_eq!(u(-0.5), Some(0));
    assert_eq!(u(-7.0), Some(0));
    assert_eq!(u(f64::NAN), Some(0));
    assert_eq!(u(f64::INFINITY), Some(u64::MAX));
    assert_eq!(u(1e300), Some(u64::MAX));
    assert_eq!(u(18446744073709551615.0), Some(u64::MAX));
    assert_eq!(u(9007199254740991.0), Some(9007199254740991));
    assert_eq!(u(4503599627370497.0), Some(4503599627370497));
    assert_eq!(u(4503599627370496.5), Some(4503599627370496));
    assert_eq!(i(-0.5), Some(-1));
    assert_eq!(i(-2.5), Some(-3));
    assert_eq!(i(-2.4), Some(-2));
    assert_eq!(i(1786503850696.0), Some(1786503850696));
    assert_eq!(i(-45_000_000.0), Some(-45_000_000));
    assert_eq!(i(1e300), Some(i64::MAX));
    assert_eq!(i(-1e300), Some(i64::MIN));
    assert_eq!(i(f64::NEG_INFINITY), Some(i64::MIN));
    assert_eq!(Json::Null.as_u64(), None);
    let mut state = 9u64;
    for _ in 0..2000 {
        let v = (next(&mut state) as i64 >> (next(&mut state) % 60)) as f64 / 8.0;
        assert_eq!(u(v), Some(v.round() as u64));
        assert_eq!(i(v), Some(v.round() as i64));
    }
}

#[test]
fn number_equality_is_by_value() {
    assert!(single(0.0) == single(-0.0));
    assert!(single(1.5) == single(1.5));
    assert!(single(1.5) != single(-1.5));
    assert!(single(f32::NAN) != single(f32::NAN));
    assert!(double(0.0) == double(-0.0));
    assert!(double(2.0) != double(3.0));
    assert!(double(f64::NAN) != double(f64::NAN));
}
