//! The number types against the hardware.

use kintuba::binary::{Binary32, Binary64};
use kintuba::float::Toward;

fn s(v: f32) -> Binary32 {
    Binary32 { bits: v.to_bits() }
}

fn d(v: f64) -> Binary64 {
    Binary64 { bits: v.to_bits() }
}

fn same32(got: Binary32, want: f32, what: &str) {
    if want.is_nan() {
        assert!(got.is_nan(), "{what}: got {:08x}", got.bits);
    } else {
        assert_eq!(got.bits, want.to_bits(), "{what}");
    }
}

fn same64(got: Binary64, want: f64, what: &str) {
    if want.is_nan() {
        assert!(got.is_nan(), "{what}: got {:016x}", got.bits);
    } else {
        assert_eq!(got.bits, want.to_bits(), "{what}");
    }
}

/// A stream of bit patterns.
struct Stream(u64);

impl Stream {
    fn draw(&mut self) -> u64 {
        self.0 ^= self.0 << 13;
        self.0 ^= self.0 >> 7;
        self.0 ^= self.0 << 17;
        self.0
    }

    fn single(&mut self) -> f32 {
        let r = self.draw();
        match r % 5 {
            0 => f32::from_bits((r >> 32) as u32),
            1 => ((r >> 40) as i32 - (1 << 23)) as f32 / 1024.0,
            2 => f32::from_bits(((r >> 32) as u32) & 0x80ff_ffff),
            3 => ((r >> 50) as f32) - 5000.0,
            _ => f32::from_bits(0x3f80_0000 ^ ((r >> 32) as u32 & 0x8fff_ffff)),
        }
    }

    fn double(&mut self) -> f64 {
        let r = self.draw();
        match r % 5 {
            0 => f64::from_bits(self.draw()),
            1 => ((r >> 20) as i64 - (1 << 42)) as f64 / 1048576.0,
            2 => f64::from_bits(self.draw() & 0x801f_ffff_ffff_ffff),
            3 => ((r >> 50) as f64) - 5000.0,
            _ => f64::from_bits(0x3ff0_0000_0000_0000 ^ (self.draw() & 0x80ff_ffff_ffff_ffff)),
        }
    }
}

const EDGES32: [u32; 22] = [
    0, 0x8000_0000, 1, 0x8000_0001, 0x007f_ffff, 0x0080_0000, 0x0080_0001, 0x3f80_0000,
    0xbf80_0000, 0x3f7f_ffff, 0x3f80_0001, 0x7f7f_ffff, 0xff7f_ffff, 0x7f80_0000, 0xff80_0000,
    0x7fc0_0000, 0x4b00_0000, 0x4b80_0000, 0x3f00_0000, 0xbf00_0000, 0x4f00_0000, 0x5f00_0000,
];

const EDGES64: [u64; 16] = [
    0,
    0x8000_0000_0000_0000,
    1,
    0x000f_ffff_ffff_ffff,
    0x0010_0000_0000_0000,
    0x3ff0_0000_0000_0000,
    0xbff0_0000_0000_0000,
    0x3ff0_0000_0000_0001,
    0x3fef_ffff_ffff_ffff,
    0x7fef_ffff_ffff_ffff,
    0xffef_ffff_ffff_ffff,
    0x7ff0_0000_0000_0000,
    0xfff0_0000_0000_0000,
    0x7ff8_0000_0000_0000,
    0x4330_0000_0000_0000,
    0x47ef_ffff_f000_0000,
];

fn check32(a: f32, b: f32) {
    same32(s(a).plus(s(b)), a + b, "plus");
    same32(s(a).minus(s(b)), a - b, "minus");
    same32(s(a).times(s(b)), a * b, "times");
    same32(s(a).over(s(b)), a / b, "over");
    assert_eq!(s(a).below(s(b)), a < b);
    assert_eq!(s(a).at_most(s(b)), a <= b);
    assert_eq!(s(a).equals(s(b)), a == b);
    if a != 0.0 || b != 0.0 {
        same32(s(a).min(s(b)), a.min(b), "min");
        same32(s(a).max(s(b)), a.max(b), "max");
    }
}

fn check_one32(a: f32) {
    same32(s(a).sqrt(), a.sqrt(), "sqrt");
    same32(s(a).abs(), a.abs(), "abs");
    same32(s(a).negate(), -a, "negate");
    same64(s(a).widen(), a as f64, "widen");
    assert_eq!(s(a).is_finite(), a.is_finite());
    assert_eq!(s(a).to_usize(Toward::Floor), a.floor() as usize);
    assert_eq!(s(a).to_usize(Toward::Ceil), a.ceil() as usize);
    assert_eq!(s(a).to_i64(Toward::Nearest), a.round() as i64);
    assert_eq!(s(a).to_i64(Toward::Zero), a as i64);
    assert_eq!(s(a).to_u8(), a as u8);
}

fn check64(a: f64, b: f64) {
    same64(d(a).plus(d(b)), a + b, "plus");
    same64(d(a).minus(d(b)), a - b, "minus");
    same64(d(a).times(d(b)), a * b, "times");
    same64(d(a).over(d(b)), a / b, "over");
    assert_eq!(d(a).below(d(b)), a < b);
    assert_eq!(d(a).at_most(d(b)), a <= b);
    assert_eq!(d(a).equals(d(b)), a == b);
}

fn check_one64(a: f64) {
    same64(d(a).sqrt(), a.sqrt(), "sqrt");
    same64(d(a).abs(), a.abs(), "abs");
    same32(d(a).narrow(), a as f32, "narrow");
    assert_eq!(d(a).to_i64(Toward::Zero), a as i64);
    assert_eq!(d(a).to_i64(Toward::Nearest), a.round() as i64);
}

#[test]
fn single_precision_matches_the_hardware() {
    for &a in EDGES32.iter() {
        check_one32(f32::from_bits(a));
        for &b in EDGES32.iter() {
            check32(f32::from_bits(a), f32::from_bits(b));
        }
    }
    let mut r = Stream(0x1234_5678_9abc_def1);
    for _ in 0..40000 {
        let (a, b) = (r.single(), r.single());
        check32(a, b);
        check_one32(a);
    }
}

#[test]
fn double_precision_matches_the_hardware() {
    for &a in EDGES64.iter() {
        check_one64(f64::from_bits(a));
        for &b in EDGES64.iter() {
            check64(f64::from_bits(a), f64::from_bits(b));
        }
    }
    let mut r = Stream(0x0fed_cba9_8765_4321);
    for _ in 0..40000 {
        let (a, b) = (r.double(), r.double());
        check64(a, b);
        check_one64(a);
    }
}

#[test]
fn integers_convert_to_the_nearest_number() {
    let mut r = Stream(0xdead_beef_0000_0001);
    for k in 0..20000u64 {
        let n = if k % 2 == 0 { r.draw() } else { r.draw() >> (k % 64) };
        same32(Binary32::from_usize(n as usize), n as usize as f32, "from_usize");
        same32(Binary32::from_i64(n as i64), n as i64 as f32, "from_i64");
        same64(Binary64::from_usize(n as usize), n as usize as f64, "from_usize");
        same64(Binary64::from_i64(n as i64), n as i64 as f64, "from_i64");
    }
    assert_eq!(Binary32::from_usize(1000).bits, 1000.0f32.to_bits());
    assert_eq!(Binary64::from_i64(-3).bits, (-3.0f64).to_bits());
}

fn chars(t: &str) -> Vec<char> {
    t.chars().collect()
}

fn check_literal(t: &str) {
    match (Binary32::parse(&chars(t)), t.parse::<f32>()) {
        (Some(v), Ok(w)) => same32(v, w, t),
        (None, Err(_)) => {}
        (v, w) => panic!("{t:?}: {v:?} and {w:?}"),
    }
    match (Binary64::parse(&chars(t)), t.parse::<f64>()) {
        (Some(v), Ok(w)) => same64(v, w, t),
        (None, Err(_)) => {}
        (v, w) => panic!("{t:?}: {v:?} and {w:?}"),
    }
}

#[test]
fn literals_read_like_the_standard_library() {
    for t in [
        "0", "-0", "1", "1.", ".5", "-.5", "+2.5", "5.00000", "1e3", "1E3", "1e+3", "1e-3", "1.5e2",
        "", "+", "-", ".", "e5", "1e", "1e+", "1.5.2", "0x10", " 1", "1 ", "inf", "-inf", "INF",
        "infinity", "Infinity", "nan", "NaN", "-nan", "infinit", "1_000", "1,5", "١", "1e400",
        "1e-400", "-1e400", "3.4028235e38", "3.4028236e38", "1.1754944e-38", "1.4e-45", "7e-46",
        "1.7976931348623157e308", "1.7976931348623159e308", "4.9e-324", "2.4e-324", "2.5e-324",
        "2.2250738585072014e-308", "2.2250738585072011e-308", "9007199254740993",
        "9007199254740992.5", "16777217", "16777216.5", "16777218.999", "0.1", "0.2", "0.3",
        "123456789012345678901234567890", "0.000000000000000000000000000001",
        "1e99999999999999999999999999", "1e-99999999999999999999999999", "0e999999999999",
        "00000000000000000000000000000000001.50", "1.0000000596046448", "1.00000005960464477539062",
        "1.00000017881393432617187499", "1.000000178813934326171875001", "10396jvlr",
    ] {
        check_literal(t);
    }
    let mut r = Stream(0x5555_aaaa_1234_9876);
    for _ in 0..3000 {
        check_literal(&format!("{}", r.single()));
        check_literal(&format!("{}", r.double()));
        check_literal(&format!("{}.{}e{}", r.draw() >> 20, r.draw() >> 30, (r.draw() % 90) as i64 - 45));
    }
    let long: String = format!("0.{}1", "0".repeat(300));
    check_literal(&long);
    check_literal(&format!("{}.5", "9".repeat(60)));
}

#[test]
fn fixed_decimals_read_like_the_standard_library() {
    let text = |v: Vec<char>| -> String { v.into_iter().collect() };
    let mut r = Stream(0x7777_1111_3333_9999);
    for k in 0..3000u32 {
        let n = k % 8;
        let a = r.single();
        assert_eq!(text(s(a).to_fixed(n)), format!("{:.*}", n as usize, a));
        let b = if k % 3 == 0 { r.double() } else { a as f64 };
        assert_eq!(text(d(b).to_fixed(n)), format!("{:.*}", n as usize, b));
        assert_eq!(text(d(b).to_signed_fixed(n)), format!("{:+.*}", n as usize, b));
    }
    for (v, n, want) in [
        (0.5, 0, "0"),
        (1.5, 0, "2"),
        (2.5, 0, "2"),
        (0.125, 2, "0.12"),
        (0.375, 2, "0.38"),
        (-0.001, 2, "-0.00"),
        (1.023, 6, "1.023000"),
        (9.999, 2, "10.00"),
        (1000.0, 0, "1000"),
    ] {
        assert_eq!(text(d(v).to_fixed(n)), want);
    }
    assert_eq!(text(d(0.0).to_signed_fixed(2)), "+0.00");
    assert_eq!(text(s(f32::NAN).to_fixed(3)), "NaN");
    assert_eq!(text(s(f32::NEG_INFINITY).to_fixed(3)), "-inf");
}
