use vkslang::single::Single;

fn s(x: f32) -> Single {
    Single::from_bits(x.to_bits())
}

fn f(x: Single) -> f32 {
    f32::from_bits(x.bits)
}

fn same(a: Single, b: f32) -> bool {
    (a.is_nan() && b.is_nan()) || a.bits == b.to_bits()
}

/// Patterns spread over all kinds of numbers.
fn patterns(n: usize) -> Vec<u32> {
    let mut out = vec![
        0, 1, 2, 0x007f_ffff, 0x0080_0000, 0x0080_0001, 0x3f7f_ffff, 0x3f80_0000, 0x3f80_0001,
        0x4b00_0000, 0x4b7f_ffff, 0x4b80_0000, 0x7f7f_ffff, 0x7f80_0000, 0x7fc0_0000, 0x8000_0000,
        0x8000_0001, 0xbf80_0000, 0xff7f_ffff, 0xff80_0000,
    ];
    let mut x: u64 = 0x1234_5678_9abc_def1;
    while out.len() < n {
        x ^= x << 13;
        x ^= x >> 7;
        x ^= x << 17;
        out.push((x >> 16) as u32);
    }
    out
}

#[test]
fn arithmetic_matches_the_processor() {
    let v = patterns(160);
    for &a in &v {
        for &b in &v {
            let (x, y) = (f32::from_bits(a), f32::from_bits(b));
            let (p, q) = (Single::from_bits(a), Single::from_bits(b));
            assert!(same(p.times(q), x * y), "{x} * {y}");
            assert!(same(p.over(q), x / y), "{x} / {y}");
            assert!(same(p.minus(q), x - y), "{x} - {y}");
            assert_eq!(p.is_before(q), x < y);
            assert_eq!(p.is_up_to(q), x <= y);
            assert_eq!(p.equals(q), x == y);
            if x != y {
                assert!(same(p.max(q), x.max(y)), "{x} max {y}");
                assert!(same(p.min(q), x.min(y)), "{x} min {y}");
            }
        }
    }
}

#[test]
fn rounding_matches_the_processor() {
    let mut v: Vec<f32> = patterns(4000).into_iter().map(f32::from_bits).collect();
    for i in 0..2000 {
        v.push(i as f32 * 0.25 - 200.0);
        v.push(i as f32 + 0.5);
    }
    v.extend([4294967040.0, 4294967296.0, 2147483647.0, -2147483648.0, -2147483904.0, 0.49999997]);
    for x in v {
        assert_eq!(s(x).rounded_u32(), x.round() as u32, "{x}");
        assert_eq!(s(x).rounded_i32(), x.round() as i32, "{x}");
        assert!(same(s(x).abs(), x.abs()));
        assert_eq!(s(x).is_finite(), x.is_finite());
        assert_eq!(s(x).is_nan(), x.is_nan());
        assert_eq!(s(x).is_infinite(), x.is_infinite());
    }
}

#[test]
fn integers_and_fractions() {
    for n in [0u32, 1, 2, 3, 200, 3840, 16777215, 16777216, 16777217, 16777219, u32::MAX] {
        assert_eq!(f(Single::of_u32(n)), n as f32);
    }
    assert_eq!(f(Single::fraction(1, 100)), 0.01);
    assert_eq!(f(Single::fraction(1, 1_000_000)), 1e-6);
    assert_eq!(f(Single::fraction(1, 1000)), 1e-3);
    assert_eq!(f(Single::fraction(1, 10)), 0.1);
    assert_eq!(f(Single::fraction(1, 2)), 0.5);
    assert_eq!(f(s(7.0).confine(s(0.1), s(4.0))), 4.0);
    assert_eq!(f(s(0.01).confine(s(0.1), s(4.0))), 0.1);
    assert_eq!(f(s(1.5).confine(s(0.1), s(4.0))), 1.5);
}

fn parse(t: &str) -> Option<Single> {
    Single::parse(&t.chars().collect::<Vec<char>>())
}

#[test]
fn texts_are_read_as_numbers() {
    for t in [
        "0", "-0", "1", "+1", "2.4", "-2.4", ".5", "5.", "1e3", "1E-3", "1e+3", "3.4028235e38",
        "3.4028236e38", "1e39", "1e-45", "0.7e-45", "1e-46", "16777217", "16777219", "0.1",
        "123456789012345678901234567890", "0.00000000000000000000000000000000000000000000011",
        "inf", "-inf", "+Infinity", "INF", "nan", "NaN", "-nan", "1e99999999999999999999",
        "0e99999999999999999999", "1e-99999999999999999999",
    ] {
        let want: f32 = t.parse().unwrap();
        let got = parse(t).unwrap();
        assert!(same(got, want), "{t}: {got:?} {want}");
    }
    for t in ["", "-", "+", ".", "e5", "1e", "1e+", " 1", "1 ", "1,5", "0x10", "infin", "1_000", "--1", "1.2.3"] {
        assert!(t.parse::<f32>().is_err(), "{t}");
        assert!(parse(t).is_none(), "{t}");
    }
}

#[test]
fn numbers_are_written_as_texts() {
    let mut v: Vec<f32> = patterns(260).into_iter().map(f32::from_bits).collect();
    v.extend([0.1, 0.2, 0.3, 1.5, 2.4, 100.0, 1e10, 1e-10, 16777216.0, 33554432.0, 9.999999, 5e-45]);
    for x in v {
        let t: String = s(x).show().into_iter().collect();
        assert_eq!(t, format!("{x}"));
        if x.is_finite() {
            assert!(same(parse(&t).unwrap(), x), "{t}");
        }
    }
}
