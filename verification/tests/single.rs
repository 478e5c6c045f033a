use pong_core::single::Single;

fn s(v: f32) -> Single {
    Single::from_bits(v.to_bits())
}

fn f(v: Single) -> f32 {
    f32::from_bits(v.to_bits())
}

fn same(got: Single, want: f32) -> bool {
    if want.is_nan() {
        f(got).is_nan()
    } else {
        got.to_bits() == want.to_bits()
    }
}

fn edge_patterns() -> Vec<u32> {
    let mut out = Vec::new();
    let bodies: [u32; 30] = [
        0x0000_0000,
        0x0000_0001,
        0x0000_0002,
        0x0000_0003,
        0x0040_0000,
        0x007f_fffe,
        0x007f_ffff,
        0x0080_0000,
        0x0080_0001,
        0x00ff_ffff,
        0x0100_0000,
        0x0100_0001,
        0x3f00_0000,
        0x3f7f_ffff,
        0x3f80_0000,
        0x3f80_0001,
        0x3fc0_0000,
        0x4000_0000,
        0x4b00_0000,
        0x4b7f_ffff,
        0x4b80_0000,
        0x4b80_0001,
        0x4c00_0000,
        0x7e80_0000,
        0x7f00_0000,
        0x7f7f_fffe,
        0x7f7f_ffff,
        0x7f80_0000,
        0x7f80_0001,
        0x7fc0_0000,
    ];
    for body in bodies {
        out.push(body);
        out.push(body | 0x8000_0000);
    }
    out
}

fn next(state: &mut u64) -> u32 {
    *state = state.wrapping_mul(6364136223846793005).wrapping_add(1442695040888963407);
    (*state >> 32) as u32
}

#[test]
fn plus_agrees_with_the_processor_on_edge_patterns() {
    let patterns = edge_patterns();
    for &a in &patterns {
        for &b in &patterns {
            let want = f32::from_bits(a) + f32::from_bits(b);
            let got = Single::from_bits(a).plus(Single::from_bits(b));
            assert!(same(got, want), "{:#x} + {:#x}: {:#x}, not {:#x}", a, b, got.to_bits(), want.to_bits());
        }
    }
}

#[test]
fn plus_agrees_with_the_processor_on_scattered_patterns() {
    let mut state: u64 = 0x1234_5678_9abc_def0;
    for _ in 0..400_000 {
        let a = next(&mut state);
        let b = next(&mut state);
        let want = f32::from_bits(a) + f32::from_bits(b);
        let got = Single::from_bits(a).plus(Single::from_bits(b));
        assert!(same(got, want), "{:#x} + {:#x}: {:#x}, not {:#x}", a, b, got.to_bits(), want.to_bits());
    }
}

#[test]
fn plus_agrees_with_the_processor_on_neighbouring_exponents() {
    let mut state: u64 = 0x0fed_cba9_8765_4321;
    for _ in 0..400_000 {
        let a = next(&mut state);
        let shift = next(&mut state) % 61;
        let exponent = (((a >> 23) & 0xff) + 226 + shift) % 256;
        let b = (next(&mut state) & 0x807f_ffff) | (exponent << 23);
        let want = f32::from_bits(a) + f32::from_bits(b);
        let got = Single::from_bits(a).plus(Single::from_bits(b));
        assert!(same(got, want), "{:#x} + {:#x}: {:#x}, not {:#x}", a, b, got.to_bits(), want.to_bits());
    }
}

#[test]
fn minus_agrees_with_the_processor() {
    let patterns = edge_patterns();
    for &a in &patterns {
        for &b in &patterns {
            let want = f32::from_bits(a) - f32::from_bits(b);
            let got = Single::from_bits(a).minus(Single::from_bits(b));
            assert!(same(got, want), "{:#x} - {:#x}: {:#x}, not {:#x}", a, b, got.to_bits(), want.to_bits());
        }
    }
    let mut state: u64 = 0x0bad_cafe_f00d_1234;
    for _ in 0..200_000 {
        let a = next(&mut state);
        let shift = next(&mut state) % 7;
        let exponent = (((a >> 23) & 0xff) + 253 + shift) % 256;
        let b = (next(&mut state) & 0x807f_ffff) | (exponent << 23);
        let want = f32::from_bits(a) - f32::from_bits(b);
        let got = Single::from_bits(a).minus(Single::from_bits(b));
        assert!(same(got, want), "{:#x} - {:#x}: {:#x}, not {:#x}", a, b, got.to_bits(), want.to_bits());
    }
}

#[test]
fn half_agrees_with_the_processor() {
    for a in edge_patterns() {
        let want = f32::from_bits(a) / 2.0;
        let got = Single::from_bits(a).half();
        assert!(same(got, want), "{:#x} / 2: {:#x}, not {:#x}", a, got.to_bits(), want.to_bits());
    }
    for a in 0..0x0200_0000u32 {
        let want = f32::from_bits(a) / 2.0;
        let got = Single::from_bits(a).half();
        assert_eq!(got.to_bits(), want.to_bits());
    }
    let mut state: u64 = 0x5555_aaaa_5555_aaaa;
    for _ in 0..400_000 {
        let a = next(&mut state);
        let want = f32::from_bits(a) / 2.0;
        let got = Single::from_bits(a).half();
        assert!(same(got, want), "{:#x} / 2: {:#x}, not {:#x}", a, got.to_bits(), want.to_bits());
    }
}

#[test]
fn le_and_ge_agree_with_the_processor() {
    let patterns = edge_patterns();
    for &a in &patterns {
        for &b in &patterns {
            let (x, y) = (f32::from_bits(a), f32::from_bits(b));
            assert_eq!(Single::from_bits(a).le(Single::from_bits(b)), x <= y, "{:#x} <= {:#x}", a, b);
            assert_eq!(Single::from_bits(a).ge(Single::from_bits(b)), x >= y, "{:#x} >= {:#x}", a, b);
        }
    }
    let mut state: u64 = 0x7777_1111_3333_9999;
    for _ in 0..400_000 {
        let a = next(&mut state);
        let b = next(&mut state);
        let (x, y) = (f32::from_bits(a), f32::from_bits(b));
        assert_eq!(Single::from_bits(a).le(Single::from_bits(b)), x <= y);
        assert_eq!(Single::from_bits(a).ge(Single::from_bits(b)), x >= y);
    }
}

#[test]
fn negate_flips_the_sign_only() {
    for a in edge_patterns() {
        assert_eq!(Single::from_bits(a).negate().to_bits(), a ^ 0x8000_0000);
        assert_eq!(Single::from_bits(a).negate().to_bits(), (-f32::from_bits(a)).to_bits());
    }
    assert_eq!(f(s(1.5).negate()), -1.5);
    assert_eq!(s(0.0).negate().to_bits(), 0x8000_0000);
}

#[test]
fn zero_is_positive_zero() {
    assert_eq!(Single::zero().to_bits(), 0);
    assert_eq!(f(Single::zero()), 0.0);
}

#[test]
fn bits_pass_through_unchanged() {
    assert_eq!(Single::from_bits(0x3f80_0000).to_bits(), 0x3f80_0000);
    assert_eq!(Single::from_bits(0x3f80_0000).bits, 0x3f80_0000);
    assert_eq!(f(Single::from_bits(0x3f80_0000)), 1.0);
}

#[test]
fn plus_gives_exact_sums() {
    assert_eq!(f(s(1.0).plus(s(2.0))), 3.0);
    assert_eq!(f(s(0.5).plus(s(-0.25))), 0.25);
    assert_eq!(f(s(-1.5).plus(s(-2.5))), -4.0);
    assert_eq!(s(1.0).plus(s(2.0)).to_bits(), 0x4040_0000);
}

#[test]
fn plus_rounds_ties_to_even() {
    assert_eq!(f(s(16777216.0).plus(s(1.0))), 16777216.0);
    assert_eq!(f(s(16777218.0).plus(s(1.0))), 16777220.0);
    assert_eq!(f(s(16777216.0).plus(s(3.0))), 16777220.0);
    assert_eq!(f(s(-16777216.0).plus(s(-1.0))), -16777216.0);
    assert_eq!(s(33554432.0).plus(s(3.0)).to_bits(), 0x4c00_0001);
}

#[test]
fn plus_of_a_distant_small_number_gives_the_large_one_back() {
    assert_eq!(f(s(1.0e20).plus(s(1.0))), 1.0e20);
    assert_eq!(f(s(1.0).plus(s(-1.0e-20))), 1.0);
    assert_eq!(f(s(-1.0e-30).plus(s(4.0))), 4.0);
}

#[test]
fn plus_past_the_largest_single_gives_infinity() {
    assert_eq!(f(s(f32::MAX).plus(s(f32::MAX))), f32::INFINITY);
    assert_eq!(f(s(-f32::MAX).plus(s(-f32::MAX))), f32::NEG_INFINITY);
    assert_eq!(s(f32::MAX).plus(Single::from_bits(0x7300_0000)).to_bits(), 0x7f80_0000);
    assert_eq!(s(f32::MAX).plus(Single::from_bits(0x72ff_ffff)).to_bits(), 0x7f7f_ffff);
    assert_eq!(f(s(f32::MAX).plus(s(1.0e30))), f32::MAX);
}

#[test]
fn plus_keeps_the_sign_of_zero_only_when_both_are_negative() {
    assert_eq!(s(0.0).plus(s(0.0)).to_bits(), 0);
    assert_eq!(s(-0.0).plus(s(-0.0)).to_bits(), 0x8000_0000);
    assert_eq!(s(0.0).plus(s(-0.0)).to_bits(), 0);
    assert_eq!(s(-0.0).plus(s(0.0)).to_bits(), 0);
    assert_eq!(s(2.5).plus(s(-2.5)).to_bits(), 0);
    assert_eq!(s(-2.5).plus(s(2.5)).to_bits(), 0);
}

#[test]
fn plus_with_infinities_and_nan() {
    assert_eq!(f(s(f32::INFINITY).plus(s(1.0))), f32::INFINITY);
    assert_eq!(f(s(1.0).plus(s(f32::NEG_INFINITY))), f32::NEG_INFINITY);
    assert_eq!(f(s(f32::INFINITY).plus(s(f32::INFINITY))), f32::INFINITY);
    assert_eq!(s(f32::INFINITY).plus(s(f32::NEG_INFINITY)).to_bits(), 0x7fc0_0000);
    assert_eq!(s(f32::NAN).plus(s(1.0)).to_bits(), 0x7fc0_0000);
    assert_eq!(s(1.0).plus(Single::from_bits(0xff80_0001)).to_bits(), 0x7fc0_0000);
}

#[test]
fn plus_of_subnormals_is_exact() {
    assert_eq!(Single::from_bits(1).plus(Single::from_bits(1)).to_bits(), 2);
    assert_eq!(Single::from_bits(0x007f_ffff).plus(Single::from_bits(1)).to_bits(), 0x0080_0000);
    assert_eq!(Single::from_bits(0x0080_0000).plus(Single::from_bits(0x8000_0001)).to_bits(), 0x007f_ffff);
}

#[test]
fn minus_gives_exact_differences() {
    assert_eq!(f(s(1.0).minus(s(0.5))), 0.5);
    assert_eq!(f(s(0.5).minus(s(1.0))), -0.5);
    assert_eq!(s(1.0).minus(s(1.0)).to_bits(), 0);
    assert_eq!(s(-0.0).minus(s(0.0)).to_bits(), 0x8000_0000);
    assert_eq!(s(f32::INFINITY).minus(s(f32::INFINITY)).to_bits(), 0x7fc0_0000);
}

#[test]
fn half_halves() {
    assert_eq!(f(s(1.0).half()), 0.5);
    assert_eq!(f(s(10.0).half()), 5.0);
    assert_eq!(f(s(-3.0).half()), -1.5);
    assert_eq!(s(0.0).half().to_bits(), 0);
    assert_eq!(s(-0.0).half().to_bits(), 0x8000_0000);
    assert_eq!(f(s(f32::INFINITY).half()), f32::INFINITY);
    assert_eq!(s(f32::NAN).half().to_bits(), 0x7fc0_0000);
}

#[test]
fn half_rounds_a_subnormal_result_to_even() {
    assert_eq!(Single::from_bits(1).half().to_bits(), 0);
    assert_eq!(Single::from_bits(2).half().to_bits(), 1);
    assert_eq!(Single::from_bits(3).half().to_bits(), 2);
    assert_eq!(Single::from_bits(5).half().to_bits(), 2);
    assert_eq!(Single::from_bits(0x0080_0001).half().to_bits(), 0x0040_0000);
    assert_eq!(Single::from_bits(0x0080_0003).half().to_bits(), 0x0040_0002);
    assert_eq!(Single::from_bits(0x00ff_ffff).half().to_bits(), 0x0080_0000);
    assert_eq!(Single::from_bits(0x8000_0003).half().to_bits(), 0x8000_0002);
}

#[test]
fn le_orders_by_value() {
    assert!(s(1.0).le(s(2.0)));
    assert!(s(2.0).le(s(2.0)));
    assert!(!s(2.0).le(s(1.0)));
    assert!(s(-2.0).le(s(-1.0)));
    assert!(!s(-1.0).le(s(-2.0)));
    assert!(s(-0.0).le(s(0.0)));
    assert!(s(0.0).le(s(-0.0)));
    assert!(s(f32::NEG_INFINITY).le(s(f32::MAX)));
    assert!(!s(f32::NAN).le(s(1.0)));
    assert!(!s(1.0).le(s(f32::NAN)));
    assert!(!s(f32::NAN).le(s(f32::NAN)));
}

#[test]
fn ge_orders_by_value() {
    assert!(s(2.0).ge(s(1.0)));
    assert!(s(2.0).ge(s(2.0)));
    assert!(!s(1.0).ge(s(2.0)));
    assert!(s(0.0).ge(s(-0.0)));
    assert!(s(f32::INFINITY).ge(s(f32::MAX)));
    assert!(!s(f32::NAN).ge(s(1.0)));
    assert!(!s(1.0).ge(s(f32::NAN)));
}

#[test]
fn to_le_bytes_puts_the_low_byte_first() {
    assert_eq!(Single::from_bits(0x1234_5678).to_le_bytes(), [0x78, 0x56, 0x34, 0x12]);
    assert_eq!(s(1.0).to_le_bytes(), [0, 0, 0x80, 0x3f]);
    for a in edge_patterns() {
        assert_eq!(Single::from_bits(a).to_le_bytes(), f32::from_bits(a).to_le_bytes());
        assert_eq!(u32::from_le_bytes(Single::from_bits(a).to_le_bytes()), a);
    }
}
