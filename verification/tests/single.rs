use pane_layout::single::Single;

fn single(value: f32) -> Single {
    Single::from_bits(value.to_bits())
}

/// Whether a result has the bits of the expected number; every NaN stands for every other.
fn same(result: Single, expected: f32) -> bool {
    let result = f32::from_bits(result.to_bits());
    (result.is_nan() && expected.is_nan()) || result.to_bits() == expected.to_bits()
}

/// Numbers at the edges of the format, and a spread of bit patterns between them.
fn samples() -> Vec<f32> {
    let edges: [u32; 22] = [
        0, 1, 2, 3, 0x7f_ffff, 0x80_0000, 0x80_0001, 0x3400_0000, 0x3f00_0000, 0x3f7f_ffff,
        0x3f80_0000, 0x3f80_0001, 0x4000_0000, 0x4b00_0000, 0x4b7f_ffff, 0x4b80_0000, 0x4f00_0000,
        0x5f00_0000, 0x7f7f_ffff, 0x7f80_0000, 0x7fc0_0000, 0x7f80_0001,
    ];
    let mut samples = Vec::new();
    for bits in edges {
        samples.push(f32::from_bits(bits));
        samples.push(f32::from_bits(bits | 0x8000_0000));
    }
    let mut state: u32 = 0x1234_5678;
    for step in 0..160u32 {
        state = state.wrapping_mul(1_664_525).wrapping_add(1_013_904_223);
        samples.push(f32::from_bits(state));
        // Numbers near each other in size, whose sums cancel.
        samples.push(f32::from_bits(0x4000_0000 + (state >> 6) % 0x200_0000 + (step << 31)));
        samples.push((state >> 20) as f32 / 8.);
    }
    samples
}

#[test]
fn sums_match_the_processor() {
    let samples = samples();
    for &a in &samples {
        for &b in &samples {
            assert!(same(single(a).plus(single(b)), a + b), "{a:e} + {b:e}");
            assert!(same(single(a).minus(single(b)), a - b), "{a:e} - {b:e}");
        }
    }
}

#[test]
fn products_match_the_processor() {
    let samples = samples();
    for &a in &samples {
        for &b in &samples {
            assert!(same(single(a).times(single(b)), a * b), "{a:e} * {b:e}");
        }
    }
}

#[test]
fn quotients_match_the_processor() {
    let samples = samples();
    for &a in &samples {
        for &b in &samples {
            assert!(same(single(a).over(single(b)), a / b), "{a:e} / {b:e}");
        }
    }
}

#[test]
fn comparisons_match_the_processor() {
    let samples = samples();
    for &a in &samples {
        for &b in &samples {
            assert_eq!(single(a).lt(single(b)), a < b, "{a:e} < {b:e}");
            assert_eq!(single(a).le(single(b)), a <= b, "{a:e} <= {b:e}");
            assert_eq!(single(a).equals(single(b)), a == b, "{a:e} == {b:e}");
            assert_eq!(single(a) == single(b), a == b, "{a:e} == {b:e}");
            // Which zero a maximum of two zeros is, is open.
            if !(a == 0. && b == 0.) {
                assert!(same(single(a).max(single(b)), a.max(b)), "max {a:e} {b:e}");
                assert!(same(single(a).min(single(b)), a.min(b)), "min {a:e} {b:e}");
            }
            if a <= b {
                for &c in samples.iter().step_by(7) {
                    assert!(same(single(c).clamp(single(a), single(b)), c.clamp(a, b)));
                }
            }
        }
    }
}

#[test]
fn whole_numbers_match_the_processor() {
    let mut samples = samples();
    for step in -200..200 {
        samples.push(step as f32 / 4.);
        samples.push(step as f32 * 1e9);
        samples.push(step as f32 * 3e18);
    }
    for a in samples {
        assert!(same(single(a).floor(), a.floor()), "floor {a:e}");
        assert!(same(single(a).round(), a.round()), "round {a:e}");
        assert!(same(single(a).abs(), a.abs()), "abs {a:e}");
        assert_eq!(single(a).negated().to_bits(), a.to_bits() ^ 0x8000_0000);
        assert_eq!(single(a).is_nan(), a.is_nan());
        assert_eq!(single(a).to_usize(), a as usize, "usize {a:e}");
        assert_eq!(single(a).to_i32(), a as i32, "i32 {a:e}");
    }
    for whole in [0, 1, -1, 7, -8, 16_777_217, -16_777_219, 33_554_435, i32::MAX, i32::MIN] {
        assert!(same(Single::from_i32(whole), whole as f32), "from {whole}");
    }
    for whole in [0, 2, 16_777_217, 123_456_789_123, usize::MAX, usize::MAX - (1 << 39)] {
        assert!(same(Single::from_usize(whole), whole as f32), "from {whole}");
    }
}

#[test]
fn exact_results() {
    assert_eq!(single(1.5).plus(single(2.25)).to_bits(), 3.75f32.to_bits());
    assert_eq!(single(190.).times(single(0.5)).to_bits(), 95f32.to_bits());
    assert_eq!(single(1.).over(single(3.)).to_bits(), 0x3eaa_aaab);
    assert_eq!(single(-2.5).floor().to_bits(), (-3f32).to_bits());
    assert_eq!(single(-2.5).round().to_bits(), (-3f32).to_bits());
    assert_eq!(single(2.5).round().to_bits(), 3f32.to_bits());
}
