use tempo::double::Double;

/// A step of a small generator of test bits.
fn next(state: &mut u64) -> u64 {
    let mut x = *state;
    x ^= x << 13;
    x ^= x >> 7;
    x ^= x << 17;
    *state = x;
    x
}

/// Bits of all kinds: spread over every exponent, close to each other, small
/// integers, subnormal numbers, and the special values.
fn sample(state: &mut u64) -> u64 {
    let kind = next(state) % 8;
    let x = next(state);
    match kind {
        0 => x,
        1 => (x & 0x800F_FFFF_FFFF_FFFF) | 0x3FF0_0000_0000_0000,
        2 => (x & 0x801F_FFFF_FFFF_FFFF) | 0x4000_0000_0000_0000,
        3 => ((x % 2001) as f64 - 1000.0).to_bits(),
        4 => x & 0x800F_FFFF_FFFF_FFFF,
        5 => {
            let specials = [
                0.0f64,
                -0.0,
                1.0,
                -1.0,
                f64::INFINITY,
                f64::NEG_INFINITY,
                f64::NAN,
                f64::MAX,
                f64::MIN_POSITIVE,
                5e-324,
                0.5,
                1.5,
                2.5,
            ];
            specials[(x % 13) as usize].to_bits()
        }
        6 => (((x % 1_000_000) as f64) / 64.0).to_bits(),
        _ => (x & 0x83FF_FFFF_FFFF_FFFF) | 0x3C00_0000_0000_0000,
    }
}

fn same(ours: Double, native: f64) -> bool {
    let ours = f64::from_bits(ours.to_bits());
    if native.is_nan() {
        ours.is_nan()
    } else {
        ours.to_bits() == native.to_bits()
    }
}

#[test]
fn arithmetic_agrees_with_the_hardware() {
    let mut state = 0x9E37_79B9_7F4A_7C15u64;
    for _ in 0..400_000 {
        let a = sample(&mut state);
        let b = sample(&mut state);
        let (x, y) = (f64::from_bits(a), f64::from_bits(b));
        let (p, q) = (Double::from_bits(a), Double::from_bits(b));
        assert!(same(p + q, x + y), "{x} + {y}");
        assert!(same(p - q, x - y), "{x} - {y}");
        assert!(same(p * q, x * y), "{x} * {y}");
        assert!(same(p / q, x / y), "{x} / {y}");
        assert!(same(p.abs(), x.abs()));
        assert!(same(p.neg(), -x));
        assert!(same(p.round(), x.round()), "round {x}");
        assert_eq!(p.truncate(), x as usize, "truncate {x}");
        assert_eq!(p.less(q), x < y);
        assert_eq!(p.at_most(q), x <= y);
        assert_eq!(p.equals(q), x == y);
        assert_eq!(p.total_before(q), x.total_cmp(&y).is_lt());
        if !(x == 0.0 && y == 0.0) {
            assert!(same(p.max(q), x.max(y)), "{x} max {y}");
            assert!(same(p.min(q), x.min(y)), "{x} min {y}");
        }
    }
}

#[test]
fn remainders_agree_with_the_hardware() {
    let mut state = 0x1234_5678_9ABC_DEF1u64;
    for _ in 0..60_000 {
        let a = sample(&mut state);
        let b = sample(&mut state);
        let (x, y) = (f64::from_bits(a), f64::from_bits(b));
        let (p, q) = (Double::from_bits(a), Double::from_bits(b));
        assert!(same(p.rem(q), x % y), "{x} % {y}");
        assert!(same(p.rem_euclid(q), x.rem_euclid(y)), "{x} rem_euclid {y}");
    }
}

#[test]
fn single_precision_agrees_with_the_hardware() {
    let mut state = 0x0F1E_2D3C_4B5A_6978u64;
    for _ in 0..200_000 {
        let x = f64::from_bits(sample(&mut state));
        assert!(same(Double::from_bits(x.to_bits()).single(), x as f32 as f64), "{x} as single");
        let a = f32::from_bits(next(&mut state) as u32);
        let b = f32::from_bits(next(&mut state) as u32);
        let p = Double::from_bits((a as f64).to_bits());
        let q = Double::from_bits((b as f64).to_bits());
        assert!(same(p.single_sum(q), (a + b) as f64), "{a} + {b}");
        assert!(same(p.single_quotient(q), (a / b) as f64), "{a} / {b}");
        let c = (next(&mut state) % 65536) as i32 as f32 - 32768.0;
        let d = (next(&mut state) % 9 + 1) as f32;
        let p = Double::from_bits((c as f64).to_bits());
        let q = Double::from_bits((d as f64).to_bits());
        assert!(same(p.single_sum(q), (c + d) as f64), "{c} + {d}");
        assert!(same(p.single_quotient(q), (c / d) as f64), "{c} / {d}");
    }
}

#[test]
fn integers_and_fractions_convert() {
    let mut state = 0xDEAD_BEEF_CAFE_F00Du64;
    for _ in 0..100_000 {
        let x = next(&mut state) >> (next(&mut state) % 64);
        assert!(same(Double::from_u64(x), x as f64), "{x}");
        assert!(same(Double::from_index(x as usize), x as usize as f64), "{x}");
    }
    assert!(same(Double::from_ratio(54, 100), 0.54));
    assert!(same(Double::from_ratio(46, 100), 0.46));
    assert!(same(Double::from_ratio(1, 1_000_000), 1e-6));
    assert!(same(Double::from_ratio(1, 1_000_000_000), 1e-9));
    assert!(same(Double::from_ratio(1, 1_000_000_000_000), 1e-12));
    assert!(same(Double::from_ratio(105, 100), 1.05));
    assert!(same(
        Double::from_ratio(6_283_185_307_179_586, 1_000_000_000_000_000),
        std::f64::consts::TAU
    ));
}
