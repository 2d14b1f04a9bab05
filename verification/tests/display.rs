use tempo::display::{write_fixed, write_integer};
use tempo::double::Double;

#[test]
fn fixed_numbers_agree_with_the_standard_library() {
    let mut values = vec![
        0.0, -0.0, 0.5, 1.5, 2.5, 0.25, 0.125, 0.375, 1.0, -1.05, 999.9995, 0.0005, 0.00049999, 1e21, 1e-300, f64::MAX,
        5e-324, f64::INFINITY, f64::NEG_INFINITY, f64::NAN, 123.456, -0.04, 9.95, 99.95,
    ];
    let mut state = 0x2545_F491_4F6C_DD1Du64;
    for _ in 0..2000 {
        state ^= state << 13;
        state ^= state >> 7;
        state ^= state << 17;
        values.push((state % 4_000_001) as f64 / 1024.0 - 1000.0);
        values.push(f64::from_bits((state & 0x800F_FFFF_FFFF_FFFF) | 0x4030_0000_0000_0000));
    }
    for x in values {
        let d = Double::from_bits(x.to_bits());
        for digits in [0usize, 1, 2, 3, 7] {
            assert_eq!(write_fixed(d, digits, false), format!("{x:.digits$}"), "{x:e} {digits}");
            if !x.is_nan() {
                assert_eq!(write_fixed(d, digits, true), format!("{x:+.digits$}"), "{x:e} {digits}");
            }
        }
    }
}

#[test]
fn integers_are_written_in_decimal() {
    for n in [0u64, 1, 9, 10, 99, 100, 4294967295, 4294967296, 10000000000000000000, u64::MAX] {
        assert_eq!(write_integer(n), n.to_string());
    }
}
