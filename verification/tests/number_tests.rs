use obfuscation::number::{number_from_int, numbers_equal};

#[test]
fn bits_of_small_integers() {
    assert_eq!(number_from_int(0), 0);
    assert_eq!(number_from_int(1), 0x3ff0_0000_0000_0000);
    assert_eq!(number_from_int(2), 0x4000_0000_0000_0000);
    assert_eq!(number_from_int(3), 0x4008_0000_0000_0000);
    assert_eq!(number_from_int(-1), 0xbff0_0000_0000_0000);
    assert_eq!(number_from_int(7), 7f64.to_bits());
    assert_eq!(number_from_int(15), 15f64.to_bits());
}

#[test]
fn bits_agree_with_the_machine_on_many_integers() {
    let mut n: i64 = -70_000;
    while n <= 70_000 {
        assert_eq!(number_from_int(n as i32), (n as f64).to_bits(), "{}", n);
        n += 1;
    }
}

#[test]
fn bits_at_the_ends_of_the_range() {
    assert_eq!(number_from_int(i32::MAX), (i32::MAX as f64).to_bits());
    assert_eq!(number_from_int(i32::MIN), (i32::MIN as f64).to_bits());
    assert_eq!(number_from_int(i32::MAX - 1), ((i32::MAX - 1) as f64).to_bits());
    assert_eq!(number_from_int(i32::MIN + 1), ((i32::MIN + 1) as f64).to_bits());
    assert_eq!(number_from_int(1 << 30), ((1i64 << 30) as f64).to_bits());
    assert_eq!(number_from_int((1 << 30) + 1), (((1i64 << 30) + 1) as f64).to_bits());
}

#[test]
fn powers_of_two_have_an_empty_mantissa() {
    for e in 0..31 {
        let bits = number_from_int(1 << e);
        assert_eq!(bits & 0xf_ffff_ffff_ffff, 0);
        assert_eq!(bits >> 52, 1023 + e as u64);
    }
}

#[test]
fn equality_is_that_of_doubles() {
    let values = [
        0.0f64,
        -0.0,
        1.0,
        -1.0,
        0.5,
        1e300,
        f64::INFINITY,
        f64::NEG_INFINITY,
        f64::NAN,
        f64::MIN_POSITIVE,
        5e-324,
    ];
    for a in values {
        for b in values {
            assert_eq!(numbers_equal(a.to_bits(), b.to_bits()), a == b, "{} {}", a, b);
        }
    }
}

#[test]
fn the_two_zeros_are_equal_and_nan_equals_nothing() {
    assert!(numbers_equal(0, 0x8000_0000_0000_0000));
    assert!(numbers_equal(0x8000_0000_0000_0000, 0));
    let nan = f64::NAN.to_bits();
    assert!(!numbers_equal(nan, nan));
    assert!(!numbers_equal(0x7ff0_0000_0000_0001, 0x7ff0_0000_0000_0001));
    assert!(numbers_equal(0x7ff0_0000_0000_0000, 0x7ff0_0000_0000_0000));
}
