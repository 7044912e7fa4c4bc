use strtod::bits::{hi0bits, lo0bits};
use strtod::scan::{Chars, Scanned, s2b, scan, scan_mantissa};

#[test]
fn hi0bits_counts_leading_zeros() {
    assert_eq!(hi0bits(0), 32);
    assert_eq!(hi0bits(1), 31);
    assert_eq!(hi0bits(0x80000000), 0);
    assert_eq!(hi0bits(0xffff), 16);
    assert_eq!(hi0bits(0x00100000), 11);
}

#[test]
fn lo0bits_counts_and_shifts_out_trailing_zeros() {
    let mut y: u32 = 0;
    assert_eq!(lo0bits(&mut y), 32);
    assert_eq!(y, 0);
    let mut y1: u32 = 0x80000000;
    assert_eq!(lo0bits(&mut y1), 31);
    assert_eq!(y1, 1);
    let mut y2: u32 = 12;
    assert_eq!(lo0bits(&mut y2), 2);
    assert_eq!(y2, 3);
    let mut y3: u32 = 7;
    assert_eq!(lo0bits(&mut y3), 0);
    assert_eq!(y3, 7);
}

#[test]
fn chars_peek_yields_sentinel_at_end() {
    let bytes: &[u8] = b"7";
    let mut c = Chars { bytes, offset: 0 };
    assert_eq!(c.peek(), b'7' as u32);
    c.bump();
    assert_eq!(c.peek(), 0);
}

#[test]
fn s2b_rebuilds_all_significant_digits() {
    let bytes: &[u8] = b"123456789012345";
    let c = Chars { bytes, offset: 0 };
    let b = s2b(c, 15, 15, 123456789);
    assert_eq!(b.x, vec![0x860ddf79, 0x7048]);
}

#[test]
fn s2b_skips_the_decimal_point() {
    let bytes: &[u8] = b"1234567890.12345";
    let c = Chars { bytes, offset: 0 };
    let b = s2b(c, 10, 15, 123456789);
    assert_eq!(b.x, vec![0x860ddf79, 0x7048]);
}

#[test]
fn scan_plain_number() {
    match scan(b"12.345e19") {
        Scanned::Number { neg, y, z, nd, nd0, e, start } => {
            assert!(!neg);
            assert_eq!(y, 12345);
            assert_eq!(z, 0);
            assert_eq!(nd, 5);
            assert_eq!(nd0, 2);
            assert_eq!(e, 16);
            assert_eq!(start, 0);
        },
        _ => panic!("expected a number"),
    }
}

#[test]
fn scan_sign_and_pure_fraction() {
    match scan(b"-.1e+9") {
        Scanned::Number { neg, y, nd, nd0, e, start, .. } => {
            assert!(neg);
            assert_eq!(y, 1);
            assert_eq!(nd, 1);
            assert_eq!(nd0, 1);
            assert_eq!(e, 8);
            assert_eq!(start, 2);
        },
        _ => panic!("expected a number"),
    }
}

#[test]
fn scan_sixteen_digits_fills_both_accumulators() {
    match scan(b"1234.123456789012") {
        Scanned::Number { y, z, nd, nd0, e, .. } => {
            assert_eq!(y, 123412345);
            assert_eq!(z, 6789012);
            assert_eq!(nd, 16);
            assert_eq!(nd0, 4);
            assert_eq!(e, -12);
        },
        _ => panic!("expected a number"),
    }
}

#[test]
fn scan_keeps_trailing_integer_zeros() {
    match scan(b"100000e303") {
        Scanned::Number { y, nd, nd0, e, .. } => {
            assert_eq!(y, 100000);
            assert_eq!(nd, 6);
            assert_eq!(nd0, 6);
            assert_eq!(e, 303);
        },
        _ => panic!("expected a number"),
    }
}

#[test]
fn scan_drops_trailing_fraction_zeros() {
    match scan(b"12.3450000") {
        Scanned::Number { y, nd, nd0, e, .. } => {
            assert_eq!(y, 12345);
            assert_eq!(nd, 5);
            assert_eq!(nd0, 2);
            assert_eq!(e, -3);
        },
        _ => panic!("expected a number"),
    }
}

#[test]
fn scan_interior_fraction_zeros_are_significant() {
    match scan(b"1.002") {
        Scanned::Number { y, nd, nd0, e, .. } => {
            assert_eq!(y, 1002);
            assert_eq!(nd, 4);
            assert_eq!(nd0, 1);
            assert_eq!(e, -3);
        },
        _ => panic!("expected a number"),
    }
}

#[test]
fn scan_skips_whitespace_and_stops_at_nul() {
    match scan(b" \t42") {
        Scanned::Number { y, nd, start, .. } => {
            assert_eq!(y, 42);
            assert_eq!(nd, 2);
            assert_eq!(start, 2);
        },
        _ => panic!("expected a number"),
    }
    match scan(b"4\x0012") {
        Scanned::Number { y, nd, e, .. } => {
            assert_eq!(y, 4);
            assert_eq!(nd, 1);
            assert_eq!(e, 0);
        },
        _ => panic!("expected a number"),
    }
}

#[test]
fn scan_rejects_non_numeric_heads() {
    assert!(matches!(scan(b""), Scanned::NotANumber));
    assert!(matches!(scan(b"Inf"), Scanned::NotANumber));
    assert!(matches!(scan(b"+InFiNiTy"), Scanned::NotANumber));
    assert!(matches!(scan(b"-"), Scanned::NotANumber));
    assert!(matches!(scan(b"   "), Scanned::NotANumber));
    assert!(matches!(scan(b"e1324"), Scanned::NotANumber));
    assert!(matches!(scan(b","), Scanned::NotANumber));
}

#[test]
fn scan_zero_forms_and_their_signs() {
    assert!(matches!(scan(b"0"), Scanned::Zero { neg: false }));
    assert!(matches!(scan(b"-0"), Scanned::Zero { neg: true }));
    assert!(matches!(scan(b"-000"), Scanned::Zero { neg: true }));
    assert!(matches!(scan(b"0e-19"), Scanned::Zero { neg: false }));
    assert!(matches!(scan(b"-0e-1000000"), Scanned::Zero { neg: true }));
    assert!(matches!(scan(b".y"), Scanned::Zero { neg: false }));
    assert!(matches!(scan(b"-.y"), Scanned::Zero { neg: false }));
    assert!(matches!(scan(b"-.0y"), Scanned::Zero { neg: true }));
    assert!(matches!(scan(b"-0.y"), Scanned::Zero { neg: true }));
    assert!(matches!(scan(b"000,,,e1"), Scanned::Zero { neg: false }));
    assert!(matches!(scan(b"."), Scanned::Zero { neg: false }));
    assert!(matches!(scan(b".e1"), Scanned::Zero { neg: false }));
    assert!(matches!(scan(b"0,0e-1000000"), Scanned::Zero { neg: false }));
}

#[test]
fn scan_clamps_giant_exponents() {
    match scan(b"1e1000000") {
        Scanned::Number { e, .. } => assert_eq!(e, 19999),
        _ => panic!("expected a number"),
    }
    match scan(b"1e-1000000") {
        Scanned::Number { e, .. } => assert_eq!(e, -19999),
        _ => panic!("expected a number"),
    }
    match scan(b"1e477777777777") {
        Scanned::Number { e, .. } => assert_eq!(e, 19999),
        _ => panic!("expected a number"),
    }
    match scan(b"1e00000000000000001") {
        Scanned::Number { e, .. } => assert_eq!(e, 1),
        _ => panic!("expected a number"),
    }
    match scan(b"2e") {
        Scanned::Number { y, e, .. } => {
            assert_eq!(y, 2);
            assert_eq!(e, 0);
        },
        _ => panic!("expected a number"),
    }
}

#[test]
fn scan_mantissa_builds_the_full_digit_string() {
    let (sc, big) = scan_mantissa(b"123456789123e-5");
    match sc {
        Scanned::Number { nd, e, .. } => {
            assert_eq!(nd, 12);
            assert_eq!(e, -5);
        },
        _ => panic!("expected a number"),
    }
    let b = big.expect("a number carries its mantissa");
    assert_eq!(b.x, vec![0xbe991a83, 0x1c]);
    let (sc2, big2) = scan_mantissa(b"-0");
    assert!(matches!(sc2, Scanned::Zero { neg: true }));
    assert!(big2.is_none());
}

#[test]
fn scan_is_insensitive_to_leading_zeros() {
    let plain = scan(b"1e308");
    let padded = scan(b"00000001e308");
    match (plain, padded) {
        (
            Scanned::Number { neg: n1, y: y1, z: z1, nd: d1, nd0: q1, e: e1, .. },
            Scanned::Number { neg: n2, y: y2, z: z2, nd: d2, nd0: q2, e: e2, .. },
        ) => {
            assert_eq!(n1, n2);
            assert_eq!(y1, y2);
            assert_eq!(z1, z2);
            assert_eq!(d1, d2);
            assert_eq!(q1, q2);
            assert_eq!(e1, e2);
        },
        _ => panic!("expected numbers"),
    }
}

#[test]
fn scan_exponent_marker_case_and_sign() {
    match scan(b"25E4") {
        Scanned::Number { y, nd, e, .. } => {
            assert_eq!(y, 25);
            assert_eq!(nd, 2);
            assert_eq!(e, 4);
        },
        _ => panic!("expected a number"),
    }
    match scan(b"25e+4") {
        Scanned::Number { e, .. } => assert_eq!(e, 4),
        _ => panic!("expected a number"),
    }
    match scan(b"2.5e-4") {
        Scanned::Number { y, nd, nd0, e, .. } => {
            assert_eq!(y, 25);
            assert_eq!(nd, 2);
            assert_eq!(nd0, 1);
            assert_eq!(e, -5);
        },
        _ => panic!("expected a number"),
    }
}
