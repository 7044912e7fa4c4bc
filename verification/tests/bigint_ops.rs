use strtod::bigint::{BigInt, i2b, multadd, mult, lshift, diff, cmp, pow5mult};

#[test]
fn new_is_empty_zero() {
    let b = BigInt::new();
    assert!(!b.sign);
    assert_eq!(b.x.len(), 0);
}

#[test]
fn i2b_single_limb() {
    let b = i2b(42);
    assert!(!b.sign);
    assert_eq!(b.x, vec![42]);
}

#[test]
fn trim_drops_high_zero_limbs() {
    let mut b = BigInt { sign: false, x: vec![7, 0, 0, 0] };
    b.trim();
    assert_eq!(b.x, vec![7]);
    let mut z = BigInt { sign: false, x: vec![0, 0] };
    z.trim();
    assert_eq!(z.x, vec![0]);
    let mut k = BigInt { sign: false, x: vec![1, 2] };
    k.trim();
    assert_eq!(k.x, vec![1, 2]);
}

#[test]
fn multadd_small() {
    let mut b = i2b(0);
    multadd(&mut b, 10, 7);
    assert_eq!(b.x, vec![7]);
    multadd(&mut b, 10, 3);
    assert_eq!(b.x, vec![73]);
}

#[test]
fn multadd_carries_into_new_limb() {
    let mut b = i2b(0xffffffff);
    multadd(&mut b, 10, 5);
    // 0xffffffff * 10 + 5
    assert_eq!(b.x, vec![0xfffffffb, 0x9]);
}

#[test]
fn mult_single_limbs() {
    let a = i2b(6);
    let b = i2b(7);
    let c = mult(&a, &b);
    assert_eq!(c.x, vec![42]);
    assert!(!c.sign);
}

#[test]
fn mult_max_limb_square() {
    let a = i2b(0xffffffff);
    let c = mult(&a, &a);
    // (2^32 - 1)^2 = 0xfffffffe_00000001
    assert_eq!(c.x, vec![0x1, 0xfffffffe]);
}

#[test]
fn mult_by_zero_trims_to_single_limb() {
    let a = i2b(0);
    let b = BigInt { sign: false, x: vec![1, 2, 3] };
    let c = mult(&a, &b);
    assert_eq!(c.x, vec![0]);
}

#[test]
fn lshift_whole_limbs_and_bits() {
    let b = i2b(1);
    let c = lshift(&b, 33);
    assert_eq!(c.x, vec![0, 2]);
    let d = lshift(&i2b(0x80000000), 1);
    assert_eq!(d.x, vec![0, 1]);
    let e = lshift(&i2b(5), 0);
    assert_eq!(e.x, vec![5]);
}

#[test]
fn diff_orders_and_signs() {
    let a = i2b(5);
    let b = i2b(3);
    let d1 = diff(&a, &b);
    assert!(!d1.sign);
    assert_eq!(d1.x, vec![2]);
    let d2 = diff(&b, &a);
    assert!(d2.sign);
    assert_eq!(d2.x, vec![2]);
    let d3 = diff(&a, &a);
    assert!(!d3.sign);
    assert_eq!(d3.x, vec![0]);
}

#[test]
fn diff_borrows_across_limbs() {
    // 2^64 - 1
    let a = BigInt { sign: false, x: vec![0, 0, 1] };
    let b = i2b(1);
    let d = diff(&a, &b);
    assert_eq!(d.x, vec![0xffffffff, 0xffffffff]);
}

#[test]
fn cmp_by_length_and_limbs() {
    let a = BigInt { sign: false, x: vec![0, 1] };
    let b = i2b(0xffffffff);
    assert!(cmp(&a, &b) > 0);
    assert!(cmp(&b, &a) < 0);
    assert_eq!(cmp(&a, &a), 0);
    let c = BigInt { sign: false, x: vec![1, 1] };
    assert!(cmp(&c, &a) > 0);
}

#[test]
fn pow5mult_small_and_carrying() {
    let p3 = pow5mult(i2b(1), 3);
    assert_eq!(p3.x, vec![125]);
    let p4 = pow5mult(i2b(1), 4);
    assert_eq!(p4.x, vec![625]);
    let p13 = pow5mult(i2b(1), 13);
    assert_eq!(p13.x, vec![1220703125]);
    let p14 = pow5mult(i2b(1), 14);
    // 5^14 = 6103515625
    assert_eq!(p14.x, vec![0x6bcc41e9, 0x1]);
    let p0 = pow5mult(i2b(9), 0);
    assert_eq!(p0.x, vec![9]);
}

#[test]
fn half_ulp_tie_is_detected_exactly() {
    // The decimal 72057594037927932 sits exactly half an ulp above the
    // binary64 72057594037927928, whose ulp there is 8.
    let bytes: &[u8] = b"72057594037927932";
    let c = strtod::scan::Chars { bytes, offset: 0 };
    let bd = strtod::scan::s2b(c, 17, 17, 720575940);
    assert_eq!(bd.x, vec![0xfffffffc, 0xffffff]);
    let bb = BigInt { sign: false, x: vec![0xfffffff8, 0xffffff] };
    let delta = diff(&bb, &bd);
    assert!(delta.sign);
    let bs = lshift(&i2b(1), 2);
    assert_eq!(cmp(&delta, &bs), 0);
}
