//! Leading- and trailing-zero counts of a 32-bit word, used when aligning a
//! binary64 mantissa with a big-integer limb boundary.

use vstd::prelude::*;
use vstd::arithmetic::power2::{pow2, lemma2_to64, lemma_pow2_adds, lemma_pow2_pos};
use vstd::bits::{lemma_u32_shr_is_div, lemma_u64_shl_is_mul};

verus! {

/// Counts the leading zero bits of `x`; 32 when `x` is zero.
///
/// For nonzero `x` the count `r` is pinned down two ways: shifting `x` right
/// by `31 - r` leaves exactly the leading one bit, and `x` lies in
/// `[2^(31-r), 2^(32-r))`.
pub fn hi0bits(x: u32) -> (r: u32)
    ensures
        x == 0 ==> r == 32,
        x != 0 ==> r < 32 && (x >> ((31 - r) as u32)) == 1,
        x != 0 ==> pow2((31 - r) as nat) <= x < pow2((32 - r) as nat),
{
    let ghost x0: u32 = x;
    let mut w: u32 = x;
    let mut k: u32 = 0;
    if w & 0xffff0000 == 0 {
        k = 16;
        w = w << 16;
    }
    let ghost w1 = w;
    let ghost k1 = k;
    proof {
        assert(((x0 as u64) << (k1 as u64)) == w1 as u64 && (x0 != 0 ==> w1 & 0xffff0000 != 0))
            by (bit_vector)
            requires
                (k1 == 0 && w1 == x0 && (x0 & 0xffff0000) != 0) || (k1 == 16 && w1 == (x0 << 16u32)
                    && (x0 & 0xffff0000) == 0),
        ;
    }
    if w & 0xff000000 == 0 {
        k = k + 8;
        w = w << 8;
    }
    let ghost w2 = w;
    let ghost k2 = k;
    proof {
        assert(((x0 as u64) << (k2 as u64)) == w2 as u64 && (x0 != 0 ==> w2 & 0xff000000 != 0))
            by (bit_vector)
            requires
                ((x0 as u64) << (k1 as u64)) == w1 as u64,
                x0 != 0 ==> w1 & 0xffff0000 != 0,
                k1 <= 16,
                (k2 == k1 && w2 == w1 && (w1 & 0xff000000) != 0) || (k2 == k1 + 8 && w2 == (w1
                    << 8u32) && (w1 & 0xff000000) == 0),
        ;
    }
    if w & 0xf0000000 == 0 {
        k = k + 4;
        w = w << 4;
    }
    let ghost w3 = w;
    let ghost k3 = k;
    proof {
        assert(((x0 as u64) << (k3 as u64)) == w3 as u64 && (x0 != 0 ==> w3 & 0xf0000000 != 0))
            by (bit_vector)
            requires
                ((x0 as u64) << (k2 as u64)) == w2 as u64,
                x0 != 0 ==> w2 & 0xff000000 != 0,
                k2 <= 24,
                (k3 == k2 && w3 == w2 && (w2 & 0xf0000000) != 0) || (k3 == k2 + 4 && w3 == (w2
                    << 4u32) && (w2 & 0xf0000000) == 0),
        ;
    }
    if w & 0xc0000000 == 0 {
        k = k + 2;
        w = w << 2;
    }
    let ghost w4 = w;
    let ghost k4 = k;
    proof {
        assert(((x0 as u64) << (k4 as u64)) == w4 as u64 && (x0 != 0 ==> w4 & 0xc0000000 != 0))
            by (bit_vector)
            requires
                ((x0 as u64) << (k3 as u64)) == w3 as u64,
                x0 != 0 ==> w3 & 0xf0000000 != 0,
                k3 <= 28,
                (k4 == k3 && w4 == w3 && (w3 & 0xc0000000) != 0) || (k4 == k3 + 2 && w4 == (w3
                    << 2u32) && (w3 & 0xc0000000) == 0),
        ;
    }
    if w & 0x80000000 == 0 {
        k = k + 1;
        if w & 0x40000000 == 0 {
            proof {
                assert(x0 == 0) by (bit_vector)
                    requires
                        ((x0 as u64) << (k4 as u64)) == w4 as u64,
                        x0 != 0 ==> w4 & 0xc0000000 != 0,
                        k4 <= 30,
                        w4 & 0x80000000 == 0,
                        w4 & 0x40000000 == 0,
                ;
            }
            return 32;
        }
    }
    proof {
        assert(x0 != 0 && k < 32 && (x0 >> ((31 - k) as u32)) == 1) by (bit_vector)
            requires
                ((x0 as u64) << (k4 as u64)) == w4 as u64,
                k4 <= 30,
                (k == k4 && (w4 & 0x80000000) != 0) || (k == k4 + 1 && (w4 & 0x80000000) == 0 && (
                w4 & 0x40000000) != 0),
        ;
        let s = (31 - k) as nat;
        lemma_u32_shr_is_div(x0, (31 - k) as u32);
        lemma_pow2_pos(s);
        let p: int = pow2(s) as int;
        assert(p <= x0 < 2 * p) by (nonlinear_arith)
            requires
                x0 as int / p == 1,
                p > 0,
        ;
        lemma_pow2_adds(s, 1);
        lemma2_to64();
    }
    k
}

/// Counts the trailing zero bits of `*y` and shifts them out in place;
/// 32 when `*y` is zero, which leaves `*y` unchanged.
///
/// For nonzero input the count `r` is pinned down by the output being odd
/// and the input equalling the output times `2^r`.
pub fn lo0bits(y: &mut u32) -> (r: u32)
    ensures
        *old(y) == 0 ==> r == 32 && *final(y) == 0,
        *old(y) != 0 ==> r < 32 && *final(y) == (*old(y) >> r) && (*final(y) & 1) == 1,
        *old(y) != 0 ==> *old(y) as nat == (*final(y) as nat) * pow2(r as nat),
{
    let ghost x0: u32 = *y;
    let mut w: u32 = *y;
    if w & 7 != 0 {
        if w & 1 != 0 {
            proof {
                assert(x0 != 0 && (x0 >> 0u32) == x0 && (x0 & 1) == 1) by (bit_vector)
                    requires
                        (x0 & 1) != 0,
                ;
                assert(pow2(0) == 1) by {
                    lemma2_to64();
                }
            }
            return 0;
        }
        if w & 2 != 0 {
            *y = w >> 1;
            proof {
                assert(x0 != 0 && ((x0 >> 1) & 1) == 1 && x0 == (x0 >> 1) as u64 * 2)
                    by (bit_vector)
                    requires
                        (x0 & 1) == 0,
                        (x0 & 2) != 0,
                ;
                assert(pow2(1) == 2) by {
                    lemma2_to64();
                }
            }
            return 1;
        }
        *y = w >> 2;
        proof {
            assert(x0 != 0 && ((x0 >> 2) & 1) == 1 && x0 == (x0 >> 2) as u64 * 4) by (bit_vector)
                requires
                    (x0 & 7) != 0,
                    (x0 & 1) == 0,
                    (x0 & 2) == 0,
            ;
            assert(pow2(2) == 4) by {
                lemma2_to64();
            }
        }
        return 2;
    }
    let mut k: u32 = 0;
    if w & 0xffff == 0 {
        k = 16;
        w = w >> 16;
    }
    let ghost w1 = w;
    let ghost k1 = k;
    proof {
        assert(((w1 as u64) << (k1 as u64)) == x0 as u64 && (x0 != 0 ==> (w1 & 0xffff) != 0))
            by (bit_vector)
            requires
                (k1 == 0 && w1 == x0 && (x0 & 0xffff) != 0) || (k1 == 16 && w1 == (x0 >> 16u32) && (
                x0 & 0xffff) == 0),
        ;
    }
    if w & 0xff == 0 {
        k = k + 8;
        w = w >> 8;
    }
    let ghost w2 = w;
    let ghost k2 = k;
    proof {
        assert(((w2 as u64) << (k2 as u64)) == x0 as u64 && (x0 != 0 ==> (w2 & 0xff) != 0))
            by (bit_vector)
            requires
                ((w1 as u64) << (k1 as u64)) == x0 as u64,
                x0 != 0 ==> (w1 & 0xffff) != 0,
                k1 <= 16,
                (k2 == k1 && w2 == w1 && (w1 & 0xff) != 0) || (k2 == k1 + 8 && w2 == (w1 >> 8u32)
                    && (w1 & 0xff) == 0),
        ;
    }
    if w & 0xf == 0 {
        k = k + 4;
        w = w >> 4;
    }
    let ghost w3 = w;
    let ghost k3 = k;
    proof {
        assert(((w3 as u64) << (k3 as u64)) == x0 as u64 && (x0 != 0 ==> (w3 & 0xf) != 0))
            by (bit_vector)
            requires
                ((w2 as u64) << (k2 as u64)) == x0 as u64,
                x0 != 0 ==> (w2 & 0xff) != 0,
                k2 <= 24,
                (k3 == k2 && w3 == w2 && (w2 & 0xf) != 0) || (k3 == k2 + 4 && w3 == (w2 >> 4u32)
                    && (w2 & 0xf) == 0),
        ;
    }
    if w & 0x3 == 0 {
        k = k + 2;
        w = w >> 2;
    }
    let ghost w4 = w;
    let ghost k4 = k;
    proof {
        assert(((w4 as u64) << (k4 as u64)) == x0 as u64 && (x0 != 0 ==> (w4 & 0x3) != 0))
            by (bit_vector)
            requires
                ((w3 as u64) << (k3 as u64)) == x0 as u64,
                x0 != 0 ==> (w3 & 0xf) != 0,
                k3 <= 28,
                (k4 == k3 && w4 == w3 && (w3 & 0x3) != 0) || (k4 == k3 + 2 && w4 == (w3 >> 2u32)
                    && (w3 & 0x3) == 0),
        ;
    }
    if w & 1 == 0 {
        k = k + 1;
        w = w >> 1;
        if w == 0 {
            proof {
                assert(x0 == 0) by (bit_vector)
                    requires
                        ((w4 as u64) << (k4 as u64)) == x0 as u64,
                        x0 != 0 ==> (w4 & 0x3) != 0,
                        (w4 & 1) == 0,
                        (w4 >> 1u32) == 0,
                ;
            }
            return 32;
        }
    }
    *y = w;
    proof {
        assert(x0 != 0 && k < 32 && w == (x0 >> k) && (w & 1) == 1 && ((w as u64) << (k as u64))
            == x0 as u64) by (bit_vector)
            requires
                ((w4 as u64) << (k4 as u64)) == x0 as u64,
                x0 != 0 ==> (w4 & 0x3) != 0,
                k4 <= 30,
                (k == k4 && w == w4 && (w4 & 1) != 0) || (k == k4 + 1 && w == (w4 >> 1u32) && (w4
                    & 1) == 0 && w != 0),
        ;
        assert(pow2(k as nat) <= pow2(31)) by {
            if (k as nat) < 31 {
                vstd::arithmetic::power2::lemma_pow2_strictly_increases(k as nat, 31);
            }
        }
        assert(pow2(31) == 0x80000000) by {
            lemma2_to64();
        }
        assert((w as u64) * pow2(k as nat) <= 0xffffffff * 0x80000000) by (nonlinear_arith)
            requires
                w <= 0xffffffff,
                pow2(k as nat) <= 0x80000000,
        ;
        lemma_u64_shl_is_mul(w as u64, k as u64);
    }
    k
}

} // verus!
