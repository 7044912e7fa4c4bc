//! Non-negative arbitrary-precision integers stored as little-endian 32-bit
//! limbs, with the operations a correctly rounding decimal parser needs.
//!
//! The mathematical value of a limb sequence is given by [`big_val`]; every
//! operation's contract is stated against it. The `sign` flag is carried
//! along unused by all arithmetic except [`diff`], which sets it to record
//! which operand was larger.

use vstd::prelude::*;
use vstd::arithmetic::power2::{pow2, lemma2_to64, lemma_pow2_adds};
use vstd::arithmetic::mul::lemma_mul_is_commutative;
use vstd::bits::lemma_u64_shr_is_div;
use vstd::arithmetic::power::{pow, lemma_pow_adds, lemma_pow_positive};
use vstd::arithmetic::div_mod::lemma_fundamental_div_mod;

verus! {

/// The integer denoted by a little-endian sequence of 32-bit limbs.
pub open spec fn big_val(s: Seq<u32>) -> nat
    decreases s.len(),
{
    if s.len() == 0 {
        0
    } else {
        (s[0] + 0x100000000 * big_val(s.skip(1))) as nat
    }
}

/// The weight of the limb at position `n`: `2^(32n)`.
pub open spec fn bpow(n: nat) -> nat {
    pow2(32 * n)
}

/// No high zero limb, except that zero itself is the single limb `[0]`.
pub open spec fn trimmed(s: Seq<u32>) -> bool {
    s.len() >= 1 && (s.len() > 1 ==> s[s.len() - 1] != 0)
}

pub proof fn lemma_bpow_succ(n: nat)
    ensures
        bpow(n + 1) == 0x100000000 * bpow(n),
{
    assert(32 * (n + 1) == 32 * n + 32);
    lemma_pow2_adds(32 * n, 32);
    lemma2_to64();
}

/// Appending a limb adds its weighted value.
pub proof fn lemma_val_push(s: Seq<u32>, v: u32)
    ensures
        big_val(s.push(v)) == big_val(s) + v * bpow(s.len()),
    decreases s.len(),
{
    if s.len() == 0 {
        assert(s.push(v).skip(1) =~= Seq::<u32>::empty());
        assert(bpow(0) == 1) by {
            lemma2_to64();
        }
        assert(s.push(v).len() == 1);
        assert(s.push(v)[0] == v);
        assert(big_val(s.push(v).skip(1)) == 0);
        assert(big_val(s.push(v)) == v);
        assert(big_val(s) == 0);
        assert(v * bpow(0) == v);
        assert(v * bpow(s.len()) == v);
        assert(big_val(s.push(v)) == big_val(s) + v * bpow(s.len()));
    } else {
        assert(s.push(v).skip(1) =~= s.skip(1).push(v));
        lemma_val_push(s.skip(1), v);
        lemma_bpow_succ((s.len() - 1) as nat);
        let b: int = 0x100000000;
        let x: int = big_val(s.skip(1)) as int;
        let p: int = bpow((s.len() - 1) as nat) as int;
        assert(s.push(v)[0] == s[0]);
        assert(big_val(s.push(v)) == s[0] + b * big_val(s.skip(1).push(v)));
        assert(big_val(s.skip(1).push(v)) == x + v * p);
        assert(bpow(s.len()) == b * p);
        assert(b * (x + v * p) == b * x + v * (b * p)) by (nonlinear_arith);
        assert(big_val(s) == s[0] + b * x);
        assert(big_val(s.push(v)) == big_val(s) + v * bpow(s.len()));
    }
}

/// The value of a prefix one limb longer.
pub proof fn lemma_val_take_succ(s: Seq<u32>, i: int)
    requires
        0 <= i < s.len(),
    ensures
        big_val(s.take(i + 1)) == big_val(s.take(i)) + s[i] * bpow(i as nat),
{
    assert(s.take(i + 1) =~= s.take(i).push(s[i]));
    lemma_val_push(s.take(i), s[i]);
}

/// A limb sequence denotes less than the weight just above its last limb.
pub proof fn lemma_val_bound(s: Seq<u32>)
    ensures
        big_val(s) < bpow(s.len()),
    decreases s.len(),
{
    if s.len() == 0 {
        assert(bpow(0) == 1) by {
            lemma2_to64();
        }
    } else {
        lemma_val_bound(s.skip(1));
        lemma_bpow_succ((s.len() - 1) as nat);
        let b: int = 0x100000000;
        let x: int = big_val(s.skip(1)) as int;
        let p: int = bpow((s.len() - 1) as nat) as int;
        assert(x <= p - 1);
        assert(b * x <= b * (p - 1)) by (nonlinear_arith)
            requires
                x <= p - 1,
                b >= 0,
        ;
        assert(b * (p - 1) == b * p - b) by (nonlinear_arith);
    }
}

/// Splitting a limb sequence at `i` splits its value.
pub proof fn lemma_val_split(s: Seq<u32>, i: int)
    requires
        0 <= i <= s.len(),
    ensures
        big_val(s) == big_val(s.take(i)) + bpow(i as nat) * big_val(s.skip(i)),
    decreases i,
{
    if i == 0 {
        assert(s.take(0) =~= Seq::<u32>::empty());
        assert(s.skip(0) =~= s);
        assert(bpow(0) == 1) by {
            lemma2_to64();
        }
    } else {
        lemma_val_split(s, i - 1);
        lemma_val_take_succ(s, i - 1);
        // Peel the first limb of the suffix at i - 1.
        assert(s.skip(i - 1).len() == s.len() - i + 1 >= 1);
        assert(s.skip(i - 1)[0] == s[i - 1]);
        assert(s.skip(i - 1).skip(1) =~= s.skip(i));
        lemma_bpow_succ((i - 1) as nat);
        let b: int = 0x100000000;
        let p: int = bpow((i - 1) as nat) as int;
        let v: int = s[i - 1] as int;
        let rest: int = big_val(s.skip(i)) as int;
        assert(p * (v + b * rest) == v * p + (b * p) * rest) by (nonlinear_arith);
        assert(big_val(s.skip(i - 1)) == v + b * rest);
        assert(big_val(s) == big_val(s.take(i - 1)) + p * (v + b * rest));
        assert(big_val(s.take(i)) == big_val(s.take(i - 1)) + v * p);
        assert(bpow(i as nat) == b * p);
        assert(bpow(i as nat) * big_val(s.skip(i)) == (b * p) * rest);
        assert(big_val(s) == big_val(s.take(i)) + bpow(i as nat) * big_val(s.skip(i)));
    }
}

/// A trimmed sequence of more than one limb denotes at least the weight of
/// its last limb position.
pub proof fn lemma_trimmed_min(s: Seq<u32>)
    requires
        trimmed(s),
        s.len() > 1,
    ensures
        big_val(s) >= bpow((s.len() - 1) as nat),
{
    let n = s.len() as int;
    lemma_val_split(s, n - 1);
    assert(s.skip(n - 1).len() == 1);
    assert(s.skip(n - 1)[0] == s[n - 1]);
    assert(big_val(s.skip(n - 1)) == s[n - 1] + 0x100000000 * big_val(s.skip(n - 1).skip(1)));
    assert(s.skip(n - 1).skip(1) =~= Seq::<u32>::empty());
    assert(big_val(s.skip(n - 1)) >= 1);
    let p: int = bpow((n - 1) as nat) as int;
    let v: int = big_val(s.skip(n - 1)) as int;
    assert(p * v >= p) by (nonlinear_arith)
        requires
            v >= 1,
            p >= 0,
    ;
}

/// An arbitrary-precision non-negative integer with a sign flag.
///
/// `x` holds the limbs, least significant first. Only [`diff`] gives `sign`
/// a meaning: it marks that the subtrahend was the larger operand.
#[derive(Clone)]
pub struct BigInt {
    pub sign: bool,
    pub x: Vec<u32>,
}

impl BigInt {
    /// An empty limb vector, denoting zero.
    pub fn new() -> (r: BigInt)
        ensures
            r.sign == false,
            r.x@.len() == 0,
            big_val(r.x@) == 0,
    {
        BigInt { sign: false, x: Vec::new() }
    }

    /// Removes high zero limbs until at most one limb, or a nonzero high
    /// limb, remains. The denoted value does not change.
    pub fn trim(&mut self)
        ensures
            final(self).sign == old(self).sign,
            big_val(final(self).x@) == big_val(old(self).x@),
            final(self).x@.len() <= old(self).x@.len(),
            old(self).x@.len() >= 1 ==> trimmed(final(self).x@),
    {
        while self.x.len() > 1 && self.x[self.x.len() - 1] == 0
            invariant
                self.sign == old(self).sign,
                big_val(self.x@) == big_val(old(self).x@),
                self.x@.len() <= old(self).x@.len(),
                old(self).x@.len() >= 1 ==> self.x@.len() >= 1,
            decreases self.x@.len(),
        {
            let ghost prev = self.x@;
            let _ = self.x.pop();
            proof {
                assert(prev =~= self.x@.push(prev[prev.len() - 1]));
                lemma_val_push(self.x@, prev[prev.len() - 1]);
            }
        }
    }
}

/// The one-limb big integer holding `i`.
pub fn i2b(i: u32) -> (r: BigInt)
    ensures
        r.sign == false,
        r.x@ =~= seq![i],
        big_val(r.x@) == i,
        trimmed(r.x@),
{
    let mut b = BigInt::new();
    b.x.push(i);
    proof {
        assert(b.x@.skip(1) =~= Seq::<u32>::empty());
        assert(big_val(b.x@.skip(1)) == 0);
        assert(big_val(b.x@) == i + 0x100000000 * 0);
    }
    b
}

/// In place, multiplies `b` by the small factor `m` and adds `a`.
pub fn multadd(b: &mut BigInt, m: i32, a: u32)
    requires
        1 <= m,
    ensures
        final(b).sign == old(b).sign,
        big_val(final(b).x@) == m * big_val(old(b).x@) + a,
        old(b).x@.len() <= final(b).x@.len() <= old(b).x@.len() + 1,
        trimmed(old(b).x@) ==> trimmed(final(b).x@),
{
    let ghost orig = b.x@;
    let n: usize = b.x.len();
    let mut carry: u32 = a;
    let mut pos: usize = 0;
    proof {
        assert(b.x@.take(0) =~= Seq::<u32>::empty());
        assert(orig.take(0) =~= Seq::<u32>::empty());
        assert(big_val(Seq::<u32>::empty()) == 0);
        assert(bpow(0) == 1) by {
            lemma2_to64();
        }
    }
    while pos < n
        invariant
            1 <= m,
            n == orig.len(),
            b.sign == old(b).sign,
            b.x@.len() == n,
            0 <= pos <= n,
            forall|k: int| pos <= k < n ==> b.x@[k] == orig[k],
            big_val(b.x@.take(pos as int)) + carry * bpow(pos as nat) == m * big_val(
                orig.take(pos as int),
            ) + a,
        decreases n - pos,
    {
        let ghost before = b.x@;
        let ghost carry_in = carry;
        proof {
            let limb: int = b.x@[pos as int] as int;
            assert(limb * (m as int) + (carry as int) < 0x8000000100000000) by (nonlinear_arith)
                requires
                    0 <= limb,
                    limb < 0x100000000,
                    1 <= m as int,
                    (m as int) < 0x80000000,
                    0 <= carry as int,
                    (carry as int) < 0x100000000,
            ;
        }
        let y: u64 = b.x[pos] as u64 * m as u64 + carry as u64;
        carry = (y >> 32) as u32;
        let lo: u32 = (y & 0xffffffff) as u32;
        b.x[pos] = lo;
        proof {
            lemma_u64_shr_is_div(y, 32);
            lemma2_to64();
            assert(y as nat / 0x100000000 < 0x100000000) by (nonlinear_arith)
                requires
                    y < 0x10000000000000000,
            ;
            assert(carry == y as nat / 0x100000000);
            vstd::bits::lemma_u64_low_bits_mask_is_mod(y, 32);
            vstd::bits::lemma_low_bits_mask_values();
            assert(lo == y as nat % 0x100000000);
            assert(y == carry * 0x100000000 + lo);
            assert(b.x@.take(pos as int) =~= before.take(pos as int));
            lemma_val_take_succ(b.x@, pos as int);
            lemma_val_take_succ(orig, pos as int);
            lemma_bpow_succ(pos as nat);
            let bb: int = 0x100000000;
            let p: int = bpow(pos as nat) as int;
            let limb: int = orig[pos as int] as int;
            // y == limb * m + carry_in, and y == carry * bb + lo, so
            // lo * p + carry * (bb * p) == limb * m * p + carry_in * p.
            assert(lo * p + carry * (bb * p) == (m * limb) * p + carry_in * p) by (nonlinear_arith)
                requires
                    carry * bb + lo == limb * m + carry_in,
            ;
            assert(m * (big_val(orig.take(pos as int)) + limb * p) == m * big_val(
                orig.take(pos as int),
            ) + (m * limb) * p) by (nonlinear_arith);
        }
        pos = pos + 1;
    }
    proof {
        assert(b.x@.take(n as int) =~= b.x@);
        assert(orig.take(n as int) =~= orig);
    }
    if carry != 0 {
        let ghost before = b.x@;
        b.x.push(carry);
        proof {
            lemma_val_push(before, carry);
        }
    }
    proof {
        if trimmed(orig) && b.x@.len() == n && n > 1 {
            // The high limb cannot have become zero: the value only grew.
            if b.x@[n - 1] == 0 {
                lemma_val_split(b.x@, n - 1);
                assert(b.x@.skip(n - 1) =~= seq![0u32]);
                assert(b.x@.skip(n - 1).skip(1) =~= Seq::<u32>::empty());
                assert(big_val(b.x@.skip(n - 1).skip(1)) == 0);
                assert(big_val(b.x@.skip(n - 1)) == 0);
                assert(big_val(b.x@) == big_val(b.x@.take(n - 1)) + bpow((n - 1) as nat) * 0);
                lemma_val_bound(b.x@.take(n - 1));
                assert(b.x@.take(n - 1).len() == n - 1);
                lemma_trimmed_min(orig);
                let v: int = big_val(orig) as int;
                assert(m * v >= v) by (nonlinear_arith)
                    requires
                        m >= 1,
                        v >= 0,
                ;
                assert(false);
            }
        }
    }
}

/// `bpow` splits over addition of limb counts.
pub proof fn lemma_bpow_split(m: nat, n: nat)
    ensures
        bpow(m + n) == bpow(m) * bpow(n),
{
    assert(32 * (m + n) == 32 * m + 32 * n);
    lemma_pow2_adds(32 * m, 32 * n);
}

/// Multiplies two big integers, schoolbook fashion.
#[verifier::loop_isolation(false)]
pub fn mult(a: &BigInt, b: &BigInt) -> (c: BigInt)
    requires
        a.x@.len() >= 1,
        b.x@.len() >= 1,
        a.x@.len() + b.x@.len() <= usize::MAX,
    ensures
        c.sign == false,
        trimmed(c.x@),
        c.x@.len() <= a.x@.len() + b.x@.len(),
        big_val(c.x@) == big_val(a.x@) * big_val(b.x@),
{
    let (a, b) = if a.x.len() < b.x.len() {
        (b, a)
    } else {
        (a, b)
    };
    let wa: usize = a.x.len();
    let wb: usize = b.x.len();
    let wc: usize = wa + wb;
    let mut c = BigInt::new();
    let mut fill: usize = 0;
    while fill < wc
        invariant
            c.sign == false,
            c.x@.len() == fill,
            fill <= wc,
            forall|k: int| 0 <= k < fill ==> c.x@[k] == 0,
            big_val(c.x@) == 0,
        decreases wc - fill,
    {
        let ghost before = c.x@;
        c.x.push(0);
        proof {
            lemma_val_push(before, 0);
        }
        fill = fill + 1;
    }
    let mut xb: usize = 0;
    let mut xc0: usize = 0;
    proof {
        assert(b.x@.take(0) =~= Seq::<u32>::empty());
        assert(big_val(Seq::<u32>::empty()) == 0);
    }
    while xb < wb
        invariant
            c.sign == false,
            c.x@.len() == wc,
            xc0 == xb <= wb,
            forall|k: int| xb + wa <= k < wc ==> c.x@[k] == 0,
            big_val(c.x@) == big_val(a.x@) * big_val(b.x@.take(xb as int)),
        decreases wb - xb,
    {
        let ghost c0 = c.x@;
        let y: u32 = b.x[xb];
        proof {
            lemma_val_take_succ(b.x@, xb as int);
        }
        if y != 0 {
            let mut x: usize = 0;
            let mut xc: usize = xc0;
            let mut carry: u64 = 0;
            proof {
                assert(a.x@.take(0) =~= Seq::<u32>::empty());
                assert(big_val(Seq::<u32>::empty()) == 0);
            }
            while x < wa
                invariant
                    c.sign == false,
                    c.x@.len() == wc,
                    0 <= x <= wa,
                    xc == xc0 + x,
                    carry < 0x100000000,
                    forall|k: int| 0 <= k < xc0 ==> c.x@[k] == c0[k],
                    forall|k: int| xc0 + x <= k < wc ==> c.x@[k] == c0[k],
                    big_val(c.x@.take(xc as int)) + carry * bpow(xc as nat) == big_val(
                        c0.take(xc as int),
                    ) + y * big_val(a.x@.take(x as int)) * bpow(xc0 as nat),
                decreases wa - x,
            {
                let ghost cprev = c.x@;
                let ghost carry_in = carry;
                proof {
                    let limb: int = a.x@[x as int] as int;
                    let cl: int = c.x@[xc as int] as int;
                    assert(limb * (y as int) + cl + (carry as int) < 0x10000000000000000)
                        by (nonlinear_arith)
                        requires
                            0 <= limb,
                            limb < 0x100000000,
                            0 <= y as int,
                            (y as int) < 0x100000000,
                            0 <= cl,
                            cl < 0x100000000,
                            0 <= carry as int,
                            (carry as int) < 0x100000000,
                    ;
                }
                let z: u64 = a.x[x] as u64 * y as u64 + c.x[xc] as u64 + carry;
                carry = z >> 32;
                let lo: u32 = (z & 0xffffffff) as u32;
                c.x[xc] = lo;
                proof {
                    lemma_u64_shr_is_div(z, 32);
                    vstd::bits::lemma_u64_low_bits_mask_is_mod(z, 32);
                    vstd::bits::lemma_low_bits_mask_values();
                    lemma2_to64();
                    assert(z as nat / 0x100000000 < 0x100000000) by (nonlinear_arith)
                        requires
                            z < 0x10000000000000000,
                    ;
                    assert(carry == z as nat / 0x100000000);
                    assert(lo == z as nat % 0x100000000);
                    assert(z == carry * 0x100000000 + lo);
                    let i: int = xc as int;
                    let al: int = a.x@[x as int] as int;
                    let cl: int = cprev[i] as int;
                    assert(cl == c0[i]);
                    assert(c.x@.take(i) =~= cprev.take(i));
                    assert(c.x@.take(i + 1) =~= c.x@.take(i).push(lo));
                    assert(c0.take(i + 1) =~= c0.take(i).push(c0[i]));
                    lemma_val_push(c.x@.take(i), lo);
                    lemma_val_push(c0.take(i), c0[i]);
                    lemma_val_take_succ(a.x@, x as int);
                    lemma_bpow_succ(xc as nat);
                    lemma_bpow_split(x as nat, xc0 as nat);
                    let bb: int = 0x100000000;
                    let p: int = bpow(xc as nat) as int;
                    let q: int = bpow(xc0 as nat) as int;
                    let r: int = bpow(x as nat) as int;
                    let av: int = big_val(a.x@.take(x as int)) as int;
                    let cv: int = big_val(c0.take(i)) as int;
                    let yv: int = y as int;
                    // Column accounting: z == al*yv + cl + carry_in, weighted by p.
                    assert((lo + carry * bb) * p == lo * p + carry * (bb * p))
                        by (nonlinear_arith);
                    assert((al * yv + cl + carry_in) * p == (al * yv) * p + cl * p + carry_in * p)
                        by (nonlinear_arith);
                    assert((lo + carry * bb) * p == (al * yv + cl + carry_in) * p)
                        by (nonlinear_arith)
                        requires
                            lo + carry * bb == al * yv + cl + carry_in,
                    ;
                    assert(yv * (av + al * r) * q == yv * av * q + (al * yv) * (r * q))
                        by (nonlinear_arith);
                    assert((al * yv) * (r * q) == (al * yv) * p);
                }
                x = x + 1;
                xc = xc + 1;
            }
            let ghost cpre = c.x@;
            c.x[xc] = carry as u32;
            proof {
                let i: int = xc as int;
                assert((carry as u32) as u64 == carry);
                assert(cpre[i] == c0[i]);
                assert(c.x@.take(i) =~= cpre.take(i));
                assert(c.x@.take(i + 1) =~= cpre.take(i).push(carry as u32));
                assert(c0.take(i + 1) =~= c0.take(i).push(0u32));
                lemma_val_push(cpre.take(i), carry as u32);
                lemma_val_push(c0.take(i), 0u32);
                assert(c.x@.skip(i + 1) =~= c0.skip(i + 1));
                lemma_val_split(c.x@, i + 1);
                lemma_val_split(c0, i + 1);
                assert(a.x@.take(wa as int) =~= a.x@);
                assert((carry as u32) as nat == carry as nat);
                assert(big_val(c.x@.take(i + 1)) == big_val(cpre.take(i)) + carry * bpow(
                    i as nat,
                ));
                assert(big_val(c0.take(i + 1)) == big_val(c0.take(i)));
                assert(big_val(c.x@.skip(i + 1)) == big_val(c0.skip(i + 1)));
                assert(big_val(c.x@) == big_val(c.x@.take(i + 1)) + bpow((i + 1) as nat)
                    * big_val(c.x@.skip(i + 1)));
                assert(big_val(c0) == big_val(c0.take(i + 1)) + bpow((i + 1) as nat) * big_val(
                    c0.skip(i + 1),
                ));
                assert(big_val(cpre.take(i)) + carry * bpow(i as nat) == big_val(c0.take(i)) + (y
                    * big_val(a.x@)) * bpow(xc0 as nat));
                assert(bpow((i + 1) as nat) * big_val(c.x@.skip(i + 1)) == bpow((i + 1) as nat)
                    * big_val(c0.skip(i + 1)));
                assert(big_val(c.x@) == big_val(c0) + (y * big_val(a.x@)) * bpow(xc0 as nat));
                assert(forall|k: int| i + 1 <= k < wc ==> c.x@[k] == c0[k]);
            }
        }
        proof {
            // With this pass folded in, the product covers one more limb of b.
            let av: int = big_val(a.x@) as int;
            let bv: int = big_val(b.x@.take(xb as int)) as int;
            let yv: int = y as int;
            let q: int = bpow(xb as nat) as int;
            if y == 0 {
                assert(big_val(c.x@) == big_val(c0));
                assert(y * big_val(a.x@) == 0) by (nonlinear_arith)
                    requires
                        y == 0,
                ;
                assert((y * big_val(a.x@)) * bpow(xc0 as nat) == 0) by (nonlinear_arith)
                    requires
                        y * big_val(a.x@) == 0,
                ;
            }
            assert(big_val(c.x@) == big_val(c0) + (y * big_val(a.x@)) * bpow(xc0 as nat));
            assert(big_val(c0) == big_val(a.x@) * big_val(b.x@.take(xb as int)));
            assert(big_val(b.x@.take(xb + 1)) == bv + yv * q);
            assert(av * (bv + yv * q) == av * bv + yv * av * q) by (nonlinear_arith);
            assert(big_val(c.x@) == big_val(a.x@) * big_val(b.x@.take(xb + 1)));
            assert forall|k: int| xb + 1 + wa <= k < wc implies c.x@[k] == 0 by {
                assert(c0[k] == 0);
                if y != 0 {
                    assert(c.x@[k] == c0[k]);
                }
            };
        }
        xb = xb + 1;
        xc0 = xc0 + 1;
    }
    proof {
        assert(b.x@.take(wb as int) =~= b.x@);
        lemma_mul_is_commutative(big_val(a.x@) as int, big_val(b.x@) as int);
    }
    c.trim();
    c
}

/// Shifts a big integer left by `k` bits.
#[verifier::loop_isolation(false)]
pub fn lshift(b: &BigInt, k: i32) -> (c: BigInt)
    requires
        0 <= k,
        b.x@.len() >= 1,
        b.x@.len() + (k as int) / 32 + 2 <= usize::MAX,
    ensures
        c.sign == false,
        trimmed(c.x@),
        c.x@.len() <= b.x@.len() + (k as int) / 32 + 1,
        big_val(c.x@) == big_val(b.x@) * pow2(k as nat),
{
    let nzero: usize = (k / 32) as usize;
    let kk: u32 = (k % 32) as u32;
    let wb: usize = b.x.len();
    let mut c = BigInt::new();
    let mut i: usize = 0;
    proof {
        assert(big_val(Seq::<u32>::empty()) == 0);
    }
    while i < nzero
        invariant
            c.sign == false,
            c.x@.len() == i <= nzero,
            big_val(c.x@) == 0,
        decreases nzero - i,
    {
        let ghost before = c.x@;
        c.x.push(0);
        proof {
            lemma_val_push(before, 0);
        }
        i = i + 1;
    }
    if kk != 0 {
        proof {
            if (kk as nat) < 63 {
                vstd::arithmetic::power2::lemma_pow2_strictly_increases(kk as nat, 63);
            }
            lemma2_to64();
            assert(pow2(kk as nat) <= 0x8000000000000000);
        }
        let f: u64 = 1u64 << kk;
        proof {
            vstd::bits::lemma_u64_shl_is_mul(1u64, kk as u64);
            assert(f == pow2(kk as nat));
            if (kk as nat) < 31 {
                vstd::arithmetic::power2::lemma_pow2_strictly_increases(kk as nat, 31);
            }
            assert(pow2(kk as nat) <= 0x80000000);
            assert(b.x@.take(0) =~= Seq::<u32>::empty());
        }
        let mut z: u32 = 0;
        let mut x: usize = 0;
        while x < wb
            invariant
                c.sign == false,
                c.x@.len() == nzero + x,
                0 <= x <= wb,
                big_val(c.x@) + z * bpow((nzero + x) as nat) == (big_val(b.x@.take(x as int))
                    * pow2(kk as nat)) * bpow(nzero as nat),
            decreases wb - x,
        {
            let ghost cprev = c.x@;
            let ghost z_in = z;
            proof {
                let limb: int = b.x@[x as int] as int;
                assert(limb * (f as int) + (z as int) < 0x10000000000000000) by (nonlinear_arith)
                    requires
                        0 <= limb,
                        limb < 0x100000000,
                        0 < f as int,
                        (f as int) <= 0x80000000,
                        0 <= z as int,
                        (z as int) < 0x100000000,
                ;
            }
            let t: u64 = b.x[x] as u64 * f + z as u64;
            let lo: u32 = (t & 0xffffffff) as u32;
            z = (t >> 32) as u32;
            c.x.push(lo);
            proof {
                lemma_u64_shr_is_div(t, 32);
                vstd::bits::lemma_u64_low_bits_mask_is_mod(t, 32);
                vstd::bits::lemma_low_bits_mask_values();
                lemma2_to64();
                assert(t as nat / 0x100000000 < 0x100000000) by (nonlinear_arith)
                    requires
                        t < 0x10000000000000000,
                ;
                assert(z == t as nat / 0x100000000);
                assert(lo == t as nat % 0x100000000);
                assert(t == z * 0x100000000 + lo);
                lemma_val_push(cprev, lo);
                lemma_val_take_succ(b.x@, x as int);
                lemma_bpow_succ((nzero + x) as nat);
                lemma_bpow_split(x as nat, nzero as nat);
                let bb: int = 0x100000000;
                let p: int = bpow((nzero + x) as nat) as int;
                let q: int = bpow(nzero as nat) as int;
                let r: int = bpow(x as nat) as int;
                let limb: int = b.x@[x as int] as int;
                let fv: int = f as int;
                let bv: int = big_val(b.x@.take(x as int)) as int;
                assert((lo + z * bb) * p == lo * p + z * (bb * p)) by (nonlinear_arith);
                assert((limb * fv + z_in) * p == (limb * fv) * p + z_in * p) by (nonlinear_arith);
                assert((lo + z * bb) * p == (limb * fv + z_in) * p) by (nonlinear_arith)
                    requires
                        lo + z * bb == limb * fv + z_in,
                ;
                assert(((bv + limb * r) * fv) * q == (bv * fv) * q + (limb * fv) * (r * q))
                    by (nonlinear_arith);
                assert((limb * fv) * (r * q) == (limb * fv) * p);
            }
            x = x + 1;
        }
        let ghost cpre = c.x@;
        c.x.push(z);
        proof {
            lemma_val_push(cpre, z);
            assert(b.x@.take(wb as int) =~= b.x@);
        }
    } else {
        proof {
            assert(b.x@.take(0) =~= Seq::<u32>::empty());
            assert(pow2(0) == 1) by {
                lemma2_to64();
            }
        }
        let mut x: usize = 0;
        while x < wb
            invariant
                c.sign == false,
                c.x@.len() == nzero + x,
                0 <= x <= wb,
                big_val(c.x@) == big_val(b.x@.take(x as int)) * bpow(nzero as nat),
            decreases wb - x,
        {
            let ghost cprev = c.x@;
            let limb: u32 = b.x[x];
            c.x.push(limb);
            proof {
                lemma_val_push(cprev, limb);
                lemma_val_take_succ(b.x@, x as int);
                lemma_bpow_split(x as nat, nzero as nat);
                let p: int = bpow((nzero + x) as nat) as int;
                let q: int = bpow(nzero as nat) as int;
                let r: int = bpow(x as nat) as int;
                let bv: int = big_val(b.x@.take(x as int)) as int;
                assert((bv + limb * r) * q == bv * q + limb * (r * q)) by (nonlinear_arith);
                assert(limb * (r * q) == limb * p);
            }
            x = x + 1;
        }
        proof {
            assert(b.x@.take(wb as int) =~= b.x@);
        }
    }
    proof {
        // 2^k factors into the whole-limb part and the in-limb part.
        vstd::arithmetic::div_mod::lemma_fundamental_div_mod(k as int, 32);
        lemma_pow2_adds((kk as nat), (32 * nzero) as nat);
        let q: int = bpow(nzero as nat) as int;
        let fv: int = pow2(kk as nat) as int;
        let bv: int = big_val(b.x@) as int;
        assert((bv * fv) * q == bv * (fv * q)) by (nonlinear_arith);
    }
    c.trim();
    c
}

/// Compares two trimmed big integers; the result's sign is the sign of
/// `a - b`.
#[verifier::loop_isolation(false)]
pub fn cmp(a: &BigInt, b: &BigInt) -> (r: i32)
    requires
        trimmed(a.x@),
        trimmed(b.x@),
        a.x@.len() <= 0x7fffffff,
        b.x@.len() <= 0x7fffffff,
    ensures
        r > 0 <==> big_val(a.x@) > big_val(b.x@),
        r == 0 <==> big_val(a.x@) == big_val(b.x@),
        r < 0 <==> big_val(a.x@) < big_val(b.x@),
{
    let la: usize = a.x.len();
    let lb: usize = b.x.len();
    if la != lb {
        proof {
            if la > lb {
                lemma_trimmed_min(a.x@);
                lemma_val_bound(b.x@);
                if 32 * lb < 32 * (la - 1) {
                    vstd::arithmetic::power2::lemma_pow2_strictly_increases(
                        (32 * lb) as nat,
                        (32 * (la - 1)) as nat,
                    );
                }
            } else {
                lemma_trimmed_min(b.x@);
                lemma_val_bound(a.x@);
                if 32 * la < 32 * (lb - 1) {
                    vstd::arithmetic::power2::lemma_pow2_strictly_increases(
                        (32 * la) as nat,
                        (32 * (lb - 1)) as nat,
                    );
                }
            }
        }
        return la as i32 - lb as i32;
    }
    let mut x: usize = lb;
    while x > 0
        invariant
            0 <= x <= lb,
            la == lb,
            forall|k: int| x <= k < lb ==> a.x@[k] == b.x@[k],
        decreases x,
    {
        x = x - 1;
        if a.x[x] != b.x[x] {
            proof {
                lemma_val_split(a.x@, x as int);
                lemma_val_split(b.x@, x as int);
                lemma_val_bound(a.x@.take(x as int));
                lemma_val_bound(b.x@.take(x as int));
                assert(a.x@.skip(x as int).skip(1) =~= b.x@.skip(x as int).skip(1));
                assert(a.x@.skip(x as int)[0] == a.x@[x as int]);
                assert(b.x@.skip(x as int)[0] == b.x@[x as int]);
                let p: int = bpow(x as nat) as int;
                let sa: int = big_val(a.x@.skip(x as int)) as int;
                let sb: int = big_val(b.x@.skip(x as int)) as int;
                let d: int = sa - sb;
                assert(d == a.x@[x as int] - b.x@[x as int]);
                assert(p * sa - p * sb == p * d) by (nonlinear_arith)
                    requires
                        d == sa - sb,
                ;
                if a.x@[x as int] > b.x@[x as int] {
                    assert(p * d >= p) by (nonlinear_arith)
                        requires
                            d >= 1,
                            p >= 0,
                    ;
                    assert(big_val(a.x@) > big_val(b.x@));
                } else {
                    assert(p * d <= -p) by (nonlinear_arith)
                        requires
                            d <= -1,
                            p >= 0,
                    ;
                    assert(big_val(a.x@) < big_val(b.x@));
                }
            }
            if a.x[x] < b.x[x] {
                return -1;
            } else {
                return 1;
            }
        }
    }
    proof {
        assert(a.x@ =~= b.x@);
    }
    0
}

/// The absolute difference of two trimmed big integers; the result's sign
/// flag records whether `b` was the larger operand.
#[verifier::loop_isolation(false)]
pub fn diff(a: &BigInt, b: &BigInt) -> (c: BigInt)
    requires
        trimmed(a.x@),
        trimmed(b.x@),
        a.x@.len() <= 0x7fffffff,
        b.x@.len() <= 0x7fffffff,
    ensures
        trimmed(c.x@),
        c.sign == (big_val(a.x@) < big_val(b.x@)),
        big_val(a.x@) >= big_val(b.x@) ==> big_val(c.x@) == big_val(a.x@) - big_val(b.x@),
        big_val(a.x@) < big_val(b.x@) ==> big_val(c.x@) == big_val(b.x@) - big_val(a.x@),
{
    let i: i32 = cmp(a, b);
    if i == 0 {
        let mut c = BigInt::new();
        c.x.push(0);
        proof {
            assert(c.x@.skip(1) =~= Seq::<u32>::empty());
            assert(big_val(c.x@.skip(1)) == 0);
            assert(big_val(c.x@) == 0 + 0x100000000 * 0);
        }
        return c;
    }
    let neg: bool = i < 0;
    let (g, l) = if neg {
        (b, a)
    } else {
        (a, b)
    };
    proof {
        // The greater operand has at least as many limbs.
        if g.x@.len() < l.x@.len() {
            lemma_val_bound(g.x@);
            lemma_trimmed_min(l.x@);
            if 32 * g.x@.len() < 32 * (l.x@.len() - 1) {
                vstd::arithmetic::power2::lemma_pow2_strictly_increases(
                    (32 * g.x@.len()) as nat,
                    (32 * (l.x@.len() - 1)) as nat,
                );
            }
            assert(false);
        }
        assert(g.x@.take(0) =~= Seq::<u32>::empty());
        assert(l.x@.take(0) =~= Seq::<u32>::empty());
        assert(big_val(Seq::<u32>::empty()) == 0);
        assert(bpow(0) == 1) by {
            lemma2_to64();
        }
    }
    let wl: usize = l.x.len();
    let wg: usize = g.x.len();
    let mut c = BigInt::new();
    c.sign = neg;
    let mut borrow: u32 = 0;
    let mut xa: usize = 0;
    while xa < wl
        invariant
            c.sign == neg,
            c.x@.len() == xa <= wl,
            borrow <= 1,
            big_val(c.x@) as int == big_val(g.x@.take(xa as int)) - big_val(
                l.x@.take(xa as int),
            ) + borrow * bpow(xa as nat),
        decreases wl - xa,
    {
        let ghost cprev = c.x@;
        let ghost borrow_in = borrow;
        let ai: u64 = g.x[xa] as u64;
        let bi: u64 = l.x[xa] as u64 + borrow as u64;
        let lo: u32;
        if ai >= bi {
            lo = (ai - bi) as u32;
            borrow = 0;
        } else {
            lo = (ai + 0x100000000 - bi) as u32;
            borrow = 1;
        }
        c.x.push(lo);
        proof {
            lemma_val_push(cprev, lo);
            lemma_val_take_succ(g.x@, xa as int);
            lemma_val_take_succ(l.x@, xa as int);
            lemma_bpow_succ(xa as nat);
            let p: int = bpow(xa as nat) as int;
            let av: int = g.x@[xa as int] as int;
            let bv: int = l.x@[xa as int] as int;
            assert(lo * p == av * p - bv * p - borrow_in * p + borrow * (0x100000000 * p))
                by (nonlinear_arith)
                requires
                    lo == av - bv - borrow_in + borrow * 0x100000000,
            ;
        }
        xa = xa + 1;
    }
    proof {
        assert(l.x@.take(wl as int) =~= l.x@);
    }
    while xa < wg
        invariant
            c.sign == neg,
            c.x@.len() == xa,
            wl <= xa <= wg,
            borrow <= 1,
            big_val(c.x@) as int == big_val(g.x@.take(xa as int)) - big_val(l.x@) + borrow
                * bpow(xa as nat),
        decreases wg - xa,
    {
        let ghost cprev = c.x@;
        let ghost borrow_in = borrow;
        let ai: u64 = g.x[xa] as u64;
        let bi: u64 = borrow as u64;
        let lo: u32;
        if ai >= bi {
            lo = (ai - bi) as u32;
            borrow = 0;
        } else {
            lo = (ai + 0x100000000 - bi) as u32;
            borrow = 1;
        }
        c.x.push(lo);
        proof {
            lemma_val_push(cprev, lo);
            lemma_val_take_succ(g.x@, xa as int);
            lemma_bpow_succ(xa as nat);
            let p: int = bpow(xa as nat) as int;
            let av: int = g.x@[xa as int] as int;
            assert(lo * p == av * p - borrow_in * p + borrow * (0x100000000 * p))
                by (nonlinear_arith)
                requires
                    lo == av - borrow_in + borrow * 0x100000000,
            ;
        }
        xa = xa + 1;
    }
    proof {
        assert(g.x@.take(wg as int) =~= g.x@);
        assert(l.x@.take(wl as int) =~= l.x@);
        if borrow == 1 {
            lemma_val_bound(c.x@);
            assert(big_val(g.x@) > big_val(l.x@));
            assert(c.x@.len() == wg);
            assert(big_val(c.x@) < bpow(wg as nat));
            assert(xa == wg);
            assert(big_val(c.x@) as int == big_val(g.x@.take(xa as int)) - big_val(l.x@) + borrow
                * bpow(xa as nat));
            assert(big_val(g.x@.take(xa as int)) == big_val(g.x@));
            let pw: int = bpow(xa as nat) as int;
            assert((borrow as int) * pw == pw) by (nonlinear_arith)
                requires
                    borrow as int == 1,
            ;
            assert(borrow * bpow(xa as nat) == bpow(wg as nat));
            assert(big_val(c.x@) as int == big_val(g.x@) - big_val(l.x@) + bpow(wg as nat));
            assert(false);
        }
    }
    c.trim();
    c
}

/// A power of five fits in three bits per step.
pub proof fn lemma_pow5_le_pow2(e: nat)
    ensures
        pow(5, e) <= pow2(3 * e),
        pow(5, e) >= 1,
    decreases e,
{
    lemma_pow_positive(5, e);
    if e == 0 {
        assert(pow(5, 0) == 1) by {
            reveal_with_fuel(pow, 1);
        }
        assert(pow2(0) == 1) by {
            lemma2_to64();
        }
    } else {
        lemma_pow5_le_pow2((e - 1) as nat);
        assert(pow(5, e) == 5 * pow(5, (e - 1) as nat)) by {
            reveal_with_fuel(pow, 2);
        }
        lemma_pow2_adds(3, 3 * (e - 1) as nat);
        assert(pow2(3) == 8) by {
            lemma2_to64();
        }
        let q: int = pow(5, (e - 1) as nat);
        let w: int = pow2(3 * (e - 1) as nat) as int;
        assert(5 * q <= 8 * w) by (nonlinear_arith)
            requires
                1 <= q,
                q <= w,
        ;
    }
}

/// A trimmed sequence denoting less than `2^(32L)` has at most `L` limbs.
pub proof fn lemma_trimmed_len_bound(s: Seq<u32>, len_max: nat)
    requires
        trimmed(s),
        len_max >= 1,
        big_val(s) < pow2(32 * len_max),
    ensures
        s.len() <= len_max,
{
    if s.len() > len_max {
        lemma_trimmed_min(s);
        if 32 * len_max < 32 * (s.len() - 1) {
            vstd::arithmetic::power2::lemma_pow2_strictly_increases(
                32 * len_max,
                (32 * (s.len() - 1)) as nat,
            );
        }
        assert(false);
    }
}

/// Multiplies a big integer by `5^k`, by squaring a power-of-five factor.
#[verifier::loop_isolation(false)]
pub fn pow5mult(b: BigInt, k: i32) -> (r: BigInt)
    requires
        0 <= k,
        trimmed(b.x@),
        b.x@.len() + 2 * (k as int) + 4 <= usize::MAX,
    ensures
        trimmed(r.x@),
        big_val(r.x@) == big_val(b.x@) * pow(5, k as nat),
        b.sign == false ==> r.sign == false,
{
    let ghost val0 = big_val(b.x@);
    let ghost len0 = b.x@.len();
    let ghost sign0 = b.sign;
    proof {
        lemma_val_bound(b.x@);
        lemma_fundamental_div_mod(k as int, 4);
    }
    let mut b = b;
    let rem: i32 = k % 4;
    if rem != 0 {
        let f: i32 = if rem == 1 {
            5
        } else if rem == 2 {
            25
        } else {
            125
        };
        multadd(&mut b, f, 0);
        proof {
            assert(pow(5, 1) == 5 && pow(5, 2) == 25 && pow(5, 3) == 125) by {
                reveal_with_fuel(pow, 4);
            }
            let v0: int = val0 as int;
            let fv: int = f as int;
            assert(fv * v0 == v0 * fv) by (nonlinear_arith);
        }
    } else {
        proof {
            assert(pow(5, 0) == 1) by {
                reveal_with_fuel(pow, 1);
            }
            assert(pow(5, rem as nat) == 1);
            assert(val0 as int * 1 == val0 as int);
        }
    }
    proof {
        assert(big_val(b.x@) as int == val0 as int * pow(5, rem as nat));
    }
    let mut k2: i32 = k / 4;
    if k2 == 0 {
        proof {
            assert(k == rem);
        }
        return b;
    }
    let mut p5 = i2b(625);
    let ghost mut e5: nat = 4;
    proof {
        assert(pow(5, 4) == 625) by {
            reveal_with_fuel(pow, 5);
        }
        lemma_pow_adds(5, rem as nat, (4 * (k2 as int)) as nat);
        let v0: int = val0 as int;
        let p1: int = pow(5, rem as nat);
        let p2: int = pow(5, (4 * (k2 as int)) as nat);
        assert((v0 * p1) * p2 == v0 * (p1 * p2)) by (nonlinear_arith);
        assert(e5 * (k2 as nat) == 4 * (k2 as nat));
    }
    while k2 > 0
        invariant
            0 <= k2,
            trimmed(b.x@),
            trimmed(p5.x@),
            sign0 == false ==> b.sign == false,
            big_val(p5.x@) == pow(5, e5),
            4 <= e5,
            k2 >= 1 ==> e5 * (k2 as nat) <= k as nat,
            big_val(b.x@) as int * pow(5, e5 * (k2 as nat)) == val0 as int * pow(
                5,
                k as nat,
            ),
        decreases k2,
    {
        proof {
            // Value-driven length bounds let every product fit.
            lemma_pow_positive(5, e5 * (k2 as nat));
            lemma_pow_positive(5, k as nat);
            lemma_pow5_le_pow2(k as nat);
            lemma_pow5_le_pow2(e5);
            let bv: int = big_val(b.x@) as int;
            let pw: int = pow(5, e5 * (k2 as nat));
            let tgt: int = val0 as int * pow(5, k as nat);
            assert(bv <= tgt) by (nonlinear_arith)
                requires
                    bv * pw == tgt,
                    pw >= 1,
                    bv >= 0,
            ;
            assert(val0 as int * pow(5, k as nat) < pow2(32 * len0) * pow2(3 * (k as nat)))
                by (nonlinear_arith)
                requires
                    val0 < pow2(32 * len0),
                    pow(5, k as nat) <= pow2(3 * (k as nat)),
                    pow(5, k as nat) >= 1,
                    pow2(32 * len0) >= 1,
            ;
            lemma_pow2_adds(32 * len0, 3 * (k as nat));
            if 32 * len0 + 3 * (k as nat) < 32 * (len0 + k as nat) {
                vstd::arithmetic::power2::lemma_pow2_strictly_increases(
                    32 * len0 + 3 * (k as nat),
                    32 * (len0 + k as nat),
                );
            }
            lemma_trimmed_len_bound(b.x@, len0 + k as nat);
            assert(e5 <= k as nat) by (nonlinear_arith)
                requires
                    e5 * (k2 as nat) <= k as nat,
                    k2 >= 1,
                    e5 >= 0,
            ;
            if 3 * e5 < 32 * e5 {
                vstd::arithmetic::power2::lemma_pow2_strictly_increases(3 * e5, 32 * e5);
            }
            lemma_trimmed_len_bound(p5.x@, e5);
        }
        if k2 % 2 == 1 {
            let ghost bv_old = big_val(b.x@) as int;
            b = mult(&b, &p5);
            proof {
                let pv: int = pow(5, e5);
                let rest: int = pow(5, e5 * ((k2 - 1) as nat));
                assert(e5 * (k2 as nat) == e5 + e5 * ((k2 - 1) as nat)) by (nonlinear_arith)
                    requires
                        k2 >= 1,
                ;
                lemma_pow_adds(5, e5, e5 * ((k2 - 1) as nat));
                assert((bv_old * pv) * rest == bv_old * (pv * rest)) by (nonlinear_arith);
            }
        }
        let ghost k2_old = k2 as int;
        k2 = k2 / 2;
        proof {
            assert(e5 * ((k2_old - (k2_old % 2)) as nat) == (e5 * 2) * (k2 as nat))
                by (nonlinear_arith)
                requires
                    k2 == k2_old / 2,
                    k2_old >= 1,
            ;
        }
        if k2 > 0 {
            proof {
                assert((e5 * 2) * (k2 as nat) <= e5 * (k2_old as nat)) by (nonlinear_arith)
                    requires
                        2 * (k2 as int) <= k2_old,
                        e5 >= 0,
                        k2 >= 0,
                ;
            }
            let ghost p5v = big_val(p5.x@) as int;
            p5 = mult(&p5, &p5);
            proof {
                lemma_pow_adds(5, e5, e5);
                e5 = e5 * 2;
            }
        }
    }
    proof {
        assert(pow(5, 0) == 1) by {
            reveal_with_fuel(pow, 1);
        }
        assert(e5 * (0 as nat) == 0);
    }
    b
}

} // verus!
