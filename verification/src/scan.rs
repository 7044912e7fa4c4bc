//! A byte cursor over decimal text and the construction of the full decimal
//! mantissa as a big integer.
//!
//! The significant digits of a decimal literal occupy consecutive bytes
//! except for one embedded decimal point; [`digit_pos`] maps a digit index to
//! its byte position and [`dec_val`] gives the integer the digits denote.

use vstd::prelude::*;
use crate::bigint::{BigInt, big_val, trimmed, multadd};

verus! {

/// A byte slice with a read offset. Peeking at or past the end of the slice
/// yields the sentinel zero byte, so a NUL byte ends any scan.
pub struct Chars<'a> {
    pub bytes: &'a [u8],
    pub offset: usize,
}

impl<'a> Chars<'a> {
    /// The byte at the cursor, widened, or 0 at the end of the slice.
    pub fn peek(&self) -> (c: u32)
        requires
            self.offset <= self.bytes@.len(),
        ensures
            c == (if self.offset < self.bytes@.len() {
                self.bytes@[self.offset as int] as u32
            } else {
                0u32
            }),
    {
        if self.offset == self.bytes.len() {
            0
        } else {
            self.bytes[self.offset] as u32
        }
    }

    /// Advances the cursor one byte.
    pub fn bump(&mut self)
        requires
            old(self).offset < usize::MAX,
        ensures
            final(self).bytes@ == old(self).bytes@,
            final(self).offset == old(self).offset + 1,
    {
        self.offset = self.offset + 1;
    }
}

/// The byte position of significant digit `i`: digits sit at consecutive
/// positions from `start`, except that digits at and after index `nd0` sit
/// one byte further along, past the decimal point.
pub open spec fn digit_pos(start: int, nd0: int, i: int) -> int {
    start + i + if i >= nd0 {
        1int
    } else {
        0int
    }
}

/// Digit `i` exists: its position is inside `s` and holds an ASCII digit.
pub open spec fn is_digit_at(s: Seq<u8>, start: int, nd0: int, i: int) -> bool {
    0 <= digit_pos(start, nd0, i) < s.len() && 48 <= s[digit_pos(start, nd0, i)] <= 57
}

/// The first `n` significant digits all exist.
pub open spec fn all_digits(s: Seq<u8>, start: int, nd0: int, n: int) -> bool {
    forall|i: int| 0 <= i < n ==> is_digit_at(s, start, nd0, i)
}

/// The numeric value of significant digit `i`.
pub open spec fn digit_at(s: Seq<u8>, start: int, nd0: int, i: int) -> nat {
    (s[digit_pos(start, nd0, i)] - 48) as nat
}

/// The integer denoted by the first `n` significant digits.
pub open spec fn dec_val(s: Seq<u8>, start: int, nd0: int, n: int) -> nat
    decreases n,
{
    if n <= 0 {
        0
    } else {
        10 * dec_val(s, start, nd0, n - 1) + digit_at(s, start, nd0, n - 1)
    }
}

/// Builds the big integer holding all `nd` significant digits that start at
/// the cursor, given `y9`, the value of the first nine (or all, if fewer).
///
/// `nd0` of the digits precede the decimal point; when the decimal point is
/// absent the caller passes `nd0 == nd`.
#[verifier::loop_isolation(false)]
pub fn s2b(s: Chars<'_>, nd0: u32, nd: u32, y9: u32) -> (b: BigInt)
    requires
        1 <= nd0 <= nd,
        all_digits(s.bytes@, s.offset as int, nd0 as int, nd as int),
        s.offset + nd + 10 <= usize::MAX,
        y9 == dec_val(
            s.bytes@,
            s.offset as int,
            nd0 as int,
            if nd <= 9 {
                nd as int
            } else {
                9
            },
        ),
    ensures
        b.sign == false,
        trimmed(b.x@),
        big_val(b.x@) == dec_val(s.bytes@, s.offset as int, nd0 as int, nd as int),
{
    let ghost start = s.offset as int;
    let mut cur = s;
    let mut b = BigInt::new();
    b.x.push(y9);
    proof {
        assert(b.x@.skip(1) =~= Seq::<u32>::empty());
        assert(big_val(b.x@.skip(1)) == 0);
        assert(big_val(b.x@) == y9 + 0x100000000 * 0);
    }
    let mut i: u32 = 9;
    if 9 < nd0 {
        cur.offset = cur.offset + 9;
        while i < nd0
            invariant
                9 <= i <= nd0,
                cur.bytes@ == s.bytes@,
                cur.offset == start + i,
                b.sign == false,
                trimmed(b.x@),
                big_val(b.x@) == dec_val(s.bytes@, start, nd0 as int, i as int),
            decreases nd0 - i,
        {
            proof {
                assert(is_digit_at(s.bytes@, start, nd0 as int, i as int));
            }
            let c = cur.peek();
            cur.bump();
            multadd(&mut b, 10, c - 48);
            i = i + 1;
        }
        cur.bump();
    } else {
        cur.offset = cur.offset + 10;
    }
    while i < nd
        invariant
            9 <= i,
            nd0 <= i,
            i <= nd || i == 9,
            cur.bytes@ == s.bytes@,
            cur.offset == start + i + 1,
            b.sign == false,
            trimmed(b.x@),
            big_val(b.x@) == dec_val(
                s.bytes@,
                start,
                nd0 as int,
                if i <= nd {
                    i as int
                } else {
                    nd as int
                },
            ),
        decreases nd - i,
    {
        proof {
            assert(is_digit_at(s.bytes@, start, nd0 as int, i as int));
        }
        let c = cur.peek();
        cur.bump();
        multadd(&mut b, 10, c - 48);
        i = i + 1;
    }
    b
}

/// A scanned decimal token: not a number at all, a (signed) zero, or a
/// number with significant digits.
///
/// For a `Number`: `nd` significant digits start at byte `start`, `nd0` of
/// them before the decimal point (`nd0 == nd` when the point is absent or
/// all digits are fractional); `y` holds the first nine digits, `z` the next
/// seven; `e` is the decimal exponent already adjusted for the fractional
/// digits, so the token denotes the `nd`-digit integer times `10^e`.
pub enum Scanned {
    NotANumber,
    Zero { neg: bool },
    Number { neg: bool, y: u32, z: u32, nd: u32, nd0: u32, e: i32, start: usize },
}

/// The byte at `i`, or 0 at or past the end: a NUL ends every scan.
pub open spec fn eff(s: Seq<u8>, i: int) -> u8 {
    if 0 <= i < s.len() {
        s[i]
    } else {
        0
    }
}

/// ASCII whitespace accepted before the number.
pub open spec fn is_ws(c: u8) -> bool {
    c == 9 || c == 10 || c == 11 || c == 12 || c == 13 || c == 32
}

/// An ASCII digit.
pub open spec fn is_dig(c: u8) -> bool {
    48 <= c <= 57
}

/// The first position at or after `i` that does not hold whitespace.
pub open spec fn ws_end(s: Seq<u8>, i: int) -> int
    decreases s.len() - i when 0 <= i <= s.len()
{
    if i < s.len() && is_ws(s[i]) {
        ws_end(s, i + 1)
    } else {
        i
    }
}

/// The first position at or after `i` that does not hold a digit.
pub open spec fn digits_end(s: Seq<u8>, i: int) -> int
    decreases s.len() - i when 0 <= i <= s.len()
{
    if 0 <= i && i < s.len() && is_dig(s[i]) {
        digits_end(s, i + 1)
    } else {
        i
    }
}

/// Where the token begins, after leading whitespace.
pub open spec fn tok_start(s: Seq<u8>) -> int {
    ws_end(s, 0)
}

/// Whether the token begins with an explicit sign.
pub open spec fn has_sign(s: Seq<u8>) -> bool {
    eff(s, tok_start(s)) == 43 || eff(s, tok_start(s)) == 45
}

/// Whether the token begins with a minus sign.
pub open spec fn is_neg(s: Seq<u8>) -> bool {
    eff(s, tok_start(s)) == 45
}

/// Where the digits begin, after any sign.
pub open spec fn body_start(s: Seq<u8>) -> int {
    tok_start(s) + if has_sign(s) {
        1int
    } else {
        0int
    }
}

/// The scan fails exactly when no numeric form starts the body: end of
/// input, a sign with nothing after it, or a leading byte that is neither a
/// digit nor the decimal point.
pub open spec fn scan_fails(s: Seq<u8>) -> bool {
    eff(s, tok_start(s)) == 0 || (has_sign(s) && eff(s, body_start(s)) == 0) || (!is_dig(
        eff(s, body_start(s)),
    ) && eff(s, body_start(s)) != 46)
}

/// End of the integer-part digit run.
pub open spec fn int_end(s: Seq<u8>) -> int {
    digits_end(s, body_start(s))
}

/// Whether a decimal point follows the integer part.
pub open spec fn has_dot(s: Seq<u8>) -> bool {
    eff(s, int_end(s)) == 46
}

/// End of the fractional-part digit run.
pub open spec fn frac_end(s: Seq<u8>) -> int {
    digits_end(s, int_end(s) + 1)
}

/// Where the mantissa ends: after the fractional digits when a decimal
/// point is present, else after the integer digits. An exponent marker can
/// only stand here.
pub open spec fn mant_end(s: Seq<u8>) -> int {
    if has_dot(s) {
        frac_end(s)
    } else {
        int_end(s)
    }
}

/// The count of fractional digit positions up to the last significant
/// digit, which the reported exponent subtracts: for a mantissa that starts
/// after the decimal point it spans from just past the point to the last
/// digit; otherwise it is the number of significant fractional digits.
pub open spec fn frac_adjust(s: Seq<u8>, start: int, nd0: int, nd: int) -> int {
    if start > int_end(s) {
        start + nd - (int_end(s) + 1)
    } else if nd > nd0 {
        nd - nd0
    } else {
        0
    }
}

/// The first position at or after `i` that does not hold a zero digit.
pub open spec fn zeros_end(s: Seq<u8>, i: int) -> int
    decreases s.len() - i when 0 <= i <= s.len()
{
    if 0 <= i && i < s.len() && s[i] == 48 {
        zeros_end(s, i + 1)
    } else {
        i
    }
}

/// The plain decimal value of the digit bytes at positions `i..j`.
pub open spec fn dec_num(s: Seq<u8>, i: int, j: int) -> int
    decreases j - i,
{
    if j <= i {
        0
    } else {
        10 * dec_num(s, i, j - 1) + if is_dig(eff(s, j - 1)) {
            eff(s, j - 1) - 48
        } else {
            0
        }
    }
}

/// The exponent denoted from the position just past the marker: an
/// optional sign, then the clamped digit-run magnitude; zero when no digit
/// follows the sign.
pub open spec fn exp_value_after(s: Seq<u8>, p1: int) -> int {
    let ds = p1 + if eff(s, p1) == 43 || eff(s, p1) == 45 {
        1int
    } else {
        0int
    };
    if is_dig(eff(s, ds)) {
        if eff(s, p1) == 45 {
            -exp_run_value(s, ds)
        } else {
            exp_run_value(s, ds)
        }
    } else {
        0
    }
}

/// The decimal exponent the token carries: zero without a marker at the
/// mantissa's end, else the signed, clamped value written after it.
pub open spec fn e_parsed(s: Seq<u8>) -> int {
    if eff(s, mant_end(s)) == 69 || eff(s, mant_end(s)) == 101 {
        exp_value_after(s, mant_end(s) + 1)
    } else {
        0
    }
}

/// Whether the mantissa holds any nonzero digit.
pub open spec fn has_sig_digit(s: Seq<u8>) -> bool {
    (exists|j: int| body_start(s) <= j < int_end(s) && s[j] != 48) || (has_dot(s)
        && exists|j: int| int_end(s) + 1 <= j < frac_end(s) && s[j] != 48)
}

/// The sign a scanned zero keeps: a minus sign survives only when at least
/// one zero digit was seen.
pub open spec fn zero_keeps_sign(s: Seq<u8>) -> bool {
    is_neg(s) && (int_end(s) > body_start(s) || (has_dot(s) && frac_end(s) > int_end(s) + 1))
}

/// The value of the digits at positions `from..to` of the significant-digit
/// sequence.
pub open spec fn dec_val_from(s: Seq<u8>, start: int, nd0: int, from: int, to: int) -> nat
    decreases to - from,
{
    if to <= from {
        0
    } else {
        10 * dec_val_from(s, start, nd0, from, to - 1) + digit_at(s, start, nd0, to - 1)
    }
}

/// Powers of ten, for digit-accumulator bounds.
pub open spec fn p10(n: nat) -> nat
    decreases n,
{
    if n == 0 {
        1
    } else {
        10 * p10((n - 1) as nat)
    }
}

/// A whitespace run from `i` to `j` pins `ws_end`.
proof fn lemma_ws_run(s: Seq<u8>, i: int, j: int)
    requires
        0 <= i <= j <= s.len(),
        forall|k: int| i <= k < j ==> is_ws(s[k]),
        !(j < s.len() && is_ws(s[j])),
    ensures
        ws_end(s, i) == j,
    decreases j - i,
{
    if i < j {
        lemma_ws_run(s, i + 1, j);
    }
}

/// A digit run from `i` to `j` pins `digits_end`.
proof fn lemma_digit_run(s: Seq<u8>, i: int, j: int)
    requires
        0 <= i <= j <= s.len(),
        forall|k: int| i <= k < j ==> is_dig(s[k]),
        !(j < s.len() && is_dig(s[j])),
    ensures
        digits_end(s, i) == j,
    decreases j - i,
{
    if i < j {
        lemma_digit_run(s, i + 1, j);
    }
}

/// A zero-digit run from `i` to `j` pins `zeros_end`.
proof fn lemma_zeros_run(s: Seq<u8>, i: int, j: int)
    requires
        0 <= i <= j <= s.len(),
        forall|k: int| i <= k < j ==> s[k] == 48,
        !(j < s.len() && s[j] == 48),
    ensures
        zeros_end(s, i) == j,
    decreases j - i,
{
    if i < j {
        lemma_zeros_run(s, i + 1, j);
    }
}

/// `dec_val` does not depend on the split point while it only covers digits
/// below it.
proof fn lemma_dec_val_indep(s: Seq<u8>, start: int, a: int, b: int, k: int)
    requires
        k <= a,
        k <= b,
    ensures
        dec_val(s, start, a, k) == dec_val(s, start, b, k),
    decreases k,
{
    if k > 0 {
        lemma_dec_val_indep(s, start, a, b, k - 1);
    }
}

/// `dec_val_from` does not depend on the split point while it only covers
/// digits below it.
proof fn lemma_dec_val_from_indep(s: Seq<u8>, start: int, a: int, b: int, from: int, to: int)
    requires
        to <= a,
        to <= b,
    ensures
        dec_val_from(s, start, a, from, to) == dec_val_from(s, start, b, from, to),
    decreases to - from,
{
    if to > from {
        lemma_dec_val_from_indep(s, start, a, b, from, to - 1);
    }
}

/// Digit facts recorded with an out-of-reach split point carry over to the
/// split point `nd`, since every digit index lies below both.
proof fn lemma_reindex_digits(s: Seq<u8>, start: int, nd: int)
    requires
        0 <= nd <= 0x7fffffff,
        forall|i: int| 0 <= i < nd ==> is_digit_at(s, start, 0x7fffffff, i),
    ensures
        forall|i: int|
            0 <= i < nd ==> is_digit_at(s, start, nd, i) && digit_at(s, start, nd, i) == digit_at(
                s,
                start,
                0x7fffffff,
                i,
            ),
        forall|k: int|
            0 <= k <= nd ==> dec_val(s, start, nd, k) == dec_val(s, start, 0x7fffffff, k),
        forall|f: int, u: int|
            0 <= f && u <= nd ==> dec_val_from(s, start, nd, f, u) == dec_val_from(
                s,
                start,
                0x7fffffff,
                f,
                u,
            ),
{
    assert forall|i: int| 0 <= i < nd implies is_digit_at(s, start, nd, i) && digit_at(
        s,
        start,
        nd,
        i,
    ) == digit_at(s, start, 0x7fffffff, i) by {
        assert(is_digit_at(s, start, 0x7fffffff, i));
        assert(digit_pos(start, nd, i) == digit_pos(start, 0x7fffffff, i));
    };
    assert forall|k: int| 0 <= k <= nd implies dec_val(s, start, nd, k) == dec_val(
        s,
        start,
        0x7fffffff,
        k,
    ) by {
        lemma_dec_val_indep(s, start, nd, 0x7fffffff, k);
    };
    assert forall|f: int, u: int| 0 <= f && u <= nd implies dec_val_from(s, start, nd, f, u)
        == dec_val_from(s, start, 0x7fffffff, f, u) by {
        lemma_dec_val_from_indep(s, start, nd, 0x7fffffff, f, u);
    };
}

/// The byte at `i`, or 0 at or past the end of the slice.
fn eff_byte(s: &[u8], i: usize) -> (c: u8)
    ensures
        c == eff(s@, i as int),
{
    if i < s.len() {
        s[i]
    } else {
        0
    }
}

/// Whether position `i` holds an ASCII digit.
fn dig_at(s: &[u8], i: usize) -> (r: bool)
    ensures
        r == is_dig(eff(s@, i as int)),
{
    if i < s.len() {
        48 <= s[i] && s[i] <= 57
    } else {
        false
    }
}

/// Powers of ten grow monotonically.
proof fn lemma_p10_mono(a: nat, b: nat)
    requires
        a <= b,
    ensures
        p10(a) <= p10(b),
        p10(a) >= 1,
    decreases b,
{
    if b == 0 {
    } else if a == b {
        lemma_p10_mono((b - 1) as nat, (b - 1) as nat);
        assert(p10(b) == 10 * p10((b - 1) as nat));
    } else {
        lemma_p10_mono(a, (b - 1) as nat);
        assert(p10(b) == 10 * p10((b - 1) as nat));
    }
}

/// Parses the exponent from the position just past its marker: an optional
/// sign, then the clamped digit run.
#[verifier::loop_isolation(false)]
fn exp_after_marker(input: &[u8], off0: usize) -> (r: (i32, usize))
    requires
        input@.len() <= 0x7ff00000,
        off0 <= input@.len(),
    ensures
        -19999 <= r.0 <= 19999,
        off0 <= r.1 <= input@.len(),
        r.0 == exp_value_after(input@, off0 as int),
{
    let mut off: usize = off0;
    let mut esign: bool = false;
    let ce2: u8 = eff_byte(input, off);
    if ce2 == 43 || ce2 == 45 {
        if ce2 == 45 {
            esign = true;
        }
        off = off + 1;
    }
    let cd0: u8 = eff_byte(input, off);
    if 48 <= cd0 && cd0 <= 57 {
        let (ev, off2): (u32, usize) = exp_digits(input, off);
        let mut e: i32 = ev as i32;
        if esign {
            e = -e;
        }
        (e, off2)
    } else {
        (0, off)
    }
}

/// Reads an exponent digit run at `off0`: skips leading zeros, accumulates
/// the value of up to eight further digits, and clamps the result to 19999
/// when more digits follow or the value is larger.
#[verifier::loop_isolation(false)]
fn exp_digits(input: &[u8], off0: usize) -> (r: (u32, usize))
    requires
        input@.len() <= 0x7ff00000,
        off0 <= input@.len(),
    ensures
        r.0 <= 19999,
        off0 <= r.1 <= input@.len(),
        r.1 == digits_end(input@, zeros_end(input@, off0 as int)),
        r.0 as int == exp_run_value(input@, off0 as int),
{
    let ghost s = input@;
    let n: usize = input.len();
    let mut off: usize = off0;
    proof {
        assert(p10(8) == 100000000 && p10(7) == 10000000) by {
            reveal_with_fuel(p10, 11);
        }
    }
    while eff_byte(input, off) == 48
        invariant
            off0 <= off <= n,
            forall|k: int| off0 <= k < off ==> s[k] == 48,
        decreases n - off,
    {
        off = off + 1;
    }
    proof {
        lemma_zeros_run(s, off0 as int, off as int);
    }
    let ghost zs = off as int;
    let cd1: u8 = eff_byte(input, off);
    if !(48 < cd1 && cd1 <= 57) {
        proof {
            lemma_digit_run(s, zs, zs);
        }
        return (0, off);
    }
    let mut ln: u32 = 0;
    let mut acc: u32 = 0;
    while dig_at(input, off)
        invariant
            off0 <= zs <= off <= n,
            ln == off - zs,
            forall|k: int| zs <= k < off ==> is_dig(s[k]),
            ln <= 8 ==> acc as int == dec_num(s, zs, off as int),
            acc < p10(if ln <= 8 {
                ln as nat
            } else {
                8
            }),
        decreases n - off,
    {
        let cd: u8 = eff_byte(input, off);
        if ln < 8 {
            proof {
                lemma_p10_mono(ln as nat, 7);
                assert(p10((ln + 1) as nat) == 10 * p10(ln as nat));
            }
            acc = 10 * acc + (cd as u32 - 48);
        }
        ln = ln + 1;
        off = off + 1;
    }
    proof {
        lemma_digit_run(s, zs, off as int);
    }
    if ln > 8 || acc > 19999 {
        (19999, off)
    } else {
        (acc, off)
    }
}

/// The clamped magnitude of the digit run at `off0`, after leading zeros.
pub open spec fn exp_run_value(s: Seq<u8>, off0: int) -> int {
    let zs = zeros_end(s, off0);
    let de = digits_end(s, zs);
    if de - zs > 8 || dec_num(s, zs, de) > 19999 {
        19999
    } else {
        dec_num(s, zs, de)
    }
}

/// Scans the decimal form at the head of `input`: optional whitespace and
/// sign, digits with one optional decimal point, and an optional exponent.
///
/// The outcome classifies the input exactly: the scan fails if and only if
/// [`scan_fails`] holds, yields a zero if and only if the mantissa shows no
/// nonzero digit, and otherwise reports the significant digits so that
/// [`s2b`] can rebuild their exact value: their start, counts `nd` and
/// `nd0`, and the leading-digit accumulators `y` and `z`. The reported
/// exponent equals the written one — clamped to `±19999` — minus the
/// fractional-digit adjustment, so the token denotes the `nd`-digit
/// integer times `10^e`.
#[verifier::loop_isolation(false)]
#[verifier::rlimit(100)]
pub fn scan(input: &[u8]) -> (r: Scanned)
    requires
        input@.len() <= 0x7ff00000,
    ensures
        (r is NotANumber) <==> scan_fails(input@),
        (r is Zero) <==> (!scan_fails(input@) && !has_sig_digit(input@)),
        (r is Number) <==> (!scan_fails(input@) && has_sig_digit(input@)),
        r matches Scanned::Zero { neg } ==> neg == zero_keeps_sign(input@),
        r matches Scanned::Number { neg, y, z, nd, nd0, e, start } ==> ({
            &&& neg == is_neg(input@)
            &&& 1 <= nd0 <= nd
            &&& nd <= input@.len()
            &&& start <= input@.len()
            &&& all_digits(input@, start as int, nd0 as int, nd as int)
            &&& digit_at(input@, start as int, nd0 as int, 0) >= 1
            &&& (nd0 < nd ==> digit_at(input@, start as int, nd0 as int, nd - 1) >= 1)
            &&& y == dec_val(
                input@,
                start as int,
                nd0 as int,
                if nd <= 9 {
                    nd as int
                } else {
                    9
                },
            )
            &&& z == dec_val_from(
                input@,
                start as int,
                nd0 as int,
                9,
                if nd <= 16 {
                    nd as int
                } else {
                    16
                },
            )
            &&& -19999 - (input@.len() as int) <= e <= 19999
            &&& e == e_parsed(input@) - frac_adjust(input@, start as int, nd0 as int, nd as int)
        }),
{
    let ghost s = input@;
    let n: usize = input.len();
    let mut off: usize = 0;
    while off < n && (input[off] == 9 || input[off] == 10 || input[off] == 11 || input[off] == 12
        || input[off] == 13 || input[off] == 32)
        invariant
            off <= n,
            forall|k: int| 0 <= k < off ==> is_ws(s[k]),
        decreases n - off,
    {
        off = off + 1;
    }
    proof {
        lemma_ws_run(s, 0, off as int);
        assert(tok_start(s) == off as int);
    }
    let ghost w = off as int;
    let mut neg: bool = false;
    let c0: u8 = eff_byte(input, off);
    if c0 == 0 {
        return Scanned::NotANumber;
    }
    if c0 == 43 || c0 == 45 {
        if c0 == 45 {
            neg = true;
        }
        off = off + 1;
        if eff_byte(input, off) == 0 {
            return Scanned::NotANumber;
        }
    }
    let body_pos: usize = off;
    let ghost p = off as int;
    proof {
        assert(body_start(s) == p);
        assert(neg == is_neg(s));
    }
    let mut nz0: bool = false;
    if eff_byte(input, off) == 48 {
        nz0 = true;
        off = off + 1;
        while eff_byte(input, off) == 48
            invariant
                p < off <= n,
                forall|k: int| p <= k < off ==> s[k] == 48,
            decreases n - off,
        {
            off = off + 1;
        }
        if eff_byte(input, off) == 0 {
            proof {
                lemma_digit_run(s, p, off as int);
            }
            return Scanned::Zero { neg };
        }
    }
    let mut start: usize = off;
    let mut y: u32 = 0;
    let mut z: u32 = 0;
    let mut nd: u32 = 0;
    let ghost huge: int = 0x7fffffff;
    proof {
        assert(p10(9) == 1000000000 && p10(8) == 100000000 && p10(7) == 10000000 && p10(6) == 1000000)
            by {
            reveal_with_fuel(p10, 11);
        }
    }
    #[verifier::loop_isolation(true)]
    while dig_at(input, off)
        invariant
            s == input@,
            n == input@.len(),
            n <= 0x7ff00000,
            huge == 0x7fffffff,
            p10(9) == 1000000000 && p10(8) == 100000000 && p10(7) == 10000000 && p10(6)
                == 1000000,
            0 <= p <= start <= off <= n,
            off == start + nd,
            forall|k: int| p <= k < start ==> s[k] == 48,
            eff(s, start as int) != 48,
            forall|i: int| 0 <= i < nd ==> is_digit_at(s, start as int, huge, i),
            nd >= 1 ==> digit_at(s, start as int, huge, 0) >= 1,
            y == dec_val(
                s,
                start as int,
                huge,
                if nd <= 9 {
                    nd as int
                } else {
                    9
                },
            ),
            y < p10(if nd <= 9 {
                nd as nat
            } else {
                9
            }),
            z == dec_val_from(
                s,
                start as int,
                huge,
                9,
                if nd <= 16 {
                    nd as int
                } else {
                    16
                },
            ),
            z < p10(if nd <= 9 {
                0
            } else if nd <= 16 {
                (nd - 9) as nat
            } else {
                7
            }),
        decreases n - off,
    {
        let c: u8 = eff_byte(input, off);
        if nd < 9 {
            proof {
                lemma_p10_mono(nd as nat, 8);
            }
            y = 10 * y + (c as u32 - 48);
        } else if nd < 16 {
            proof {
                lemma_p10_mono((nd - 9) as nat, 6);
            }
            z = 10 * z + (c as u32 - 48);
        }
        nd = nd + 1;
        off = off + 1;
    }
    let nd0v: u32 = nd;
    let ghost ie = off as int;
    proof {
        assert forall|k: int| p <= k < ie implies is_dig(s[k]) by {
            if k >= start {
                assert(is_digit_at(s, start as int, huge, k - start));
            }
        };
        lemma_digit_run(s, p, ie);
        assert(int_end(s) == ie);
    }
    let mut nz: u32 = 0;
    let mut nf: u32 = 0;
    let ghost mut nd0g: int = huge;
    let ghost mut gap: int = 0;
    let ghost mut anchored: bool = false;
    let mut saw_dot: bool = false;
    let ghost mut dot: int = 0;
    if eff_byte(input, off) == 46 {
        saw_dot = true;
        proof {
            dot = off as int;
        }
        off = off + 1;
        if nd == 0 {
            while eff_byte(input, off) == 48
                invariant
                    dot < off <= n,
                    forall|k: int| dot + 1 <= k < off ==> s[k] == 48,
                    nz == off - (dot + 1),
                decreases n - off,
            {
                off = off + 1;
                nz = nz + 1;
            }
            let cf: u8 = eff_byte(input, off);
            if 48 < cf && cf <= 57 {
                start = off;
                nf = nf + nz;
                nz = 0;
                proof {
                    anchored = true;
                }
            }
        } else {
            proof {
                lemma_reindex_digits(s, start as int, nd as int);
                nd0g = nd as int;
                gap = 1;
                anchored = true;
            }
        }
        #[verifier::loop_isolation(true)]
        while dig_at(input, off)
            invariant
                s == input@,
                n == input@.len(),
                n <= 0x7ff00000,
                huge == 0x7fffffff,
                p10(9) == 1000000000 && p10(8) == 100000000 && p10(7) == 10000000 && p10(6)
                    == 1000000,
                saw_dot,
                0 <= p <= start <= n,
                0 <= dot,
                dot + 1 <= off <= n,
                nd + nz <= n,
                anchored ==> nf + nz == off - (dot + 1),
                !anchored ==> nf == 0,
                gap == 1 || gap == 0,
                gap == 1 ==> nd0g == nd0v as int && 1 <= nd0v <= nd && dot == start + nd0v,
                gap == 0 ==> nd0g == huge && nd0v == 0,
                anchored ==> off == start + nd + nz + gap,
                anchored && gap == 0 && nd == 0 ==> nz == 0 && eff(s, off as int) > 48 && is_dig(
                    eff(s, off as int),
                ),
                !anchored ==> nd == 0 && off == dot + 1 + nz && !is_dig(eff(s, off as int)),
                !anchored ==> (forall|k: int| dot + 1 <= k < off ==> s[k] == 48),
                forall|k: int| dot + 1 <= k < off ==> is_dig(s[k]),
                forall|i: int| 0 <= i < nd ==> is_digit_at(s, start as int, nd0g, i),
                anchored ==> (forall|i: int|
                    nd <= i < nd + nz ==> is_digit_at(s, start as int, nd0g, i) && digit_at(
                        s,
                        start as int,
                        nd0g,
                        i,
                    ) == 0),
                nd >= 1 ==> digit_at(s, start as int, nd0g, 0) >= 1,
                nd > (if gap == 1 {
                    nd0v as int
                } else {
                    0int
                }) ==> digit_at(s, start as int, nd0g, nd - 1) >= 1,
                y == dec_val(
                    s,
                    start as int,
                    nd0g,
                    if nd <= 9 {
                        nd as int
                    } else {
                        9
                    },
                ),
                y < p10(if nd <= 9 {
                    nd as nat
                } else {
                    9
                }),
                z == dec_val_from(
                    s,
                    start as int,
                    nd0g,
                    9,
                    if nd <= 16 {
                        nd as int
                    } else {
                        16
                    },
                ),
                z < p10(if nd <= 9 {
                    0
                } else if nd <= 16 {
                    (nd - 9) as nat
                } else {
                    7
                }),
            decreases n - off,
        {
            let c: u8 = eff_byte(input, off);
            proof {
                if !anchored {
                    assert(false);
                }
            }
            nz = nz + 1;
            if c > 48 {
                nf = nf + nz;
                let mut j: u32 = 1;
                while j < nz
                    invariant
                        1 <= j <= nz,
                        nd <= n,
                        off == start + nd + (nz - j) + gap,
                        gap == 1 ==> nd0v <= nd,
                        gap == 0 ==> nd0g == huge,
                        forall|i: int| 0 <= i < nd ==> is_digit_at(s, start as int, nd0g, i),
                        forall|i: int|
                            nd <= i < nd + (nz - j) ==> is_digit_at(s, start as int, nd0g, i)
                                && digit_at(s, start as int, nd0g, i) == 0,
                        nd >= 1 ==> digit_at(s, start as int, nd0g, 0) >= 1,
                        y == dec_val(
                            s,
                            start as int,
                            nd0g,
                            if nd <= 9 {
                                nd as int
                            } else {
                                9
                            },
                        ),
                        y < p10(if nd <= 9 {
                            nd as nat
                        } else {
                            9
                        }),
                        z == dec_val_from(
                            s,
                            start as int,
                            nd0g,
                            9,
                            if nd <= 16 {
                                nd as int
                            } else {
                                16
                            },
                        ),
                        z < p10(if nd <= 9 {
                            0
                        } else if nd <= 16 {
                            (nd - 9) as nat
                        } else {
                            7
                        }),
                    decreases nz - j,
                {
                    proof {
                        assert(is_digit_at(s, start as int, nd0g, nd as int) && digit_at(
                            s,
                            start as int,
                            nd0g,
                            nd as int,
                        ) == 0);
                    }
                    if nd < 9 {
                        proof {
                            lemma_p10_mono(nd as nat, 8);
                        }
                        y = 10 * y;
                    } else if nd < 16 {
                        proof {
                            lemma_p10_mono((nd - 9) as nat, 6);
                        }
                        z = 10 * z;
                    }
                    nd = nd + 1;
                    j = j + 1;
                }
                proof {
                    assert(off as int == digit_pos(start as int, nd0g, nd as int));
                }
                if nd < 9 {
                    proof {
                        lemma_p10_mono(nd as nat, 8);
                    }
                    y = 10 * y + (c as u32 - 48);
                } else if nd < 16 {
                    proof {
                        lemma_p10_mono((nd - 9) as nat, 6);
                    }
                    z = 10 * z + (c as u32 - 48);
                }
                nd = nd + 1;
                nz = 0;
            } else {
                proof {
                    assert(c == 48);
                    assert(off as int == digit_pos(start as int, nd0g, (nd + nz - 1) as int));
                }
            }
            off = off + 1;
        }
        proof {
            lemma_digit_run(s, dot + 1, off as int);
        }
    }
    let ghost fe = off as int;
    proof {
        if saw_dot {
            assert(int_end(s) == dot);
            assert(has_dot(s));
            assert(frac_end(s) == fe);
        }
        assert(mant_end(s) == fe);
    }
    let ce: u8 = eff_byte(input, off);
    let mut e: i32 = 0;
    if ce == 69 || ce == 101 {
        if nd == 0 && nz == 0 && !nz0 {
            if off > body_pos {
                proof {
                    assert(saw_dot);
                    assert(dot == p);
                    assert(int_end(s) == p);
                    assert(has_dot(s));
                    assert(frac_end(s) == dot + 1);
                }
                return Scanned::Zero { neg: false };
            } else {
                return Scanned::NotANumber;
            }
        }
        let (ev, off2): (i32, usize) = exp_after_marker(input, off + 1);
        e = ev;
        off = off2;
    }
    if nd == 0 {
        if off > body_pos {
            let zneg: bool = if nz > 0 || nz0 {
                neg
            } else {
                false
            };
            proof {
                if nz0 {
                    assert(int_end(s) == ie);
                    assert(ie > p);
                } else {
                    assert(start == body_pos && ie == p);
                    assert(int_end(s) == p);
                }
                if saw_dot {
                    assert(has_dot(s));
                    assert(frac_end(s) == fe);
                    assert(!anchored);
                    assert(fe == dot + 1 + nz);
                } else {
                    assert(nz == 0);
                    assert(!has_dot(s));
                }
            }
            return Scanned::Zero { neg: zneg };
        } else {
            proof {
                assert(start == body_pos);
                assert(!is_dig(eff(s, p)));
                assert(eff(s, p) != 46);
            }
            return Scanned::NotANumber;
        }
    }
    let nd0r: u32 = if nd0v == 0 {
        nd
    } else {
        nd0v
    };
    proof {
        if nd0v == 0 {
            // Purely fractional token: reinterpret positions at the final
            // split point, which equals nd.
            assert(saw_dot && anchored && gap == 0);
            lemma_reindex_digits(s, start as int, nd as int);
            assert(int_end(s) == ie && ie == dot);
            assert(has_dot(s));
            assert(frac_end(s) == fe);
            assert(digit_pos(start as int, nd as int, 0) == start as int);
            assert(s[start as int] != 48);
            assert(dot + 1 <= start < fe);
            assert(has_sig_digit(s));
        } else {
            if !saw_dot {
                // No decimal point: the split point is nd as well, and the
                // scanned facts hold verbatim at it.
                lemma_reindex_digits(s, start as int, nd as int);
            }
            // The first significant digit sits in the integer run.
            assert(digit_pos(start as int, nd0r as int, 0) == start as int);
            assert(s[start as int] != 48);
            assert(p <= start < ie);
            assert(has_sig_digit(s));
        }
        assert(!scan_fails(s));
        assert(nf <= n);
    }
    e = e - (nf as i32);
    Scanned::Number { neg, y, z, nd, nd0: nd0r, e, start }
}

/// Scans `input` and, for a token with significant digits, also builds the
/// full decimal mantissa as a big integer.
///
/// The scan outcome is classified exactly as in [`scan`]; the big integer
/// accompanies exactly the `Number` outcome and holds the integer formed by
/// all `nd` significant digits.
pub fn scan_mantissa(input: &[u8]) -> (r: (Scanned, Option<BigInt>))
    requires
        input@.len() <= 0x7ff00000,
    ensures
        (r.0 is NotANumber) <==> scan_fails(input@),
        (r.0 is Zero) <==> (!scan_fails(input@) && !has_sig_digit(input@)),
        (r.0 is Number) <==> (!scan_fails(input@) && has_sig_digit(input@)),
        r.0 matches Scanned::Zero { neg } ==> neg == zero_keeps_sign(input@),
        r.0 matches Scanned::Number { neg, y, z, nd, nd0, e, start } ==> ({
            &&& neg == is_neg(input@)
            &&& 1 <= nd0 <= nd
            &&& nd <= input@.len()
            &&& start <= input@.len()
            &&& all_digits(input@, start as int, nd0 as int, nd as int)
            &&& digit_at(input@, start as int, nd0 as int, 0) >= 1
            &&& (nd0 < nd ==> digit_at(input@, start as int, nd0 as int, nd - 1) >= 1)
            &&& y == dec_val(
                input@,
                start as int,
                nd0 as int,
                if nd <= 9 {
                    nd as int
                } else {
                    9
                },
            )
            &&& z == dec_val_from(
                input@,
                start as int,
                nd0 as int,
                9,
                if nd <= 16 {
                    nd as int
                } else {
                    16
                },
            )
            &&& -19999 - (input@.len() as int) <= e <= 19999
            &&& e == e_parsed(input@) - frac_adjust(input@, start as int, nd0 as int, nd as int)
        }),
        (r.1 is Some) <==> (r.0 is Number),
        r.0 matches Scanned::Number { nd, nd0, start, .. } ==> (r.1 matches Some(b) ==> ({
            &&& b.sign == false
            &&& trimmed(b.x@)
            &&& big_val(b.x@) == dec_val(input@, start as int, nd0 as int, nd as int)
        })),
{
    let sc = scan(input);
    match sc {
        Scanned::Number { neg, y, z, nd, nd0, e, start } => {
            let cur = Chars { bytes: input, offset: start };
            let b = s2b(cur, nd0, nd, y);
            (Scanned::Number { neg, y, z, nd, nd0, e, start }, Some(b))
        },
        Scanned::Zero { neg } => (Scanned::Zero { neg }, None),
        Scanned::NotANumber => (Scanned::NotANumber, None),
    }
}

} // verus!
