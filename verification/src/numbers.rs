//! Decimal numbers of the attribute grammar: integer values such as
//! `BANDWIDTH`, and the fixed-point decimal used to model `FRAME-RATE`.
//!
//! A frame rate is held exactly as `mantissa / 10^scale`, normalized so that
//! the mantissa has no trailing zero when a fractional part is present.

use vstd::prelude::*;
use crate::scan::is_digit;

verus! {

/// Numeric value of one ASCII digit.
pub open spec fn digit_val(b: u8) -> nat {
    (b - 48) as nat
}

/// Numeric value of a digit string, most significant first.
pub open spec fn digits_val(s: Seq<u8>) -> nat
    decreases s.len(),
{
    if s.len() == 0 {
        0
    } else {
        digits_val(s.drop_last()) * 10 + digit_val(s.last())
    }
}

/// All bytes are ASCII digits.
pub open spec fn all_digits(s: Seq<u8>) -> bool {
    forall|k: int| 0 <= k < s.len() ==> is_digit(#[trigger] s[k])
}

/// Canonical decimal rendering of `n`: no leading zero except for `0` itself.
pub open spec fn dec_rep(n: nat) -> Seq<u8>
    decreases n,
{
    if n < 10 {
        seq![(48 + n) as u8]
    } else {
        dec_rep(n / 10).push((48 + n % 10) as u8)
    }
}

/// The canonical rendering consists of digits, is non-empty, has no leading
/// zero unless it is `0` itself, and reads back as its own value.
pub proof fn lemma_dec_rep(n: nat)
    ensures
        all_digits(dec_rep(n)),
        dec_rep(n).len() >= 1,
        dec_rep(n).len() > 1 ==> dec_rep(n)[0] != 48,
        digits_val(dec_rep(n)) == n,
    decreases n,
{
    if n < 10 {
        let one = seq![(48 + n) as u8];
        assert(one.drop_last() =~= Seq::<u8>::empty());
        assert(digits_val(one.drop_last()) == 0);
        assert(one.last() == (48 + n) as u8);
        assert(digits_val(one) == digit_val((48 + n) as u8));
    } else {
        assert(n / 10 < n && n / 10 >= 1) by (nonlinear_arith)
            requires
                n >= 10,
        ;
        lemma_dec_rep(n / 10);
        let r = dec_rep(n);
        assert(r.drop_last() =~= dec_rep(n / 10));
        assert(r[0] == dec_rep(n / 10)[0]);
        let h = dec_rep(n / 10);
        assert(h[0] != 48) by {
            if h.len() == 1 {
                assert(h.drop_last() =~= Seq::<u8>::empty());
                assert(digits_val(h.drop_last()) == 0);
                assert(h.last() == h[0]);
                assert(digit_val(h[0]) == digits_val(h));
            }
        }
        assert(digits_val(r) == (n / 10) * 10 + n % 10);
        assert((n / 10) * 10 + n % 10 == n) by (nonlinear_arith);
    }
}

/// Prefixes of a digit string never read as a larger value than the whole.
pub proof fn lemma_digits_val_prefix(s: Seq<u8>, k: int)
    requires
        0 <= k <= s.len(),
    ensures
        digits_val(s.take(k)) <= digits_val(s),
    decreases s.len() - k,
{
    if k < s.len() {
        lemma_digits_val_prefix(s, k + 1);
        assert(s.take(k + 1).drop_last() =~= s.take(k));
        assert(s.take(k + 1).last() == s[k]);
        assert(digits_val(s.take(k)) <= digits_val(s.take(k)) * 10 + digit_val(s[k]))
            by (nonlinear_arith);
    } else {
        assert(s.take(k) =~= s);
    }
}

/// The last digit of a digit string is its value modulo ten.
pub proof fn lemma_digits_val_last(s: Seq<u8>)
    requires
        s.len() > 0,
        all_digits(s),
    ensures
        digits_val(s) % 10 == digit_val(s.last()),
{
    assert(is_digit(s.last()));
    let p = digits_val(s.drop_last());
    let d = digit_val(s.last());
    assert((p * 10 + d) % 10 == d) by (nonlinear_arith)
        requires
            0 <= d < 10,
    ;
}

/// Reads the digit string `s[i..j]` as a number, detecting overflow of `cap`.
/// Returns its value when it fits, `None` when it exceeds `cap`.
pub fn read_digits_capped(s: &Vec<u8>, i: usize, j: usize, cap: u64) -> (r: Option<u64>)
    requires
        i <= j <= s@.len(),
        cap >= 9,
        all_digits(s@.subrange(i as int, j as int)),
    ensures
        match r {
            Some(v) => digits_val(s@.subrange(i as int, j as int)) == v && v <= cap,
            None => digits_val(s@.subrange(i as int, j as int)) > cap,
        },
{
    let ghost w = s@.subrange(i as int, j as int);
    let mut acc: u64 = 0;
    let mut k: usize = i;
    while k < j
        invariant
            i <= k <= j <= s@.len(),
            w == s@.subrange(i as int, j as int),
            all_digits(w),
            cap >= 9,
            acc <= cap,
            acc == digits_val(w.take(k - i)),
        decreases j - k,
    {
        let b = s[k];
        proof {
            assert(w[k - i] == s@[k as int]);
        }
        proof {
            assert(is_digit(w[k - i]));
        }
        let d: u64 = (b - 48) as u64;
        proof {
            assert(w.take(k - i + 1).drop_last() =~= w.take(k - i));
            assert(w.take(k - i + 1).last() == w[k - i]);
        }
        if acc > (cap - d) / 10 {
            proof {
                vstd::arithmetic::div_mod::lemma_fundamental_div_mod((cap - d) as int, 10);
                assert(digits_val(w.take(k - i + 1)) == acc * 10 + d);
                assert(acc * 10 + d > cap);
                lemma_digits_val_prefix(w, k - i + 1);
            }
            return None;
        }
        proof {
            vstd::arithmetic::div_mod::lemma_fundamental_div_mod((cap - d) as int, 10);
            assert(acc * 10 + d <= cap);
        }
        acc = acc * 10 + d;
        k += 1;
    }
    proof {
        assert(w.take(j - i) =~= w);
    }
    Some(acc)
}

/// Appends the canonical decimal rendering of `n` to `out`.
pub fn push_dec_u64(out: &mut Vec<u8>, n: u64)
    ensures
        final(out)@ == old(out)@ + dec_rep(n as nat),
    decreases n,
{
    if n < 10 {
        out.push((48 + n) as u8);
        proof {
            assert(out@ =~= old(out)@ + dec_rep(n as nat));
        }
    } else {
        proof {
            assert(n / 10 < n) by (nonlinear_arith)
                requires
                    n >= 10,
            ;
        }
        push_dec_u64(out, n / 10);
        out.push((48 + n % 10) as u8);
        proof {
            assert(out@ =~= old(out)@ + dec_rep(n as nat));
        }
    }
}

/// The value `mantissa / 10^scale` standing in for a fractional frame rate.
///
/// `23.97` is held as mantissa `2397`, scale `2`.  A well-formed rate keeps
/// the scale small enough for exact comparison and, when a fractional part is
/// present, a mantissa with no trailing zero, so that each value has one
/// rendering.
#[derive(Clone, Copy, PartialEq, Eq, Structural, Debug)]
pub struct FrameRate {
    /// The digits of the value, fractional part included.
    pub mantissa: u64,
    /// How many of the mantissa's digits lie behind the decimal point.
    pub scale: u32,
}

impl FrameRate {
    /// The rate `0`, the fallback for tokens that do not read as a decimal.
    pub open spec fn spec_zero() -> FrameRate {
        FrameRate { mantissa: 0, scale: 0 }
    }

    /// Builds the rate `0`.
    pub fn zero() -> (r: FrameRate)
        ensures
            r == FrameRate::spec_zero(),
    {
        FrameRate { mantissa: 0, scale: 0 }
    }

    /// Scale bounded for exact comparison; no trailing zero behind the point.
    pub open spec fn wf(self) -> bool {
        self.scale <= 12 && (self.scale > 0 ==> self.mantissa % 10 != 0)
    }
}

/// 10 raised to `e`.
pub open spec fn pow10(e: nat) -> nat
    decreases e,
{
    if e == 0 {
        1
    } else {
        10 * pow10((e - 1) as nat)
    }
}

/// `10^a` never exceeds `10^b` for `a <= b`.
pub proof fn lemma_pow10_mono(a: nat, b: nat)
    requires
        a <= b,
    ensures
        pow10(a) <= pow10(b),
    decreases b,
{
    if a < b {
        lemma_pow10_mono(a, (b - 1) as nat);
        lemma_pow10_pos((b - 1) as nat);
    }
}

/// `10^e` fits comfortably in 64 bits for every exponent a well-formed rate
/// can carry.
pub proof fn lemma_pow10_bound(e: nat)
    requires
        e <= 12,
    ensures
        pow10(e) >= 1,
        pow10(e) <= 1000000000000,
{
    lemma_pow10_pos(e);
    lemma_pow10_mono(e, 12);
    reveal_with_fuel(pow10, 14);
    assert(pow10(12) == 1000000000000);
}

/// Computes `10^e`.
pub fn pow10_u64(e: u32) -> (r: u64)
    requires
        e <= 12,
    ensures
        r == pow10(e as nat),
        1 <= r <= 1000000000000,
    decreases e,
{
    proof {
        lemma_pow10_bound(e as nat);
    }
    if e == 0 {
        1
    } else {
        proof {
            lemma_pow10_bound((e - 1) as nat);
        }
        let p = pow10_u64(e - 1);
        10 * p
    }
}

/// Numeric order on frame rates: `a <= b` as exact rationals.
pub open spec fn rate_le(a: FrameRate, b: FrameRate) -> bool {
    a.mantissa * pow10(b.scale as nat) <= b.mantissa * pow10(a.scale as nat)
}

/// The numeric order is total.
pub proof fn lemma_rate_le_total(a: FrameRate, b: FrameRate)
    ensures
        rate_le(a, b) || rate_le(b, a),
{
}

/// The numeric order is transitive.
pub proof fn lemma_rate_le_trans(a: FrameRate, b: FrameRate, c: FrameRate)
    requires
        rate_le(a, b),
        rate_le(b, c),
    ensures
        rate_le(a, c),
{
    let pa = pow10(a.scale as nat);
    let pb = pow10(b.scale as nat);
    let pc = pow10(c.scale as nat);
    assert(pa >= 1 && pb >= 1 && pc >= 1) by {
        lemma_pow10_pos(a.scale as nat);
        lemma_pow10_pos(b.scale as nat);
        lemma_pow10_pos(c.scale as nat);
    }
    assert(a.mantissa * pb <= b.mantissa * pa ==> a.mantissa * pb * pc <= b.mantissa * pa * pc)
        by (nonlinear_arith)
        requires
            pc >= 1,
    ;
    assert(b.mantissa * pc <= c.mantissa * pb ==> b.mantissa * pc * pa <= c.mantissa * pb * pa)
        by (nonlinear_arith)
        requires
            pa >= 1,
    ;
    assert(b.mantissa * pa * pc == b.mantissa * pc * pa) by (nonlinear_arith);
    assert(a.mantissa * pb * pc <= c.mantissa * pb * pa ==> a.mantissa * pc <= c.mantissa * pa)
        by (nonlinear_arith)
        requires
            pb >= 1,
    ;
    assert(a.mantissa * pb * pc == a.mantissa * pc * pb) by (nonlinear_arith);
    assert(c.mantissa * pb * pa == c.mantissa * pa * pb) by (nonlinear_arith);
}

/// `10^e` is positive.
pub proof fn lemma_pow10_pos(e: nat)
    ensures
        pow10(e) >= 1,
    decreases e,
{
    if e > 0 {
        lemma_pow10_pos((e - 1) as nat);
    }
}

/// Compares two well-formed frame rates numerically.
pub fn rate_cmp_le(a: &FrameRate, b: &FrameRate) -> (r: bool)
    requires
        a.wf(),
        b.wf(),
    ensures
        r == rate_le(*a, *b),
{
    let pa = pow10_u64(a.scale);
    let pb = pow10_u64(b.scale);
    proof {
        let m1 = a.mantissa as int;
        let m2 = b.mantissa as int;
        let q1 = pa as int;
        let q2 = pb as int;
        assert(m1 * q2 <= 18446744073709551615 * 1000000000000) by (nonlinear_arith)
            requires
                0 <= m1 <= 18446744073709551615,
                0 <= q2 <= 1000000000000,
        ;
        assert(m2 * q1 <= 18446744073709551615 * 1000000000000) by (nonlinear_arith)
            requires
                0 <= m2 <= 18446744073709551615,
                0 <= q1 <= 1000000000000,
        ;
    }
    let left: u128 = (a.mantissa as u128) * (pb as u128);
    let right: u128 = (b.mantissa as u128) * (pa as u128);
    proof {
        assert((a.mantissa as u128) * (pb as u128) == a.mantissa * pow10(b.scale as nat))
            by (nonlinear_arith)
            requires
                pb == pow10(b.scale as nat),
        ;
        assert((b.mantissa as u128) * (pa as u128) == b.mantissa * pow10(a.scale as nat))
            by (nonlinear_arith)
            requires
                pa == pow10(a.scale as nat),
        ;
    }
    left <= right
}

} // verus!
