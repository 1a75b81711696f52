//! Exact model of display scale factors.
//!
//! A scale factor is a non-negative decimal number with at most six
//! significant fraction digits; the library stores it as an integer count
//! of millionths (micros), so `1.25` is `1_250_000`. Parsing accepts a
//! token of decimal digits with at most one dot and at least one digit;
//! fraction digits past the sixth are truncated. Formatting produces the
//! canonical shortest form: no fraction part for whole numbers, otherwise
//! a dot followed by the fraction digits with trailing zeros removed.

use vstd::prelude::*;
use crate::text::{is_digit, is_numch, skip_until, trim};
use crate::text::{digit_byte, trim_bytes};

verus! {

/// One whole scale unit expressed in micros.
pub const MICROS_PER_UNIT: u64 = 1_000_000;

/// The scale value 1.0, the fallback the inspector reports when no reading
/// exists.
pub const SCALE_ONE: u64 = 1_000_000;

/// Largest admissible integer part of a scale factor: any larger value
/// would overflow the micros representation.
pub const SCALE_INT_MAX: u64 = 18_446_744_073_708;

/// Largest scale the representation admits, in micros: `SCALE_INT_MAX`
/// whole units and the full six fraction digits.
pub const SCALE_MICROS_MAX: u64 = 18_446_744_073_708_999_999;

/// Numeric value of a big-endian digit string (most significant first).
pub open spec fn dec_val(s: Seq<u8>) -> nat
    decreases s.len(),
{
    if s.len() == 0 {
        0
    } else {
        dec_val(s.drop_last()) * 10 + (s.last() - 48) as nat
    }
}

pub open spec fn all_digits(s: Seq<u8>) -> bool {
    forall|i: int| 0 <= i < s.len() ==> is_digit(s[i])
}

pub proof fn lemma_dec_val_step(s: Seq<u8>, i: int)
    requires
        0 <= i < s.len(),
        is_digit(s[i]),
    ensures
        dec_val(s.subrange(0, i + 1)) == dec_val(s.subrange(0, i)) * 10 + (s[i] - 48),
{
    assert(s.subrange(0, i + 1).drop_last() =~= s.subrange(0, i));
    assert(s.subrange(0, i + 1).last() == s[i]);
}

/// A digit string of length `n` denotes a value below `10^n`.
pub proof fn lemma_dec_val_bound(s: Seq<u8>)
    requires
        all_digits(s),
    ensures
        dec_val(s) < pow10(s.len() as nat),
    decreases s.len(),
{
    if s.len() > 0 {
        lemma_dec_val_bound(s.drop_last());
        assert(is_digit(s.last()));
    }
}

pub open spec fn pow10(n: nat) -> nat
    decreases n,
{
    if n == 0 {
        1
    } else {
        10 * pow10((n - 1) as nat)
    }
}

/// Fraction digits interpreted in micros: the first six digits after the
/// dot, padded on the right with zeros up to six places.
pub open spec fn frac_micros(s: Seq<u8>) -> nat {
    if s.len() >= 6 {
        dec_val(s.subrange(0, 6))
    } else {
        dec_val(s) * pow10((6 - s.len()) as nat)
    }
}

/// Parse an already-trimmed token as a scale factor in micros.
///
/// The token must consist of decimal digits with at most one dot and at
/// least one digit, and its integer part must not exceed `SCALE_INT_MAX`.
pub open spec fn parse_scale(t: Seq<u8>) -> Option<u64> {
    let d = skip_until(t, 0, 46);
    let int_part = t.subrange(0, d);
    let frac_part = if d < t.len() {
        t.subrange(d + 1, t.len() as int)
    } else {
        Seq::<u8>::empty()
    };
    if t.len() == 0 || !all_digits(int_part) || !all_digits(frac_part) || int_part.len()
        + frac_part.len() == 0 || dec_val(int_part) > SCALE_INT_MAX {
        None
    } else {
        Some((dec_val(int_part) * (MICROS_PER_UNIT as nat) + frac_micros(frac_part)) as u64)
    }
}

/// Parse a token after trimming ASCII whitespace from both ends.
pub open spec fn parse_scale_trimmed(t: Seq<u8>) -> Option<u64> {
    parse_scale(trim(t))
}

proof fn lemma_frac_micros_bound(s: Seq<u8>)
    requires
        all_digits(s),
    ensures
        frac_micros(s) < 1_000_000,
{
    if s.len() >= 6 {
        assert(all_digits(s.subrange(0, 6)));
        lemma_dec_val_bound(s.subrange(0, 6));
        lemma_pow10_6();
    } else {
        lemma_dec_val_bound(s);
        assert(dec_val(s) * pow10((6 - s.len()) as nat) <= (pow10(s.len() as nat) - 1) * pow10(
            (6 - s.len()) as nat,
        )) by {
            broadcast use vstd::arithmetic::mul::lemma_mul_inequality;

        }
        assert(pow10(s.len() as nat) * pow10((6 - s.len()) as nat) == 1_000_000) by {
            lemma_pow10_adds(s.len() as nat, (6 - s.len()) as nat);
            lemma_pow10_6();
        }
        assert((pow10(s.len() as nat) - 1) * pow10((6 - s.len()) as nat) < pow10(
            s.len() as nat,
        ) * pow10((6 - s.len()) as nat)) by {
            broadcast use vstd::arithmetic::mul::lemma_mul_strict_inequality;

        }
    }
}

proof fn lemma_pow10_6()
    ensures
        pow10(6) == 1_000_000,
{
    reveal_with_fuel(pow10, 8);
}

proof fn lemma_pow10_adds(a: nat, b: nat)
    ensures
        pow10(a) * pow10(b) == pow10(a + b),
    decreases a,
{
    if a == 0 {
        assert(pow10(0) == 1);
        assert(1 * pow10(b) == pow10(b));
    } else {
        lemma_pow10_adds((a - 1) as nat, b);
        assert(pow10(a) == 10 * pow10((a - 1) as nat));
        assert(pow10((a - 1) as nat) * pow10(b) == pow10((a - 1) as nat + b));
        assert((a - 1) as nat + b == (a + b - 1) as nat);
        assert(pow10(a + b) == 10 * pow10((a + b - 1) as nat));
        assert(pow10(a) * pow10(b) == 10 * (pow10((a - 1) as nat) * pow10(b)))
            by (nonlinear_arith)
            requires
                pow10(a) == 10 * pow10((a - 1) as nat),
        ;
    }
}

/// A successful parse never exceeds `u64::MAX` micros.
proof fn lemma_parse_scale_fits(int_part: Seq<u8>, frac_part: Seq<u8>)
    requires
        all_digits(int_part),
        all_digits(frac_part),
        dec_val(int_part) <= SCALE_INT_MAX,
    ensures
        dec_val(int_part) * (MICROS_PER_UNIT as nat) + frac_micros(frac_part) <= u64::MAX,
{
    lemma_frac_micros_bound(frac_part);
    assert(dec_val(int_part) * (MICROS_PER_UNIT as nat) <= (SCALE_INT_MAX as nat) * (
    MICROS_PER_UNIT as nat)) by {
        broadcast use vstd::arithmetic::mul::lemma_mul_inequality;

    }
    assert((SCALE_INT_MAX as nat) * (MICROS_PER_UNIT as nat) + 1_000_000 <= u64::MAX);
}

/// Value of the digits of `t` in `[from, to)`, clamped just above
/// `SCALE_INT_MAX` so that overflow is detectable.
exec fn digits_value_clamped(t: &Vec<u8>, from: usize, to: usize) -> (r: u64)
    requires
        from <= to <= t@.len(),
        all_digits(t@.subrange(from as int, to as int)),
    ensures
        dec_val(t@.subrange(from as int, to as int)) <= SCALE_INT_MAX ==> r == dec_val(
            t@.subrange(from as int, to as int),
        ),
        dec_val(t@.subrange(from as int, to as int)) > SCALE_INT_MAX ==> r == SCALE_INT_MAX + 1,
{
    let ghost digits = t@.subrange(from as int, to as int);
    let mut acc: u64 = 0;
    let mut i: usize = from;
    while i < to
        invariant
            from <= i <= to <= t@.len(),
            digits == t@.subrange(from as int, to as int),
            all_digits(digits),
            dec_val(digits.subrange(0, i - from)) <= SCALE_INT_MAX ==> acc == dec_val(
                digits.subrange(0, i - from),
            ),
            dec_val(digits.subrange(0, i - from)) > SCALE_INT_MAX ==> acc == SCALE_INT_MAX + 1,
            acc <= SCALE_INT_MAX + 1,
        decreases to - i,
    {
        let d = t[i];
        proof {
            assert(digits[i - from] == t@[i as int]);
            lemma_dec_val_step(digits, i - from);
        }
        let next = acc * 10 + (d - 48) as u64;
        proof {
            let pv = dec_val(digits.subrange(0, i - from));
            if pv > SCALE_INT_MAX {
                assert(pv * 10 + (d - 48) > SCALE_INT_MAX) by (nonlinear_arith)
                    requires
                        pv > SCALE_INT_MAX,
                ;
            }
        }
        acc = if next > SCALE_INT_MAX {
            SCALE_INT_MAX + 1
        } else {
            next
        };
        i = i + 1;
    }
    proof {
        assert(digits.subrange(0, to - from) =~= digits);
    }
    acc
}

/// Fraction digits of `t` in `[from, to)` read as micros: the first six
/// digits, zero-extended on the right to six places.
exec fn frac_value(t: &Vec<u8>, from: usize, to: usize) -> (r: u64)
    requires
        from <= to <= t@.len(),
        all_digits(t@.subrange(from as int, to as int)),
    ensures
        r == frac_micros(t@.subrange(from as int, to as int)),
        r < 1_000_000,
{
    let ghost digits = t@.subrange(from as int, to as int);
    let used: usize = if to - from >= 6 {
        6
    } else {
        to - from
    };
    let ghost prefix = digits.subrange(0, used as int);
    let mut acc: u64 = 0;
    let mut i: usize = 0;
    while i < used
        invariant
            0 <= i <= used <= 6,
            from + used <= to <= t@.len(),
            digits == t@.subrange(from as int, to as int),
            prefix == digits.subrange(0, used as int),
            all_digits(digits),
            acc == dec_val(prefix.subrange(0, i as int)),
            acc < pow10(i as nat),
        decreases used - i,
    {
        let d = t[from + i];
        proof {
            assert(prefix[i as int] == digits[i as int]);
            assert(digits[i as int] == t@[from + i]);
            lemma_dec_val_step(prefix, i as int);
            assert(pow10((i + 1) as nat) == 10 * pow10(i as nat));
            lemma_pow10_6();
            lemma_pow10_mono(i as nat, 6);
        }
        acc = acc * 10 + (d - 48) as u64;
        i = i + 1;
    }
    proof {
        assert(prefix.subrange(0, used as int) =~= prefix);
        assert(pow10(0) == 1);
        assert(dec_val(prefix) * 1 == dec_val(prefix));
        lemma_pow10_6();
        lemma_pow10_mono(used as nat, 6);
    }
    let mut pad: usize = used;
    while pad < 6
        invariant
            used <= pad <= 6,
            acc == dec_val(prefix) * pow10((pad - used) as nat),
            acc < pow10(pad as nat),
        decreases 6 - pad,
    {
        proof {
            assert(pow10((pad + 1 - used) as nat) == 10 * pow10((pad - used) as nat));
            assert(dec_val(prefix) * pow10((pad + 1 - used) as nat) == (dec_val(prefix) * pow10(
                (pad - used) as nat,
            )) * 10) by (nonlinear_arith)
                requires
                    pow10((pad + 1 - used) as nat) == 10 * pow10((pad - used) as nat),
            ;
            assert(pow10((pad + 1) as nat) == 10 * pow10(pad as nat));
            lemma_pow10_6();
            lemma_pow10_mono((pad + 1) as nat, 6);
        }
        acc = acc * 10;
        pad = pad + 1;
    }
    proof {
        if digits.len() >= 6 {
            assert(used == 6);
            assert(prefix =~= digits.subrange(0, 6));
            assert(pow10(0) == 1);
        } else {
            assert(prefix =~= digits);
        }
        lemma_pow10_6();
    }
    acc
}

proof fn lemma_pow10_mono(a: nat, b: nat)
    requires
        a <= b,
    ensures
        pow10(a) <= pow10(b),
    decreases b,
{
    if a < b {
        lemma_pow10_mono(a, (b - 1) as nat);
    }
}

/// Executable check that `[from, to)` of `t` holds only decimal digits.
exec fn check_digits(t: &Vec<u8>, from: usize, to: usize) -> (r: bool)
    requires
        from <= to <= t@.len(),
    ensures
        r == all_digits(t@.subrange(from as int, to as int)),
{
    let ghost digits = t@.subrange(from as int, to as int);
    let mut i: usize = from;
    while i < to
        invariant
            from <= i <= to <= t@.len(),
            digits == t@.subrange(from as int, to as int),
            forall|k: int| 0 <= k < i - from ==> is_digit(digits[k]),
        decreases to - i,
    {
        if !digit_byte(t[i]) {
            proof {
                assert(digits[i - from] == t@[i as int]);
            }
            return false;
        }
        i = i + 1;
    }
    true
}

/// Parse a byte token (no surrounding whitespace) as a scale in micros.
pub exec fn parse_scale_bytes(t: &Vec<u8>) -> (r: Option<u64>)
    ensures
        r == parse_scale(t@),
{
    let d = crate::text::scan_to(t, 0, 46);
    let ghost int_part = t@.subrange(0, d as int);
    let ghost frac_part = if (d as int) < t@.len() {
        t@.subrange(d + 1, t@.len() as int)
    } else {
        Seq::<u8>::empty()
    };
    if t.len() == 0 {
        return None;
    }
    if !check_digits(t, 0, d) {
        return None;
    }
    let frac_ok = if d < t.len() {
        check_digits(t, d + 1, t.len())
    } else {
        true
    };
    if !frac_ok {
        return None;
    }
    let frac_len = if d < t.len() {
        t.len() - d - 1
    } else {
        0
    };
    if d == 0 && frac_len == 0 {
        return None;
    }
    let iv = digits_value_clamped(t, 0, d);
    if iv > SCALE_INT_MAX {
        return None;
    }
    let fv = if d < t.len() {
        frac_value(t, d + 1, t.len())
    } else {
        0
    };
    proof {
        lemma_parse_scale_fits(int_part, frac_part);
        assert(iv == dec_val(int_part));
        if (d as int) >= t@.len() {
            assert(frac_part.len() == 0);
            assert(dec_val(frac_part) == 0);
            assert(dec_val(frac_part) * pow10(6) == 0) by (nonlinear_arith)
                requires
                    dec_val(frac_part) == 0,
            ;
            assert(frac_micros(frac_part) == 0);
        }
        assert(fv == frac_micros(frac_part));
    }
    Some(iv * MICROS_PER_UNIT + fv)
}

/// Decimal digits of `n`, most significant first, no leading zeros
/// (a single `0` for zero).
pub open spec fn dec_str(n: nat) -> Seq<u8>
    decreases n,
{
    if n < 10 {
        seq![(48 + n) as u8]
    } else {
        dec_str(n / 10) + seq![(48 + n % 10) as u8]
    }
}

/// Decimal digits of `n` zero-padded on the left to exactly `w` places.
pub open spec fn dec_str_w(n: nat, w: nat) -> Seq<u8>
    decreases w,
{
    if w == 0 {
        Seq::<u8>::empty()
    } else {
        dec_str_w(n / 10, (w - 1) as nat) + seq![(48 + n % 10) as u8]
    }
}

/// `s` with trailing `0` digits removed.
pub open spec fn strip_zeros(s: Seq<u8>) -> Seq<u8>
    decreases s.len(),
{
    if s.len() > 0 && s.last() == 48 {
        strip_zeros(s.drop_last())
    } else {
        s
    }
}

/// Canonical text of a scale factor held in micros: the integer part, then,
/// if the fraction is non-zero, a dot and the fraction digits with trailing
/// zeros removed.
pub open spec fn fmt_scale(m: u64) -> Seq<u8> {
    let ip = (m as nat) / 1_000_000;
    let fp = (m as nat) % 1_000_000;
    if fp == 0 {
        dec_str(ip)
    } else {
        dec_str(ip) + seq![46u8] + strip_zeros(dec_str_w(fp, 6))
    }
}

pub proof fn lemma_dec_str_digits(n: nat)
    ensures
        dec_str(n).len() > 0,
        all_digits(dec_str(n)),
    decreases n,
{
    if n >= 10 {
        lemma_dec_str_digits(n / 10);
        assert forall|i: int| 0 <= i < dec_str(n).len() implies is_digit(dec_str(n)[i]) by {
            if i < dec_str(n / 10).len() {
                assert(dec_str(n)[i] == dec_str(n / 10)[i]);
            }
        }
    }
}

proof fn lemma_dec_str_w_digits(n: nat, w: nat)
    ensures
        dec_str_w(n, w).len() == w,
        all_digits(dec_str_w(n, w)),
    decreases w,
{
    if w > 0 {
        lemma_dec_str_w_digits(n / 10, (w - 1) as nat);
        assert forall|i: int| 0 <= i < dec_str_w(n, w).len() implies is_digit(dec_str_w(n, w)[i])
            by {
            if i < w - 1 {
                assert(dec_str_w(n, w)[i] == dec_str_w(n / 10, (w - 1) as nat)[i]);
            }
        }
    }
}

proof fn lemma_strip_zeros_prefix(s: Seq<u8>)
    ensures
        strip_zeros(s).len() <= s.len(),
        strip_zeros(s) == s.subrange(0, strip_zeros(s).len() as int),
    decreases s.len(),
{
    if s.len() > 0 && s.last() == 48 {
        lemma_strip_zeros_prefix(s.drop_last());
        assert(s.drop_last().subrange(0, strip_zeros(s).len() as int) =~= s.subrange(
            0,
            strip_zeros(s).len() as int,
        ));
    } else {
        assert(s.subrange(0, s.len() as int) =~= s);
    }
}

/// Every byte of a formatted scale is a digit or a dot, and the first byte
/// is a digit.
pub proof fn lemma_fmt_scale_shape(m: u64)
    ensures
        fmt_scale(m).len() > 0,
        is_digit(fmt_scale(m)[0]),
        forall|i: int| 0 <= i < fmt_scale(m).len() ==> is_numch(#[trigger] fmt_scale(m)[i]),
{
    let ip = (m as nat) / 1_000_000;
    let fp = (m as nat) % 1_000_000;
    lemma_dec_str_digits(ip);
    if fp != 0 {
        lemma_dec_str_w_digits(fp, 6);
        lemma_strip_zeros_prefix(dec_str_w(fp, 6));
        let f = fmt_scale(m);
        let a = dec_str(ip);
        let z = strip_zeros(dec_str_w(fp, 6));
        assert(is_digit(f[0])) by {
            assert(f[0] == a[0]);
        }
        assert forall|i: int| 0 <= i < f.len() implies is_numch(f[i]) by {
            if i < a.len() {
                assert(f[i] == a[i]);
            } else if i == a.len() {
                assert(f[i] == 46);
            } else {
                assert(f[i] == z[i - a.len() - 1]);
                assert(z[i - a.len() - 1] == dec_str_w(fp, 6)[i - a.len() - 1]);
            }
        }
    }
}

/// Append the decimal digits of `n` to `v`.
exec fn push_dec(v: &mut Vec<u8>, n: u64)
    ensures
        final(v)@ == old(v)@ + dec_str(n as nat),
    decreases n,
{
    if n < 10 {
        v.push(48 + n as u8);
        assert(v@ =~= old(v)@ + dec_str(n as nat));
    } else {
        assert(n / 10 < n) by (nonlinear_arith)
            requires
                n >= 10,
        ;
        push_dec(v, n / 10);
        v.push(48 + (n % 10) as u8);
        assert(v@ =~= old(v)@ + dec_str(n as nat));
    }
}

/// Append exactly `w` decimal digits of `n`, zero-padded on the left.
exec fn push_dec_w(v: &mut Vec<u8>, n: u64, w: u64)
    ensures
        final(v)@ == old(v)@ + dec_str_w(n as nat, w as nat),
    decreases w,
{
    if w == 0 {
        assert(v@ =~= old(v)@ + dec_str_w(n as nat, 0));
    } else {
        push_dec_w(v, n / 10, w - 1);
        v.push(48 + (n % 10) as u8);
        assert(v@ =~= old(v)@ + dec_str_w(n as nat, w as nat));
    }
}

/// Render a scale held in micros as canonical decimal text.
pub exec fn fmt_scale_bytes(m: u64) -> (v: Vec<u8>)
    ensures
        v@ == fmt_scale(m),
{
    let ip = m / 1_000_000;
    let fp = m % 1_000_000;
    let mut v: Vec<u8> = Vec::new();
    push_dec(&mut v, ip);
    assert(v@ =~= dec_str(ip as nat));
    if fp != 0 {
        v.push(46);
        let mut frac: Vec<u8> = Vec::new();
        push_dec_w(&mut frac, fp, 6);
        assert(frac@ =~= dec_str_w(fp as nat, 6));
        while frac.len() > 0 && frac[frac.len() - 1] == 48
            invariant
                strip_zeros(frac@) == strip_zeros(dec_str_w(fp as nat, 6)),
            decreases frac@.len(),
        {
            proof {
                assert(frac@.last() == 48);
                assert(strip_zeros(frac@) == strip_zeros(frac@.drop_last()));
                assert(frac@.subrange(0, frac@.len() - 1) =~= frac@.drop_last());
            }
            frac.pop();
        }
        proof {
            assert(strip_zeros(frac@) == frac@);
        }
        let mut k: usize = 0;
        let ghost mid = v@;
        while k < frac.len()
            invariant
                0 <= k <= frac@.len(),
                v@ == mid + frac@.subrange(0, k as int),
            decreases frac@.len() - k,
        {
            v.push(frac[k]);
            proof {
                assert(mid + frac@.subrange(0, k + 1) =~= (mid + frac@.subrange(0, k as int)).push(
                    frac@[k as int],
                ));
            }
            k = k + 1;
        }
        proof {
            assert(frac@.subrange(0, frac@.len() as int) =~= frac@);
            assert(v@ =~= dec_str(ip as nat) + seq![46u8] + strip_zeros(dec_str_w(fp as nat, 6)));
        }
    }
    v
}

/// Parse with surrounding ASCII whitespace removed first.
pub exec fn parse_scale_token(t: &Vec<u8>) -> (r: Option<u64>)
    ensures
        r == parse_scale_trimmed(t@),
{
    let trimmed = trim_bytes(t, 0, t.len());
    proof {
        assert(t@.subrange(0, t@.len() as int) =~= t@);
    }
    parse_scale_bytes(&trimmed)
}

/// The digits of `n` read back as `n`.
proof fn lemma_dec_val_of_dec_str(n: nat)
    ensures
        dec_val(dec_str(n)) == n,
    decreases n,
{
    reveal_with_fuel(dec_val, 3);
    if n < 10 {
        assert(dec_str(n) == seq![(48 + n) as u8]);
        assert(dec_str(n).drop_last() =~= Seq::<u8>::empty());
        assert(dec_val(dec_str(n).drop_last()) == 0);
    } else {
        lemma_dec_val_of_dec_str(n / 10);
        assert(dec_str(n).drop_last() =~= dec_str(n / 10));
        assert(dec_str(n).last() == (48 + n % 10) as u8);
        vstd::arithmetic::div_mod::lemma_fundamental_div_mod(n as int, 10);
        assert(dec_val(dec_str(n)) == (n / 10) * 10 + n % 10);
    }
}

/// The zero-padded digits of `n` read back as `n` when `n` fits the width.
proof fn lemma_dec_val_of_dec_str_w(n: nat, w: nat)
    requires
        n < pow10(w),
    ensures
        dec_val(dec_str_w(n, w)) == n,
    decreases w,
{
    if w == 0 {
        assert(pow10(0) == 1);
    } else {
        assert(pow10(w) == 10 * pow10((w - 1) as nat));
        assert(n / 10 < pow10((w - 1) as nat)) by (nonlinear_arith)
            requires
                n < 10 * pow10((w - 1) as nat),
        ;
        lemma_dec_val_of_dec_str_w(n / 10, (w - 1) as nat);
        assert(dec_str_w(n, w).drop_last() =~= dec_str_w(n / 10, (w - 1) as nat));
        assert(dec_str_w(n, w).last() == (48 + n % 10) as u8);
        vstd::arithmetic::div_mod::lemma_fundamental_div_mod(n as int, 10);
        assert(dec_val(dec_str_w(n, w)) == (n / 10) * 10 + n % 10);
    }
}

/// Stripping trailing zero digits divides the value by the matching power
/// of ten, exactly.
proof fn lemma_strip_zeros_val(s: Seq<u8>)
    requires
        all_digits(s),
    ensures
        strip_zeros(s).len() <= s.len(),
        all_digits(strip_zeros(s)),
        dec_val(strip_zeros(s)) * pow10((s.len() - strip_zeros(s).len()) as nat) == dec_val(s),
    decreases s.len(),
{
    lemma_strip_zeros_prefix(s);
    if s.len() > 0 && s.last() == 48 {
        assert(all_digits(s.drop_last())) by {
            assert(forall|i: int|
                0 <= i < s.len() - 1 ==> #[trigger] s.drop_last()[i] == s[i]);
        }
        lemma_strip_zeros_val(s.drop_last());
        let st = strip_zeros(s);
        assert(st == strip_zeros(s.drop_last()));
        assert(st.len() <= s.len() - 1);
        let k = (s.len() - 1 - st.len()) as nat;
        assert(dec_val(st) * pow10(k) == dec_val(s.drop_last()));
        assert(dec_val(s) == dec_val(s.drop_last()) * 10 + (s.last() - 48) as nat);
        assert((s.last() - 48) as nat == 0);
        assert(pow10(k + 1) == 10 * pow10(k));
        assert(dec_val(st) * pow10(k + 1) == (dec_val(st) * pow10(k)) * 10) by (nonlinear_arith)
            requires
                pow10(k + 1) == 10 * pow10(k),
        ;
        assert((s.len() - st.len()) as nat == k + 1);
        assert(dec_val(st) * pow10((s.len() - st.len()) as nat) == dec_val(s));
    } else {
        assert(strip_zeros(s) == s);
        assert(pow10(0) == 1);
        assert(dec_val(s) * 1 == dec_val(s));
        assert((s.len() - strip_zeros(s).len()) as nat == 0);
    }
}

/// Round trip: the canonical text of a scale parses back to the very same
/// scale, for every scale whose integer part the representation admits.
pub proof fn lemma_parse_of_fmt(m: u64)
    requires
        m <= SCALE_MICROS_MAX,
    ensures
        parse_scale(fmt_scale(m)) == Some(m),
{
    let ip = (m as nat) / 1_000_000;
    let fp = (m as nat) % 1_000_000;
    vstd::arithmetic::div_mod::lemma_fundamental_div_mod(m as int, 1_000_000);
    assert(ip <= SCALE_INT_MAX) by (nonlinear_arith)
        requires
            m as nat == 1_000_000 * ip + fp,
            fp < 1_000_000,
            m <= SCALE_MICROS_MAX,
    ;
    let a = dec_str(ip);
    lemma_dec_str_digits(ip);
    lemma_dec_val_of_dec_str(ip);
    let f = fmt_scale(m);
    if fp == 0 {
        assert(f == a);
        assert(forall|k: int| 0 <= k < f.len() ==> f[k] != 46) by {
            assert(forall|k: int| 0 <= k < f.len() ==> is_digit(#[trigger] f[k]));
        }
        crate::text::lemma_skip_until_is(f, 0, f.len() as int, 46);
        assert(f.subrange(0, f.len() as int) =~= f);
        assert(parse_scale(f) == Some((dec_val(a) * (MICROS_PER_UNIT as nat) + frac_micros(
            Seq::<u8>::empty(),
        )) as u64));
        assert(dec_val(Seq::<u8>::empty()) == 0);
        assert(dec_val(Seq::<u8>::empty()) * pow10(6) == 0) by (nonlinear_arith)
            requires
                dec_val(Seq::<u8>::empty()) == 0,
        ;
        assert(ip * 1_000_000 == m) by (nonlinear_arith)
            requires
                m as nat == 1_000_000 * ip + fp,
                fp == 0,
        ;
    } else {
        lemma_pow10_6();
        lemma_dec_str_w_digits(fp, 6);
        lemma_strip_zeros_val(dec_str_w(fp, 6));
        lemma_dec_val_of_dec_str_w(fp, 6);
        let z = strip_zeros(dec_str_w(fp, 6));
        assert(f == a + seq![46u8] + z);
        let al = a.len() as int;
        assert(forall|k: int| 0 <= k < al ==> f[k] == a[k]);
        assert(forall|k: int| 0 <= k < al ==> f[k] != 46) by {
            assert(forall|k: int| 0 <= k < al ==> is_digit(#[trigger] a[k]));
        }
        assert(f[al] == 46);
        crate::text::lemma_skip_until_is(f, 0, al, 46);
        assert(f.subrange(0, al) =~= a);
        assert(f.subrange(al + 1, f.len() as int) =~= z);
        let zl = z.len() as nat;
        assert(zl <= 6);
        if zl < 6 {
            assert(frac_micros(z) == dec_val(z) * pow10((6 - zl) as nat));
            assert(dec_val(z) * pow10((6 - zl) as nat) == fp);
        } else {
            assert(z.subrange(0, 6) =~= z);
            assert(pow10(0) == 1);
            assert(dec_val(z) * 1 == dec_val(z));
        }
        assert(parse_scale(f) == Some((dec_val(a) * (MICROS_PER_UNIT as nat) + frac_micros(z)) as u64));
        assert(ip * 1_000_000 + fp == m) by (nonlinear_arith)
            requires
                m as nat == 1_000_000 * ip + fp,
        ;
    }
}

} // verus!
