//! Finite floats: whether the number that a float literal denotes has a
//! finite double nearest to it.
//!
//! Rounded to the nearest double, a number overflows to an infinity exactly
//! when its magnitude is at least 2^1024 - 2^970, half way between the largest
//! finite double and 2^1024. The library decides this from the digits of the
//! literal, without ever holding the number.

use crate::digits::{
    all_digits, bounded_value, decimal, digit, digit_of, digit_to_char, digit_value, digits_value,
    lemma_decimal_front, lemma_decimal_value, lemma_digits_order, lemma_padded_digits,
    lemma_pow10_adds, lemma_pow10_grows, lemma_value_bounds, lemma_value_skips_zeros,
    lemma_value_with_zeros, padded, pow10, put_decimal,
};
use crate::literal::{
    decimal_number, exponent_mark, is_decimal_number, is_non_finite, mantissa, names_non_finite,
    skip_sign, unsigned,
};
use crate::order::comes_before;
use crate::text::{append_chars, count_leading, find_char, first_index, Text};
use vstd::arithmetic::power2::{lemma2_to64_rest, lemma_pow2_adds, lemma_pow2_unfold, pow2};
use vstd::prelude::*;
use vstd::slice::slice_subrange;

verus! {

/// The least magnitude that rounds to an infinity: 2^1024 - 2^970.
pub open spec fn overflow_threshold() -> nat {
    (pow2(1024) - pow2(970)) as nat
}

/// A power of two is at most the same power of ten.
proof fn lemma_pow2_below_pow10(k: nat)
    ensures
        1 <= pow2(k) <= pow10(k),
    decreases k,
{
    if k > 0 {
        lemma_pow2_below_pow10((k - 1) as nat);
        lemma_pow2_unfold(k);
    } else {
        vstd::arithmetic::power2::lemma2_to64();
    }
}

/// A thousand is less than 1024, power by power.
proof fn lemma_pow10_below_pow2(k: nat)
    ensures
        pow10(3 * k) <= pow2(10 * k),
    decreases k,
{
    if k > 0 {
        lemma_pow10_below_pow2((k - 1) as nat);
        lemma_pow10_adds((3 * (k - 1)) as nat, 3);
        lemma_pow2_adds((10 * (k - 1)) as nat, 10);
        vstd::arithmetic::power2::lemma2_to64();
        assert(pow10(3) == 1000) by {
            reveal_with_fuel(pow10, 4);
        }
        let a = pow10((3 * (k - 1)) as nat) as int;
        let b = pow2((10 * (k - 1)) as nat) as int;
        assert(a * 1000 <= b * 1024) by (nonlinear_arith)
            requires
                0 <= a <= b,
        ;
    } else {
        vstd::arithmetic::power2::lemma2_to64();
    }
}

/// Where the threshold lies among the powers of ten, and what it is twice and
/// again of.
pub proof fn lemma_threshold()
    ensures
        pow10(300) <= overflow_threshold() < pow10(1024),
        overflow_threshold() == 18014398509481983 * pow2(970),
{
    lemma_pow2_adds(970, 54);
    lemma2_to64_rest();
    lemma_pow2_adds(970, 30);
    vstd::arithmetic::power2::lemma2_to64();
    lemma_pow10_below_pow2(100);
    lemma_pow2_below_pow10(1024);
    let a = pow2(970) as int;
    let b = pow2(1000) as int;
    assert(pow2(1024) == a * 0x40000000000000) by (nonlinear_arith)
        requires
            pow2(1024) == a * pow2(54),
            pow2(54) == 0x40000000000000,
    ;
    assert(b == a * 0x40000000) by (nonlinear_arith)
        requires
            b == a * pow2(30),
            pow2(30) == 0x40000000,
    ;
    assert(b <= 18014398509481983 * a) by (nonlinear_arith)
        requires
            b == a * 0x40000000,
            a >= 0,
    ;
}

/// Whether the digit at position `i` is five or more, so that its double
/// carries into the position before.
pub open spec fn carry_at(s: Text, i: int) -> nat {
    if 0 <= i < s.len() && digit_value(s[i]) >= 5 {
        1
    } else {
        0
    }
}

/// The digits of twice the number that the digits `v` denote.
fn double(v: &Vec<char>) -> (r: Vec<char>)
    requires
        all_digits(v@),
        v@.len() > 0,
        v@[0] != '0',
    ensures
        all_digits(r@),
        r@.len() > 0,
        r@[0] != '0',
        digits_value(r@) == 2 * digits_value(v@),
{
    let n = v.len();
    let mut out: Vec<char> = Vec::new();
    if digit_of(v[0]) >= 5 {
        out.push('1');
        assert(digits_value(out@.drop_last()) == 0);
    }
    let mut i: usize = 0;
    while i < n
        invariant
            i <= n,
            n == v@.len(),
            all_digits(v@),
            v@[0] != '0',
            all_digits(out@),
            out@.len() > 0 ==> out@[0] != '0',
            i > 0 ==> out@.len() > 0,
            digits_value(out@) == 2 * digits_value(v@.take(i as int)) + carry_at(v@, i as int),
        decreases n - i,
    {
        let d = digit_of(v[i]);
        let mut c: u64 = 0;
        if i + 1 < n {
            if digit_of(v[i + 1]) >= 5 {
                c = 1;
            }
        }
        let x = 2 * d + c;
        let y = if x >= 10 {
            x - 10
        } else {
            x
        };
        let ghost before = out@;
        out.push(digit_to_char(y));
        proof {
            assert(out@.drop_last() =~= before);
            assert(v@.take(i + 1).drop_last() =~= v@.take(i as int));
        }
        i += 1;
    }
    assert(v@.take(n as int) =~= v@);
    out
}

/// The decimal digits of the threshold.
fn threshold_digits() -> (r: Vec<char>)
    ensures
        all_digits(r@),
        r@.len() > 0,
        r@[0] != '0',
        digits_value(r@) == overflow_threshold(),
{
    let mut v: Vec<char> = Vec::new();
    put_decimal(&mut v, 18014398509481983);
    proof {
        lemma_decimal_value(18014398509481983);
        lemma_decimal_front(18014398509481983);
        vstd::arithmetic::power2::lemma2_to64();
    }
    let mut k: usize = 0;
    while k < 970
        invariant
            k <= 970,
            all_digits(v@),
            v@.len() > 0,
            v@[0] != '0',
            digits_value(v@) == 18014398509481983 * pow2(k as nat),
        decreases 970 - k,
    {
        v = double(&v);
        proof {
            lemma_pow2_unfold((k + 1) as nat);
        }
        k += 1;
    }
    proof {
        lemma_threshold();
    }
    v
}

/// The digits of the mantissa of the decimal number `s`, without the dot.
pub open spec fn significand(s: Text) -> Text {
    let m = s.take(exponent_mark(s));
    let dot = first_index(m, '.');
    if 0 <= dot < m.len() {
        m.take(dot) + m.skip(dot + 1)
    } else {
        m
    }
}

/// How many digits of the decimal number `s` follow the dot.
pub open spec fn fraction_len(s: Text) -> nat {
    let m = s.take(exponent_mark(s));
    let dot = first_index(m, '.');
    if 0 <= dot < m.len() {
        (m.len() - dot - 1) as nat
    } else {
        0
    }
}

/// The exponent of the decimal number `s`; zero if it has none.
pub open spec fn exponent(s: Text) -> int {
    let e = exponent_mark(s);
    if 0 <= e < s.len() {
        let x = s.skip(e + 1);
        if x.len() > 0 && x[0] == '-' {
            -(digits_value(unsigned(x)) as int)
        } else {
            digits_value(unsigned(x)) as int
        }
    } else {
        0
    }
}

/// Whether `d` times ten to the power of `scale` is at least `bound`.
pub open spec fn scaled_at_least(d: nat, scale: int, bound: nat) -> bool {
    if scale >= 0 {
        d * pow10(scale as nat) >= bound
    } else {
        d >= bound * pow10((-scale) as nat)
    }
}

/// Whether the decimal number `s` is at least `bound`: the number is its
/// significand times ten to the power of its exponent, less one for each digit
/// after the dot.
pub open spec fn at_least(s: Text, bound: nat) -> bool {
    scaled_at_least(digits_value(significand(s)), exponent(s) - fraction_len(s), bound)
}

/// Whether the float literal `s` is a decimal number too large in magnitude
/// for a finite double to be the nearest to it.
pub open spec fn overflows(s: Text) -> bool {
    decimal_number(unsigned(s)) && at_least(unsigned(s), overflow_threshold())
}

/// Whether the float literal `s` denotes no finite double: it names an
/// infinity or a NaN, or its number rounds to an infinity.
pub open spec fn non_finite(s: Text) -> bool {
    names_non_finite(s) || overflows(s)
}

/// A number of `digits` digits, scaled, is at least any bound that has no
/// more digits than the scaled number.
proof fn lemma_scaled_large(d: nat, digits: nat, scale: int, bound: nat)
    requires
        digits >= 1,
        d >= pow10((digits - 1) as nat),
        digits - 1 + scale >= 0,
        bound <= pow10((digits - 1 + scale) as nat),
    ensures
        scaled_at_least(d, scale, bound),
{
    if scale >= 0 {
        let p = pow10(scale as nat) as int;
        let q = pow10((digits - 1) as nat) as int;
        lemma_pow10_adds((digits - 1) as nat, scale as nat);
        assert(d * p >= q * p) by (nonlinear_arith)
            requires
                d >= q,
                p >= 0,
        ;
    } else {
        let k = (-scale) as nat;
        let p = pow10(k) as int;
        let q = pow10((digits - 1 + scale) as nat) as int;
        lemma_pow10_adds((digits - 1 + scale) as nat, k);
        assert(bound * p <= q * p) by (nonlinear_arith)
            requires
                bound <= q,
                p >= 0,
        ;
    }
}

/// A number of at most `digits` digits, scaled, is below any bound that has
/// more digits than the scaled number.
proof fn lemma_scaled_small(d: nat, digits: nat, scale: int, bound: nat)
    requires
        d < pow10(digits),
        bound >= 1,
        digits + scale >= 0 ==> bound >= pow10((digits + scale) as nat),
    ensures
        !scaled_at_least(d, scale, bound),
{
    let q = pow10(digits) as int;
    if scale >= 0 {
        let p = pow10(scale as nat) as int;
        lemma_pow10_adds(digits, scale as nat);
        lemma_pow10_grows(0, scale as nat);
        assert(d * p < q * p) by (nonlinear_arith)
            requires
                d < q,
                p >= 1,
        ;
    } else {
        let k = (-scale) as nat;
        let p = pow10(k) as int;
        if digits + scale >= 0 {
            let r = pow10((digits + scale) as nat) as int;
            lemma_pow10_adds((digits + scale) as nat, k);
            assert(bound * p >= r * p) by (nonlinear_arith)
                requires
                    bound >= r,
                    p >= 0,
            ;
        } else {
            lemma_pow10_grows(digits, k);
            assert(bound * p >= p) by (nonlinear_arith)
                requires
                    bound >= 1,
                    p >= 0,
            ;
        }
    }
}

/// Zero stays below any bound that is not zero.
proof fn lemma_scaled_zero(scale: int, bound: nat)
    requires
        bound >= 1,
    ensures
        !scaled_at_least(0, scale, bound),
{
    if scale >= 0 {
        let p = pow10(scale as nat) as int;
        assert(0 * p == 0) by (nonlinear_arith);
    } else {
        let p = pow10((-scale) as nat) as int;
        lemma_pow10_grows(0, (-scale) as nat);
        assert(bound * p >= 1) by (nonlinear_arith)
            requires
                bound >= 1,
                p >= 1,
        ;
    }
}

/// The digits of the mantissa of the decimal number `s` without the dot, and
/// how many of them follow the dot.
fn significand_digits(s: &[char]) -> (r: (Vec<char>, usize))
    requires
        decimal_number(s@),
    ensures
        r.0@ == significand(s@),
        all_digits(r.0@),
        r.1 == fraction_len(s@),
{
    let a = find_char(s, 'e');
    let b = find_char(s, 'E');
    let e = if a <= b {
        a
    } else {
        b
    };
    let m = slice_subrange(s, 0, e);
    assert(mantissa(m@)) by {
        if e == s@.len() {
            assert(s@.take(e as int) =~= s@);
        }
    }
    let dot = find_char(m, '.');
    let mut digits: Vec<char> = Vec::new();
    if dot < m.len() {
        let whole = slice_subrange(m, 0, dot);
        let part = slice_subrange(m, dot + 1, m.len());
        append_chars(&mut digits, whole);
        append_chars(&mut digits, part);
        (digits, m.len() - dot - 1)
    } else {
        append_chars(&mut digits, m);
        (digits, 0)
    }
}

/// The largest exponent that is read in full.
pub open spec fn exponent_cap() -> nat {
    0x40_0000_0000_0000_0000
}

/// Whether the exponent of the decimal number `s` is negative, and how large
/// it is, if that is below the cap.
fn exponent_parts(s: &[char]) -> (r: (bool, Option<u128>))
    requires
        decimal_number(s@),
    ensures
        match r.1 {
            Some(v) => v < exponent_cap() && exponent(s@) == if r.0 {
                -(v as int)
            } else {
                v as int
            },
            None => if r.0 {
                exponent(s@) <= -(exponent_cap() as int)
            } else {
                exponent(s@) >= exponent_cap()
            },
        },
{
    let a = find_char(s, 'e');
    let b = find_char(s, 'E');
    let e = if a <= b {
        a
    } else {
        b
    };
    if e < s.len() {
        let signed_part = slice_subrange(s, e + 1, s.len());
        let negative = signed_part.len() > 0 && signed_part[0] == '-';
        let x = skip_sign(signed_part);
        (negative, bounded_value(x, 0x40_0000_0000_0000_0000))
    } else {
        (false, Some(0))
    }
}

/// Whether the number of the digits `sig`, which has `count` digits before
/// the dot, is at least the overflow threshold.
fn near_threshold(sig: &[char], count: i128, Ghost(scale): Ghost<int>) -> (r: bool)
    requires
        all_digits(sig@),
        sig@.len() > 0,
        sig@[0] != '0',
        count == sig@.len() + scale,
        0 <= count <= 1024,
    ensures
        r == scaled_at_least(digits_value(sig@), scale, overflow_threshold()),
{
    let ghost d = digits_value(sig@);
    let ghost bound = overflow_threshold();
    let len = sig.len();
    let t = threshold_digits();
    proof {
        lemma_value_bounds(t@);
        lemma_value_bounds(sig@);
    }
    let width = t.len() as i128;
    if count > width {
        proof {
            lemma_pow10_grows(t@.len(), (count - 1) as nat);
            lemma_scaled_large(d, len as nat, scale, bound);
        }
        true
    } else if count < width {
        proof {
            lemma_pow10_grows(count as nat, (t@.len() - 1) as nat);
            lemma_scaled_small(d, len as nat, scale, bound);
        }
        false
    } else {
        let most = if len >= t.len() {
            len
        } else {
            t.len()
        };
        let left = padded(sig, most);
        let right = padded(t.as_slice(), most);
        proof {
            lemma_padded_digits(sig@, (most - len) as nat);
            lemma_padded_digits(t@, (most - t@.len()) as nat);
            lemma_value_with_zeros(sig@, (most - len) as nat);
            lemma_value_with_zeros(t@, (most - t@.len()) as nat);
            lemma_digits_order(left@, right@);
        }
        !comes_before(left.as_slice(), right.as_slice())
    }
}

/// Whether the decimal number `s` is at least the overflow threshold.
fn reaches_threshold(s: &[char]) -> (r: bool)
    requires
        decimal_number(s@),
    ensures
        r == at_least(s@, overflow_threshold()),
{
    let (digits, fraction) = significand_digits(s);
    let (negative, magnitude) = exponent_parts(s);
    let ghost d = digits_value(digits@);
    let ghost scale = exponent(s@) - fraction_len(s@);
    let ghost bound = overflow_threshold();
    proof {
        lemma_threshold();
        lemma_pow10_grows(0, 300);
    }
    let z = count_leading(digits.as_slice(), '0');
    let len = digits.len() - z;
    proof {
        crate::text::lemma_leading_run_bounds(digits@, '0');
        lemma_value_skips_zeros(digits@, z as int);
    }
    let sig = slice_subrange(digits.as_slice(), z, digits.len());
    if len == 0 {
        proof {
            lemma_scaled_zero(scale, bound);
        }
        return false;
    }
    proof {
        lemma_value_bounds(sig@);
    }
    match magnitude {
        None => {
            proof {
                if negative {
                    lemma_scaled_small(d, len as nat, scale, bound);
                } else {
                    lemma_pow10_grows(1024, (len - 1 + scale) as nat);
                    lemma_scaled_large(d, len as nat, scale, bound);
                }
            }
            !negative
        },
        Some(value) => {
            let exp: i128 = if negative {
                -(value as i128)
            } else {
                value as i128
            };
            let count: i128 = len as i128 + exp - fraction as i128;
            if count <= 300 {
                proof {
                    if count >= 0 {
                        lemma_pow10_grows(count as nat, 300);
                    }
                    lemma_scaled_small(d, len as nat, scale, bound);
                }
                false
            } else if count > 1024 {
                proof {
                    lemma_pow10_grows(1024, (count - 1) as nat);
                    lemma_scaled_large(d, len as nat, scale, bound);
                }
                true
            } else {
                near_threshold(sig, count, Ghost(scale))
            }
        },
    }
}

/// Whether the float literal `s` is a decimal number that rounds to an
/// infinity.
pub(crate) fn is_overflowing(s: &[char]) -> (r: bool)
    ensures
        r == overflows(s@),
{
    let body = skip_sign(s);
    if !is_decimal_number(body) {
        return false;
    }
    reaches_threshold(body)
}

/// Whether the float literal `s` denotes no finite double.
pub fn is_not_finite(s: &[char]) -> (r: bool)
    ensures
        r == non_finite(s@),
{
    is_non_finite(s) || is_overflowing(s)
}

} // verus!
