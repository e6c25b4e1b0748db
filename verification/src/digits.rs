//! Decimal digits: the numbers they denote, and how they compare.

use crate::order::lex_lt;
use crate::text::{append_chars, Text};
use vstd::prelude::*;

verus! {

/// An ASCII digit.
pub open spec fn digit(c: char) -> bool {
    '0' <= c <= '9'
}

/// Whether every character of `s` is an ASCII digit.
pub open spec fn all_digits(s: Text) -> bool {
    forall|i: int| 0 <= i < s.len() ==> digit(s[i])
}

/// The number that a run of decimal digits denotes.
pub open spec fn digits_value(s: Text) -> nat
    decreases s.len(),
{
    if s.len() == 0 {
        0
    } else {
        digits_value(s.drop_last()) * 10 + digit_value(s.last())
    }
}

/// The character of the digit `d`.
pub open spec fn digit_char(d: nat) -> char {
    if d == 0 {
        '0'
    } else if d == 1 {
        '1'
    } else if d == 2 {
        '2'
    } else if d == 3 {
        '3'
    } else if d == 4 {
        '4'
    } else if d == 5 {
        '5'
    } else if d == 6 {
        '6'
    } else if d == 7 {
        '7'
    } else if d == 8 {
        '8'
    } else {
        '9'
    }
}

/// The decimal digits of `n`, without leading zeros.
pub open spec fn decimal(n: nat) -> Text
    decreases n,
{
    if n < 10 {
        seq![digit_char(n)]
    } else {
        decimal(n / 10).push(digit_char(n % 10))
    }
}

/// The value of the digit `c`.
pub open spec fn digit_value(c: char) -> nat {
    (c as u32 - '0' as u32) as nat
}

/// Ten to the power of `k`.
pub open spec fn pow10(k: nat) -> nat
    decreases k,
{
    if k == 0 {
        1
    } else {
        10 * pow10((k - 1) as nat)
    }
}

/// A run of `k` zeros.
pub open spec fn zeros(k: nat) -> Text {
    Seq::new(k, |i: int| '0')
}

/// The decimal digits of a number denote it.
pub proof fn lemma_decimal_value(n: nat)
    ensures
        decimal(n).len() > 0,
        all_digits(decimal(n)),
        digits_value(decimal(n)) == n,
    decreases n,
{
    if n < 10 {
        let s = seq![digit_char(n)];
        assert(digits_value(s.drop_last()) == 0);
    } else {
        lemma_decimal_value(n / 10);
        let s = decimal(n);
        assert(s.drop_last() =~= decimal(n / 10));
    }
}

/// More digits at the end denote no smaller a number.
pub proof fn lemma_digits_value_grows(s: Text, i: int, j: int)
    requires
        0 <= i <= j <= s.len(),
    ensures
        digits_value(s.take(i)) <= digits_value(s.take(j)),
    decreases j - i,
{
    if i < j {
        lemma_digits_value_grows(s, i, j - 1);
        assert(s.take(j).drop_last() =~= s.take(j - 1));
    }
}

/// A number that is not zero has no zero in front of its decimal digits.
pub proof fn lemma_decimal_front(n: nat)
    requires
        n > 0,
    ensures
        decimal(n)[0] != '0',
    decreases n,
{
    if n >= 10 {
        lemma_decimal_front(n / 10);
    }
}

/// Ten to a sum of powers is the product of the powers of ten.
pub proof fn lemma_pow10_adds(a: nat, b: nat)
    ensures
        pow10(a + b) == pow10(a) * pow10(b),
    decreases a,
{
    let y = pow10(b) as int;
    if a > 0 {
        let x = pow10((a - 1) as nat) as int;
        lemma_pow10_adds((a - 1) as nat, b);
        assert(10 * (x * y) == (10 * x) * y) by (nonlinear_arith);
    } else {
        assert(1 * y == y) by (nonlinear_arith);
    }
}

/// A power of ten is at least one, and no smaller than a lower power.
pub proof fn lemma_pow10_grows(a: nat, b: nat)
    requires
        a <= b,
    ensures
        1 <= pow10(a) <= pow10(b),
    decreases b,
{
    if a < b {
        lemma_pow10_grows(a, (b - 1) as nat);
    } else if a > 0 {
        lemma_pow10_grows((a - 1) as nat, (a - 1) as nat);
    }
}

/// Digits of a given number are worth less than ten to their number; without
/// a zero in front they are worth at least a tenth of it.
pub proof fn lemma_value_bounds(s: Text)
    requires
        all_digits(s),
    ensures
        digits_value(s) < pow10(s.len()),
        s.len() > 0 && s[0] != '0' ==> digits_value(s) >= pow10((s.len() - 1) as nat),
    decreases s.len(),
{
    if s.len() > 0 {
        let t = s.drop_last();
        lemma_value_bounds(t);
    }
}

/// The worth of digits after one more digit in front.
pub proof fn lemma_value_front(c: char, s: Text)
    ensures
        digits_value(seq![c] + s) == digit_value(c) * pow10(s.len()) + digits_value(s),
    decreases s.len(),
{
    let whole = seq![c] + s;
    let d = digit_value(c) as int;
    if s.len() == 0 {
        assert(digits_value(whole.drop_last()) == 0);
        assert(d * 1 == d) by (nonlinear_arith);
    } else {
        let t = s.drop_last();
        let p = pow10(t.len()) as int;
        let v = digits_value(t) as int;
        lemma_value_front(c, t);
        assert(whole.drop_last() =~= seq![c] + t);
        assert((d * p + v) * 10 == d * (10 * p) + v * 10) by (nonlinear_arith);
    }
}

/// Zeros in front are worth nothing.
pub proof fn lemma_value_skips_zeros(s: Text, z: int)
    requires
        0 <= z <= s.len(),
        forall|i: int| 0 <= i < z ==> s[i] == '0',
    ensures
        digits_value(s) == digits_value(s.skip(z)),
    decreases z,
{
    if z > 0 {
        let t = s.drop_first();
        assert(s =~= seq![s[0]] + t);
        lemma_value_front(s[0], t);
        assert(digit_value('0') * pow10(t.len()) == 0) by (nonlinear_arith)
            requires
                digit_value('0') == 0,
        ;
        lemma_value_skips_zeros(t, z - 1);
        assert(t.skip(z - 1) =~= s.skip(z));
    } else {
        assert(s.skip(0) =~= s);
    }
}

/// Each zero at the end multiplies the worth by ten.
pub proof fn lemma_value_with_zeros(s: Text, k: nat)
    ensures
        digits_value(s + zeros(k)) == digits_value(s) * pow10(k),
    decreases k,
{
    let whole = s + zeros(k);
    let v = digits_value(s) as int;
    if k == 0 {
        assert(v * 1 == v) by (nonlinear_arith);
    } else {
        let p = pow10((k - 1) as nat) as int;
        lemma_value_with_zeros(s, (k - 1) as nat);
        assert(whole.drop_last() =~= s + zeros((k - 1) as nat));
        assert((v * p) * 10 == v * (10 * p)) by (nonlinear_arith);
    }
}

/// Digits of one length are worth less exactly if they come first.
pub proof fn lemma_digits_order(a: Text, b: Text)
    requires
        a.len() == b.len(),
        all_digits(a),
        all_digits(b),
    ensures
        lex_lt(a, b) <==> digits_value(a) < digits_value(b),
    decreases a.len(),
{
    if a.len() > 0 {
        let a1 = a.drop_first();
        let b1 = b.drop_first();
        assert(a =~= seq![a[0]] + a1);
        assert(b =~= seq![b[0]] + b1);
        lemma_value_front(a[0], a1);
        lemma_value_front(b[0], b1);
        lemma_value_bounds(a1);
        lemma_value_bounds(b1);
        let p = pow10(a1.len()) as int;
        let x = digit_value(a[0]) as int;
        let y = digit_value(b[0]) as int;
        if a[0] == b[0] {
            lemma_digits_order(a1, b1);
        } else if a[0] < b[0] {
            assert(x * p + p <= y * p) by (nonlinear_arith)
                requires
                    x + 1 <= y,
                    p >= 0,
            ;
        } else {
            assert(y * p + p <= x * p) by (nonlinear_arith)
                requires
                    y + 1 <= x,
                    p >= 0,
            ;
        }
    }
}

/// Digits followed by zeros are digits.
pub proof fn lemma_padded_digits(s: Text, k: nat)
    requires
        all_digits(s),
    ensures
        all_digits(s + zeros(k)),
{
}

/// Whether `c` is an ASCII digit.
pub(crate) fn is_digit(c: char) -> (r: bool)
    ensures
        r == digit(c),
{
    '0' <= c && c <= '9'
}

/// Whether every character of `s` from position `from` on is an ASCII digit.
pub(crate) fn digits_from(s: &[char], from: usize) -> (r: bool)
    requires
        from <= s@.len(),
    ensures
        r == all_digits(s@.skip(from as int)),
{
    let mut i: usize = from;
    while i < s.len()
        invariant
            from <= i <= s@.len(),
            forall|j: int| from <= j < i ==> digit(s@[j]),
        decreases s@.len() - i,
    {
        if !is_digit(s[i]) {
            assert(s@.skip(from as int)[i - from] == s@[i as int]);
            return false;
        }
        i += 1;
    }
    true
}

/// The value of the digit `c`.
pub(crate) fn digit_of(c: char) -> (r: u64)
    requires
        digit(c),
    ensures
        r == digit_value(c),
        r <= 9,
{
    (c as u32 - '0' as u32) as u64
}

/// The character of the digit `d`.
pub(crate) fn digit_to_char(d: u64) -> (r: char)
    requires
        d < 10,
    ensures
        r == digit_char(d as nat),
{
    if d == 0 {
        '0'
    } else if d == 1 {
        '1'
    } else if d == 2 {
        '2'
    } else if d == 3 {
        '3'
    } else if d == 4 {
        '4'
    } else if d == 5 {
        '5'
    } else if d == 6 {
        '6'
    } else if d == 7 {
        '7'
    } else if d == 8 {
        '8'
    } else {
        '9'
    }
}

/// Appends the decimal digits of `n` to `buf`.
pub(crate) fn put_decimal(buf: &mut Vec<char>, n: u64)
    ensures
        final(buf)@ == old(buf)@ + decimal(n as nat),
    decreases n,
{
    if n < 10 {
        buf.push(digit_to_char(n));
    } else {
        put_decimal(buf, n / 10);
        buf.push(digit_to_char(n % 10));
    }
}

/// The number that the digits `s` denote, if it is below `bound`.
pub(crate) fn bounded_value(s: &[char], bound: u128) -> (r: Option<u128>)
    requires
        all_digits(s@),
        bound <= 0x1_0000_0000_0000_0000_0000_0000,
    ensures
        match r {
            Some(v) => v == digits_value(s@) && v < bound,
            None => digits_value(s@) >= bound,
        },
{
    if bound == 0 {
        return None;
    }
    let mut acc: u128 = 0;
    let mut i: usize = 0;
    while i < s.len()
        invariant
            i <= s@.len(),
            all_digits(s@),
            acc == digits_value(s@.take(i as int)),
            acc < bound,
            bound <= 0x1_0000_0000_0000_0000_0000_0000,
        decreases s@.len() - i,
    {
        let d = digit_of(s[i]) as u128;
        let next: u128 = acc * 10 + d;
        proof {
            assert(s@.take(i + 1).drop_last() =~= s@.take(i as int));
        }
        if next >= bound {
            proof {
                lemma_digits_value_grows(s@, i + 1, s@.len() as int);
                assert(s@.take(s@.len() as int) =~= s@);
            }
            return None;
        }
        acc = next;
        i += 1;
    }
    assert(s@.take(i as int) =~= s@);
    Some(acc)
}

/// `s` with zeros after it, `width` characters in all.
pub(crate) fn padded(s: &[char], width: usize) -> (r: Vec<char>)
    requires
        s@.len() <= width,
    ensures
        r@ == s@ + zeros((width - s@.len()) as nat),
{
    let mut r: Vec<char> = Vec::new();
    append_chars(&mut r, s);
    while r.len() < width
        invariant
            s@.len() <= r@.len() <= width,
            r@ == s@ + zeros((r@.len() - s@.len()) as nat),
        decreases width - r@.len(),
    {
        r.push('0');
    }
    r
}

} // verus!
