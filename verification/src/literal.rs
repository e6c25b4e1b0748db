//! Value literals: the text after `:` classified as a scalar or as the
//! opening fence of a string block.

use crate::error::{result_view, ErrorView, ParseError};
use crate::digits::{all_digits, digit_of, digits_from, digits_value, lemma_digits_value_grows};
use crate::leaf::{Leaf, LeafView};
use crate::text::{
    count_leading, find_char, first_index, is_word, leading_run, to_chars, to_string, Text,
};
use vstd::prelude::*;
use vstd::slice::slice_subrange;

verus! {

/// What the text after `:` stands for.
#[derive(Debug, PartialEq, Eq)]
pub enum ParsedValue {
    /// A value that the line gives in full.
    Immediate(Leaf),
    /// The opening fence of a string block, made of `bt_count` backticks.
    StringStart { bt_count: usize },
}

/// A `ParsedValue` as the contracts see it.
pub enum ParsedView {
    Immediate(LeafView),
    StringStart { bt_count: nat },
}

impl View for ParsedValue {
    type V = ParsedView;

    open spec fn view(&self) -> ParsedView {
        match self {
            ParsedValue::Immediate(leaf) => ParsedView::Immediate(leaf@),
            ParsedValue::StringStart { bt_count } => ParsedView::StringStart {
                bt_count: *bt_count as nat,
            },
        }
    }
}

/// Whether `s` starts with a sign.
pub open spec fn signed(s: Text) -> bool {
    s.len() > 0 && (s[0] == '+' || s[0] == '-')
}

/// `s` without its sign, if it has one.
pub open spec fn unsigned(s: Text) -> Text {
    if signed(s) {
        s.skip(1)
    } else {
        s
    }
}

/// The integer that `s` denotes in decimal: an optional sign, then one or
/// more digits.
pub open spec fn integer_literal(s: Text) -> Option<int> {
    let body = unsigned(s);
    if body.len() > 0 && all_digits(body) {
        if s[0] == '-' {
            Some(-(digits_value(body) as int))
        } else {
            Some(digits_value(body) as int)
        }
    } else {
        None
    }
}

/// The 64-bit signed integer that `s` denotes, if it denotes one.
pub open spec fn i64_literal(s: Text) -> Option<i64> {
    match integer_literal(s) {
        Some(n) => if i64::MIN <= n <= i64::MAX {
            Some(n as i64)
        } else {
            None
        },
        None => None,
    }
}

/// The lower-case form of an ASCII letter; other characters as they are.
pub open spec fn lower(c: char) -> char {
    if 'A' <= c <= 'Z' {
        ((c as u8 + 32) as u8) as char
    } else {
        c
    }
}

/// Whether `s` spells `word` when ASCII case is ignored.
pub open spec fn spells(s: Text, word: Text) -> bool {
    &&& s.len() == word.len()
    &&& forall|i: int| 0 <= i < s.len() ==> lower(s[i]) == word[i]
}

/// Whether `s` names an infinity or a NaN: an optional sign, then `inf`,
/// `infinity` or `nan` in any case.
pub open spec fn names_non_finite(s: Text) -> bool {
    let body = unsigned(s);
    spells(body, "inf"@) || spells(body, "infinity"@) || spells(body, "nan"@)
}

/// Where the exponent of a decimal number starts: the first `e` or `E`.
pub open spec fn exponent_mark(s: Text) -> int {
    let a = first_index(s, 'e');
    let b = first_index(s, 'E');
    if a <= b {
        a
    } else {
        b
    }
}

/// Digits with at most one `.` among them, and at least one digit.
pub open spec fn mantissa(s: Text) -> bool {
    let dot = first_index(s, '.');
    if 0 <= dot < s.len() {
        &&& all_digits(s.take(dot))
        &&& all_digits(s.skip(dot + 1))
        &&& s.len() > 1
    } else {
        s.len() > 0 && all_digits(s)
    }
}

/// A decimal number without sign: a mantissa, then optionally `e` or `E`, an
/// optional sign and one or more digits.
pub open spec fn decimal_number(s: Text) -> bool {
    let e = exponent_mark(s);
    if 0 <= e < s.len() {
        let x = unsigned(s.skip(e + 1));
        mantissa(s.take(e)) && x.len() > 0 && all_digits(x)
    } else {
        mantissa(s)
    }
}

/// Whether `s` is a floating-point literal: an optional sign, then a decimal
/// number or the name of an infinity or a NaN.
pub open spec fn float_literal(s: Text) -> bool {
    names_non_finite(s) || decimal_number(unsigned(s))
}

/// What the value text `v` of line `line` stands for. The forms are tried in
/// this order: the two booleans, the empty list, the empty object, a 64-bit
/// signed integer, a float, the opening fence of a string block.
pub open spec fn classify(v: Text, line: nat) -> Result<ParsedView, ErrorView> {
    if v == "`true`"@ {
        Ok(ParsedView::Immediate(LeafView::Bool(true)))
    } else if v == "`false`"@ {
        Ok(ParsedView::Immediate(LeafView::Bool(false)))
    } else if v == "[]"@ {
        Ok(ParsedView::Immediate(LeafView::EmptyList))
    } else if v == "{}"@ {
        Ok(ParsedView::Immediate(LeafView::EmptyObject))
    } else if i64_literal(v) is Some {
        Ok(ParsedView::Immediate(LeafView::Int(i64_literal(v).unwrap())))
    } else if float_literal(v) {
        Ok(ParsedView::Immediate(LeafView::Float(v)))
    } else if leading_run(v, '`') >= 3 {
        Ok(ParsedView::StringStart { bt_count: leading_run(v, '`') })
    } else {
        Err(ErrorView::InvalidValue { line, value: v })
    }
}

/// `s` without its sign, if it has one.
pub(crate) fn skip_sign(s: &[char]) -> (r: &[char])
    ensures
        r@ == unsigned(s@),
{
    if s.len() > 0 && (s[0] == '+' || s[0] == '-') {
        slice_subrange(s, 1, s.len())
    } else {
        s
    }
}

/// Reads a 64-bit signed integer in decimal.
pub fn parse_i64(s: &[char]) -> (r: Option<i64>)
    ensures
        r == i64_literal(s@),
{
    let body = skip_sign(s);
    if body.len() == 0 || !digits_from(body, 0) {
        return None;
    }
    assert(body@.skip(0) =~= body@);
    let negative = s[0] == '-';
    let limit: u64 = if negative {
        9223372036854775808
    } else {
        9223372036854775807
    };
    let mut acc: u64 = 0;
    let mut i: usize = 0;
    while i < body.len()
        invariant
            i <= body@.len(),
            all_digits(body@),
            body@ == unsigned(s@),
            body@.len() > 0,
            negative == (s@[0] == '-'),
            limit == if negative { 9223372036854775808u64 } else { 9223372036854775807u64 },
            acc == digits_value(body@.take(i as int)),
            acc <= limit,
        decreases body@.len() - i,
    {
        let d = digit_of(body[i]);
        proof {
            assert(body@.take(i + 1).drop_last() =~= body@.take(i as int));
        }
        if acc > (limit - d) / 10 {
            proof {
                lemma_digits_value_grows(body@, i + 1, body@.len() as int);
                assert(body@.take(body@.len() as int) =~= body@);
            }
            return None;
        }
        acc = acc * 10 + d;
        i += 1;
    }
    if negative {
        if acc == 9223372036854775808 {
            Some(i64::MIN)
        } else {
            Some(-(acc as i64))
        }
    } else {
        Some(acc as i64)
    }
}

/// The lower-case form of an ASCII letter; other characters as they are.
fn to_lower(c: char) -> (r: char)
    ensures
        r == lower(c),
{
    if 'A' <= c && c <= 'Z' {
        ((c as u8) + 32) as char
    } else {
        c
    }
}

/// Whether `s` spells `word` when ASCII case is ignored.
fn spells_word(s: &[char], word: &str) -> (r: bool)
    ensures
        r == spells(s@, word@),
{
    let w = to_chars(word);
    if s.len() != w.len() {
        return false;
    }
    let mut i: usize = 0;
    while i < s.len()
        invariant
            i <= s@.len(),
            s@.len() == w@.len(),
            w@ == word@,
            forall|j: int| 0 <= j < i ==> lower(s@[j]) == w@[j],
        decreases s@.len() - i,
    {
        if to_lower(s[i]) != w[i] {
            return false;
        }
        i += 1;
    }
    true
}

/// Whether `s` names an infinity or a NaN.
pub(crate) fn is_non_finite(s: &[char]) -> (r: bool)
    ensures
        r == names_non_finite(s@),
{
    let body = skip_sign(s);
    spells_word(body, "inf") || spells_word(body, "infinity") || spells_word(body, "nan")
}

/// Whether `s` is a mantissa.
fn is_mantissa(s: &[char]) -> (r: bool)
    ensures
        r == mantissa(s@),
{
    let dot = find_char(s, '.');
    if dot < s.len() {
        let whole = slice_subrange(s, 0, dot);
        assert(whole@.skip(0) =~= whole@);
        digits_from(whole, 0) && digits_from(s, dot + 1) && s.len() > 1
    } else {
        assert(s@.skip(0) =~= s@);
        s.len() > 0 && digits_from(s, 0)
    }
}

/// Whether `s` is a decimal number without sign.
pub(crate) fn is_decimal_number(s: &[char]) -> (r: bool)
    ensures
        r == decimal_number(s@),
{
    let a = find_char(s, 'e');
    let b = find_char(s, 'E');
    let e = if a <= b {
        a
    } else {
        b
    };
    if e < s.len() {
        let x = skip_sign(slice_subrange(s, e + 1, s.len()));
        assert(x@.skip(0) =~= x@);
        is_mantissa(slice_subrange(s, 0, e)) && x.len() > 0 && digits_from(x, 0)
    } else {
        is_mantissa(s)
    }
}

/// Whether `s` is a floating-point literal.
pub(crate) fn is_float(s: &[char]) -> (r: bool)
    ensures
        r == float_literal(s@),
{
    is_non_finite(s) || is_decimal_number(skip_sign(s))
}

/// Classifies the value text of line `line`.
pub(crate) fn parse_value_chars(raw: &[char], line: usize) -> (r: Result<ParsedValue, ParseError>)
    ensures
        result_view(r) == classify(raw@, line as nat),
{
    if is_word(raw, "`true`") {
        return Ok(ParsedValue::Immediate(Leaf::Bool(true)));
    }
    if is_word(raw, "`false`") {
        return Ok(ParsedValue::Immediate(Leaf::Bool(false)));
    }
    if is_word(raw, "[]") {
        return Ok(ParsedValue::Immediate(Leaf::EmptyList));
    }
    if is_word(raw, "{}") {
        return Ok(ParsedValue::Immediate(Leaf::EmptyObject));
    }
    if let Some(n) = parse_i64(raw) {
        return Ok(ParsedValue::Immediate(Leaf::Int(n)));
    }
    if is_float(raw) {
        return Ok(ParsedValue::Immediate(Leaf::Float(to_string(raw))));
    }
    let bt_count = count_leading(raw, '`');
    if bt_count >= 3 {
        return Ok(ParsedValue::StringStart { bt_count });
    }
    Err(ParseError::InvalidValue { line, value: to_string(raw) })
}

/// Classifies the value text of line `line`.
pub fn parse_value(raw: &str, line: usize) -> (r: Result<ParsedValue, ParseError>)
    ensures
        result_view(r) == classify(raw@, line as nat),
{
    let chars = to_chars(raw);
    parse_value_chars(chars.as_slice(), line)
}

} // verus!
