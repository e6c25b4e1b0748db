//! Character-level helpers: whitespace, trimming, searching and splitting.
//!
//! Text is modelled as `Seq<char>`; executable code works on `&[char]`.

use vstd::prelude::*;
use vstd::slice::slice_subrange;

verus! {

/// A piece of text as the contracts see it.
pub type Text = Seq<char>;

/// Whether `c` has the Unicode `White_Space` property.
pub open spec fn is_space(c: char) -> bool {
    ||| '\u{9}' <= c <= '\u{d}'
    ||| c == ' '
    ||| c == '\u{85}'
    ||| c == '\u{a0}'
    ||| c == '\u{1680}'
    ||| '\u{2000}' <= c <= '\u{200a}'
    ||| c == '\u{2028}'
    ||| c == '\u{2029}'
    ||| c == '\u{202f}'
    ||| c == '\u{205f}'
    ||| c == '\u{3000}'
}

/// `s` without its leading whitespace.
pub open spec fn trimmed_start(s: Text) -> Text
    decreases s.len(),
{
    if s.len() > 0 && is_space(s[0]) {
        trimmed_start(s.drop_first())
    } else {
        s
    }
}

/// `s` without its trailing whitespace.
pub open spec fn trimmed_end(s: Text) -> Text
    decreases s.len(),
{
    if s.len() > 0 && is_space(s.last()) {
        trimmed_end(s.drop_last())
    } else {
        s
    }
}

/// `s` without leading and trailing whitespace.
pub open spec fn trimmed(s: Text) -> Text {
    trimmed_end(trimmed_start(s))
}

/// The position of the first `c` in `s`, or `s.len()` when there is none.
pub open spec fn first_index(s: Text, c: char) -> int
    decreases s.len(),
{
    if s.len() == 0 {
        0
    } else if s[0] == c {
        0
    } else {
        1 + first_index(s.drop_first(), c)
    }
}

/// The pieces of `s` between occurrences of `sep`. There is always at least
/// one piece, and `k` separators give `k + 1` pieces.
pub open spec fn pieces(s: Text, sep: char) -> Seq<Text>
    decreases s.len(),
{
    let i = first_index(s, sep);
    if 0 <= i < s.len() {
        seq![s.take(i)] + pieces(s.skip(i + 1), sep)
    } else {
        seq![s]
    }
}

/// How many times `c` stands at the start of `s` without a break.
pub open spec fn leading_run(s: Text, c: char) -> nat
    decreases s.len(),
{
    if s.len() > 0 && s[0] == c {
        1 + leading_run(s.drop_first(), c)
    } else {
        0
    }
}

/// The views of a vector of slices.
pub open spec fn views(v: Seq<&[char]>) -> Seq<Text> {
    Seq::new(v.len(), |i: int| v[i]@)
}

/// A position that holds `c` and has no `c` before it is the first index.
pub proof fn lemma_first_index_is(s: Text, c: char, i: int)
    requires
        0 <= i <= s.len(),
        i < s.len() ==> s[i] == c,
        forall|j: int| 0 <= j < i ==> s[j] != c,
    ensures
        first_index(s, c) == i,
    decreases s.len(),
{
    if s.len() > 0 && s[0] != c {
        let t = s.drop_first();
        lemma_first_index_is(t, c, i - 1);
    }
}

/// Leading whitespace ends at the first character that is none.
pub proof fn lemma_trimmed_start_is(s: Text, i: int)
    requires
        0 <= i <= s.len(),
        forall|j: int| 0 <= j < i ==> is_space(s[j]),
        i < s.len() ==> !is_space(s[i]),
    ensures
        trimmed_start(s) == s.skip(i),
    decreases s.len(),
{
    if i > 0 {
        lemma_trimmed_start_is(s.drop_first(), i - 1);
    }
}

/// Trailing whitespace starts after the last character that is none.
pub proof fn lemma_trimmed_end_is(s: Text, i: int)
    requires
        0 <= i <= s.len(),
        forall|j: int| i <= j < s.len() ==> is_space(s[j]),
        i > 0 ==> !is_space(s[i - 1]),
    ensures
        trimmed_end(s) == s.take(i),
    decreases s.len(),
{
    if i < s.len() {
        lemma_trimmed_end_is(s.drop_last(), i);
    }
}

/// Whether `c` is whitespace.
pub(crate) fn is_space_char(c: char) -> (r: bool)
    ensures
        r == is_space(c),
{
    ('\u{9}' <= c && c <= '\u{d}') || c == ' ' || c == '\u{85}' || c == '\u{a0}' || c == '\u{1680}'
        || ('\u{2000}' <= c && c <= '\u{200a}') || c == '\u{2028}' || c == '\u{2029}' || c
        == '\u{202f}' || c == '\u{205f}' || c == '\u{3000}'
}

/// Removes leading whitespace.
pub fn trim_start(s: &[char]) -> (r: &[char])
    ensures
        r@ == trimmed_start(s@),
{
    let mut i: usize = 0;
    while i < s.len() && is_space_char(s[i])
        invariant
            i <= s@.len(),
            forall|j: int| 0 <= j < i ==> is_space(s@[j]),
        decreases s@.len() - i,
    {
        i += 1;
    }
    proof {
        lemma_trimmed_start_is(s@, i as int);
    }
    slice_subrange(s, i, s.len())
}

/// Removes trailing whitespace.
pub fn trim_end(s: &[char]) -> (r: &[char])
    ensures
        r@ == trimmed_end(s@),
{
    let mut i: usize = s.len();
    while i > 0 && is_space_char(s[i - 1])
        invariant
            i <= s@.len(),
            forall|j: int| i <= j < s@.len() ==> is_space(s@[j]),
        decreases i,
    {
        i -= 1;
    }
    proof {
        lemma_trimmed_end_is(s@, i as int);
    }
    slice_subrange(s, 0, i)
}

/// Removes leading and trailing whitespace.
pub fn trim(s: &[char]) -> (r: &[char])
    ensures
        r@ == trimmed(s@),
{
    trim_end(trim_start(s))
}

/// Finds the first `c` in `s`; the length of `s` when there is none.
pub fn find_char(s: &[char], c: char) -> (r: usize)
    ensures
        r == first_index(s@, c),
        r <= s@.len(),
{
    let mut i: usize = 0;
    while i < s.len() && s[i] != c
        invariant
            i <= s@.len(),
            forall|j: int| 0 <= j < i ==> s@[j] != c,
        decreases s@.len() - i,
    {
        i += 1;
    }
    proof {
        lemma_first_index_is(s@, c, i as int);
    }
    i
}

/// Splits `s` at every `sep`.
pub fn split(s: &[char], sep: char) -> (r: Vec<&[char]>)
    ensures
        views(r@) == pieces(s@, sep),
{
    let mut out: Vec<&[char]> = Vec::new();
    let mut rest: &[char] = s;
    loop
        invariant
            pieces(s@, sep) == views(out@) + pieces(rest@, sep),
        decreases rest@.len(),
    {
        let i = find_char(rest, sep);
        if i < rest.len() {
            let head = slice_subrange(rest, 0, i);
            let tail = slice_subrange(rest, i + 1, rest.len());
            out.push(head);
            rest = tail;
        } else {
            out.push(rest);
            return out;
        }
    }
}

/// A run of `c` at the start ends at the first character that is not `c`.
pub proof fn lemma_leading_run_is(s: Text, c: char, i: int)
    requires
        0 <= i <= s.len(),
        forall|j: int| 0 <= j < i ==> s[j] == c,
        i < s.len() ==> s[i] != c,
    ensures
        leading_run(s, c) == i,
    decreases s.len(),
{
    if i > 0 {
        let t = s.drop_first();
        lemma_leading_run_is(t, c, i - 1);
    }
}

/// The leading run of `c` holds only `c`, and what follows it is not `c`.
pub proof fn lemma_leading_run_bounds(s: Text, c: char)
    ensures
        leading_run(s, c) <= s.len(),
        forall|j: int| 0 <= j < leading_run(s, c) ==> s[j] == c,
        leading_run(s, c) < s.len() ==> s[leading_run(s, c) as int] != c,
    decreases s.len(),
{
    if s.len() > 0 && s[0] == c {
        let t = s.drop_first();
        lemma_leading_run_bounds(t, c);
        assert forall|j: int| 0 <= j < leading_run(s, c) implies s[j] == c by {
            if j > 0 {
                assert(s[j] == t[j - 1]);
            }
        }
    }
}

/// Counts the `c` at the start of `s`.
pub(crate) fn count_leading(s: &[char], c: char) -> (r: usize)
    ensures
        r == leading_run(s@, c),
        r <= s@.len(),
{
    let mut i: usize = 0;
    while i < s.len() && s[i] == c
        invariant
            i <= s@.len(),
            forall|j: int| 0 <= j < i ==> s@[j] == c,
        decreases s@.len() - i,
    {
        i += 1;
    }
    proof {
        lemma_leading_run_is(s@, c, i as int);
    }
    i
}

/// Whether two slices hold the same characters.
pub(crate) fn same_chars(a: &[char], b: &[char]) -> (r: bool)
    ensures
        r == (a@ == b@),
{
    if a.len() != b.len() {
        return false;
    }
    let mut i: usize = 0;
    while i < a.len()
        invariant
            i <= a@.len(),
            a@.len() == b@.len(),
            forall|j: int| 0 <= j < i ==> a@[j] == b@[j],
        decreases a@.len() - i,
    {
        if a[i] != b[i] {
            return false;
        }
        i += 1;
    }
    assert(a@ =~= b@);
    true
}

/// Whether `s` spells `word`.
pub(crate) fn is_word(s: &[char], word: &str) -> (r: bool)
    ensures
        r == (s@ == word@),
{
    let w = to_chars(word);
    same_chars(s, w.as_slice())
}

/// Appends `s` to `buf`.
pub(crate) fn append_chars(buf: &mut Vec<char>, s: &[char])
    ensures
        final(buf)@ == old(buf)@ + s@,
{
    let mut i: usize = 0;
    while i < s.len()
        invariant
            i <= s@.len(),
            buf@ == old(buf)@ + s@.take(i as int),
        decreases s@.len() - i,
    {
        buf.push(s[i]);
        i += 1;
    }
}

/// The characters of `s`.
pub fn to_chars(s: &str) -> (r: Vec<char>)
    ensures
        r@ == s@,
{
    broadcast use vstd::string::group_string_axioms;

    let mut r: Vec<char> = Vec::new();
    let chars = s.chars();
    for c in it: chars
        invariant
            it.seq() == s@,
            r@ == it.seq().take(it.index()),
    {
        r.push(c);
    }
    r
}

/// Appends one character to a string, by `String::push`. Trusted: the string
/// afterwards is the string before with `c` at its end.
#[verifier::external_body]
fn push_char(s: &mut String, c: char)
    ensures
        final(s)@ == old(s)@.push(c),
{
    s.push(c)
}

/// The string made of `chars`.
pub fn to_string(chars: &[char]) -> (r: String)
    ensures
        r@ == chars@,
{
    let mut r = String::new();
    let mut i: usize = 0;
    while i < chars.len()
        invariant
            i <= chars@.len(),
            r@ == chars@.take(i as int),
        decreases chars@.len() - i,
    {
        push_char(&mut r, chars[i]);
        i += 1;
    }
    r
}

} // verus!
