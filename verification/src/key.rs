//! Key paths: the text before `:` split into validated segments.

use crate::digits::{all_digits, digit, digits_from, is_digit};
use crate::error::{ErrorView, ParseError};
use crate::leaf::texts;
use crate::text::{pieces, split, to_chars, to_string, views, Text};
use vstd::prelude::*;

verus! {

/// An ASCII letter.
pub open spec fn letter(c: char) -> bool {
    ('a' <= c <= 'z') || ('A' <= c <= 'Z')
}

/// An ASCII letter or underscore, then ASCII letters, digits or underscores.
pub open spec fn identifier(s: Text) -> bool {
    &&& s.len() > 0
    &&& (s[0] == '_' || letter(s[0]))
    &&& forall|i: int| 1 <= i < s.len() ==> s[i] == '_' || letter(s[i]) || digit(s[i])
}

/// `$` followed by one or more ASCII digits.
pub open spec fn index_marker(s: Text) -> bool {
    &&& s.len() >= 2
    &&& s[0] == '$'
    &&& all_digits(s.skip(1))
}

/// A segment of a key path: an identifier or a list-index marker.
pub open spec fn segment(s: Text) -> bool {
    identifier(s) || index_marker(s)
}

/// A key path: one or more segments.
pub open spec fn valid_path(p: Seq<Text>) -> bool {
    &&& p.len() > 0
    &&& forall|i: int| 0 <= i < p.len() ==> segment(#[trigger] p[i])
}

/// What is wrong with a piece of a key.
pub enum SegmentFault {
    /// Empty, or not an identifier.
    Identifier,
    /// Starts with `$` without being a list-index marker.
    Index,
}

/// What is wrong with the piece `s`, if anything: a piece that starts with
/// `$` must be a list-index marker, any other an identifier.
pub open spec fn segment_fault(s: Text) -> Option<SegmentFault> {
    if s.len() > 0 && s[0] == '$' {
        if index_marker(s) {
            None
        } else {
            Some(SegmentFault::Index)
        }
    } else if identifier(s) {
        None
    } else {
        Some(SegmentFault::Identifier)
    }
}

/// The fault of the first faulty piece at or after position `i`.
pub open spec fn first_fault(segs: Seq<Text>, i: int) -> Option<SegmentFault>
    decreases segs.len() - i,
{
    if i < 0 || i >= segs.len() {
        None
    } else if segment_fault(segs[i]) is Some {
        segment_fault(segs[i])
    } else {
        first_fault(segs, i + 1)
    }
}

/// The key path that `key` denotes when it stands on line `line`: its pieces
/// between dots, if each of them is a segment; else the error of the first
/// piece that is none.
pub open spec fn key_path(key: Text, line: nat) -> Result<Seq<Text>, ErrorView> {
    let segs = pieces(key, '.');
    match first_fault(segs, 0) {
        None => Ok(segs),
        Some(SegmentFault::Identifier) => Err(ErrorView::InvalidKey { line, key }),
        Some(SegmentFault::Index) => Err(ErrorView::InvalidIndex { line, key }),
    }
}

/// A text has at least one piece.
pub proof fn lemma_pieces_nonempty(s: Text, sep: char)
    ensures
        pieces(s, sep).len() > 0,
    decreases s.len(),
{
}

/// Pieces without a fault are segments.
pub proof fn lemma_no_fault(segs: Seq<Text>, i: int)
    requires
        0 <= i,
        first_fault(segs, i) is None,
    ensures
        forall|j: int| i <= j < segs.len() ==> segment(#[trigger] segs[j]),
    decreases segs.len() - i,
{
    if i < segs.len() {
        lemma_no_fault(segs, i + 1);
    }
}

/// The view of the result of parsing a key.
pub open spec fn path_result(r: Result<Vec<String>, ParseError>) -> Result<Seq<Text>, ErrorView> {
    match r {
        Ok(p) => Ok(texts(p@)),
        Err(e) => Err(e@),
    }
}

/// A key that parses gives a valid path.
pub proof fn lemma_key_path_valid(key: Text, line: nat)
    ensures
        key_path(key, line) matches Ok(p) ==> valid_path(p),
{
    let segs = pieces(key, '.');
    lemma_pieces_nonempty(key, '.');
    if first_fault(segs, 0) is None {
        lemma_no_fault(segs, 0);
    }
}

/// Whether `c` is an ASCII letter.
fn is_letter(c: char) -> (r: bool)
    ensures
        r == letter(c),
{
    ('a' <= c && c <= 'z') || ('A' <= c && c <= 'Z')
}

/// Whether `piece` is an identifier.
pub fn is_identifier(piece: &[char]) -> (r: bool)
    ensures
        r == identifier(piece@),
{
    if piece.len() == 0 {
        return false;
    }
    if !(piece[0] == '_' || is_letter(piece[0])) {
        return false;
    }
    let mut i: usize = 1;
    while i < piece.len()
        invariant
            1 <= i <= piece@.len(),
            forall|j: int| 1 <= j < i ==> piece@[j] == '_' || letter(piece@[j]) || digit(piece@[j]),
        decreases piece@.len() - i,
    {
        let c = piece[i];
        if !(c == '_' || is_letter(c) || is_digit(c)) {
            return false;
        }
        i += 1;
    }
    true
}

/// Checks one piece of a key.
fn check_segment(piece: &[char]) -> (r: Option<SegmentFault>)
    ensures
        r == segment_fault(piece@),
{
    if piece.len() > 0 && piece[0] == '$' {
        if piece.len() >= 2 && digits_from(piece, 1) {
            None
        } else {
            Some(SegmentFault::Index)
        }
    } else if is_identifier(piece) {
        None
    } else {
        Some(SegmentFault::Identifier)
    }
}

/// Parses the key text of line `line` into its path.
pub(crate) fn parse_key_chars(key: &[char], line: usize) -> (r: Result<Vec<String>, ParseError>)
    ensures
        path_result(r) == key_path(key@, line as nat),
        r matches Ok(p) ==> valid_path(texts(p@)),
{
    let segs = split(key, '.');
    let mut path: Vec<String> = Vec::new();
    let mut i: usize = 0;
    while i < segs.len()
        invariant
            i <= segs@.len(),
            views(segs@) == pieces(key@, '.'),
            first_fault(views(segs@), 0) == first_fault(views(segs@), i as int),
            path@.len() == i,
            forall|j: int| 0 <= j < i ==> path@[j]@ == segs@[j]@,
        decreases segs@.len() - i,
    {
        let piece = segs[i];
        match check_segment(piece) {
            Some(SegmentFault::Identifier) => {
                return Err(ParseError::InvalidKey { line, key: to_string(key) });
            },
            Some(SegmentFault::Index) => {
                return Err(ParseError::InvalidIndex { line, key: to_string(key) });
            },
            None => {
                path.push(to_string(piece));
            },
        }
        i += 1;
    }
    proof {
        assert(texts(path@) =~= views(segs@));
        lemma_key_path_valid(key@, line as nat);
    }
    Ok(path)
}

/// Parses the key text of line `line` into its path.
pub fn parse_key(key: &str, line: usize) -> (r: Result<Vec<String>, ParseError>)
    ensures
        path_result(r) == key_path(key@, line as nat),
        r matches Ok(p) ==> valid_path(texts(p@)),
{
    let chars = to_chars(key);
    parse_key_chars(chars.as_slice(), line)
}

} // verus!
