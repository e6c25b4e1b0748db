//! The ways parsing can fail.

use crate::leaf::{texts, Leaf, LeafView};
use crate::text::Text;
use vstd::prelude::*;

verus! {

/// Why an input was rejected. Line numbers start at 1.
#[derive(Debug, PartialEq, Eq)]
pub enum ParseError {
    /// A non-blank line holds no `:`.
    MissingColon { line: usize, content: String },
    /// A key segment is empty or is not an identifier.
    InvalidKey { line: usize, key: String },
    /// A key segment starts with `$` but is not `$` followed by digits.
    InvalidIndex { line: usize, key: String },
    /// The text after `:` is none of the accepted value forms.
    InvalidValue { line: usize, value: String },
    /// A string block was closed before it held any line.
    EmptyStringBlock { line: usize },
    /// The input ended inside a string block; `lines` counts the input's lines.
    UnclosedStringBlock { lines: usize },
    /// The key `path` is used both for a value and as the prefix of longer keys.
    PrefixConflict { line: usize, path: Vec<String> },
    /// The key `path` is assigned a value twice.
    DuplicateValue { line: usize, path: Vec<String>, existing: Leaf, new: Leaf },
    /// The container at `path` has both list indices and named attributes.
    MixedKeys { path: Vec<String> },
    /// The list at `path` has `count` items whose indices are not `0..count`.
    MissingIndices { path: Vec<String>, count: usize },
    /// The float at `path` is not a finite number.
    NonFiniteFloat { path: Vec<String> },
}

/// A `ParseError` as the contracts see it.
pub enum ErrorView {
    MissingColon { line: nat, content: Text },
    InvalidKey { line: nat, key: Text },
    InvalidIndex { line: nat, key: Text },
    InvalidValue { line: nat, value: Text },
    EmptyStringBlock { line: nat },
    UnclosedStringBlock { lines: nat },
    PrefixConflict { line: nat, path: Seq<Text> },
    DuplicateValue { line: nat, path: Seq<Text>, existing: LeafView, new: LeafView },
    MixedKeys { path: Seq<Text> },
    MissingIndices { path: Seq<Text>, count: nat },
    NonFiniteFloat { path: Seq<Text> },
}

impl View for ParseError {
    type V = ErrorView;

    open spec fn view(&self) -> ErrorView {
        match self {
            ParseError::MissingColon { line, content } => ErrorView::MissingColon {
                line: *line as nat,
                content: content@,
            },
            ParseError::InvalidKey { line, key } => ErrorView::InvalidKey {
                line: *line as nat,
                key: key@,
            },
            ParseError::InvalidIndex { line, key } => ErrorView::InvalidIndex {
                line: *line as nat,
                key: key@,
            },
            ParseError::InvalidValue { line, value } => ErrorView::InvalidValue {
                line: *line as nat,
                value: value@,
            },
            ParseError::EmptyStringBlock { line } => ErrorView::EmptyStringBlock {
                line: *line as nat,
            },
            ParseError::UnclosedStringBlock { lines } => ErrorView::UnclosedStringBlock {
                lines: *lines as nat,
            },
            ParseError::PrefixConflict { line, path } => ErrorView::PrefixConflict {
                line: *line as nat,
                path: texts(path@),
            },
            ParseError::DuplicateValue { line, path, existing, new } => ErrorView::DuplicateValue {
                line: *line as nat,
                path: texts(path@),
                existing: existing@,
                new: new@,
            },
            ParseError::MixedKeys { path } => ErrorView::MixedKeys { path: texts(path@) },
            ParseError::MissingIndices { path, count } => ErrorView::MissingIndices {
                path: texts(path@),
                count: *count as nat,
            },
            ParseError::NonFiniteFloat { path } => ErrorView::NonFiniteFloat { path: texts(path@) },
        }
    }
}

/// The views of a result's two sides.
pub open spec fn result_view<T: View, E: View>(r: Result<T, E>) -> Result<T::V, E::V> {
    match r {
        Ok(t) => Ok(t@),
        Err(e) => Err(e@),
    }
}

} // verus!
