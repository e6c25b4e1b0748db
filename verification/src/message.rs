//! The text of an error, for people to read.

use crate::error::{ErrorView, ParseError};
use crate::leaf::{texts, Leaf, LeafView};
use crate::digits::{decimal, put_decimal};
use crate::text::{to_chars, to_string, Text};
use vstd::prelude::*;

verus! {

/// The segments of `path` with a dot between one and the next.
pub open spec fn dotted(path: Seq<Text>) -> Text
    decreases path.len(),
{
    if path.len() == 0 {
        Seq::empty()
    } else if path.len() == 1 {
        path[0]
    } else {
        dotted(path.drop_last()) + seq!['.'] + path.last()
    }
}

/// How a message names the container at `path`.
pub open spec fn place(path: Seq<Text>) -> Text {
    if path.len() == 0 {
        "<root>"@
    } else {
        dotted(path)
    }
}

/// The decimal form of an integer, with `-` before a negative one.
pub open spec fn signed_decimal(n: int) -> Text {
    if n < 0 {
        seq!['-'] + decimal((-n) as nat)
    } else {
        decimal(n as nat)
    }
}

/// A short description of a leaf.
pub open spec fn description(leaf: LeafView) -> Text {
    match leaf {
        LeafView::Bool(b) => if b {
            "Bool(true)"@
        } else {
            "Bool(false)"@
        },
        LeafView::Int(n) => "Int("@ + signed_decimal(n as int) + ")"@,
        LeafView::Float(t) => "Float("@ + t + ")"@,
        LeafView::Str(t) => "Str(\""@ + t + "\")"@,
        LeafView::EmptyList => "EmptyList"@,
        LeafView::EmptyObject => "EmptyDict"@,
    }
}

/// What a message starts with when its error belongs to line `line`.
pub open spec fn line_prefix(line: nat) -> Text {
    "Line "@ + decimal(line) + ": "@
}

/// The message of an error.
pub open spec fn message_text(e: ErrorView) -> Text {
    match e {
        ErrorView::MissingColon { line, content } => "Line "@ + decimal(line)
            + " missing `:`. Line content:\n "@ + content,
        ErrorView::InvalidKey { line, key } => line_prefix(line) + "Invalid key: "@ + key
            + ". Key must be a valid identifier."@,
        ErrorView::InvalidIndex { line, key } => line_prefix(line) + "Invalid key: "@ + key
            + ". List index must be $numeric."@,
        ErrorView::InvalidValue { line, value } => line_prefix(line) + "Invalid value: "@ + value
            + ". Value must be:\n- `true`, `false` for boolean\n- `[]` for an empty list\n- `{}` for an empty dict\n- a number for integer or float\n- a string block enclosed in backticks (`, with the number of backticks larger than the maximum consecutive number of backticks in the string)."@,
        ErrorView::EmptyStringBlock { line } => line_prefix(line)
            + "Empty string block should be formatted as `key: ```\\n\\n```, not ```\\n```."@,
        ErrorView::UnclosedStringBlock { lines } => "Unclosed string block starting at line "@
            + decimal(lines) + "."@,
        ErrorView::PrefixConflict { line, path } => line_prefix(line) + "Key `"@ + dotted(path)
            + "` is set both a value and at least one list item / dict attribute."@,
        ErrorView::DuplicateValue { line, path, existing, new } => line_prefix(line) + "Key `"@
            + dotted(path) + "` is set at least two values "@ + description(existing) + " | "@
            + description(new) + "."@,
        ErrorView::MixedKeys { path } => place(path) + " is set both as a list and a dict."@,
        ErrorView::MissingIndices { path, count } => place(path)
            + " is set as a list, but not all indices 0.."@ + decimal(
            if count > 0 {
                (count - 1) as nat
            } else {
                0
            },
        ) + " are present."@,
        ErrorView::NonFiniteFloat { path } => place(path)
            + " is set to a float value (NaN/inf) that is not representable in JSON."@,
    }
}

/// Appends the characters of `s` to `buf`.
fn put(buf: &mut Vec<char>, s: &str)
    ensures
        final(buf)@ == old(buf)@ + s@,
{
    let chars = to_chars(s);
    let mut i: usize = 0;
    while i < chars.len()
        invariant
            i <= chars@.len(),
            chars@ == s@,
            buf@ == old(buf)@ + chars@.take(i as int),
        decreases chars@.len() - i,
    {
        buf.push(chars[i]);
        i += 1;
    }
}

/// Appends the decimal form of `n` to `buf`.
fn put_signed(buf: &mut Vec<char>, n: i64)
    ensures
        final(buf)@ == old(buf)@ + signed_decimal(n as int),
{
    if n < 0 {
        buf.push('-');
        let magnitude: u64 = if n == i64::MIN {
            9223372036854775808
        } else {
            (-n) as u64
        };
        put_decimal(buf, magnitude);
    } else {
        put_decimal(buf, n as u64);
    }
}

/// Appends the segments of `path`, with dots between them, to `buf`.
fn put_dotted(buf: &mut Vec<char>, path: &Vec<String>)
    ensures
        final(buf)@ == old(buf)@ + dotted(texts(path@)),
{
    let ghost p = texts(path@);
    let mut i: usize = 0;
    while i < path.len()
        invariant
            i <= path@.len(),
            p == texts(path@),
            buf@ == old(buf)@ + dotted(p.take(i as int)),
        decreases path@.len() - i,
    {
        if i > 0 {
            buf.push('.');
        }
        put(buf, path[i].as_str());
        proof {
            let now = p.take(i + 1);
            assert(now.drop_last() =~= p.take(i as int));
        }
        i += 1;
    }
    assert(p.take(i as int) =~= p);
}

/// Appends the name of the container at `path` to `buf`.
fn put_place(buf: &mut Vec<char>, path: &Vec<String>)
    ensures
        final(buf)@ == old(buf)@ + place(texts(path@)),
{
    if path.len() == 0 {
        put(buf, "<root>");
    } else {
        put_dotted(buf, path);
    }
}

/// Appends what starts the message of an error on line `line`.
fn put_line_prefix(buf: &mut Vec<char>, line: usize)
    ensures
        final(buf)@ == old(buf)@ + line_prefix(line as nat),
{
    put(buf, "Line ");
    put_decimal(buf, line as u64);
    put(buf, ": ");
}

/// Appends a short description of `leaf` to `buf`.
fn put_description(buf: &mut Vec<char>, leaf: &Leaf)
    ensures
        final(buf)@ == old(buf)@ + description(leaf@),
{
    match leaf {
        Leaf::Bool(b) => {
            if *b {
                put(buf, "Bool(true)");
            } else {
                put(buf, "Bool(false)");
            }
        },
        Leaf::Int(n) => {
            put(buf, "Int(");
            put_signed(buf, *n);
            put(buf, ")");
        },
        Leaf::Float(t) => {
            put(buf, "Float(");
            put(buf, t.as_str());
            put(buf, ")");
        },
        Leaf::Str(t) => {
            put(buf, "Str(\"");
            put(buf, t.as_str());
            put(buf, "\")");
        },
        Leaf::EmptyList => {
            put(buf, "EmptyList");
        },
        Leaf::EmptyObject => {
            put(buf, "EmptyDict");
        },
    }
}

/// A short description of a leaf, as messages give it.
pub fn existing_short(leaf: &Leaf) -> (r: String)
    ensures
        r@ == description(leaf@),
{
    let mut buf: Vec<char> = Vec::new();
    put_description(&mut buf, leaf);
    to_string(buf.as_slice())
}

impl ParseError {
    /// The message of the error: a sentence that says what was expected, with
    /// the line number or the key path that the error belongs to.
    pub fn message(&self) -> (r: String)
        ensures
            r@ == message_text(self@),
    {
        let mut buf: Vec<char> = Vec::new();
        match self {
            ParseError::MissingColon { line, content } => {
                put(&mut buf, "Line ");
                put_decimal(&mut buf, *line as u64);
                put(&mut buf, " missing `:`. Line content:\n ");
                put(&mut buf, content.as_str());
            },
            ParseError::InvalidKey { line, key } => {
                put_line_prefix(&mut buf, *line);
                put(&mut buf, "Invalid key: ");
                put(&mut buf, key.as_str());
                put(&mut buf, ". Key must be a valid identifier.");
            },
            ParseError::InvalidIndex { line, key } => {
                put_line_prefix(&mut buf, *line);
                put(&mut buf, "Invalid key: ");
                put(&mut buf, key.as_str());
                put(&mut buf, ". List index must be $numeric.");
            },
            ParseError::InvalidValue { line, value } => {
                put_line_prefix(&mut buf, *line);
                put(&mut buf, "Invalid value: ");
                put(&mut buf, value.as_str());
                put(
                    &mut buf,
                    ". Value must be:\n- `true`, `false` for boolean\n- `[]` for an empty list\n- `{}` for an empty dict\n- a number for integer or float\n- a string block enclosed in backticks (`, with the number of backticks larger than the maximum consecutive number of backticks in the string).",
                );
            },
            ParseError::EmptyStringBlock { line } => {
                put_line_prefix(&mut buf, *line);
                put(
                    &mut buf,
                    "Empty string block should be formatted as `key: ```\\n\\n```, not ```\\n```.",
                );
            },
            ParseError::UnclosedStringBlock { lines } => {
                put(&mut buf, "Unclosed string block starting at line ");
                put_decimal(&mut buf, *lines as u64);
                put(&mut buf, ".");
            },
            ParseError::PrefixConflict { line, path } => {
                put_line_prefix(&mut buf, *line);
                put(&mut buf, "Key `");
                put_dotted(&mut buf, path);
                put(&mut buf, "` is set both a value and at least one list item / dict attribute.");
            },
            ParseError::DuplicateValue { line, path, existing, new } => {
                put_line_prefix(&mut buf, *line);
                put(&mut buf, "Key `");
                put_dotted(&mut buf, path);
                put(&mut buf, "` is set at least two values ");
                put_description(&mut buf, existing);
                put(&mut buf, " | ");
                put_description(&mut buf, new);
                put(&mut buf, ".");
            },
            ParseError::MixedKeys { path } => {
                put_place(&mut buf, path);
                put(&mut buf, " is set both as a list and a dict.");
            },
            ParseError::MissingIndices { path, count } => {
                put_place(&mut buf, path);
                put(&mut buf, " is set as a list, but not all indices 0..");
                let top: u64 = if *count > 0 {
                    (*count - 1) as u64
                } else {
                    0
                };
                put_decimal(&mut buf, top);
                put(&mut buf, " are present.");
            },
            ParseError::NonFiniteFloat { path } => {
                put_place(&mut buf, path);
                put(&mut buf, " is set to a float value (NaN/inf) that is not representable in JSON.");
            },
        }
        to_string(buf.as_slice())
    }
}

} // verus!
