//! The line scanner: a two-state machine that turns lines into assignments
//! and feeds them to the tree.

use crate::error::{result_view, ErrorView, ParseError};
use crate::finalize::{finalize, Outcome};
use crate::key::{key_path, parse_key_chars, valid_path};
use crate::leaf::{leaf_wf, texts, Leaf, LeafView};
use crate::literal::{classify, parse_value_chars, ParsedValue, ParsedView};
use crate::node::{fill_in_value, insert, Node, Tree};
use crate::text::{
    append_chars, find_char, first_index, pieces, to_string, trim, trim_end, trimmed, trimmed_end,
    views, Text,
};
use crate::value::ValueView;
use vstd::prelude::*;
use vstd::slice::slice_subrange;

verus! {

/// Where the scanner stands between two lines.
#[derive(Debug)]
pub enum ScanState {
    /// Outside a string block.
    Normal,
    /// Inside the string block that a fence of `fence_width` backticks opened
    /// for the key `path`. `content` holds the lines read so far, each followed
    /// by a line separator.
    InStringBlock { fence_width: usize, path: Vec<String>, content: Vec<char> },
}

/// A `ScanState` as the contracts see it.
pub enum ScanView {
    Normal,
    InStringBlock { fence_width: nat, path: Seq<Text>, content: Text },
}

impl View for ScanState {
    type V = ScanView;

    open spec fn view(&self) -> ScanView {
        match self {
            ScanState::Normal => ScanView::Normal,
            ScanState::InStringBlock { fence_width, path, content } => ScanView::InStringBlock {
                fence_width: *fence_width as nat,
                path: texts(path@),
                content: content@,
            },
        }
    }
}

/// An assignment as the contracts see it: a key path and the value it gets.
pub type Assignment = (Seq<Text>, LeafView);

/// What a line leaves behind: the next state, and an assignment if the line
/// completes one.
pub type Step = (ScanView, Option<Assignment>);

/// Whether `line` closes a string block that `width` backticks opened: apart
/// from trailing whitespace it is exactly `width` backticks.
pub open spec fn closes(line: Text, width: nat) -> bool {
    let t = trimmed_end(line);
    t.len() == width && forall|i: int| 0 <= i < t.len() ==> t[i] == '`'
}

/// What the line `line`, the `number`-th of the input, does in state `state`.
///
/// Outside a string block a blank line is skipped; any other line is a key,
/// a colon and a value, and either assigns a scalar or opens a string block.
/// Inside a string block a closing fence completes the assignment of the
/// block's text, without its last line separator; any other line is added to
/// the text as it stands.
pub open spec fn scan_step(state: ScanView, line: Text, number: nat) -> Result<Step, ErrorView> {
    match state {
        ScanView::Normal => {
            let colon = first_index(line, ':');
            if trimmed(line).len() == 0 {
                Ok((ScanView::Normal, None))
            } else if colon >= line.len() {
                Err(ErrorView::MissingColon { line: number, content: line })
            } else {
                match key_path(trimmed(line.take(colon)), number) {
                    Err(e) => Err(e),
                    Ok(path) => match classify(trimmed(line.skip(colon + 1)), number) {
                        Err(e) => Err(e),
                        Ok(ParsedView::Immediate(leaf)) => Ok(
                            (ScanView::Normal, Some((path, leaf))),
                        ),
                        Ok(ParsedView::StringStart { bt_count }) => Ok(
                            (
                                ScanView::InStringBlock {
                                    fence_width: bt_count,
                                    path,
                                    content: Seq::empty(),
                                },
                                None,
                            ),
                        ),
                    },
                }
            }
        },
        ScanView::InStringBlock { fence_width, path, content } => {
            if closes(line, fence_width) {
                if content.len() == 0 {
                    Err(ErrorView::EmptyStringBlock { line: number })
                } else {
                    Ok((ScanView::Normal, Some((path, LeafView::Str(content.drop_last())))))
                }
            } else {
                Ok(
                    (
                        ScanView::InStringBlock {
                            fence_width,
                            path,
                            content: content + line + seq!['\n'],
                        },
                        None,
                    ),
                )
            }
        },
    }
}

/// The number of lines of an input with the given pieces between line
/// separators: a last piece that is empty is no line.
pub open spec fn line_count(lines: Seq<Text>) -> nat {
    if lines.len() > 0 && lines.last().len() == 0 {
        (lines.len() - 1) as nat
    } else {
        lines.len()
    }
}

/// The tree after the lines from position `i` on, read in state `state` into
/// `tree`. Each assignment enters the tree as soon as its line is read, so the
/// first line that fails, in either way, decides the error.
pub open spec fn run(lines: Seq<Text>, i: int, state: ScanView, tree: Tree) -> Result<
    Tree,
    ErrorView,
>
    decreases lines.len() - i,
{
    if i < 0 || i >= lines.len() {
        match state {
            ScanView::Normal => Ok(tree),
            ScanView::InStringBlock { .. } => Err(
                ErrorView::UnclosedStringBlock { lines: line_count(lines) },
            ),
        }
    } else {
        match scan_step(state, lines[i], (i + 1) as nat) {
            Err(e) => Err(e),
            Ok((next, None)) => run(lines, i + 1, next, tree),
            Ok((next, Some((path, leaf)))) => match insert(tree, path, leaf, (i + 1) as nat) {
                Err(e) => Err(e),
                Ok(t) => run(lines, i + 1, next, t),
            },
        }
    }
}

/// The tree without any assignment.
pub open spec fn empty_tree() -> Tree {
    Tree::Branch(Map::empty())
}

/// What the given lines resolve to: they are read into a tree, which is then
/// finalized.
pub open spec fn resolved(lines: Seq<Text>) -> Outcome {
    match run(lines, 0, ScanView::Normal, empty_tree()) {
        Err(e) => Err(e),
        Ok(tree) => finalize(tree, Seq::empty()),
    }
}

/// What parsing `input` gives.
///
/// An input that is `{}` apart from surrounding whitespace is the empty
/// object. Any other input resolves line by line.
pub open spec fn parsed(input: Text) -> Outcome {
    if trimmed(input) == "{}"@ {
        Ok(ValueView::Object(Seq::empty()))
    } else {
        resolved(pieces(input, '\n'))
    }
}

/// Whether the state's key path, if it has one, is valid.
pub open spec fn state_wf(state: ScanView) -> bool {
    state matches ScanView::InStringBlock { path, .. } ==> valid_path(path)
}

/// The view of what a line leaves behind.
pub open spec fn step_view(step: (ScanState, Option<(Vec<String>, Leaf)>)) -> Step {
    (
        step.0@,
        match step.1 {
            Some((path, leaf)) => Some((texts(path@), leaf@)),
            None => None,
        },
    )
}

/// Whether every character of `s` is `c`.
fn all_are(s: &[char], c: char) -> (r: bool)
    ensures
        r == forall|i: int| 0 <= i < s@.len() ==> s@[i] == c,
{
    let mut i: usize = 0;
    while i < s.len()
        invariant
            i <= s@.len(),
            forall|j: int| 0 <= j < i ==> s@[j] == c,
        decreases s@.len() - i,
    {
        if s[i] != c {
            return false;
        }
        i += 1;
    }
    true
}

/// Reads the line `line`, the `number`-th of the input, in state `state`.
pub fn scan_line(state: ScanState, line: &[char], number: usize) -> (r: Result<
    (ScanState, Option<(Vec<String>, Leaf)>),
    ParseError,
>)
    requires
        state_wf(state@),
    ensures
        match r {
            Ok(step) => scan_step(state@, line@, number as nat) == Ok::<Step, ErrorView>(
                step_view(step),
            ) && state_wf(step.0@) && (step.1 matches Some((path, leaf)) ==> valid_path(
                texts(path@),
            ) && leaf_wf(leaf@)),
            Err(e) => scan_step(state@, line@, number as nat) == Err::<Step, ErrorView>(e@),
        },
{
    match state {
        ScanState::Normal => {
            if trim(line).len() == 0 {
                return Ok((ScanState::Normal, None));
            }
            let colon = find_char(line, ':');
            if colon >= line.len() {
                return Err(ParseError::MissingColon { line: number, content: to_string(line) });
            }
            let key = trim(slice_subrange(line, 0, colon));
            let value = trim(slice_subrange(line, colon + 1, line.len()));
            let path = match parse_key_chars(key, number) {
                Ok(path) => path,
                Err(e) => {
                    return Err(e);
                },
            };
            match parse_value_chars(value, number) {
                Err(e) => Err(e),
                Ok(ParsedValue::Immediate(leaf)) => Ok((ScanState::Normal, Some((path, leaf)))),
                Ok(ParsedValue::StringStart { bt_count }) => Ok(
                    (
                        ScanState::InStringBlock {
                            fence_width: bt_count,
                            path,
                            content: Vec::new(),
                        },
                        None,
                    ),
                ),
            }
        },
        ScanState::InStringBlock { fence_width, path, content } => {
            let t = trim_end(line);
            if t.len() == fence_width && all_are(t, '`') {
                if content.len() == 0 {
                    return Err(ParseError::EmptyStringBlock { line: number });
                }
                let mut content = content;
                content.pop();
                let text = to_string(content.as_slice());
                Ok((ScanState::Normal, Some((path, Leaf::Str(text)))))
            } else {
                let mut content = content;
                append_chars(&mut content, line);
                content.push('\n');
                assert(content@ =~= state@->InStringBlock_content + line@ + seq!['\n']);
                Ok((ScanState::InStringBlock { fence_width, path, content }, None))
            }
        },
    }
}

/// Counts the lines of an input from its pieces between line separators.
fn count_lines(lines: &Vec<&[char]>) -> (r: usize)
    ensures
        r == line_count(views(lines@)),
{
    let n = lines.len();
    if n > 0 && lines[n - 1].len() == 0 {
        n - 1
    } else {
        n
    }
}

/// Reads all lines into a tree.
pub fn build_tree(lines: &Vec<&[char]>) -> (r: Result<Node, ParseError>)
    ensures
        result_view(r) == run(views(lines@), 0, ScanView::Normal, empty_tree()),
        r matches Ok(root) ==> root.wf(),
{
    let ghost ls = views(lines@);
    let mut root = Node::new_map();
    let mut state = ScanState::Normal;
    let mut i: usize = 0;
    while i < lines.len()
        invariant
            i <= lines@.len(),
            ls == views(lines@),
            root.wf(),
            state_wf(state@),
            run(ls, 0, ScanView::Normal, empty_tree()) == run(ls, i as int, state@, root@),
        decreases lines@.len() - i,
    {
        let number = i + 1;
        match scan_line(state, lines[i], number) {
            Err(e) => {
                return Err(e);
            },
            Ok((next, None)) => {
                state = next;
            },
            Ok((next, Some((path, leaf)))) => {
                state = next;
                match fill_in_value(&mut root, &path, leaf, number) {
                    Err(e) => {
                        return Err(e);
                    },
                    Ok(()) => {},
                }
            },
        }
        i += 1;
    }
    match state {
        ScanState::Normal => Ok(root),
        ScanState::InStringBlock { .. } => Err(
            ParseError::UnclosedStringBlock { lines: count_lines(lines) },
        ),
    }
}

} // verus!
