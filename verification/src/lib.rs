//! A parser for STC, a line-oriented text format that assigns scalar values
//! to dotted key paths and resolves them into a JSON-compatible value tree.
//!
//! ```text
//! name: 1
//! list.$0: 2
//! list.$1: 3
//! ```
//!
//! parses to the object `{"list": [2, 3], "name": 1}`.
//!
//! Each line is read by the scanner ([`scan`]), which splits it into a key
//! path ([`key`]) and a value literal ([`literal`]) and assigns the value in
//! the intermediate tree ([`node`]). When all lines are read, the tree is
//! resolved into the canonical value ([`finalize`], [`value`]). What holds of
//! every input is stated and proved in [`laws`].

use crate::error::{result_view, ErrorView, ParseError};
use crate::finalize::{canonical, finalize_node};
use crate::laws::law_finalize_canonical;
use crate::leaf::texts;
use crate::node::lemma_wf_view;
use crate::scan::{build_tree, parsed};
use crate::text::{is_word, split, to_chars, trim, trimmed};
use crate::value::{Value, ValueView};
use vstd::prelude::*;

pub mod digits;
pub mod error;
pub mod finalize;
pub mod finite;
pub mod indices;
pub mod key;
pub mod laws;
pub mod leaf;
pub mod literal;
pub mod message;
pub mod node;
pub mod order;
pub mod scan;
pub mod text;
pub mod value;

verus! {

/// Parses STC text into its canonical value.
///
/// An input that is `{}` apart from surrounding whitespace is the empty
/// object. Any other input is read line by line; the first line that fails
/// decides the error, and the errors of finalization come after those of all
/// lines. A value that is returned is in canonical form.
pub fn parse_stc(input: &str) -> (r: Result<Value, ParseError>)
    ensures
        result_view(r) == parsed(input@),
        trimmed(input@) == "{}"@ ==> result_view(r) == Ok::<ValueView, ErrorView>(
            ValueView::Object(Seq::empty()),
        ),
        r matches Ok(v) ==> canonical(v@),
{
    let chars = to_chars(input);
    if is_word(trim(chars.as_slice()), "{}") {
        let v = Value::Object(Vec::new());
        assert(v@->Object_0 =~= Seq::empty());
        return Ok(v);
    }
    let lines = split(chars.as_slice(), '\n');
    let root = match build_tree(&lines) {
        Ok(root) => root,
        Err(e) => {
            return Err(e);
        },
    };
    let path: Vec<String> = Vec::new();
    proof {
        assert(texts(path@) =~= Seq::empty());
        lemma_wf_view(root);
        law_finalize_canonical(root@, Seq::empty());
    }
    finalize_node(root, &path)
}

} // verus!
