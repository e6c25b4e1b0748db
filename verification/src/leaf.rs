//! Leaf values: what one line of input can assign to a key path.

use crate::text::Text;
use vstd::prelude::*;

verus! {

/// A value assigned to a key path.
///
/// A float is held as the text of its literal: the library decides from the
/// text alone what the literal is and never computes with the number.
#[derive(Debug, PartialEq, Eq)]
pub enum Leaf {
    Bool(bool),
    Int(i64),
    Float(String),
    Str(String),
    EmptyList,
    EmptyObject,
}

/// A leaf as the contracts see it.
pub enum LeafView {
    Bool(bool),
    Int(i64),
    Float(Text),
    Str(Text),
    EmptyList,
    EmptyObject,
}

impl View for Leaf {
    type V = LeafView;

    open spec fn view(&self) -> LeafView {
        match self {
            Leaf::Bool(b) => LeafView::Bool(*b),
            Leaf::Int(n) => LeafView::Int(*n),
            Leaf::Float(t) => LeafView::Float(t@),
            Leaf::Str(t) => LeafView::Str(t@),
            Leaf::EmptyList => LeafView::EmptyList,
            Leaf::EmptyObject => LeafView::EmptyObject,
        }
    }
}

/// Whether a leaf is valid: a float holds a float literal.
pub open spec fn leaf_wf(leaf: LeafView) -> bool {
    leaf matches LeafView::Float(t) ==> crate::literal::float_literal(t)
}

impl Clone for Leaf {
    fn clone(&self) -> (r: Self)
        ensures
            r@ == self@,
    {
        match self {
            Leaf::Bool(b) => Leaf::Bool(*b),
            Leaf::Int(n) => Leaf::Int(*n),
            Leaf::Float(t) => Leaf::Float(t.clone()),
            Leaf::Str(t) => Leaf::Str(t.clone()),
            Leaf::EmptyList => Leaf::EmptyList,
            Leaf::EmptyObject => Leaf::EmptyObject,
        }
    }
}

/// The views of a sequence of strings.
pub open spec fn texts(v: Seq<String>) -> Seq<Text> {
    Seq::new(v.len(), |i: int| v[i]@)
}

/// A copy of a vector of strings.
pub(crate) fn clone_strings(v: &Vec<String>) -> (r: Vec<String>)
    ensures
        texts(r@) == texts(v@),
{
    let mut r: Vec<String> = Vec::new();
    let mut i: usize = 0;
    while i < v.len()
        invariant
            i <= v@.len(),
            r@.len() == i,
            forall|j: int| 0 <= j < i ==> r@[j]@ == v@[j]@,
        decreases v@.len() - i,
    {
        r.push(v[i].clone());
        i += 1;
    }
    r
}

} // verus!
