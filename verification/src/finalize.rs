//! Finalization: the intermediate tree resolved into the canonical value.

use crate::error::{result_view, ErrorView, ParseError};
use crate::finite::{is_not_finite, non_finite};
use crate::indices::{
    all_markers, exact_indices, exact_positions, has_exact_indices, key_kinds, lemma_exact_listing,
    lemma_indices_cover, marker_at, marker_index, marker_value, no_markers,
};
use crate::key::{index_marker, segment};
use crate::leaf::{clone_strings, texts, Leaf, LeafView};
use crate::literal::float_literal;
use crate::node::{distinct, holds_entries, keys, lemma_container_view, Node, Tree};
use crate::order::{
    char_views, increasing, least_position, lemma_listing_len, lemma_sorted_complete,
    lemma_sorted_listing, lemma_take_least, sorted,
};
use crate::text::{to_chars, Text};
use crate::value::{Value, ValueView};
use vstd::prelude::*;

verus! {

/// The result of a finalization, as the contracts see it.
pub type Outcome = Result<ValueView, ErrorView>;

/// The keys of an object's entries, in their order.
pub open spec fn entry_keys(entries: Seq<(Text, ValueView)>) -> Seq<Text> {
    Seq::new(entries.len(), |i: int| entries[i].0)
}

/// Whether a value is in canonical form: it holds no null, each of its floats
/// is a float literal that denotes a finite double, and the entries of each of
/// its objects stand in the order of their keys, which differ.
pub open spec fn canonical(v: ValueView) -> bool
    decreases v,
{
    match v {
        ValueView::Null => false,
        ValueView::Float(t) => float_literal(t) && !non_finite(t),
        ValueView::Array(items) => forall|i: int|
            0 <= i < items.len() ==> canonical(#[trigger] items[i]),
        ValueView::Object(entries) => {
            &&& increasing(entry_keys(entries))
            &&& forall|i: int| 0 <= i < entries.len() ==> canonical((#[trigger] entries[i]).1)
        },
        _ => true,
    }
}

/// The value of a leaf that stands at `path`.
pub open spec fn finalize_leaf(leaf: LeafView, path: Seq<Text>) -> Outcome {
    match leaf {
        LeafView::Bool(b) => Ok(ValueView::Bool(b)),
        LeafView::Int(n) => Ok(ValueView::Int(n)),
        LeafView::Float(t) => if non_finite(t) {
            Err(ErrorView::NonFiniteFloat { path })
        } else {
            Ok(ValueView::Float(t))
        },
        LeafView::Str(t) => Ok(ValueView::Str(t)),
        LeafView::EmptyList => Ok(ValueView::Array(Seq::empty())),
        LeafView::EmptyObject => Ok(ValueView::Object(Seq::empty())),
    }
}

/// The first error among the outcomes of the keys `ks`, from position `i` on.
pub open spec fn first_error(ks: Seq<Text>, outcomes: Map<Text, Outcome>, i: int) -> Option<
    ErrorView,
>
    decreases ks.len() - i,
{
    if i < 0 || i >= ks.len() {
        None
    } else if outcomes[ks[i]] is Err {
        Some(outcomes[ks[i]]->Err_0)
    } else {
        first_error(ks, outcomes, i + 1)
    }
}

/// The value of a container at `path` whose children, by key, have the given
/// outcomes.
///
/// A container without children is an empty object. One whose keys are all
/// list-index markers is a list, if the markers give each index below their
/// number once; one without such a key is an object, its entries in the order
/// of their keys; any other mixes the two. Children are finalized in the order
/// of their keys, and the first child that fails decides the error.
pub open spec fn assemble(outcomes: Map<Text, Outcome>, path: Seq<Text>) -> Outcome {
    let s = outcomes.dom();
    let ks = sorted(s);
    if s.len() == 0 {
        Ok(ValueView::Object(Seq::empty()))
    } else if all_markers(s) {
        if !exact_indices(s) {
            Err(ErrorView::MissingIndices { path, count: s.len() })
        } else {
            match first_error(ks, outcomes, 0) {
                Some(e) => Err(e),
                None => Ok(
                    ValueView::Array(
                        Seq::new(s.len(), |i: int| outcomes[marker_at(s, i)]->Ok_0),
                    ),
                ),
            }
        }
    } else if no_markers(s) {
        match first_error(ks, outcomes, 0) {
            Some(e) => Err(e),
            None => Ok(
                ValueView::Object(Seq::new(ks.len(), |i: int| (ks[i], outcomes[ks[i]]->Ok_0))),
            ),
        }
    } else {
        Err(ErrorView::MixedKeys { path })
    }
}

/// The canonical value of the tree `t` that stands at `path`.
pub open spec fn finalize(t: Tree, path: Seq<Text>) -> Outcome
    decreases t,
{
    match t {
        Tree::Leaf(leaf) => finalize_leaf(leaf, path),
        Tree::Branch(m) => assemble(child_outcomes(m, path), path),
    }
}

/// The outcomes of the children of a container at `path`, by key: each child
/// is finalized at the path that its key extends.
pub open spec fn child_outcomes(m: Map<Text, Tree>, path: Seq<Text>) -> Map<Text, Outcome>
    decreases m,
{
    Map::new(
        |k: Text| m.dom().contains(k),
        |k: Text|
            if m.dom().finite() && m.dom().contains(k) {
                finalize(m[k], path.push(k))
            } else {
                Ok(ValueView::Null)
            },
    )
}

/// The keys of finalized entries, in their order.
pub open spec fn done_keys(done: Seq<(String, Value)>) -> Seq<Text> {
    Seq::new(done.len(), |i: int| done[i].0@)
}

/// The canonical value of a leaf that stands at `path`.
pub(crate) fn finalize_leaf_value(leaf: Leaf, path: &Vec<String>) -> (r: Result<Value, ParseError>)
    ensures
        result_view(r) == finalize_leaf(leaf@, texts(path@)),
{
    match leaf {
        Leaf::Bool(b) => Ok(Value::Bool(b)),
        Leaf::Int(n) => Ok(Value::Int(n)),
        Leaf::Float(t) => {
            let chars = to_chars(t.as_str());
            if is_not_finite(chars.as_slice()) {
                Err(ParseError::NonFiniteFloat { path: clone_strings(path) })
            } else {
                Ok(Value::Float(t))
            }
        },
        Leaf::Str(t) => Ok(Value::Str(t)),
        Leaf::EmptyList => {
            let v = Value::Array(Vec::new());
            assert(v@->Array_0 =~= Seq::empty());
            Ok(v)
        },
        Leaf::EmptyObject => {
            let v = Value::Object(Vec::new());
            assert(v@->Object_0 =~= Seq::empty());
            Ok(v)
        },
    }
}

/// The characters of each key of `entries`.
fn key_chars(entries: &Vec<(String, Node)>) -> (r: Vec<Vec<char>>)
    ensures
        char_views(r@) == keys(entries@),
{
    let mut r: Vec<Vec<char>> = Vec::new();
    let mut i: usize = 0;
    while i < entries.len()
        invariant
            i <= entries@.len(),
            r@.len() == i,
            forall|j: int| 0 <= j < i ==> r@[j]@ == entries@[j].0@,
        decreases entries@.len() - i,
    {
        r.push(to_chars(entries[i].0.as_str()));
        i += 1;
    }
    r
}

/// Puts each finalized item of a list into the slot that its marker names.
fn place_items(done: Vec<(String, Value)>) -> (r: Vec<Value>)
    requires
        forall|t: int| 0 <= t < done@.len() ==> index_marker(#[trigger] done_keys(done@)[t]),
        exact_positions(done_keys(done@)),
    ensures
        r@.len() == done@.len(),
        forall|t: int|
            0 <= t < done@.len() ==> r@[marker_index(#[trigger] done_keys(done@)[t]) as int]@
                == done@[t].1@,
{
    let n = done.len();
    let ghost all = done@;
    let ghost ks = done_keys(done@);
    let mut slots: Vec<Value> = Vec::new();
    while slots.len() < n
        invariant
            slots@.len() <= n,
        decreases n - slots@.len(),
    {
        slots.push(Value::Null);
    }
    let mut rest = done;
    while rest.len() > 0
        invariant
            slots@.len() == n,
            all.len() == n,
            ks == done_keys(all),
            rest@ == all.take(rest@.len() as int),
            rest@.len() <= n,
            forall|t: int| 0 <= t < n ==> index_marker(#[trigger] ks[t]),
            exact_positions(ks),
            forall|t: int|
                rest@.len() <= t < n ==> slots@[marker_index(#[trigger] ks[t]) as int]@
                    == all[t].1@,
        decreases rest@.len(),
    {
        let ghost t0 = rest@.len() - 1;
        let item = rest.pop().unwrap();
        assert(ks[t0] == item.0@);
        let chars = to_chars(item.0.as_str());
        match marker_value(chars.as_slice(), n) {
            Some(v) => {
                slots.set(v, item.1);
            },
            None => {},
        }
    }
    slots
}

/// Finalizes the children of a container that stands at `path`, in the order
/// of their keys, up to the first that fails.
fn finalize_children(entries: Vec<(String, Node)>, chars: Vec<Vec<char>>, path: &Vec<String>) -> (r:
    Result<Vec<(String, Value)>, ParseError>)
    requires
        Node::Container(entries).wf(),
        char_views(chars@) == keys(entries@),
    ensures
        ({
            let m = Node::Container(entries)@->Branch_0;
            let outcomes = child_outcomes(m, texts(path@));
            let ks = sorted(m.dom());
            match r {
                Ok(done) => {
                    &&& done_keys(done@) == ks
                    &&& first_error(ks, outcomes, 0) is None
                    &&& forall|t: int|
                        0 <= t < ks.len() ==> outcomes[#[trigger] ks[t]] == Ok::<
                            ValueView,
                            ErrorView,
                        >(done@[t].1@)
                },
                Err(e) => first_error(ks, outcomes, 0) == Some(e@),
            }
        }),
    decreases entries, 0nat,
{
    let ghost node = Node::Container(entries);
    let ghost orig = entries@;
    let ghost m = node@->Branch_0;
    let ghost p = texts(path@);
    let ghost outcomes = child_outcomes(m, p);
    let ghost ks = sorted(m.dom());
    proof {
        lemma_container_view(node);
    }
    let mut rest = entries;
    let mut rest_chars = chars;
    let mut done: Vec<(String, Value)> = Vec::new();
    while rest.len() > 0
        invariant
            orig == entries@,
            node == Node::Container(entries),
            node.wf(),
            m == node@->Branch_0,
            m.dom().finite(),
            holds_entries(m, orig),
            p == texts(path@),
            outcomes == child_outcomes(m, p),
            ks == sorted(m.dom()),
            char_views(rest_chars@) == keys(rest@),
            distinct(keys(rest@)),
            forall|i: int|
                0 <= i < rest@.len() ==> exists|j: int|
                    0 <= j < orig.len() && #[trigger] rest@[i] == orig[j],
            ks == done_keys(done@) + sorted(keys(rest@).to_set()),
            forall|t: int|
                0 <= t < done@.len() ==> outcomes[#[trigger] ks[t]] == Ok::<ValueView, ErrorView>(
                    done@[t].1@,
                ),
            first_error(ks, outcomes, 0) == first_error(ks, outcomes, done@.len() as int),
        decreases rest@.len(),
    {
        let j = least_position(&rest_chars);
        let ghost before = rest@;
        proof {
            lemma_take_least(keys(before), j as int);
        }
        let entry = rest.remove(j);
        let _ = rest_chars.remove(j);
        let key = entry.0;
        let child = entry.1;
        let ghost k = key@;
        proof {
            assert(keys(rest@) =~= keys(before).remove(j as int));
            let o = choose|o: int| 0 <= o < orig.len() && before[j as int] == orig[o];
            assert(keys(orig)[o] == k);
        }
        let mut child_path = clone_strings(path);
        child_path.push(key.clone());
        assert(texts(child_path@) =~= p.push(k));
        match finalize_node(child, &child_path) {
            Err(e) => {
                return Err(e);
            },
            Ok(v) => {
                done.push((key, v));
            },
        }
    }
    Ok(done)
}

/// The canonical value of the container with the given entries that stands at
/// `path`: a list or an object.
pub fn finalize_map(entries: Vec<(String, Node)>, path: &Vec<String>) -> (r: Result<
    Value,
    ParseError,
>)
    requires
        Node::Container(entries).wf(),
    ensures
        result_view(r) == finalize(Node::Container(entries)@, texts(path@)),
    decreases entries, 1nat,
{
    let ghost node = Node::Container(entries);
    let ghost m = node@->Branch_0;
    let ghost s = m.dom();
    let ghost outcomes = child_outcomes(m, texts(path@));
    let ghost ks = sorted(s);
    proof {
        assert(outcomes.dom() =~= s);
        lemma_listing_len(keys(entries@));
        lemma_sorted_complete(s);
        lemma_sorted_listing(s);
    }
    let n = entries.len();
    if n == 0 {
        let v = Value::Object(Vec::new());
        assert(v@->Object_0 =~= Seq::empty());
        return Ok(v);
    }
    let chars = key_chars(&entries);
    proof {
        assert forall|i: int| 0 <= i < chars@.len() implies segment(#[trigger] chars@[i]@) by {
            assert(char_views(chars@)[i] == keys(entries@)[i]);
        }
    }
    let (marker, plain) = key_kinds(&chars);
    if marker && plain {
        return Err(ParseError::MixedKeys { path: clone_strings(path) });
    }
    assert(!plain ==> marker) by {
        let first = keys(entries@)[0];
        if !plain {
            assert(index_marker(first));
        }
    }
    if marker {
        proof {
            assert forall|t: int| 0 <= t < chars@.len() implies index_marker(
                #[trigger] chars@[t]@,
            ) by {
                assert(char_views(chars@)[t] == chars@[t]@);
            }
            lemma_exact_listing(keys(entries@));
        }
        if !has_exact_indices(&chars) {
            return Err(ParseError::MissingIndices { path: clone_strings(path), count: n });
        }
    }
    let done = match finalize_children(entries, chars, path) {
        Ok(done) => done,
        Err(e) => {
            return Err(e);
        },
    };
    if marker {
        proof {
            lemma_indices_cover(s);
        }
        let slots = place_items(done);
        let v = Value::Array(slots);
        proof {
            assert(v@->Array_0 =~= Seq::new(s.len(), |i: int| outcomes[marker_at(s, i)]->Ok_0));
        }
        Ok(v)
    } else {
        let v = Value::Object(done);
        proof {
            assert(v@->Object_0 =~= Seq::new(ks.len(), |i: int| (ks[i], outcomes[ks[i]]->Ok_0)));
        }
        Ok(v)
    }
}

/// The canonical value of the tree `node` that stands at `path`.
pub fn finalize_node(node: Node, path: &Vec<String>) -> (r: Result<Value, ParseError>)
    requires
        node.wf(),
    ensures
        result_view(r) == finalize(node@, texts(path@)),
    decreases node, 0nat,
{
    match node {
        Node::Leaf(leaf) => finalize_leaf_value(leaf, path),
        Node::Container(entries) => finalize_map(entries, path),
    }
}

} // verus!
