//! List-index markers: the keys of a list.

use crate::key::{index_marker, segment};
use crate::digits::{bounded_value, digits_value};
use crate::node::distinct;
use crate::order::{char_views, lemma_listing_len};
use crate::text::Text;
use vstd::prelude::*;

verus! {

/// The list index that the marker `k` gives.
pub open spec fn marker_index(k: Text) -> nat {
    digits_value(k.skip(1))
}

/// Whether every key of `s` is a list-index marker.
pub open spec fn all_markers(s: Set<Text>) -> bool {
    forall|k: Text| s.contains(k) ==> index_marker(k)
}

/// Whether no key of `s` is a list-index marker.
pub open spec fn no_markers(s: Set<Text>) -> bool {
    forall|k: Text| s.contains(k) ==> !index_marker(k)
}

/// Whether the markers of `s` give each index below their number once: no
/// index is as large as the number of markers, and no two markers give the
/// same index.
pub open spec fn exact_indices(s: Set<Text>) -> bool {
    &&& forall|k: Text| s.contains(k) ==> marker_index(k) < s.len()
    &&& forall|j: Text, k: Text|
        s.contains(j) && s.contains(k) && marker_index(j) == marker_index(k) ==> j == k
}

/// The marker of `s` that gives index `i`.
pub open spec fn marker_at(s: Set<Text>, i: int) -> Text {
    choose|k: Text| s.contains(k) && marker_index(k) == i
}

/// Whether the markers `ks` give each index below their number once.
pub open spec fn exact_positions(ks: Seq<Text>) -> bool {
    &&& forall|t: int| 0 <= t < ks.len() ==> marker_index(#[trigger] ks[t]) < ks.len()
    &&& forall|t: int, u: int|
        0 <= t < u < ks.len() ==> marker_index(#[trigger] ks[t]) != marker_index(#[trigger] ks[u])
}

/// For a listing without repeats, the two statements of exactness agree.
pub proof fn lemma_exact_listing(ks: Seq<Text>)
    requires
        distinct(ks),
    ensures
        exact_positions(ks) == exact_indices(ks.to_set()),
{
    let s = ks.to_set();
    lemma_listing_len(ks);
    if exact_positions(ks) {
        assert forall|k: Text| s.contains(k) implies marker_index(k) < s.len() by {
            let t = ks.index_of(k);
            assert(ks[t] == k);
        }
        assert forall|j: Text, k: Text|
            s.contains(j) && s.contains(k) && marker_index(j) == marker_index(k) implies j
            == k by {
            let t = ks.index_of(j);
            let u = ks.index_of(k);
            assert(ks[t] == j && ks[u] == k);
            if t < u {
                assert(marker_index(ks[t]) != marker_index(ks[u]));
            }
            if u < t {
                assert(marker_index(ks[u]) != marker_index(ks[t]));
            }
        }
    }
    if exact_indices(s) {
        assert forall|t: int| 0 <= t < ks.len() implies marker_index(#[trigger] ks[t])
            < ks.len() by {
            assert(s.contains(ks[t]));
        }
        assert forall|t: int, u: int| 0 <= t < u < ks.len() implies marker_index(
            #[trigger] ks[t],
        ) != marker_index(#[trigger] ks[u]) by {
            assert(s.contains(ks[t]));
            assert(s.contains(ks[u]));
            assert(ks[t] != ks[u]);
        }
    }
}

/// Markers that give each index below their number once give every such
/// index.
pub proof fn lemma_indices_cover(s: Set<Text>)
    requires
        s.finite(),
        exact_indices(s),
    ensures
        forall|i: int|
            0 <= i < s.len() ==> s.contains(#[trigger] marker_at(s, i)) && marker_index(
                marker_at(s, i),
            ) == i,
{
    let f = |k: Text| marker_index(k) as int;
    let image = s.map(f);
    let range = vstd::set_lib::set_int_range(0, s.len() as int);
    vstd::set_lib::lemma_map_size(s, image, f);
    vstd::set_lib::lemma_int_range(0, s.len() as int);
    vstd::set_lib::lemma_subset_equality(image, range);
    assert forall|i: int| 0 <= i < s.len() implies s.contains(#[trigger] marker_at(s, i))
        && marker_index(marker_at(s, i)) == i by {
        assert(range.contains(i));
    }
}

/// The index of the marker `key`, if it is below `bound`.
pub(crate) fn marker_value(key: &[char], bound: usize) -> (r: Option<usize>)
    requires
        index_marker(key@),
    ensures
        match r {
            Some(v) => v == marker_index(key@) && v < bound,
            None => marker_index(key@) >= bound,
        },
{
    let digits = vstd::slice::slice_subrange(key, 1, key.len());
    match bounded_value(digits, bound as u128) {
        Some(v) => Some(v as usize),
        None => None,
    }
}

/// Whether the markers `ks` give each index below their number once.
pub(crate) fn has_exact_indices(ks: &Vec<Vec<char>>) -> (r: bool)
    requires
        forall|t: int| 0 <= t < ks@.len() ==> index_marker(#[trigger] ks@[t]@),
    ensures
        r == exact_positions(char_views(ks@)),
{
    let n = ks.len();
    let ghost kv = char_views(ks@);
    let mut seen: Vec<bool> = Vec::new();
    while seen.len() < n
        invariant
            seen@.len() <= n,
            forall|i: int| 0 <= i < seen@.len() ==> !seen@[i],
        decreases n - seen@.len(),
    {
        seen.push(false);
    }
    let ghost mut owner: Seq<int> = Seq::new(n as nat, |i: int| 0);
    let mut t: usize = 0;
    while t < n
        invariant
            t <= n,
            n == ks@.len(),
            kv == char_views(ks@),
            seen@.len() == n,
            owner.len() == n,
            forall|u: int| 0 <= u < ks@.len() ==> index_marker(#[trigger] ks@[u]@),
            forall|u: int| 0 <= u < t ==> marker_index(#[trigger] kv[u]) < n,
            forall|u: int| 0 <= u < t ==> seen@[marker_index(#[trigger] kv[u]) as int],
            forall|i: int|
                0 <= i < n && #[trigger] seen@[i] ==> 0 <= owner[i] < t && marker_index(
                    kv[owner[i]],
                ) == i,
            forall|u: int, v: int|
                0 <= u < v < t ==> marker_index(#[trigger] kv[u]) != marker_index(
                    #[trigger] kv[v],
                ),
        decreases n - t,
    {
        assert(kv[t as int] == ks@[t as int]@);
        match marker_value(ks[t].as_slice(), n) {
            None => {
                return false;
            },
            Some(v) => {
                if seen[v] {
                    return false;
                }
                seen.set(v, true);
                proof {
                    owner = owner.update(v as int, t as int);
                }
            },
        }
        t += 1;
    }
    true
}

/// Whether some key is a list-index marker, and whether some key is none.
pub(crate) fn key_kinds(ks: &Vec<Vec<char>>) -> (r: (bool, bool))
    requires
        forall|i: int| 0 <= i < ks@.len() ==> segment(#[trigger] ks@[i]@),
    ensures
        r.0 == !no_markers(char_views(ks@).to_set()),
        r.1 == !all_markers(char_views(ks@).to_set()),
{
    let ghost kv = char_views(ks@);
    let mut marker = false;
    let mut plain = false;
    let mut i: usize = 0;
    while i < ks.len()
        invariant
            i <= ks@.len(),
            kv == char_views(ks@),
            forall|j: int| 0 <= j < ks@.len() ==> segment(#[trigger] ks@[j]@),
            marker == exists|j: int| 0 <= j < i && index_marker(#[trigger] kv[j]),
            plain == exists|j: int| 0 <= j < i && !index_marker(#[trigger] kv[j]),
        decreases ks@.len() - i,
    {
        assert(kv[i as int] == ks@[i as int]@);
        if ks[i][0] == '$' {
            marker = true;
        } else {
            plain = true;
        }
        i += 1;
    }
    (marker, plain)
}

} // verus!
