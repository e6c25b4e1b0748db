//! What holds of every input.
//!
//! - The order of lines and of assignments does not matter
//!   (`law_order_independence`, `law_assignment_order`).
//! - A list comes out in the order of its indices (`law_list_reconstruction`).
//! - A key holds one value, and a key that holds a value has no longer key
//!   under it (`law_duplicate_refused`, `law_extension_refused`,
//!   `law_prefix_refused`).
//! - Only a fence of the width of the opening fence closes a string block
//!   (`law_fence_width`).
//! - A value that finalization gives is in canonical form
//!   (`law_finalize_canonical`).

use crate::digits::{decimal, lemma_decimal_value};
use crate::error::ErrorView;
use crate::finalize::{canonical, child_outcomes, finalize, finalize_leaf, first_error, Outcome};
use crate::indices::{all_markers, exact_indices, lemma_indices_cover, marker_at, marker_index};
use crate::key::{identifier, index_marker};
use crate::leaf::LeafView;
use crate::node::{insert, insert_from, tree_wf, Tree};
use crate::order::{lemma_least_is, lemma_sorted_complete, lemma_sorted_listing, sorted};
use crate::scan::{empty_tree, line_count, resolved, run, scan_step, Assignment, ScanView, Step};
use crate::text::Text;
use crate::value::ValueView;
use vstd::prelude::*;
use vstd::seq_lib::{to_multiset_contains, to_multiset_len, to_multiset_remove};

verus! {

/// The tree after the assignments `a`, made in their order; nothing if one of
/// them is refused.
pub open spec fn assign_all(t: Tree, a: Seq<Assignment>) -> Option<Tree>
    decreases a.len(),
{
    if a.len() == 0 {
        Some(t)
    } else {
        match insert(t, a[0].0, a[0].1, 0) {
            Ok(next) => assign_all(next, a.drop_first()),
            Err(_) => None,
        }
    }
}

/// The assignments that the lines from position `i` on make when read in
/// state `state`, if each of them scans.
pub open spec fn scanned(lines: Seq<Text>, i: int, state: ScanView) -> Result<
    Seq<Assignment>,
    ErrorView,
>
    decreases lines.len() - i,
{
    if i < 0 || i >= lines.len() {
        match state {
            ScanView::Normal => Ok(Seq::empty()),
            ScanView::InStringBlock { .. } => Err(
                ErrorView::UnclosedStringBlock { lines: line_count(lines) },
            ),
        }
    } else {
        match scan_step(state, lines[i], (i + 1) as nat) {
            Err(e) => Err(e),
            Ok((next, None)) => scanned(lines, i + 1, next),
            Ok((next, Some(x))) => match scanned(lines, i + 1, next) {
                Err(e) => Err(e),
                Ok(rest) => Ok(seq![x] + rest),
            },
        }
    }
}

/// Whether an assignment is accepted, and the tree it gives, do not depend on
/// the line it stands on.
pub proof fn lemma_insert_any_line(
    t: Tree,
    path: Seq<Text>,
    i: int,
    leaf: LeafView,
    l1: nat,
    l2: nat,
)
    ensures
        insert_from(t, path, i, leaf, l1) is Ok <==> insert_from(t, path, i, leaf, l2) is Ok,
        insert_from(t, path, i, leaf, l1) is Ok ==> insert_from(t, path, i, leaf, l1)->Ok_0
            == insert_from(t, path, i, leaf, l2)->Ok_0,
        insert_from(t, path, i, leaf, l1) is Ok ==> insert_from(t, path, i, leaf, l1)->Ok_0 is Branch,
    decreases path.len() - i,
{
    if let Tree::Branch(m) = t {
        if 0 <= i && i + 1 < path.len() {
            let child = if m.dom().contains(path[i]) {
                m[path[i]]
            } else {
                Tree::Branch(Map::empty())
            };
            lemma_insert_any_line(child, path, i + 1, leaf, l1, l2);
        }
    }
}

/// Two assignments that are accepted one after the other are accepted in
/// the other order too, and give the same tree.
pub proof fn lemma_insert_swap(
    t: Tree,
    path_a: Seq<Text>,
    leaf_a: LeafView,
    path_b: Seq<Text>,
    leaf_b: LeafView,
    i: int,
)
    requires
        insert_from(t, path_a, i, leaf_a, 0) is Ok,
        insert_from(insert_from(t, path_a, i, leaf_a, 0)->Ok_0, path_b, i, leaf_b, 0) is Ok,
    ensures
        insert_from(t, path_b, i, leaf_b, 0) is Ok,
        insert_from(insert_from(t, path_b, i, leaf_b, 0)->Ok_0, path_a, i, leaf_a, 0) == insert_from(
            insert_from(t, path_a, i, leaf_a, 0)->Ok_0,
            path_b,
            i,
            leaf_b,
            0,
        ),
    decreases path_a.len() - i,
{
    let tree_a = insert_from(t, path_a, i, leaf_a, 0)->Ok_0;
    match t {
        Tree::Leaf(_) => {},
        Tree::Branch(m) => {
            let in_a = 0 <= i < path_a.len();
            let in_b = 0 <= i < path_b.len();
            if in_a && in_b {
                let key_a = path_a[i];
                let key_b = path_b[i];
                let map_a = tree_a->Branch_0;
                let last_a = i + 1 == path_a.len();
                let last_b = i + 1 == path_b.len();
                let child_a = if m.dom().contains(key_a) {
                    m[key_a]
                } else {
                    Tree::Branch(Map::empty())
                };
                let new_a = if last_a {
                    Tree::Leaf(leaf_a)
                } else {
                    insert_from(child_a, path_a, i + 1, leaf_a, 0)->Ok_0
                };
                if key_a != key_b {
                    let child_b = if m.dom().contains(key_b) {
                        m[key_b]
                    } else {
                        Tree::Branch(Map::empty())
                    };
                    let new_b = if last_b {
                        Tree::Leaf(leaf_b)
                    } else {
                        insert_from(child_b, path_b, i + 1, leaf_b, 0)->Ok_0
                    };
                    let map_b = m.insert(key_b, new_b);
                    assert(map_a.insert(key_b, new_b) =~= map_b.insert(key_a, new_a));
                } else {
                    lemma_insert_swap(child_a, path_a, leaf_a, path_b, leaf_b, i + 1);
                    let both = insert_from(new_a, path_b, i + 1, leaf_b, 0)->Ok_0;
                    let new_b = insert_from(child_a, path_b, i + 1, leaf_b, 0)->Ok_0;
                    let map_b = m.insert(key_b, new_b);
                    assert(map_a.insert(key_b, both) =~= map_b.insert(key_a, both));
                }
            }
        },
    }
}

/// An assignment put before the others gives what they give after them.
proof fn lemma_assign_first(t: Tree, x: Assignment, rest: Seq<Assignment>)
    ensures
        assign_all(t, seq![x] + rest) == match insert(t, x.0, x.1, 0) {
            Ok(next) => assign_all(next, rest),
            Err(_) => None,
        },
{
    let a = seq![x] + rest;
    assert(a.drop_first() =~= rest);
}

/// The assignment at position `j` may be made first.
pub proof fn lemma_move_to_front(t: Tree, a: Seq<Assignment>, j: int)
    requires
        0 <= j < a.len(),
        assign_all(t, a) is Some,
    ensures
        assign_all(t, seq![a[j]] + a.remove(j)) == assign_all(t, a),
    decreases j,
{
    if j == 0 {
        assert(seq![a[0]] + a.remove(0) =~= a);
    } else {
        let x = a[0];
        let y = a[j];
        let rest = a.drop_first();
        let others = rest.remove(j - 1);
        let tree_x = insert(t, x.0, x.1, 0)->Ok_0;
        lemma_move_to_front(tree_x, rest, j - 1);
        lemma_assign_first(tree_x, y, others);
        lemma_insert_swap(t, x.0, x.1, y.0, y.1, 0);
        let tree_a = insert(t, y.0, y.1, 0)->Ok_0;
        lemma_assign_first(tree_a, x, others);
        lemma_assign_first(t, y, seq![x] + others);
        assert(seq![y] + (seq![x] + others) =~= seq![a[j]] + a.remove(j));
    }
}

/// Assignments that do not conflict give the same tree in any order.
pub proof fn lemma_assign_all_permuted(t: Tree, a: Seq<Assignment>, b: Seq<Assignment>)
    requires
        a.to_multiset() == b.to_multiset(),
        assign_all(t, a) is Some,
    ensures
        assign_all(t, b) == assign_all(t, a),
    decreases a.len(),
{
    to_multiset_len(a);
    to_multiset_len(b);
    if b.len() > 0 {
        let x = b[0];
        to_multiset_contains(b, x);
        to_multiset_contains(a, x);
        let j = a.index_of(x);
        lemma_move_to_front(t, a, j);
        lemma_assign_first(t, x, a.remove(j));
        let tree_a = insert(t, x.0, x.1, 0)->Ok_0;
        to_multiset_remove(a, j);
        to_multiset_remove(b, 0);
        lemma_assign_all_permuted(tree_a, a.remove(j), b.drop_first());
    }
}

/// Lines that scan, and whose assignments do not conflict, give the tree of
/// their assignments.
pub proof fn lemma_run_scanned(lines: Seq<Text>, i: int, state: ScanView, tree: Tree)
    requires
        scanned(lines, i, state) is Ok,
        assign_all(tree, scanned(lines, i, state)->Ok_0) is Some,
    ensures
        run(lines, i, state, tree) == Ok::<Tree, ErrorView>(
            assign_all(tree, scanned(lines, i, state)->Ok_0)->Some_0,
        ),
    decreases lines.len() - i,
{
    if 0 <= i < lines.len() {
        match scan_step(state, lines[i], (i + 1) as nat) {
            Err(e) => {},
            Ok((next, None)) => {
                lemma_run_scanned(lines, i + 1, next, tree);
            },
            Ok((next, Some(x))) => {
                let rest = scanned(lines, i + 1, next)->Ok_0;
                lemma_assign_first(tree, x, rest);
                lemma_insert_any_line(tree, x.0, 0, x.1, 0, (i + 1) as nat);
                let tree_a = insert(tree, x.0, x.1, 0)->Ok_0;
                lemma_run_scanned(lines, i + 1, next, tree_a);
            },
        }
    }
}

/// Order independence of assignments: two inputs whose lines make the same
/// assignments, in whatever order, resolve to the same value, provided that the
/// assignments do not conflict.
pub proof fn law_assignment_order(xs: Seq<Text>, ys: Seq<Text>)
    requires
        scanned(xs, 0, ScanView::Normal) is Ok,
        scanned(ys, 0, ScanView::Normal) is Ok,
        scanned(xs, 0, ScanView::Normal)->Ok_0.to_multiset() == scanned(
            ys,
            0,
            ScanView::Normal,
        )->Ok_0.to_multiset(),
        assign_all(empty_tree(), scanned(xs, 0, ScanView::Normal)->Ok_0) is Some,
    ensures
        resolved(ys) == resolved(xs),
{
    let a = scanned(xs, 0, ScanView::Normal)->Ok_0;
    let b = scanned(ys, 0, ScanView::Normal)->Ok_0;
    lemma_assign_all_permuted(empty_tree(), a, b);
    lemma_run_scanned(xs, 0, ScanView::Normal, empty_tree());
    lemma_run_scanned(ys, 0, ScanView::Normal, empty_tree());
}

/// Whether `line` is complete in itself outside a string block: it is blank
/// or assigns a scalar.
pub open spec fn complete(line: Text) -> bool {
    scan_step(ScanView::Normal, line, 0) matches Ok((ScanView::Normal, _))
}

/// What the complete line `line` assigns, if anything.
pub open spec fn made(line: Text) -> Seq<Assignment> {
    match scan_step(ScanView::Normal, line, 0) {
        Ok((_, Some(x))) => seq![x],
        _ => Seq::empty(),
    }
}

/// What complete lines assign, in their order.
pub open spec fn collected(lines: Seq<Text>) -> Seq<Assignment>
    decreases lines.len(),
{
    if lines.len() == 0 {
        Seq::empty()
    } else {
        made(lines[0]) + collected(lines.drop_first())
    }
}

/// Whether a line scans, and what it leaves behind, do not depend on its
/// number.
pub proof fn lemma_step_any_number(state: ScanView, line: Text, n1: nat, n2: nat)
    ensures
        scan_step(state, line, n1) is Ok <==> scan_step(state, line, n2) is Ok,
        scan_step(state, line, n1) is Ok ==> scan_step(state, line, n1) == scan_step(
            state,
            line,
            n2,
        ),
{
}

/// Complete lines scan to what they assign.
proof fn lemma_scanned_complete(lines: Seq<Text>, i: int)
    requires
        0 <= i <= lines.len(),
        forall|j: int| 0 <= j < lines.len() ==> complete(#[trigger] lines[j]),
    ensures
        scanned(lines, i, ScanView::Normal) == Ok::<Seq<Assignment>, ErrorView>(
            collected(lines.skip(i)),
        ),
    decreases lines.len() - i,
{
    let rest = lines.skip(i);
    if i < lines.len() {
        lemma_step_any_number(ScanView::Normal, lines[i], 0, (i + 1) as nat);
        lemma_scanned_complete(lines, i + 1);
        assert(rest.drop_first() =~= lines.skip(i + 1));
        assert(Seq::<Assignment>::empty() + collected(lines.skip(i + 1)) =~= collected(
            lines.skip(i + 1),
        ));
    }
}

/// What lines assign, as a multiset, is what they assign without one of them
/// together with what that one assigns.
proof fn lemma_collected_remove(lines: Seq<Text>, j: int)
    requires
        0 <= j < lines.len(),
    ensures
        collected(lines).to_multiset() == collected(lines.remove(j)).to_multiset().add(
            made(lines[j]).to_multiset(),
        ),
    decreases j,
{
    let rest = lines.drop_first();
    vstd::seq_lib::lemma_multiset_commutative(made(lines[0]), collected(rest));
    if j == 0 {
        assert(collected(rest).to_multiset().add(made(lines[0]).to_multiset()) =~= made(
            lines[0],
        ).to_multiset().add(collected(rest).to_multiset()));
    } else {
        let others = lines.remove(j);
        lemma_collected_remove(rest, j - 1);
        assert(others.drop_first() =~= rest.remove(j - 1));
        vstd::seq_lib::lemma_multiset_commutative(made(lines[0]), collected(rest.remove(j - 1)));
        assert(collected(lines).to_multiset() =~= collected(others).to_multiset().add(
            made(lines[j]).to_multiset(),
        ));
    }
}

/// The same lines in another order assign the same, in another order.
proof fn lemma_collected_permuted(xs: Seq<Text>, ys: Seq<Text>)
    requires
        xs.to_multiset() == ys.to_multiset(),
    ensures
        collected(xs).to_multiset() == collected(ys).to_multiset(),
    decreases xs.len(),
{
    to_multiset_len(xs);
    to_multiset_len(ys);
    if ys.len() > 0 {
        let x = ys[0];
        to_multiset_contains(ys, x);
        to_multiset_contains(xs, x);
        let j = xs.index_of(x);
        to_multiset_remove(xs, j);
        to_multiset_remove(ys, 0);
        lemma_collected_permuted(xs.remove(j), ys.drop_first());
        lemma_collected_remove(xs, j);
        lemma_collected_remove(ys, 0);
    }
}

/// Order independence: lines of which each is blank or assigns a scalar, and
/// whose assignments do not conflict, resolve to the same value in any order.
pub proof fn law_order_independence(xs: Seq<Text>, ys: Seq<Text>)
    requires
        xs.to_multiset() == ys.to_multiset(),
        forall|i: int| 0 <= i < xs.len() ==> complete(#[trigger] xs[i]),
        assign_all(empty_tree(), collected(xs)) is Some,
    ensures
        resolved(ys) == resolved(xs),
{
    assert forall|i: int| 0 <= i < ys.len() implies complete(#[trigger] ys[i]) by {
        to_multiset_contains(ys, ys[i]);
        to_multiset_contains(xs, ys[i]);
    }
    lemma_scanned_complete(xs, 0);
    lemma_scanned_complete(ys, 0);
    assert(xs.skip(0) =~= xs);
    assert(ys.skip(0) =~= ys);
    lemma_collected_permuted(xs, ys);
    law_assignment_order(xs, ys);
}

/// The list-index marker of index `i`: `$` and the decimal digits of `i`.
pub open spec fn index_key(i: nat) -> Text {
    seq!['$'] + decimal(i)
}

/// The assignments that give the list at `prefix` its items, in the order of
/// the items.
pub open spec fn list_assignments(prefix: Seq<Text>, items: Seq<LeafView>) -> Seq<Assignment> {
    Seq::new(items.len(), |i: int| (prefix.push(index_key(i as nat)), items[i]))
}

/// Whether a leaf has a canonical value.
pub open spec fn representable(leaf: LeafView) -> bool {
    finalize_leaf(leaf, Seq::empty()) is Ok
}

/// The canonical value of a leaf that has one.
pub open spec fn leaf_value(leaf: LeafView) -> ValueView {
    finalize_leaf(leaf, Seq::empty())->Ok_0
}

/// The value `v` inside one object for each segment of `prefix` from
/// position `i` on.
pub open spec fn nested(prefix: Seq<Text>, i: int, v: ValueView) -> ValueView
    decreases prefix.len() - i,
{
    if i < 0 || i >= prefix.len() {
        v
    } else {
        ValueView::Object(seq![(prefix[i], nested(prefix, i + 1, v))])
    }
}

/// The tree `inner` inside one container for each segment of `prefix` from
/// position `i` on.
pub open spec fn chain(prefix: Seq<Text>, i: int, inner: Tree) -> Tree
    decreases prefix.len() - i,
{
    if i < 0 || i >= prefix.len() {
        inner
    } else {
        Tree::Branch(Map::<Text, Tree>::empty().insert(prefix[i], chain(prefix, i + 1, inner)))
    }
}

/// The children of a list container that holds the first `n` of `items`.
pub open spec fn list_children(items: Seq<LeafView>, n: int) -> Map<Text, Tree> {
    Map::new(
        |k: Text| exists|i: int| 0 <= i < n && k == #[trigger] index_key(i as nat),
        |k: Text| Tree::Leaf(items[marker_index(k) as int]),
    )
}

/// A marker made from an index gives that index back.
pub proof fn lemma_index_key(i: nat)
    ensures
        index_marker(index_key(i)),
        marker_index(index_key(i)) == i,
{
    lemma_decimal_value(i);
    assert(index_key(i).skip(1) =~= decimal(i));
}

/// An assignment into the empty container makes one container for each
/// segment before the last.
proof fn lemma_insert_chain_new(prefix: Seq<Text>, key: Text, leaf: LeafView, i: int)
    requires
        0 <= i <= prefix.len(),
    ensures
        insert_from(Tree::Branch(Map::empty()), prefix.push(key), i, leaf, 0) == Ok::<
            Tree,
            ErrorView,
        >(chain(prefix, i, Tree::Branch(Map::<Text, Tree>::empty().insert(key, Tree::Leaf(leaf))))),
    decreases prefix.len() - i,
{
    if i < prefix.len() {
        lemma_insert_chain_new(prefix, key, leaf, i + 1);
    }
}

/// An assignment under a new key at the end of a chain of containers adds a
/// leaf to the innermost of them.
proof fn lemma_insert_chain(prefix: Seq<Text>, m: Map<Text, Tree>, key: Text, leaf: LeafView, i: int)
    requires
        0 <= i <= prefix.len(),
        !m.dom().contains(key),
    ensures
        insert_from(chain(prefix, i, Tree::Branch(m)), prefix.push(key), i, leaf, 0) == Ok::<
            Tree,
            ErrorView,
        >(chain(prefix, i, Tree::Branch(m.insert(key, Tree::Leaf(leaf))))),
    decreases prefix.len() - i,
{
    if i < prefix.len() {
        lemma_insert_chain(prefix, m, key, leaf, i + 1);
        let before = chain(prefix, i + 1, Tree::Branch(m));
        let after = chain(prefix, i + 1, Tree::Branch(m.insert(key, Tree::Leaf(leaf))));
        let here = Map::<Text, Tree>::empty().insert(prefix[i], before);
        assert(here.insert(prefix[i], after) =~= Map::<Text, Tree>::empty().insert(
            prefix[i],
            after,
        ));
    }
}

/// The assignments of a list, made in the order of its items, build the list
/// container inside the containers of its prefix.
proof fn lemma_build_list(prefix: Seq<Text>, items: Seq<LeafView>, n: int)
    requires
        1 <= n <= items.len(),
    ensures
        assign_all(
            chain(prefix, 0, Tree::Branch(list_children(items, n))),
            list_assignments(prefix, items).skip(n),
        ) == Some(chain(prefix, 0, Tree::Branch(list_children(items, items.len() as int)))),
    decreases items.len() - n,
{
    let la = list_assignments(prefix, items);
    if n < items.len() {
        let rest = la.skip(n);
        let key = index_key(n as nat);
        let m = list_children(items, n);
        assert(rest.drop_first() =~= la.skip(n + 1));
        assert(!m.dom().contains(key)) by {
            if m.dom().contains(key) {
                let i = choose|i: int| 0 <= i < n && key == #[trigger] index_key(i as nat);
                lemma_index_key(i as nat);
                lemma_index_key(n as nat);
            }
        }
        lemma_insert_chain(prefix, m, key, items[n], 0);
        lemma_index_key(n as nat);
        assert(m.insert(key, Tree::Leaf(items[n])) =~= list_children(items, n + 1));
        lemma_build_list(prefix, items, n + 1);
    }
}

/// The outcomes of keys whose children all have a value hold no error.
proof fn lemma_no_error(ks: Seq<Text>, outcomes: Map<Text, Outcome>, i: int)
    requires
        0 <= i,
        forall|j: int| i <= j < ks.len() ==> outcomes[#[trigger] ks[j]] is Ok,
    ensures
        first_error(ks, outcomes, i) is None,
    decreases ks.len() - i,
{
    if i < ks.len() {
        lemma_no_error(ks, outcomes, i + 1);
    }
}

/// The keys of a list container of `n` items.
proof fn lemma_list_keys(items: Seq<LeafView>, n: int)
    requires
        0 <= n <= items.len(),
    ensures
        list_children(items, n).dom().finite(),
        list_children(items, n).dom().len() == n,
        all_markers(list_children(items, n).dom()),
        n > 0 ==> exact_indices(list_children(items, n).dom()),
        forall|i: int|
            0 <= i < n ==> list_children(items, n).dom().contains(#[trigger] index_key(i as nat)),
    decreases n,
{
    let s = list_children(items, n).dom();
    if n == 0 {
        assert(s =~= Set::<Text>::empty());
    } else {
        let before = list_children(items, n - 1).dom();
        let key = index_key((n - 1) as nat);
        lemma_list_keys(items, n - 1);
        lemma_index_key((n - 1) as nat);
        assert(!before.contains(key)) by {
            if before.contains(key) {
                let i = choose|i: int| 0 <= i < n - 1 && key == #[trigger] index_key(i as nat);
                lemma_index_key(i as nat);
            }
        }
        assert(s =~= before.insert(key)) by {
            assert forall|k: Text| s.contains(k) <==> before.insert(key).contains(k) by {
                if s.contains(k) {
                    let i = choose|i: int| 0 <= i < n && k == #[trigger] index_key(i as nat);
                    if i < n - 1 {
                        assert(before.contains(k));
                    }
                }
                if before.contains(k) {
                    let i = choose|i: int| 0 <= i < n - 1 && k == #[trigger] index_key(i as nat);
                    assert(0 <= i < n && k == index_key(i as nat));
                }
                if k == key {
                    assert(0 <= n - 1 < n && k == index_key((n - 1) as nat));
                }
            }
        }
        assert forall|k: Text| s.contains(k) implies index_marker(k) && marker_index(k) < n by {
            let i = choose|i: int| 0 <= i < n && k == #[trigger] index_key(i as nat);
            lemma_index_key(i as nat);
        }
        assert forall|j: Text, k: Text|
            s.contains(j) && s.contains(k) && marker_index(j) == marker_index(k) implies j
            == k by {
            let a = choose|i: int| 0 <= i < n && j == #[trigger] index_key(i as nat);
            let b = choose|i: int| 0 <= i < n && k == #[trigger] index_key(i as nat);
            lemma_index_key(a as nat);
            lemma_index_key(b as nat);
        }
        assert forall|i: int| 0 <= i < n implies s.contains(#[trigger] index_key(i as nat)) by {}
    }
}

/// A list container of items that have values finalizes to the list of their
/// values, in the order of the items.
proof fn lemma_finalize_list(items: Seq<LeafView>, path: Seq<Text>)
    requires
        items.len() > 0,
        forall|i: int| 0 <= i < items.len() ==> representable(#[trigger] items[i]),
    ensures
        finalize(Tree::Branch(list_children(items, items.len() as int)), path) == Ok::<
            ValueView,
            ErrorView,
        >(ValueView::Array(Seq::new(items.len(), |i: int| leaf_value(items[i])))),
{
    let n = items.len() as int;
    let m = list_children(items, n);
    let s = m.dom();
    let outcomes = child_outcomes(m, path);
    let ks = sorted(s);
    lemma_list_keys(items, n);
    assert(outcomes.dom() =~= s);
    assert forall|k: Text| s.contains(k) implies outcomes[k] == Ok::<ValueView, ErrorView>(
        leaf_value(items[marker_index(k) as int]),
    ) && 0 <= marker_index(k) < n by {
        let i = choose|i: int| 0 <= i < n && k == #[trigger] index_key(i as nat);
        lemma_index_key(i as nat);
        assert(representable(items[i]));
    }
    lemma_sorted_listing(s);
    lemma_no_error(ks, outcomes, 0);
    let got = Seq::new(s.len(), |i: int| outcomes[marker_at(s, i)]->Ok_0);
    let want = Seq::new(items.len(), |i: int| leaf_value(items[i]));
    assert forall|i: int| 0 <= i < n implies got[i] == want[i] by {
        lemma_index_key(i as nat);
        assert(s.contains(index_key(i as nat)));
        let k = marker_at(s, i);
        assert(s.contains(k) && marker_index(k) == i);
    }
    assert(got =~= want);
}

/// A container with one child under an identifier finalizes to an object with
/// one entry.
proof fn lemma_finalize_chain(prefix: Seq<Text>, i: int, inner: Tree, v: ValueView)
    requires
        0 <= i <= prefix.len(),
        forall|j: int| 0 <= j < prefix.len() ==> identifier(#[trigger] prefix[j]),
        finalize(inner, prefix) == Ok::<ValueView, ErrorView>(v),
    ensures
        finalize(chain(prefix, i, inner), prefix.take(i)) == Ok::<ValueView, ErrorView>(
            nested(prefix, i, v),
        ),
    decreases prefix.len() - i,
{
    if i < prefix.len() {
        lemma_finalize_chain(prefix, i + 1, inner, v);
        let k = prefix[i];
        let child = chain(prefix, i + 1, inner);
        let m = Map::<Text, Tree>::empty().insert(k, child);
        let path = prefix.take(i);
        let outcomes = child_outcomes(m, path);
        let s = m.dom();
        assert(path.push(k) =~= prefix.take(i + 1));
        assert(outcomes.dom() =~= s);
        lemma_least_is(k, s);
        assert(sorted(s.remove(k)) =~= Seq::<Text>::empty());
        assert(!index_marker(k));
        let ks = sorted(s);
        assert(first_error(ks, outcomes, 1) is None);
        assert(Seq::new(ks.len(), |j: int| (ks[j], outcomes[ks[j]]->Ok_0)) =~= seq![
            (k, nested(prefix, i + 1, v)),
        ]);
    } else {
        assert(prefix.take(i) =~= prefix);
    }
}

/// Assignments that give the list at `prefix` its items under the markers
/// `$0`, `$1` and so on, made in whatever order, build a tree whose value
/// holds the values of the items in the order of their indices.
pub proof fn lemma_list_assignments(prefix: Seq<Text>, items: Seq<LeafView>, a: Seq<Assignment>)
    requires
        items.len() > 0,
        forall|j: int| 0 <= j < prefix.len() ==> identifier(#[trigger] prefix[j]),
        forall|i: int| 0 <= i < items.len() ==> representable(#[trigger] items[i]),
        a.to_multiset() == list_assignments(prefix, items).to_multiset(),
    ensures
        assign_all(empty_tree(), a) is Some,
        finalize(assign_all(empty_tree(), a)->Some_0, Seq::empty()) == Ok::<ValueView, ErrorView>(
            nested(
                prefix,
                0,
                ValueView::Array(Seq::new(items.len(), |i: int| leaf_value(items[i]))),
            ),
        ),
{
    let la = list_assignments(prefix, items);
    let n = items.len() as int;
    let list = Tree::Branch(list_children(items, n));
    let first = Map::<Text, Tree>::empty().insert(index_key(0), Tree::Leaf(items[0]));
    lemma_insert_chain_new(prefix, index_key(0), items[0], 0);
    lemma_index_key(0);
    assert(first =~= list_children(items, 1));
    lemma_build_list(prefix, items, 1);
    lemma_assign_all_permuted(empty_tree(), la, a);
    lemma_finalize_list(items, prefix);
    lemma_finalize_chain(
        prefix,
        0,
        list,
        ValueView::Array(Seq::new(items.len(), |i: int| leaf_value(items[i]))),
    );
    assert(prefix.take(0) =~= Seq::<Text>::empty());
}

/// List reconstruction: lines that give the list at `prefix` its items under
/// the markers `$0`, `$1` and so on, in whatever order, resolve to a value that
/// holds the values of the items in the order of their indices. The segments of
/// `prefix` are identifiers, so that the list sits inside one object for each
/// of them.
pub proof fn law_list_reconstruction(prefix: Seq<Text>, items: Seq<LeafView>, lines: Seq<Text>)
    requires
        items.len() > 0,
        forall|j: int| 0 <= j < prefix.len() ==> identifier(#[trigger] prefix[j]),
        forall|i: int| 0 <= i < items.len() ==> representable(#[trigger] items[i]),
        scanned(lines, 0, ScanView::Normal) is Ok,
        scanned(lines, 0, ScanView::Normal)->Ok_0.to_multiset() == list_assignments(
            prefix,
            items,
        ).to_multiset(),
    ensures
        resolved(lines) == Ok::<ValueView, ErrorView>(
            nested(
                prefix,
                0,
                ValueView::Array(Seq::new(items.len(), |i: int| leaf_value(items[i]))),
            ),
        ),
{
    lemma_list_assignments(prefix, items, scanned(lines, 0, ScanView::Normal)->Ok_0);
    lemma_run_scanned(lines, 0, ScanView::Normal, empty_tree());
}

/// A run of `width` backticks.
pub open spec fn fence(width: nat) -> Text {
    Seq::new(width, |i: int| '`')
}

/// Fence width: inside a string block that holds at least one line, a line of
/// backticks closes the block if it has as many backticks as the opening
/// fence, and is one more line of the block if it has more or fewer.
pub proof fn law_fence_width(
    fence_width: nat,
    path: Seq<Text>,
    content: Text,
    width: nat,
    number: nat,
)
    requires
        content.len() > 0,
    ensures
        width == fence_width ==> scan_step(
            ScanView::InStringBlock { fence_width, path, content },
            fence(width),
            number,
        ) == Ok::<Step, ErrorView>(
            (ScanView::Normal, Some((path, LeafView::Str(content.drop_last())))),
        ),
        width != fence_width ==> scan_step(
            ScanView::InStringBlock { fence_width, path, content },
            fence(width),
            number,
        ) == Ok::<Step, ErrorView>(
            (
                ScanView::InStringBlock {
                    fence_width,
                    path,
                    content: content + fence(width) + seq!['\n'],
                },
                None,
            ),
        ),
{
}

/// `law_duplicate_refused`, from the node that the first `i` segments lead to.
proof fn lemma_duplicate_refused(
    t: Tree,
    path: Seq<Text>,
    i: int,
    v: LeafView,
    w: LeafView,
    l1: nat,
    l2: nat,
)
    requires
        0 <= i < path.len(),
        insert_from(t, path, i, v, l1) is Ok,
    ensures
        insert_from(insert_from(t, path, i, v, l1)->Ok_0, path, i, w, l2) == Err::<
            Tree,
            ErrorView,
        >(ErrorView::DuplicateValue { line: l2, path, existing: v, new: w }),
    decreases path.len() - i,
{
    let m = t->Branch_0;
    if i + 1 < path.len() {
        let child = if m.dom().contains(path[i]) {
            m[path[i]]
        } else {
            Tree::Branch(Map::empty())
        };
        lemma_duplicate_refused(child, path, i + 1, v, w, l1, l2);
    }
}

/// A key that holds a value takes no second value.
pub proof fn law_duplicate_refused(t: Tree, path: Seq<Text>, v: LeafView, w: LeafView, l1: nat, l2: nat)
    requires
        path.len() > 0,
        insert(t, path, v, l1) is Ok,
    ensures
        insert(insert(t, path, v, l1)->Ok_0, path, w, l2) == Err::<Tree, ErrorView>(
            ErrorView::DuplicateValue { line: l2, path, existing: v, new: w },
        ),
{
    lemma_duplicate_refused(t, path, 0, v, w, l1, l2);
}

/// `law_extension_refused`, from the node that the first `i` segments lead to.
proof fn lemma_extension_refused(
    t: Tree,
    path: Seq<Text>,
    longer: Seq<Text>,
    i: int,
    v: LeafView,
    w: LeafView,
    l1: nat,
    l2: nat,
)
    requires
        0 <= i < path.len() < longer.len(),
        longer.take(path.len() as int) == path,
        insert_from(t, path, i, v, l1) is Ok,
    ensures
        insert_from(insert_from(t, path, i, v, l1)->Ok_0, longer, i, w, l2) == Err::<
            Tree,
            ErrorView,
        >(ErrorView::PrefixConflict { line: l2, path }),
    decreases path.len() - i,
{
    let m = t->Branch_0;
    if i + 1 < path.len() {
        let child = if m.dom().contains(path[i]) {
            m[path[i]]
        } else {
            Tree::Branch(Map::empty())
        };
        lemma_extension_refused(child, path, longer, i + 1, v, w, l1, l2);
    } else {
        assert(insert_from(Tree::Leaf(v), longer, i + 1, w, l2) == Err::<Tree, ErrorView>(
            ErrorView::PrefixConflict { line: l2, path: longer.take(i + 1) },
        ));
    }
}

/// A key that holds a value is no prefix of a longer key.
pub proof fn law_extension_refused(
    t: Tree,
    path: Seq<Text>,
    longer: Seq<Text>,
    v: LeafView,
    w: LeafView,
    l1: nat,
    l2: nat,
)
    requires
        0 < path.len() < longer.len(),
        longer.take(path.len() as int) == path,
        insert(t, path, v, l1) is Ok,
    ensures
        insert(insert(t, path, v, l1)->Ok_0, longer, w, l2) == Err::<Tree, ErrorView>(
            ErrorView::PrefixConflict { line: l2, path },
        ),
{
    lemma_extension_refused(t, path, longer, 0, v, w, l1, l2);
}

/// `law_prefix_refused`, from the node that the first `i` segments lead to.
proof fn lemma_prefix_refused(
    t: Tree,
    path: Seq<Text>,
    longer: Seq<Text>,
    i: int,
    v: LeafView,
    w: LeafView,
    l1: nat,
    l2: nat,
)
    requires
        0 <= i < path.len() < longer.len(),
        longer.take(path.len() as int) == path,
        insert_from(t, longer, i, w, l1) is Ok,
    ensures
        insert_from(insert_from(t, longer, i, w, l1)->Ok_0, path, i, v, l2) == Err::<
            Tree,
            ErrorView,
        >(ErrorView::PrefixConflict { line: l2, path }),
    decreases path.len() - i,
{
    let m = t->Branch_0;
    let child = if m.dom().contains(longer[i]) {
        m[longer[i]]
    } else {
        Tree::Branch(Map::empty())
    };
    lemma_insert_any_line(child, longer, i + 1, w, l1, l1);
    if i + 1 < path.len() {
        lemma_prefix_refused(child, path, longer, i + 1, v, w, l1, l2);
    }
}

/// A key with longer keys under it takes no value.
pub proof fn law_prefix_refused(
    t: Tree,
    path: Seq<Text>,
    longer: Seq<Text>,
    v: LeafView,
    w: LeafView,
    l1: nat,
    l2: nat,
)
    requires
        0 < path.len() < longer.len(),
        longer.take(path.len() as int) == path,
        insert(t, longer, w, l1) is Ok,
    ensures
        insert(insert(t, longer, w, l1)->Ok_0, path, v, l2) == Err::<Tree, ErrorView>(
            ErrorView::PrefixConflict { line: l2, path },
        ),
{
    lemma_prefix_refused(t, path, longer, 0, v, w, l1, l2);
}

/// Keys without an error from position `i` on all have a value.
proof fn lemma_all_ok(ks: Seq<Text>, outcomes: Map<Text, Outcome>, i: int)
    requires
        0 <= i,
        first_error(ks, outcomes, i) is None,
    ensures
        forall|j: int| i <= j < ks.len() ==> outcomes[#[trigger] ks[j]] is Ok,
    decreases ks.len() - i,
{
    if i < ks.len() {
        lemma_all_ok(ks, outcomes, i + 1);
    }
}

/// Canonical form: the value of a tree holds no null, each of its floats
/// denotes a finite double, and the entries of each of its objects stand in the
/// lexicographic order of their keys, none of which occurs twice.
pub proof fn law_finalize_canonical(t: Tree, path: Seq<Text>)
    requires
        tree_wf(t),
    ensures
        finalize(t, path) matches Ok(v) ==> canonical(v),
    decreases t,
{
    match t {
        Tree::Leaf(leaf) => {},
        Tree::Branch(m) => {
            let s = m.dom();
            let outcomes = child_outcomes(m, path);
            let ks = sorted(s);
            assert(outcomes.dom() =~= s);
            if finalize(t, path) is Ok && s.len() > 0 {
                lemma_sorted_complete(s);
                lemma_sorted_listing(s);
                lemma_all_ok(ks, outcomes, 0);
                assert forall|k: Text| s.contains(k) implies outcomes[k] is Ok && canonical(
                    outcomes[k]->Ok_0,
                ) by {
                    law_finalize_canonical(m[k], path.push(k));
                }
                if all_markers(s) {
                    lemma_indices_cover(s);
                }
            }
        },
    }
}

} // verus!
