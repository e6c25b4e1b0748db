//! The order of keys: lexicographic by code point.

use crate::node::distinct;
use crate::text::Text;
use vstd::prelude::*;

verus! {

/// Lexicographic order of texts by code point: `a` comes before `b`.
pub open spec fn lex_lt(a: Text, b: Text) -> bool
    decreases a.len(),
{
    if b.len() == 0 {
        false
    } else if a.len() == 0 {
        true
    } else if a[0] != b[0] {
        a[0] < b[0]
    } else {
        lex_lt(a.drop_first(), b.drop_first())
    }
}

/// `a` is `b` or comes before it.
pub open spec fn lex_le(a: Text, b: Text) -> bool {
    a == b || lex_lt(a, b)
}

/// Whether `k` is the key of `s` that comes first.
pub open spec fn is_least(k: Text, s: Set<Text>) -> bool {
    s.contains(k) && forall|j: Text| s.contains(j) ==> lex_le(k, j)
}

/// The key of `s` that comes first.
pub open spec fn least(s: Set<Text>) -> Text {
    choose|k: Text| is_least(k, s)
}

/// The keys of `s` in lexicographic order.
pub open spec fn sorted(s: Set<Text>) -> Seq<Text>
    decreases s.len(),
{
    if s.finite() && s.len() > 0 && s.contains(least(s)) {
        seq![least(s)] + sorted(s.remove(least(s)))
    } else {
        Seq::empty()
    }
}

/// Whether each key comes before the next.
pub open spec fn increasing(ks: Seq<Text>) -> bool {
    forall|i: int, j: int| 0 <= i < j < ks.len() ==> lex_lt(ks[i], ks[j])
}

/// The views of a vector of character vectors.
pub open spec fn char_views(v: Seq<Vec<char>>) -> Seq<Text> {
    Seq::new(v.len(), |i: int| v[i]@)
}

/// A listing without repeats has as many items as its set.
pub proof fn lemma_listing_len(ks: Seq<Text>)
    requires
        crate::node::distinct(ks),
    ensures
        ks.to_set().finite(),
        ks.to_set().len() == ks.len(),
{
    ks.unique_seq_to_set();
}

/// Of two texts at most one comes before the other.
pub proof fn lemma_lex_asymmetric(a: Text, b: Text)
    requires
        lex_lt(a, b),
    ensures
        !lex_lt(b, a),
        a != b,
    decreases a.len(),
{
    if a.len() > 0 && b.len() > 0 && a[0] == b[0] {
        lemma_lex_asymmetric(a.drop_first(), b.drop_first());
    }
}

/// What comes before a text comes before all that the text comes before.
pub proof fn lemma_lex_transitive(a: Text, b: Text, c: Text)
    requires
        lex_lt(a, b),
        lex_lt(b, c),
    ensures
        lex_lt(a, c),
    decreases a.len(),
{
    if a.len() > 0 && b.len() > 0 && c.len() > 0 && a[0] == b[0] && b[0] == c[0] {
        lemma_lex_transitive(a.drop_first(), b.drop_first(), c.drop_first());
    }
}

/// Of two different texts one comes before the other.
pub proof fn lemma_lex_total(a: Text, b: Text)
    ensures
        lex_lt(a, b) || a == b || lex_lt(b, a),
    decreases a.len(),
{
    if a.len() > 0 && b.len() > 0 && a[0] == b[0] {
        lemma_lex_total(a.drop_first(), b.drop_first());
        if a.drop_first() == b.drop_first() {
            assert(a =~= seq![a[0]] + a.drop_first());
        }
    }
}

/// Texts that agree on their first `i` characters compare as what follows.
pub proof fn lemma_lex_skip(a: Text, b: Text, i: int)
    requires
        0 <= i <= a.len(),
        i <= b.len(),
        forall|j: int| 0 <= j < i ==> a[j] == b[j],
    ensures
        lex_lt(a, b) == lex_lt(a.skip(i), b.skip(i)),
    decreases i,
{
    if i > 0 {
        let a1 = a.drop_first();
        let b1 = b.drop_first();
        lemma_lex_skip(a1, b1, i - 1);
        assert(a1.skip(i - 1) =~= a.skip(i));
        assert(b1.skip(i - 1) =~= b.skip(i));
    } else {
        assert(a.skip(0) =~= a);
        assert(b.skip(0) =~= b);
    }
}

/// The least key of a set is the only one that is least.
pub proof fn lemma_least_is(k: Text, s: Set<Text>)
    requires
        is_least(k, s),
    ensures
        least(s) == k,
{
    let l = least(s);
    if l != k {
        if lex_lt(l, k) {
            lemma_lex_asymmetric(l, k);
        }
    }
}

/// The sorted keys of a finite set list it without repeats.
pub proof fn lemma_sorted_listing(s: Set<Text>)
    requires
        s.finite(),
    ensures
        forall|i: int| 0 <= i < sorted(s).len() ==> s.contains(#[trigger] sorted(s)[i]),
        distinct(sorted(s)),
    decreases s.len(),
{
    if s.len() > 0 && s.contains(least(s)) {
        let k = least(s);
        let rest = s.remove(k);
        lemma_sorted_listing(rest);
    }
}

/// A finite set of keys that is not empty has a key that comes first.
pub proof fn lemma_has_least(s: Set<Text>)
    requires
        s.finite(),
        s.len() > 0,
    ensures
        is_least(least(s), s),
    decreases s.len(),
{
    let x = s.choose();
    let rest = s.remove(x);
    if rest.len() == 0 {
        assert(is_least(x, s));
    } else {
        lemma_has_least(rest);
        let l = least(rest);
        lemma_lex_total(x, l);
        if lex_lt(x, l) {
            assert forall|j: Text| s.contains(j) implies lex_le(x, j) by {
                if j != x {
                    if j != l {
                        lemma_lex_transitive(x, l, j);
                    }
                }
            }
            assert(is_least(x, s));
        } else {
            assert(is_least(l, s));
        }
    }
}

/// The sorted keys of a finite set are all its keys, each before the next.
pub proof fn lemma_sorted_complete(s: Set<Text>)
    requires
        s.finite(),
    ensures
        sorted(s).len() == s.len(),
        forall|k: Text| s.contains(k) ==> sorted(s).contains(k),
        increasing(sorted(s)),
    decreases s.len(),
{
    if s.len() > 0 {
        lemma_has_least(s);
        let k = least(s);
        let rest = s.remove(k);
        lemma_sorted_complete(rest);
        lemma_sorted_listing(rest);
        let q = sorted(s);
        assert forall|x: Text| s.contains(x) implies q.contains(x) by {
            if x == k {
                assert(q[0] == x);
            } else {
                let i = sorted(rest).index_of(x);
                assert(q[i + 1] == x);
            }
        }
    }
}

/// Without the key at position `j`, which comes first, a listing lists what
/// follows that key in the order of keys.
pub proof fn lemma_take_least(ks: Seq<Text>, j: int)
    requires
        distinct(ks),
        0 <= j < ks.len(),
        forall|i: int| 0 <= i < ks.len() ==> lex_le(ks[j], #[trigger] ks[i]),
    ensures
        distinct(ks.remove(j)),
        ks.remove(j).to_set() == ks.to_set().remove(ks[j]),
        sorted(ks.to_set()) == seq![ks[j]] + sorted(ks.remove(j).to_set()),
{
    let k = ks[j];
    let s = ks.to_set();
    let rest = ks.remove(j);
    assert(is_least(k, s)) by {
        assert forall|x: Text| s.contains(x) implies lex_le(k, x) by {
            let i = ks.index_of(x);
            assert(ks[i] == x);
        }
    }
    lemma_least_is(k, s);
    lemma_listing_len(ks);
    assert(rest.to_set() =~= s.remove(k)) by {
        assert forall|x: Text| rest.to_set().contains(x) <==> s.remove(k).contains(x) by {
            if rest.contains(x) {
                let i = rest.index_of(x);
                assert(rest[i] == x);
                if i < j {
                    assert(ks[i] == x);
                } else {
                    assert(ks[i + 1] == x);
                }
            }
            if s.contains(x) && x != k {
                let i = ks.index_of(x);
                assert(ks[i] == x);
                if i < j {
                    assert(rest[i] == x);
                } else {
                    assert(rest[i - 1] == x);
                }
            }
        }
    }
    assert(sorted(s) =~= seq![k] + sorted(s.remove(k)));
}

/// Whether `a` comes before `b` in lexicographic order.
pub(crate) fn comes_before(a: &[char], b: &[char]) -> (r: bool)
    ensures
        r == lex_lt(a@, b@),
{
    let mut i: usize = 0;
    while i < a.len() && i < b.len() && a[i] == b[i]
        invariant
            i <= a@.len(),
            i <= b@.len(),
            forall|j: int| 0 <= j < i ==> a@[j] == b@[j],
        decreases a@.len() - i,
    {
        i += 1;
    }
    proof {
        lemma_lex_skip(a@, b@, i as int);
    }
    if i == b.len() {
        false
    } else if i == a.len() {
        true
    } else {
        a[i] < b[i]
    }
}

/// The position of the key that comes first.
pub(crate) fn least_position(ks: &Vec<Vec<char>>) -> (r: usize)
    requires
        ks@.len() > 0,
    ensures
        r < ks@.len(),
        forall|i: int| 0 <= i < ks@.len() ==> lex_le(ks@[r as int]@, #[trigger] ks@[i]@),
{
    let mut best: usize = 0;
    let mut i: usize = 1;
    while i < ks.len()
        invariant
            1 <= i <= ks@.len(),
            best < i,
            forall|t: int| 0 <= t < i ==> lex_le(ks@[best as int]@, #[trigger] ks@[t]@),
        decreases ks@.len() - i,
    {
        if comes_before(ks[i].as_slice(), ks[best].as_slice()) {
            proof {
                assert forall|t: int| 0 <= t < i + 1 implies lex_le(
                    ks@[i as int]@,
                    #[trigger] ks@[t]@,
                ) by {
                    if t < i {
                        if ks@[best as int]@ != ks@[t]@ {
                            lemma_lex_transitive(ks@[i as int]@, ks@[best as int]@, ks@[t]@);
                        }
                    }
                }
            }
            best = i;
        } else {
            proof {
                lemma_lex_total(ks@[best as int]@, ks@[i as int]@);
            }
        }
        i += 1;
    }
    best
}

} // verus!
