//! The intermediate tree: what the assignments read so far add up to.

use crate::error::{ErrorView, ParseError};
use crate::key::{segment, valid_path};
use crate::leaf::{clone_strings, leaf_wf, texts, Leaf, LeafView};
use crate::text::Text;
use vstd::prelude::*;

verus! {

/// A node of the intermediate tree: a leaf value, or a container that holds
/// its children by key. The keys of a container differ from one another.
#[derive(Debug)]
pub enum Node {
    Leaf(Leaf),
    Container(Vec<(String, Node)>),
}

/// A node as the contracts see it: its children form a map.
pub enum Tree {
    Leaf(LeafView),
    Branch(Map<Text, Tree>),
}

/// The keys of a container's entries, in the order of the entries.
pub open spec fn keys(entries: Seq<(String, Node)>) -> Seq<Text> {
    Seq::new(entries.len(), |i: int| entries[i].0@)
}

/// Whether no key occurs twice.
pub open spec fn distinct(ks: Seq<Text>) -> bool {
    forall|i: int, j: int| 0 <= i < j < ks.len() ==> ks[i] != ks[j]
}

/// The tree that a node stands for.
pub open spec fn tree_of(node: Node) -> Tree
    decreases node,
{
    match node {
        Node::Leaf(leaf) => Tree::Leaf(leaf@),
        Node::Container(entries) => Tree::Branch(
            Map::new(
                |k: Text| keys(entries@).contains(k),
                |k: Text|
                    {
                        let i = keys(entries@).index_of(k);
                        if 0 <= i < entries@.len() {
                            tree_of(entries@[i].1)
                        } else {
                            Tree::Leaf(LeafView::EmptyObject)
                        }
                    },
            ),
        ),
    }
}

impl View for Node {
    type V = Tree;

    open spec fn view(&self) -> Tree {
        tree_of(*self)
    }
}

/// Leaves are valid; keys are segments and differ within each container.
pub open spec fn node_wf(node: Node) -> bool
    decreases node,
{
    match node {
        Node::Leaf(leaf) => leaf_wf(leaf@),
        Node::Container(entries) => {
            &&& distinct(keys(entries@))
            &&& forall|i: int| 0 <= i < entries@.len() ==> segment(#[trigger] keys(entries@)[i])
            &&& forall|i: int| 0 <= i < entries@.len() ==> node_wf((#[trigger] entries@[i]).1)
        },
    }
}

impl Node {
    /// Leaves are valid; keys are segments and differ within each container.
    pub open spec fn wf(&self) -> bool {
        node_wf(*self)
    }

    /// A container without children.
    pub fn new_map() -> (r: Node)
        ensures
            r@ == Tree::Branch(Map::<Text, Tree>::empty()),
            r.wf(),
    {
        let r = Node::Container(Vec::new());
        assert(r@->Branch_0 =~= Map::<Text, Tree>::empty());
        r
    }
}

/// A tree whose leaves are valid and whose containers are finite and keyed by
/// segments.
pub open spec fn tree_wf(t: Tree) -> bool
    decreases t,
{
    match t {
        Tree::Leaf(leaf) => leaf_wf(leaf),
        Tree::Branch(m) => {
            &&& m.dom().finite()
            &&& forall|k: Text| m.dom().contains(k) ==> segment(k)
            &&& forall|k: Text| #[trigger] m.dom().contains(k) ==> tree_wf(m[k])
        },
    }
}

/// The tree after the assignment of `leaf` to `path` on line `line`, seen from
/// the node `t` that the first `i` segments of `path` lead to.
///
/// The assignment fails where `path`, or a prefix of it, already holds a leaf,
/// and where `path` holds a container.
pub open spec fn insert_from(t: Tree, path: Seq<Text>, i: int, leaf: LeafView, line: nat) -> Result<
    Tree,
    ErrorView,
>
    decreases path.len() - i,
{
    match t {
        Tree::Leaf(_) => Err(ErrorView::PrefixConflict { line, path: path.take(i) }),
        Tree::Branch(m) => {
            if i < 0 || i >= path.len() {
                Ok(t)
            } else if i + 1 == path.len() {
                if m.dom().contains(path[i]) {
                    match m[path[i]] {
                        Tree::Branch(_) => Err(ErrorView::PrefixConflict { line, path }),
                        Tree::Leaf(existing) => Err(
                            ErrorView::DuplicateValue { line, path, existing, new: leaf },
                        ),
                    }
                } else {
                    Ok(Tree::Branch(m.insert(path[i], Tree::Leaf(leaf))))
                }
            } else {
                let child = if m.dom().contains(path[i]) {
                    m[path[i]]
                } else {
                    Tree::Branch(Map::empty())
                };
                match insert_from(child, path, i + 1, leaf, line) {
                    Ok(c) => Ok(Tree::Branch(m.insert(path[i], c))),
                    Err(e) => Err(e),
                }
            }
        },
    }
}

/// The tree after the assignment of `leaf` to `path` on line `line`.
pub open spec fn insert(t: Tree, path: Seq<Text>, leaf: LeafView, line: nat) -> Result<
    Tree,
    ErrorView,
> {
    insert_from(t, path, 0, leaf, line)
}

/// Whether `m` holds the children of `entries` under their keys.
pub open spec fn holds_entries(m: Map<Text, Tree>, entries: Seq<(String, Node)>) -> bool {
    &&& forall|k: Text| m.dom().contains(k) <==> keys(entries).contains(k)
    &&& forall|i: int| 0 <= i < entries.len() ==> m[#[trigger] entries[i].0@] == entries[i].1@
}

/// The view of a container holds its entries.
pub proof fn lemma_container_view(node: Node)
    requires
        node is Container,
        distinct(keys(node->Container_0@)),
    ensures
        node@ is Branch,
        holds_entries(node@->Branch_0, node->Container_0@),
        node@->Branch_0.dom().finite(),
{
    let entries = node->Container_0@;
    let m = node@->Branch_0;
    let ks = keys(entries);
    assert forall|k: Text| m.dom().contains(k) <==> ks.contains(k) by {}
    assert forall|i: int| 0 <= i < entries.len() implies m[#[trigger] entries[i].0@]
        == entries[i].1@ by {
        let k = entries[i].0@;
        assert(ks[i] == k);
    }
    vstd::seq_lib::seq_to_set_is_finite(ks);
}

/// A well-formed node has a well-formed view.
pub proof fn lemma_wf_view(node: Node)
    requires
        node.wf(),
    ensures
        tree_wf(node@),
    decreases node,
{
    match node {
        Node::Leaf(_) => {},
        Node::Container(entries) => {
            let m = node@->Branch_0;
            lemma_container_view(node);
            assert forall|k: Text| m.dom().contains(k) implies segment(k) && tree_wf(m[k]) by {
                let i = keys(entries@).index_of(k);
                lemma_wf_view(entries@[i].1);
            }
        },
    }
}

/// Looks `key` up among the entries of a container.
pub(crate) fn find_key(entries: &Vec<(String, Node)>, key: &String) -> (r: Option<usize>)
    ensures
        match r {
            Some(i) => i < entries@.len() && entries@[i as int].0@ == key@,
            None => !keys(entries@).contains(key@),
        },
{
    let mut i: usize = 0;
    while i < entries.len()
        invariant
            i <= entries@.len(),
            forall|j: int| 0 <= j < i ==> keys(entries@)[j] != key@,
        decreases entries@.len() - i,
    {
        if entries[i].0 == *key {
            return Some(i);
        }
        i += 1;
    }
    None
}

/// The first `n` strings of `path`.
fn prefix_of(path: &Vec<String>, n: usize) -> (r: Vec<String>)
    requires
        n <= path@.len(),
    ensures
        texts(r@) == texts(path@).take(n as int),
{
    let mut r: Vec<String> = Vec::new();
    let mut i: usize = 0;
    while i < n
        invariant
            i <= n <= path@.len(),
            r@.len() == i,
            forall|j: int| 0 <= j < i ==> r@[j]@ == path@[j]@,
        decreases n - i,
    {
        r.push(path[i].clone());
        i += 1;
    }
    r
}

/// Assigns `value` to `path`, seen from the node that the first `i` segments
/// of `path` lead to.
pub(crate) fn fill_in_from(node: &mut Node, path: &Vec<String>, i: usize, value: Leaf, line: usize) -> (r:
    Result<(), ParseError>)
    requires
        old(node).wf(),
        valid_path(texts(path@)),
        leaf_wf(value@),
        i < path@.len(),
    ensures
        final(node).wf(),
        match r {
            Ok(()) => insert_from(old(node)@, texts(path@), i as int, value@, line as nat) == Ok::<
                Tree,
                ErrorView,
            >(final(node)@),
            Err(e) => insert_from(old(node)@, texts(path@), i as int, value@, line as nat) == Err::<
                Tree,
                ErrorView,
            >(e@) && final(node)@ == old(node)@,
        },
    decreases path@.len() - i,
{
    let ghost p = texts(path@);
    let n = path.len();
    match node {
        Node::Leaf(_) => Err(ParseError::PrefixConflict { line, path: prefix_of(path, i) }),
        Node::Container(entries) => {
            let ghost before = Node::Container(*entries);
            let ghost m = before@->Branch_0;
            let found = find_key(entries, &path[i]);
            if i + 1 == n {
                match found {
                    Some(j) => {
                        proof {
                            assert(keys(entries@)[j as int] == p[i as int]);
                        }
                        match &entries[j].1 {
                            Node::Container(_) => Err(
                                ParseError::PrefixConflict { line, path: clone_strings(path) },
                            ),
                            Node::Leaf(existing) => Err(
                                ParseError::DuplicateValue {
                                    line,
                                    path: clone_strings(path),
                                    existing: existing.clone(),
                                    new: value,
                                },
                            ),
                        }
                    },
                    None => {
                        entries.push((path[i].clone(), Node::Leaf(value)));
                        proof {
                            let after = Node::Container(*entries);
                            lemma_pushed(before, after, m, after@->Branch_0);
                        }
                        Ok(())
                    },
                }
            } else {
                match found {
                    Some(j) => {
                        proof {
                            assert(keys(entries@)[j as int] == p[i as int]);
                        }
                        let r = fill_in_from(&mut entries[j].1, path, i + 1, value, line);
                        proof {
                            let after = Node::Container(*entries);
                            lemma_updated(before, after, j as int, m, after@->Branch_0);
                            if r is Err {
                                assert(after@->Branch_0 =~= m);
                            }
                        }
                        r
                    },
                    None => {
                        let mut child = Node::new_map();
                        let r = fill_in_from(&mut child, path, i + 1, value, line);
                        if r.is_ok() {
                            entries.push((path[i].clone(), child));
                            proof {
                                let after = Node::Container(*entries);
                                lemma_pushed(before, after, m, after@->Branch_0);
                            }
                        }
                        r
                    },
                }
            }
        },
    }
}

/// A container after one more entry, under a new key.
pub proof fn lemma_pushed(before: Node, after: Node, m: Map<Text, Tree>, m2: Map<Text, Tree>)
    requires
        before is Container,
        after is Container,
        before.wf(),
        after->Container_0@.len() == before->Container_0@.len() + 1,
        forall|i: int|
            0 <= i < before->Container_0@.len() ==> after->Container_0@[i]
                == before->Container_0@[i],
        !keys(before->Container_0@).contains(after->Container_0@.last().0@),
        segment(after->Container_0@.last().0@),
        after->Container_0@.last().1.wf(),
        before@ == Tree::Branch(m),
        after@ == Tree::Branch(m2),
    ensures
        after.wf(),
        m2 == m.insert(after->Container_0@.last().0@, after->Container_0@.last().1@),
{
    let b = before->Container_0@;
    let a = after->Container_0@;
    let ka = keys(a);
    let kb = keys(b);
    let n = b.len() as int;
    assert forall|i: int, j: int| 0 <= i < j < ka.len() implies ka[i] != ka[j] by {
        assert(ka[i] == kb[i]);
        if j < n {
            assert(ka[j] == kb[j]);
        }
    }
    assert forall|i: int| 0 <= i < a.len() implies segment(#[trigger] ka[i]) by {
        if i < n {
            assert(ka[i] == kb[i]);
        }
    }
    lemma_container_view(after);
    let expect = m.insert(a.last().0@, a.last().1@);
    assert forall|k: Text| m2.dom().contains(k) <==> expect.dom().contains(k) by {
        if ka.contains(k) {
            let i = ka.index_of(k);
            if i < n {
                assert(kb[i] == k);
            }
        }
        if kb.contains(k) {
            let i = kb.index_of(k);
            assert(ka[i] == k);
        }
        if k == a.last().0@ {
            assert(ka[n] == k);
        }
    }
}

/// A container after a change to the child of entry `j`.
pub proof fn lemma_updated(before: Node, after: Node, j: int, m: Map<Text, Tree>, m2: Map<Text, Tree>)
    requires
        before is Container,
        after is Container,
        before.wf(),
        0 <= j < before->Container_0@.len(),
        after->Container_0@.len() == before->Container_0@.len(),
        forall|i: int|
            0 <= i < before->Container_0@.len() && i != j ==> after->Container_0@[i]
                == before->Container_0@[i],
        after->Container_0@[j].0 == before->Container_0@[j].0,
        after->Container_0@[j].1.wf(),
        before@ == Tree::Branch(m),
        after@ == Tree::Branch(m2),
    ensures
        after.wf(),
        m2 == m.insert(before->Container_0@[j].0@, after->Container_0@[j].1@),
{
    let b = before->Container_0@;
    let a = after->Container_0@;
    let ka = keys(a);
    let kb = keys(b);
    assert(ka =~= kb);
    assert(kb[j] == b[j].0@);
}

/// Assigns `value` to the key `path`, as line `line` asks.
///
/// The containers on the way are made as needed. The assignment is refused,
/// and the tree left as it was, where `path` or a prefix of it already holds a
/// value, and where `path` holds a container.
pub fn fill_in_value(root: &mut Node, path: &Vec<String>, value: Leaf, line: usize) -> (r: Result<
    (),
    ParseError,
>)
    requires
        old(root).wf(),
        valid_path(texts(path@)),
        leaf_wf(value@),
    ensures
        final(root).wf(),
        match r {
            Ok(()) => insert(old(root)@, texts(path@), value@, line as nat) == Ok::<Tree, ErrorView>(
                final(root)@,
            ),
            Err(e) => insert(old(root)@, texts(path@), value@, line as nat) == Err::<
                Tree,
                ErrorView,
            >(e@) && final(root)@ == old(root)@,
        },
{
    fill_in_from(root, path, 0, value, line)
}

} // verus!
