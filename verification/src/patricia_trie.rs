//! A Patricia (radix) trie: a second implementation of [`SymbolTable`] and
//! [`PrefixSearch`].
//!
//! Where the ternary search trie stores one character per node, this stores
//! a whole run of characters per edge, so a key contributes nodes only where
//! it actually diverges from its neighbours.
use vstd::prelude::*;
use crate::symbol_table::{PrefixSearch, SymbolTable, keys_with_prefix};
use crate::text::{char_lt, is_prefix, lemma_char_code_injective, lemma_lex_common_prefix, lemma_lex_first_char, lex_lt, string_of, strictly_sorted, words_of, chars_of};

verus! {

pub struct Node<E> {
    // Characters on the edge leading into this node; empty only for the root
    label: Vec<char>,
    // Value if the path from the root to this node spells a stored key
    value: Option<E>,
    // Ordered by the first character of each child's label, so traversing
    // them in order yields keys in lexicographic order. No two children share
    // a first character - that is exactly the case a split avoids.
    children: Vec<Node<E>>,
}

/// What the subtree below `n` stores under `s`, `s` being spelled from just
/// past `n`'s own label.
pub closed spec fn lookup<E>(n: Node<E>, s: Seq<char>) -> Option<E>
    decreases n,
{
    if s.len() == 0 {
        n.value
    } else {
        lookup_in(n.children@, s)
    }
}

/// What a run of sibling subtrees stores under `s`, `s` starting at the edges
/// into them.
pub closed spec fn lookup_in<E>(cs: Seq<Node<E>>, s: Seq<char>) -> Option<E>
    decreases cs,
{
    if cs.len() == 0 {
        None
    } else if is_prefix(cs.last().label@, s) {
        lookup(cs.last(), s.skip(cs.last().label@.len() as int))
    } else {
        lookup_in(cs.drop_last(), s)
    }
}

/// What the subtree behind the edge into `c` stores under `s`, `s` starting
/// at that edge.
pub closed spec fn edge<E>(c: Node<E>, s: Seq<char>) -> Option<E> {
    if is_prefix(c.label@, s) {
        lookup(c, s.skip(c.label@.len() as int))
    } else {
        None
    }
}

/// Sibling edges are non-empty and ordered by their first characters, which
/// are therefore distinct.
pub closed spec fn edges_ordered<E>(cs: Seq<Node<E>>) -> bool {
    &&& forall|i: int| 0 <= i < cs.len() ==> (#[trigger] cs[i]).label@.len() > 0
    &&& forall|i: int, j: int|
        0 <= i < j < cs.len() ==> char_lt(
            (#[trigger] cs[i]).label@[0],
            (#[trigger] cs[j]).label@[0],
        )
}

/// The structural invariant of a subtree.
pub closed spec fn wf<E>(n: Node<E>) -> bool
    decreases n,
{
    edges_ordered(n.children@) && all_wf(n.children@)
}

/// Every subtree of a run of siblings is well formed.
pub closed spec fn all_wf<E>(cs: Seq<Node<E>>) -> bool
    decreases cs,
{
    if cs.len() == 0 {
        true
    } else {
        all_wf(cs.drop_last()) && wf(cs.last())
    }
}

proof fn lemma_all_wf<E>(cs: Seq<Node<E>>)
    ensures
        all_wf(cs) <==> forall|i: int| 0 <= i < cs.len() ==> wf(#[trigger] cs[i]),
    decreases cs.len(),
{
    if cs.len() > 0 {
        lemma_all_wf(cs.drop_last());
        if forall|i: int| 0 <= i < cs.len() ==> wf(#[trigger] cs[i]) {
            assert forall|i: int| 0 <= i < cs.drop_last().len() implies wf(
                #[trigger] cs.drop_last()[i],
            ) by {
                assert(cs.drop_last()[i] == cs[i]);
            }
        }
        if all_wf(cs) {
            assert forall|i: int| 0 <= i < cs.len() implies wf(#[trigger] cs[i]) by {
                if i < cs.len() - 1 {
                    assert(cs.drop_last()[i] == cs[i]);
                }
            }
        }
    }
}

proof fn lemma_wf_unfold<E>(n: Node<E>)
    ensures
        wf(n) <==> (edges_ordered(n.children@) && forall|i: int|
            0 <= i < n.children@.len() ==> wf(#[trigger] n.children@[i])),
{
    lemma_all_wf(n.children@);
}

/// Among siblings with distinct first characters, a word is looked up
/// through the one edge that begins with its first character.
proof fn lemma_lookup_in_at<E>(cs: Seq<Node<E>>, s: Seq<char>, i: int)
    requires
        edges_ordered(cs),
        0 <= i < cs.len(),
        s.len() > 0,
        cs[i].label@[0] == s[0],
    ensures
        lookup_in(cs, s) == edge(cs[i], s),
    decreases cs.len(),
{
    if i < cs.len() - 1 {
        let last = cs.last();
        assert(char_lt(cs[i].label@[0], last.label@[0]));
        lemma_char_code_injective(cs[i].label@[0], last.label@[0]);
        assert(!is_prefix(last.label@, s)) by {
            if is_prefix(last.label@, s) {
                assert(s.take(last.label@.len() as int)[0] == s[0]);
            }
        }
        let rest = cs.drop_last();
        assert(rest[i] == cs[i]);
        assert(edges_ordered(rest)) by {
            assert forall|a: int| 0 <= a < rest.len() implies (#[trigger] rest[a]).label@.len()
                > 0 by {
                assert(rest[a] == cs[a]);
            }
            assert forall|a: int, b: int| 0 <= a < b < rest.len() implies char_lt(
                (#[trigger] rest[a]).label@[0],
                (#[trigger] rest[b]).label@[0],
            ) by {
                assert(rest[a] == cs[a]);
                assert(rest[b] == cs[b]);
            }
        }
        lemma_lookup_in_at(rest, s, i);
    } else {
        let rest = cs.drop_last();
        if !is_prefix(cs[i].label@, s) {
            assert forall|k: int| 0 <= k < rest.len() implies (#[trigger] rest[k]).label@.len() > 0
                && rest[k].label@[0] != s[0] by {
                assert(rest[k] == cs[k]);
                assert(char_lt(cs[k].label@[0], cs[i].label@[0]));
                lemma_char_code_injective(cs[k].label@[0], cs[i].label@[0]);
            }
            lemma_lookup_in_none(rest, s);
        }
    }
}

/// A word whose first character begins no sibling edge is not stored below
/// them.
proof fn lemma_lookup_in_none<E>(cs: Seq<Node<E>>, s: Seq<char>)
    requires
        forall|i: int| 0 <= i < cs.len() ==> (#[trigger] cs[i]).label@.len() > 0,
        s.len() > 0,
        forall|i: int| 0 <= i < cs.len() ==> (#[trigger] cs[i]).label@[0] != s[0],
    ensures
        lookup_in(cs, s) is None,
    decreases cs.len(),
{
    if cs.len() > 0 {
        let last = cs.last();
        assert(last == cs[cs.len() - 1]);
        assert(!is_prefix(last.label@, s)) by {
            if is_prefix(last.label@, s) {
                assert(s.take(last.label@.len() as int)[0] == s[0]);
            }
        }
        let rest = cs.drop_last();
        assert forall|i: int| 0 <= i < rest.len() implies (#[trigger] rest[i]).label@.len() > 0
            && rest[i].label@[0] != s[0] by {
            assert(rest[i] == cs[i]);
        }
        lemma_lookup_in_none(rest, s);
    }
}

impl<E> Node<E> {
    fn new(label: Vec<char>) -> (node: Self)
        ensures
            node.label@ == label@,
            node.value is None,
            node.children@.len() == 0,
            wf(node),
            forall|s: Seq<char>| lookup(node, s) is None,
    {
        let node = Node { label, value: None, children: Vec::new() };
        proof {
            lemma_wf_unfold(node);
        }
        node
    }
}

/// Returns the child whose edge begins with `first`, if there is one.
fn child_index<E>(children: &Vec<Node<E>>, first: char) -> (found: Option<usize>)
    requires
        edges_ordered(children@),
    ensures
        match found {
            Some(i) => i < children@.len() && children@[i as int].label@[0] == first,
            None => forall|i: int| 0 <= i < children@.len() ==> (#[trigger] children@[i]).label@[0] != first,
        },
{
    let mut i: usize = 0;
    while i < children.len()
        invariant
            edges_ordered(children@),
            i <= children@.len(),
            forall|k: int| 0 <= k < i ==> (#[trigger] children@[k]).label@[0] != first,
        decreases children.len() - i,
    {
        if children[i].label[0] == first {
            return Some(i);
        }
        i = i + 1;
    }
    None
}

/// Returns how many leading characters `label` shares with `key` from
/// `pos` on.
fn common_prefix_len(label: &[char], key: &[char], pos: usize) -> (shared: usize)
    requires
        pos <= key@.len(),
    ensures
        shared <= label@.len(),
        shared <= key@.len() - pos,
        label@.take(shared as int) == key@.skip(pos as int).take(shared as int),
        shared < label@.len() && shared < key@.len() - pos ==> label@[shared as int]
            != key@[pos + shared],
{
    let mut shared: usize = 0;
    let remaining = key.len() - pos;
    loop
        invariant
            pos <= key@.len() <= usize::MAX,
            remaining == key@.len() - pos,
            shared <= label@.len(),
            shared <= key@.len() - pos,
            label@.take(shared as int) == key@.skip(pos as int).take(shared as int),
        ensures
            shared <= label@.len(),
            shared <= key@.len() - pos,
            label@.take(shared as int) == key@.skip(pos as int).take(shared as int),
            shared < label@.len() && shared < key@.len() - pos ==> label@[shared as int]
                != key@[pos + shared],
        decreases label.len() - shared,
    {
        if shared >= label.len() || shared >= remaining {
            break;
        }
        if label[shared] != key[pos + shared] {
            break;
        }
        proof {
            assert(label@.take(shared + 1) =~= label@.take(shared as int).push(label@[shared as int]));
            assert(key@.skip(pos as int).take(shared + 1) =~= key@.skip(pos as int).take(
                shared as int,
            ).push(key@[pos + shared]));
        }
        shared = shared + 1;
    }
    shared
}

proof fn lemma_prefix_when_shared<E>(label: Seq<char>, key: Seq<char>, pos: int, shared: int)
    requires
        0 <= pos <= key.len(),
        0 <= shared <= label.len(),
        shared <= key.len() - pos,
        label.take(shared) == key.skip(pos).take(shared),
        shared < label.len() && shared < key.len() - pos ==> label[shared] != key[pos + shared],
    ensures
        is_prefix(label, key.skip(pos)) <==> shared == label.len(),
{
    if shared == label.len() {
        assert(label.take(shared) =~= label);
    } else if is_prefix(label, key.skip(pos)) {
        assert(key.skip(pos).take(label.len() as int)[shared] == label[shared]);
    }
}

/// Replacing what one edge stores under `rest` with `upd` changes what the
/// node stores under `rest`, and nothing else.
proof fn lemma_edges_update<E>(
    old_cs: Seq<Node<E>>,
    new_cs: Seq<Node<E>>,
    i: int,
    rest: Seq<char>,
    upd: Option<E>,
)
    requires
        edges_ordered(old_cs),
        edges_ordered(new_cs),
        0 <= i < old_cs.len(),
        new_cs == old_cs.update(i, new_cs[i]),
        new_cs[i].label@[0] == old_cs[i].label@[0],
        rest.len() > 0,
        rest[0] == old_cs[i].label@[0],
        forall|s: Seq<char>| #[trigger]
            edge(new_cs[i], s) == if s == rest {
                upd
            } else {
                edge(old_cs[i], s)
            },
    ensures
        forall|s: Seq<char>|
            s.len() > 0 ==> #[trigger] lookup_in(new_cs, s) == if s == rest {
                upd
            } else {
                lookup_in(old_cs, s)
            },
{
    assert forall|s: Seq<char>| s.len() > 0 implies #[trigger] lookup_in(new_cs, s) == if s
        == rest {
        upd
    } else {
        lookup_in(old_cs, s)
    } by {
        if s[0] == rest[0] {
            lemma_lookup_in_at(new_cs, s, i);
            lemma_lookup_in_at(old_cs, s, i);
        } else if exists|j: int| 0 <= j < old_cs.len() && (#[trigger] old_cs[j]).label@[0] == s[0] {
            let j = choose|j: int| 0 <= j < old_cs.len() && (#[trigger] old_cs[j]).label@[0] == s[0];
            assert(j != i);
            assert(new_cs[j] == old_cs[j]);
            lemma_lookup_in_at(new_cs, s, j);
            lemma_lookup_in_at(old_cs, s, j);
        } else {
            assert forall|j: int| 0 <= j < new_cs.len() implies (#[trigger] new_cs[j]).label@.len()
                > 0 && new_cs[j].label@[0] != s[0] by {
                if j != i {
                    assert(new_cs[j] == old_cs[j]);
                }
            }
            lemma_lookup_in_none(new_cs, s);
            lemma_lookup_in_none(old_cs, s);
        }
    }
}

/// Updating what a child stores under `rest` (spelled below its edge)
/// updates what the edge into it stores under `rest` as seen from above.
proof fn lemma_edge_update<E>(
    old_c: Node<E>,
    new_c: Node<E>,
    rest: Seq<char>,
    upd: Option<E>,
)
    requires
        is_prefix(old_c.label@, rest),
        new_c.label@ == old_c.label@,
        forall|t: Seq<char>| #[trigger]
            lookup(new_c, t) == if t == rest.skip(old_c.label@.len() as int) {
                upd
            } else {
                lookup(old_c, t)
            },
    ensures
        forall|s: Seq<char>| #[trigger]
            edge(new_c, s) == if s == rest {
                upd
            } else {
                edge(old_c, s)
            },
{
    let n = old_c.label@.len() as int;
    assert forall|s: Seq<char>| #[trigger] edge(new_c, s) == if s == rest {
        upd
    } else {
        edge(old_c, s)
    } by {
        if is_prefix(old_c.label@, s) {
            if s.skip(n) == rest.skip(n) {
                assert(s =~= s.take(n) + s.skip(n));
                assert(rest =~= rest.take(n) + rest.skip(n));
            }
            assert(lookup(new_c, s.skip(n)) == if s.skip(n) == rest.skip(n) {
                upd
            } else {
                lookup(old_c, s.skip(n))
            });
        } else {
            assert(s != rest);
        }
    }
}

/// Splitting an edge in two changes nothing the edge stores.
proof fn lemma_split<E>(old_n: Node<E>, new_n: Node<E>, tail: Node<E>, at: int)
    requires
        0 < at < old_n.label@.len(),
        new_n.label@ == old_n.label@.take(at),
        new_n.value is None,
        new_n.children@ == seq![tail],
        tail.label@ == old_n.label@.skip(at),
        tail.value == old_n.value,
        tail.children@ == old_n.children@,
    ensures
        forall|s: Seq<char>| #[trigger] edge(new_n, s) == edge(old_n, s),
{
    let l = old_n.label@;
    let a = l.take(at);
    let b = l.skip(at);
    assert(l =~= a + b);
    assert forall|u: Seq<char>| #[trigger] lookup(tail, u) == lookup(old_n, u) by {}
    assert forall|s: Seq<char>| #[trigger] edge(new_n, s) == edge(old_n, s) by {
        let cs = new_n.children@;
        assert(cs.last() == tail);
        assert(cs.drop_last() =~= Seq::<Node<E>>::empty());
        let t = s.skip(at);
        if is_prefix(l, s) {
            assert(s.take(at) =~= s.take(l.len() as int).take(at));
            assert(is_prefix(a, s));
            assert(t.take(b.len() as int) =~= s.take(l.len() as int).skip(at));
            assert(is_prefix(b, t));
            assert(t.skip(b.len() as int) =~= s.skip(l.len() as int));
            assert(t.len() > 0);
            assert(lookup(new_n, t) == lookup_in(cs, t));
            assert(lookup_in(cs, t) == lookup(tail, t.skip(b.len() as int)));
        } else if is_prefix(a, s) {
            if t.len() > 0 {
                if is_prefix(b, t) {
                    assert(s.take(l.len() as int) =~= s.take(at) + t.take(b.len() as int));
                    assert(false);
                }
                assert(lookup_in(cs, t) == lookup_in(cs.drop_last(), t));
            }
        } else {
            if is_prefix(l, s) {
                assert(s.take(at) =~= s.take(l.len() as int).take(at));
            }
        }
    }
}

/// Returns the position a new edge beginning with `first` takes among
/// `children`, none of which begins with it.
fn edge_slot<E>(children: &Vec<Node<E>>, first: char) -> (at: usize)
    requires
        edges_ordered(children@),
        forall|i: int| 0 <= i < children@.len() ==> (#[trigger] children@[i]).label@[0] != first,
    ensures
        at <= children@.len(),
        forall|i: int| 0 <= i < at ==> char_lt((#[trigger] children@[i]).label@[0], first),
        forall|i: int| at <= i < children@.len() ==> char_lt(first, (#[trigger] children@[i]).label@[0]),
{
    let mut at: usize = 0;
    while at < children.len() && children[at].label[0] < first
        invariant
            edges_ordered(children@),
            at <= children@.len(),
            forall|i: int| 0 <= i < at ==> char_lt((#[trigger] children@[i]).label@[0], first),
        decreases children.len() - at,
    {
        at = at + 1;
    }
    proof {
        if at < children@.len() {
            let c = children@[at as int].label@[0];
            lemma_char_code_injective(c, first);
            assert(char_lt(first, c));
            assert forall|i: int| at <= i < children@.len() implies char_lt(
                first,
                (#[trigger] children@[i]).label@[0],
            ) by {
                if i > at {
                    assert(char_lt(c, children@[i].label@[0]));
                }
            }
        }
    }
    at
}

impl<E> PatriciaTrie<E> {
    // Splits the edge into this node after `at` characters, pushing the
    // remainder of the label - along with this node's value and children -
    // down into a new child. Leaves `node` holding just the shared head.
    fn split(node: &mut Node<E>, at: usize)
        requires
            wf(*old(node)),
            0 < at < old(node).label@.len(),
        ensures
            wf(*final(node)),
            final(node).label@ == old(node).label@.take(at as int),
            forall|s: Seq<char>| #[trigger] edge(*final(node), s) == edge(*old(node), s),
    {
        let ghost old_n = *node;
        let tail_label = crate::text::suffix_from(node.label.as_slice(), at);
        let mut tail = Node::new(tail_label);
        tail.value = node.value.take();
        std::mem::swap(&mut tail.children, &mut node.children);
        node.label.truncate(at);
        node.children.push(tail);
        proof {
            let t = node.children@[0];
            assert(node.children@ =~= seq![t]);
            lemma_wf_unfold(old_n);
            lemma_wf_unfold(t);
            lemma_wf_unfold(*node);
            lemma_split(old_n, *node, t, at as int);
        }
    }
}

impl<E> PatriciaTrie<E> {
    // Walks to the node whose path from `node` spells exactly `key[pos..]`
    fn find<'a>(node: &'a Node<E>, key: &[char], pos: usize) -> (found: Option<&'a Node<E>>)
        requires
            wf(*node),
            pos <= key@.len(),
        ensures
            match found {
                Some(m) => m.value == lookup(*node, key@.skip(pos as int)),
                None => lookup(*node, key@.skip(pos as int)) is None,
            },
        decreases key@.len() - pos,
    {
        let ghost rest = key@.skip(pos as int);
        if pos == key.len() {
            return Some(node);
        }
        proof {
            lemma_wf_unfold(*node);
        }
        match child_index(&node.children, key[pos]) {
            None => {
                proof {
                    lemma_lookup_in_none(node.children@, rest);
                }
                None
            },
            Some(i) => {
                let child = &node.children[i];
                proof {
                    lemma_lookup_in_at(node.children@, rest, i as int);
                }
                let shared = common_prefix_len(child.label.as_slice(), key, pos);
                proof {
                    lemma_prefix_when_shared::<E>(child.label@, key@, pos as int, shared as int);
                }
                if shared == child.label.len() {
                    proof {
                        assert(rest.skip(shared as int) =~= key@.skip(pos + shared));
                    }
                    Self::find(child, key, pos + shared)
                } else {
                    None
                }
            },
        }
    }
}

impl<E> PatriciaTrie<E> {
    // Inserts `key[pos..]` below `node`, splitting an edge where the key
    // diverges. Returns whether this added a key rather than replacing a value.
    fn put_in(node: &mut Node<E>, key: &[char], pos: usize, value: E) -> (added: bool)
        requires
            wf(*old(node)),
            pos <= key@.len(),
        ensures
            wf(*final(node)),
            final(node).label@ == old(node).label@,
            forall|s: Seq<char>| #[trigger]
                lookup(*final(node), s) == if s == key@.skip(pos as int) {
                    Some(value)
                } else {
                    lookup(*old(node), s)
                },
            added == (lookup(*old(node), key@.skip(pos as int)) is None),
        decreases key@.len() - pos,
    {
        let ghost old_n = *node;
        let ghost rest = key@.skip(pos as int);
        proof {
            lemma_wf_unfold(old_n);
        }
        if pos == key.len() {
            let is_new_key = node.value.is_none();
            node.value = Some(value);
            proof {
                assert(rest.len() == 0);
                assert forall|s: Seq<char>| #[trigger] lookup(*node, s) == if s == rest {
                    Some(value)
                } else {
                    lookup(old_n, s)
                } by {
                    if s.len() == 0 {
                        assert(s =~= rest);
                    }
                }
                lemma_wf_unfold(*node);
            }
            return is_new_key;
        }
        let first = key[pos];
        match child_index(&node.children, first) {
            None => {
                let at = edge_slot(&node.children, first);
                let leaf_label = crate::text::suffix_from(key, pos);
                let mut leaf = Node::new(leaf_label);
                leaf.value = Some(value);
                proof {
                    lemma_lookup_in_none(old_n.children@, rest);
                    lemma_wf_unfold(leaf);
                }
                node.children.insert(at, leaf);
                proof {
                    let cs = node.children@;
                    let ocs = old_n.children@;
                    assert(cs == ocs.insert(at as int, leaf));
                    assert(edges_ordered(cs)) by {
                        assert forall|i: int, j: int| 0 <= i < j < cs.len() implies char_lt(
                            (#[trigger] cs[i]).label@[0],
                            (#[trigger] cs[j]).label@[0],
                        ) by {
                            if j < at {
                            } else if j == at {
                            } else if i < at {
                                let (x, y, z) = (cs[i].label@[0], first, cs[j].label@[0]);
                            } else if i == at {
                            } else {
                            }
                        }
                    }
                    assert forall|i: int| 0 <= i < cs.len() implies wf(#[trigger] cs[i]) by {
                        if i < at {
                            assert(cs[i] == ocs[i]);
                        } else if i > at {
                            assert(cs[i] == ocs[i - 1]);
                        }
                    }
                    lemma_wf_unfold(*node);
                    assert forall|u: Seq<char>| #[trigger] lookup(leaf, u) == if u.len() == 0 {
                        Some(value)
                    } else {
                        None::<E>
                    } by {}
                    assert forall|s: Seq<char>| #[trigger] lookup(*node, s) == if s == rest {
                        Some(value)
                    } else {
                        lookup(old_n, s)
                    } by {
                        if s.len() > 0 {
                            assert(lookup(*node, s) == lookup_in(cs, s));
                            assert(lookup(old_n, s) == lookup_in(ocs, s));
                            if s[0] == first {
                                lemma_lookup_in_at(cs, s, at as int);
                                lemma_lookup_in_none(ocs, s);
                                assert(rest.take(rest.len() as int) =~= rest);
                                if is_prefix(rest, s) && s.skip(rest.len() as int).len() == 0 {
                                    assert(s =~= rest);
                                }
                                if s == rest {
                                    assert(s.skip(rest.len() as int).len() == 0);
                                }
                            } else if exists|j: int| 0 <= j < ocs.len() && (#[trigger] ocs[j]).label@[0] == s[0] {
                                let j = choose|j: int| 0 <= j < ocs.len() && (#[trigger] ocs[j]).label@[0] == s[0];
                                let j2 = if j < at { j } else { j + 1 };
                                assert(cs[j2] == ocs[j]);
                                lemma_lookup_in_at(cs, s, j2);
                                lemma_lookup_in_at(ocs, s, j);
                            } else {
                                assert forall|j: int| 0 <= j < cs.len() implies (#[trigger] cs[j]).label@.len() > 0
                                    && cs[j].label@[0] != s[0] by {
                                    if j < at {
                                        assert(cs[j] == ocs[j]);
                                    } else if j > at {
                                        assert(cs[j] == ocs[j - 1]);
                                    }
                                }
                                lemma_lookup_in_none(cs, s);
                                lemma_lookup_in_none(ocs, s);
                            }
                        } else {
                            assert(s != rest);
                            assert(node.value == old_n.value);
                        }
                    }
                }
                true
            },
            Some(i) => {
                let ghost old_child = old_n.children@[i as int];
                let child = &mut node.children[i];
                let shared = common_prefix_len(child.label.as_slice(), key, pos);
                proof {
                    lemma_prefix_when_shared::<E>(old_child.label@, key@, pos as int, shared as int);
                    assert(shared > 0) by {
                        if shared == 0 {
                            assert(old_child.label@[0] == key@[pos as int]);
                        }
                    }
                }
                if shared < child.label.len() {
                    Self::split(child, shared);
                }
                let ghost mid_child = *child;
                proof {
                    assert(mid_child.label@ == rest.take(shared as int));
                    assert(is_prefix(mid_child.label@, rest));
                    assert(rest.skip(shared as int) =~= key@.skip(pos + shared));
                    assert(forall|s: Seq<char>| #[trigger] edge(mid_child, s) == edge(old_child, s));
                }
                let added = Self::put_in(child, key, pos + shared, value);
                proof {
                    let new_child = *child;
                    lemma_edge_update(mid_child, new_child, rest, Some(value));
                    assert forall|s: Seq<char>| #[trigger] edge(new_child, s) == if s == rest {
                        Some(value)
                    } else {
                        edge(old_child, s)
                    } by {
                        assert(edge(mid_child, s) == edge(old_child, s));
                    }
                }
                proof {
                    let cs = node.children@;
                    let ocs = old_n.children@;
                    assert(cs == ocs.update(i as int, cs[i as int]));
                    assert(edges_ordered(cs)) by {
                        assert forall|a: int, b: int| 0 <= a < b < cs.len() implies char_lt(
                            (#[trigger] cs[a]).label@[0],
                            (#[trigger] cs[b]).label@[0],
                        ) by {
                            assert(ocs[a].label@.len() > 0);
                            assert(ocs[b].label@.len() > 0);
                        }
                    }
                    assert forall|a: int| 0 <= a < cs.len() implies wf(#[trigger] cs[a]) by {
                        if a != i {
                            assert(cs[a] == ocs[a]);
                        }
                    }
                    lemma_wf_unfold(*node);
                    lemma_edges_update(ocs, cs, i as int, rest, Some(value));
                    let nn = *node;
                    assert(nn.children@ == cs);
                    assert(nn.value == old_n.value);
                    assert forall|s: Seq<char>| #[trigger] lookup(nn, s) == if s == rest {
                        Some(value)
                    } else {
                        lookup(old_n, s)
                    } by {
                        if s.len() > 0 {
                            assert(lookup_in(cs, s) == if s == rest {
                                Some(value)
                            } else {
                                lookup_in(ocs, s)
                            });
                        } else {
                            assert(s != rest);
                        }
                    }
                    lemma_lookup_in_at(ocs, rest, i as int);
                    assert(lookup(mid_child, rest.skip(shared as int)) == edge(mid_child, rest));
                }
                added
            },
        }
    }
}

/// Folding a valueless node into its only child changes nothing the edge
/// stores.
proof fn lemma_merge<E>(c: Node<E>, g: Node<E>, m: Node<E>)
    requires
        c.value is None,
        c.children@ == seq![g],
        g.label@.len() > 0,
        m.label@ == c.label@ + g.label@,
        m.value == g.value,
        m.children@ == g.children@,
    ensures
        forall|s: Seq<char>| #[trigger] edge(m, s) == edge(c, s),
{
    let lc = c.label@;
    let lg = g.label@;
    let l = lc + lg;
    assert forall|u: Seq<char>| #[trigger] lookup(m, u) == lookup(g, u) by {}
    assert forall|s: Seq<char>| #[trigger] edge(m, s) == edge(c, s) by {
        let cs = c.children@;
        assert(cs.last() == g);
        assert(cs.drop_last() =~= Seq::<Node<E>>::empty());
        let t = s.skip(lc.len() as int);
        if is_prefix(l, s) {
            assert(s.take(lc.len() as int) =~= s.take(l.len() as int).take(lc.len() as int));
            assert(l.take(lc.len() as int) =~= lc);
            assert(is_prefix(lc, s));
            assert(t.take(lg.len() as int) =~= s.take(l.len() as int).skip(lc.len() as int));
            assert(l.skip(lc.len() as int) =~= lg);
            assert(is_prefix(lg, t));
            assert(t.skip(lg.len() as int) =~= s.skip(l.len() as int));
            assert(lookup(c, t) == lookup_in(cs, t));
        } else if is_prefix(lc, s) {
            if t.len() > 0 {
                if is_prefix(lg, t) {
                    assert(s.take(l.len() as int) =~= s.take(lc.len() as int) + t.take(lg.len() as int));
                    assert(false);
                }
                assert(lookup_in(cs, t) == lookup_in(cs.drop_last(), t));
            }
        } else {
            if is_prefix(l, s) {
                assert(s.take(lc.len() as int) =~= s.take(l.len() as int).take(lc.len() as int));
            }
        }
    }
}

/// Dropping an edge that stores nothing changes nothing its siblings store.
proof fn lemma_prune<E>(cs: Seq<Node<E>>, i: int)
    requires
        edges_ordered(cs),
        0 <= i < cs.len(),
        forall|s: Seq<char>| #[trigger] edge(cs[i], s) is None,
    ensures
        edges_ordered(cs.remove(i)),
        forall|s: Seq<char>| s.len() > 0 ==> #[trigger] lookup_in(cs.remove(i), s) == lookup_in(cs, s),
{
    let r = cs.remove(i);
    assert(edges_ordered(r)) by {
        assert forall|a: int| 0 <= a < r.len() implies (#[trigger] r[a]).label@.len() > 0 by {
            if a < i {
                assert(r[a] == cs[a]);
            } else {
                assert(r[a] == cs[a + 1]);
            }
        }
        assert forall|a: int, b: int| 0 <= a < b < r.len() implies char_lt(
            (#[trigger] r[a]).label@[0],
            (#[trigger] r[b]).label@[0],
        ) by {
            let a2 = if a < i { a } else { a + 1 };
            let b2 = if b < i { b } else { b + 1 };
            assert(r[a] == cs[a2]);
            assert(r[b] == cs[b2]);
        }
    }
    assert forall|s: Seq<char>| s.len() > 0 implies #[trigger] lookup_in(r, s) == lookup_in(cs, s) by {
        if exists|j: int| 0 <= j < cs.len() && (#[trigger] cs[j]).label@[0] == s[0] {
            let j = choose|j: int| 0 <= j < cs.len() && (#[trigger] cs[j]).label@[0] == s[0];
            lemma_lookup_in_at(cs, s, j);
            if j == i {
                assert forall|a: int| 0 <= a < r.len() implies (#[trigger] r[a]).label@.len() > 0
                    && r[a].label@[0] != s[0] by {
                    let a2 = if a < i { a } else { a + 1 };
                    assert(r[a] == cs[a2]);
                    lemma_char_code_injective(cs[a2].label@[0], cs[i].label@[0]);
                }
                lemma_lookup_in_none(r, s);
            } else {
                let j2 = if j < i { j } else { j - 1 };
                assert(r[j2] == cs[j]);
                lemma_lookup_in_at(r, s, j2);
            }
        } else {
            assert forall|a: int| 0 <= a < r.len() implies (#[trigger] r[a]).label@.len() > 0
                && r[a].label@[0] != s[0] by {
                let a2 = if a < i { a } else { a + 1 };
                assert(r[a] == cs[a2]);
            }
            lemma_lookup_in_none(r, s);
            lemma_lookup_in_none(cs, s);
        }
    }
}

impl<E> PatriciaTrie<E> {
    // Clears the value at `key[pos..]`, then restores the radix invariant on
    // the way back up: a valueless node with no children is dropped, and one
    // with a single child is merged into that child.
    fn delete_in(node: &mut Node<E>, key: &[char], pos: usize) -> (deleted: bool)
        requires
            wf(*old(node)),
            pos <= key@.len(),
        ensures
            wf(*final(node)),
            final(node).label@ == old(node).label@,
            forall|s: Seq<char>| #[trigger]
                lookup(*final(node), s) == if s == key@.skip(pos as int) {
                    None
                } else {
                    lookup(*old(node), s)
                },
            deleted == (lookup(*old(node), key@.skip(pos as int)) is Some),
        decreases key@.len() - pos,
    {
        let ghost old_n = *node;
        let ghost rest = key@.skip(pos as int);
        proof {
            lemma_wf_unfold(old_n);
        }
        if pos == key.len() {
            let deleted = node.value.take().is_some();
            proof {
                assert(rest.len() == 0);
                assert forall|s: Seq<char>| #[trigger] lookup(*node, s) == if s == rest {
                    None
                } else {
                    lookup(old_n, s)
                } by {
                    if s.len() == 0 {
                        assert(s =~= rest);
                    }
                }
                lemma_wf_unfold(*node);
            }
            return deleted;
        }
        let first = key[pos];
        let i = match child_index(&node.children, first) {
            None => {
                proof {
                    lemma_lookup_in_none(old_n.children@, rest);
                    assert forall|s: Seq<char>| #[trigger] lookup(*node, s) == if s == rest {
                        None
                    } else {
                        lookup(old_n, s)
                    } by {
                        if s == rest {
                            assert(lookup(old_n, s) == lookup_in(old_n.children@, rest));
                        }
                    }
                }
                return false;
            },
            Some(i) => i,
        };
        let ghost old_child = old_n.children@[i as int];
        proof {
            lemma_lookup_in_at(old_n.children@, rest, i as int);
        }
        let shared = common_prefix_len(node.children[i].label.as_slice(), key, pos);
        proof {
            lemma_prefix_when_shared::<E>(old_child.label@, key@, pos as int, shared as int);
        }
        if shared < node.children[i].label.len() {
            proof {
                assert forall|s: Seq<char>| #[trigger] lookup(*node, s) == if s == rest {
                    None
                } else {
                    lookup(old_n, s)
                } by {
                    if s == rest {
                        assert(lookup(old_n, s) == lookup_in(old_n.children@, rest));
                    }
                }
            }
            return false;
        }
        let mut prune = false;
        let deleted;
        {
            let child = &mut node.children[i];
            proof {
                assert(rest.skip(shared as int) =~= key@.skip(pos + shared));
            }
            deleted = Self::delete_in(child, key, pos + shared);
            let ghost mid_child = *child;
            proof {
                lemma_edge_update(old_child, mid_child, rest, None);
                lemma_wf_unfold(mid_child);
            }
            if deleted && child.value.is_none() {
                if child.children.len() == 0 {
                    prune = true;
                    proof {
                        assert forall|s: Seq<char>| #[trigger] edge(mid_child, s) is None by {
                            if is_prefix(mid_child.label@, s) {
                                let t = s.skip(mid_child.label@.len() as int);
                                if t.len() > 0 {
                                    assert(lookup_in(mid_child.children@, t) is None);
                                }
                            }
                        }
                    }
                } else if child.children.len() == 1 {
                    let ghost g0 = mid_child.children@[0];
                    let mut only = child.children.pop().unwrap();
                    proof {
                        assert(only == g0);
                        assert(mid_child.children@ =~= seq![g0]);
                        lemma_wf_unfold(g0);
                    }
                    let merged = crate::text::concat_chars(child.label.as_slice(), only.label.as_slice());
                    only.label = merged;
                    proof {
                        lemma_merge(mid_child, g0, only);
                        lemma_wf_unfold(only);
                    }
                    *child = only;
                }
            }
        }
        proof {
            let nc = node.children@[i as int];
            assert(forall|s: Seq<char>| #[trigger] edge(nc, s) == if s == rest {
                None
            } else {
                edge(old_child, s)
            });
        }
        if prune {
            let ghost mid_cs = node.children@;
            node.children.remove(i);
            proof {
                lemma_prune(mid_cs, i as int);
                let cs = node.children@;
                let ocs = old_n.children@;
                assert(cs == mid_cs.remove(i as int));
                assert forall|a: int| 0 <= a < cs.len() implies wf(#[trigger] cs[a]) by {
                    let a2 = if a < i { a } else { a + 1 };
                    assert(cs[a] == ocs[a2]);
                }
                lemma_wf_unfold(*node);
                assert(edges_ordered(mid_cs)) by {
                    assert forall|a: int, b: int| 0 <= a < b < mid_cs.len() implies char_lt(
                        (#[trigger] mid_cs[a]).label@[0],
                        (#[trigger] mid_cs[b]).label@[0],
                    ) by {
                        assert(ocs[a].label@.len() > 0);
                    }
                }
                lemma_edges_update(ocs, mid_cs, i as int, rest, None);
                let nn = *node;
                assert(nn.value == old_n.value);
                assert(nn.children@ == cs);
                assert forall|s: Seq<char>| #[trigger] lookup(nn, s) == if s == rest {
                    None
                } else {
                    lookup(old_n, s)
                } by {
                    if s.len() > 0 {
                        assert(lookup_in(mid_cs, s) == if s == rest {
                            None
                        } else {
                            lookup_in(ocs, s)
                        });
                        assert(lookup_in(cs, s) == lookup_in(mid_cs, s));
                    } else {
                        assert(s != rest);
                    }
                }
            }
        } else {
            proof {
                let cs = node.children@;
                let ocs = old_n.children@;
                assert(cs == ocs.update(i as int, cs[i as int]));
                assert(edges_ordered(cs)) by {
                    assert forall|a: int, b: int| 0 <= a < b < cs.len() implies char_lt(
                        (#[trigger] cs[a]).label@[0],
                        (#[trigger] cs[b]).label@[0],
                    ) by {
                        assert(ocs[a].label@.len() > 0);
                    }
                }
                assert forall|a: int| 0 <= a < cs.len() implies wf(#[trigger] cs[a]) by {
                    if a != i {
                        assert(cs[a] == ocs[a]);
                    }
                }
                lemma_wf_unfold(*node);
                lemma_edges_update(ocs, cs, i as int, rest, None);
                let nn = *node;
                assert forall|s: Seq<char>| #[trigger] lookup(nn, s) == if s == rest {
                    None
                } else {
                    lookup(old_n, s)
                } by {
                    if s.len() > 0 {
                        assert(lookup_in(cs, s) == if s == rest {
                            None
                        } else {
                            lookup_in(ocs, s)
                        });
                    } else {
                        assert(s != rest);
                    }
                }
            }
        }
        deleted
    }
}

/// Every word of `ks`, with `p` put in front of it.
pub open spec fn prefixed(p: Seq<char>, ks: Seq<Seq<char>>) -> Seq<Seq<char>> {
    ks.map_values(|k: Seq<char>| p + k)
}

/// The words stored below `n`, in the order a depth-first walk that visits
/// children by their first character meets them.
pub closed spec fn keys_of<E>(n: Node<E>) -> Seq<Seq<char>>
    decreases n,
{
    (if n.value is Some {
        seq![Seq::<char>::empty()]
    } else {
        Seq::<Seq<char>>::empty()
    }) + keys_in(n.children@)
}

/// The words stored below a run of sibling edges, edge by edge.
pub closed spec fn keys_in<E>(cs: Seq<Node<E>>) -> Seq<Seq<char>>
    decreases cs,
{
    if cs.len() == 0 {
        Seq::<Seq<char>>::empty()
    } else {
        keys_in(cs.drop_last()) + prefixed(cs.last().label@, keys_of(cs.last()))
    }
}

proof fn lemma_prefixed_sorted(p: Seq<char>, ks: Seq<Seq<char>>)
    requires
        strictly_sorted(ks),
    ensures
        strictly_sorted(prefixed(p, ks)),
{
    assert forall|i: int, j: int| 0 <= i < j < prefixed(p, ks).len() implies lex_lt(
        #[trigger] prefixed(p, ks)[i],
        #[trigger] prefixed(p, ks)[j],
    ) by {
        lemma_lex_common_prefix(p, ks[i], ks[j]);
    }
}

proof fn lemma_sorted_concat(xs: Seq<Seq<char>>, ys: Seq<Seq<char>>)
    requires
        strictly_sorted(xs),
        strictly_sorted(ys),
        forall|i: int, j: int| 0 <= i < xs.len() && 0 <= j < ys.len() ==> lex_lt(#[trigger] xs[i], #[trigger] ys[j]),
    ensures
        strictly_sorted(xs + ys),
{
    let zs = xs + ys;
    assert forall|i: int, j: int| 0 <= i < j < zs.len() implies lex_lt(#[trigger] zs[i], #[trigger] zs[j]) by {
        if j < xs.len() {
            assert(zs[i] == xs[i] && zs[j] == xs[j]);
        } else if i >= xs.len() {
            assert(zs[i] == ys[i - xs.len()] && zs[j] == ys[j - xs.len()]);
        } else {
            assert(zs[i] == xs[i] && zs[j] == ys[j - xs.len()]);
        }
    }
}

/// The walk meets exactly the stored words, each once and in lexicographic
/// order.
proof fn lemma_keys_of<E>(n: Node<E>)
    requires
        wf(n),
    ensures
        strictly_sorted(keys_of(n)),
        forall|i: int| 0 <= i < keys_of(n).len() ==> lookup(n, #[trigger] keys_of(n)[i]) is Some,
        forall|s: Seq<char>| #[trigger] lookup(n, s) is Some ==> keys_of(n).contains(s),
    decreases n,
{
    lemma_wf_unfold(n);
    lemma_all_wf(n.children@);
    let cs = n.children@;
    lemma_keys_in(cs);
    let own = if n.value is Some {
        seq![Seq::<char>::empty()]
    } else {
        Seq::<Seq<char>>::empty()
    };
    let ks = keys_of(n);
    assert(ks == own + keys_in(cs));
    lemma_sorted_concat(own, keys_in(cs));
    assert forall|i: int| 0 <= i < ks.len() implies lookup(n, #[trigger] ks[i]) is Some by {
        if i >= own.len() {
            assert(ks[i] == keys_in(cs)[i - own.len()]);
        }
    }
    assert forall|s: Seq<char>| #[trigger] lookup(n, s) is Some implies ks.contains(s) by {
        if s.len() == 0 {
            assert(ks[0] =~= s);
        } else {
            assert(lookup_in(cs, s) is Some);
            assert(keys_in(cs).contains(s));
            let j = choose|j: int| 0 <= j < keys_in(cs).len() && keys_in(cs)[j] == s;
            assert(ks[own.len() + j] == s);
        }
    }
}

proof fn lemma_keys_in<E>(cs: Seq<Node<E>>)
    requires
        edges_ordered(cs),
        forall|i: int| 0 <= i < cs.len() ==> wf(#[trigger] cs[i]),
    ensures
        strictly_sorted(keys_in(cs)),
        forall|i: int| 0 <= i < keys_in(cs).len() ==> (#[trigger] keys_in(cs)[i]).len() > 0
            && lookup_in(cs, keys_in(cs)[i]) is Some
            && exists|j: int| 0 <= j < cs.len() && keys_in(cs)[i][0] == (#[trigger] cs[j]).label@[0],
        forall|s: Seq<char>| s.len() > 0 && #[trigger] lookup_in(cs, s) is Some ==> keys_in(cs).contains(s),
    decreases cs,
{
    if cs.len() > 0 {
        let init = cs.drop_last();
        let last = cs.last();
        assert(last == cs[cs.len() - 1]);
        assert(edges_ordered(init)) by {
            assert forall|a: int| 0 <= a < init.len() implies (#[trigger] init[a]).label@.len() > 0 by {
                assert(init[a] == cs[a]);
            }
            assert forall|a: int, b: int| 0 <= a < b < init.len() implies char_lt(
                (#[trigger] init[a]).label@[0],
                (#[trigger] init[b]).label@[0],
            ) by {
                assert(init[a] == cs[a]);
                assert(init[b] == cs[b]);
            }
        }
        assert forall|a: int| 0 <= a < init.len() implies wf(#[trigger] init[a]) by {
            assert(init[a] == cs[a]);
        }
        lemma_keys_in(init);
        lemma_keys_of(last);
        let xs = keys_in(init);
        let l = last.label@;
        let ys = prefixed(l, keys_of(last));
        let ks = keys_in(cs);
        assert(ks == xs + ys);
        lemma_prefixed_sorted(l, keys_of(last));
        assert forall|i: int, j: int| 0 <= i < xs.len() && 0 <= j < ys.len() implies lex_lt(
            #[trigger] xs[i],
            #[trigger] ys[j],
        ) by {
            let a = choose|a: int| 0 <= a < init.len() && xs[i][0] == (#[trigger] init[a]).label@[0];
            assert(init[a] == cs[a]);
            assert(ys[j][0] == l[0]);
            lemma_lex_first_char(xs[i], ys[j]);
        }
        lemma_sorted_concat(xs, ys);
        assert forall|i: int| 0 <= i < ks.len() implies (#[trigger] ks[i]).len() > 0 && lookup_in(
            cs,
            ks[i],
        ) is Some && exists|j: int| 0 <= j < cs.len() && ks[i][0] == (#[trigger] cs[j]).label@[0] by {
            if i < xs.len() {
                assert(ks[i] == xs[i]);
                let a = choose|a: int| 0 <= a < init.len() && xs[i][0] == (#[trigger] init[a]).label@[0];
                assert(init[a] == cs[a]);
                lemma_lookup_in_at(init, xs[i], a);
                lemma_lookup_in_at(cs, xs[i], a);
            } else {
                let k = keys_of(last)[i - xs.len()];
                assert(ks[i] == l + k);
                assert((l + k)[0] == l[0]);
                assert((l + k).take(l.len() as int) =~= l);
                assert((l + k).skip(l.len() as int) =~= k);
                lemma_lookup_in_at(cs, l + k, cs.len() - 1);
            }
        }
        assert forall|s: Seq<char>| s.len() > 0 && #[trigger] lookup_in(cs, s) is Some implies ks.contains(s) by {
            if is_prefix(l, s) {
                let k = s.skip(l.len() as int);
                assert(lookup(last, k) is Some);
                assert(keys_of(last).contains(k));
                let j = choose|j: int| 0 <= j < keys_of(last).len() && keys_of(last)[j] == k;
                assert(s =~= l + k);
                assert(ks[xs.len() + j] == s);
            } else {
                assert(lookup_in(cs, s) == lookup_in(init, s));
                let j = choose|j: int| 0 <= j < xs.len() && xs[j] == s;
                assert(ks[j] == s);
            }
        }
    }
}

impl<E> PatriciaTrie<E> {
    // Appends every key in this subtree to `out`, each behind `prefix`.
    // Children are visited in order of their first character, and a node's own
    // key precedes its descendants', so `out` comes out lexicographic.
    fn collect(node: &Node<E>, prefix: &mut Vec<char>, out: &mut Vec<String>)
        requires
            wf(*node),
        ensures
            final(prefix)@ == old(prefix)@,
            words_of(final(out)@) == words_of(old(out)@) + prefixed(old(prefix)@, keys_of(*node)),
        decreases *node,
    {
        let ghost p0 = prefix@;
        let ghost out0 = words_of(out@);
        let ghost own = if node.value is Some {
            seq![Seq::<char>::empty()]
        } else {
            Seq::<Seq<char>>::empty()
        };
        proof {
            lemma_wf_unfold(*node);
        }
        if node.value.is_some() {
            let word = string_of(prefix.as_slice());
            let ghost before = out@;
            out.push(word);
            proof {
                assert(words_of(out@) =~= words_of(before).push(word@));
                assert(p0 + Seq::<char>::empty() =~= p0);
            }
        }
        proof {
            assert(node.children@.take(0) =~= Seq::<Node<E>>::empty());
            assert(words_of(out@) =~= out0 + prefixed(p0, own + keys_in(node.children@.take(0))));
        }
        let mut i: usize = 0;
        while i < node.children.len()
            invariant
                wf(*node),
                edges_ordered(node.children@),
                forall|a: int| 0 <= a < node.children@.len() ==> wf(#[trigger] node.children@[a]),
                i <= node.children@.len(),
                prefix@ == p0,
                words_of(out@) == out0 + prefixed(p0, own + keys_in(node.children@.take(i as int))),
            decreases node.children.len() - i,
        {
            let child = &node.children[i];
            let restore_to = prefix.len();
            crate::text::append_chars(prefix, child.label.as_slice());
            let ghost mid = words_of(out@);
            Self::collect(child, prefix, out);
            prefix.truncate(restore_to);
            proof {
                let cs = node.children@;
                let l = child.label@;
                let ks = keys_of(*child);
                assert(prefix@ =~= p0);
                assert(cs.take(i + 1).drop_last() =~= cs.take(i as int));
                assert(cs.take(i + 1).last() == cs[i as int]);
                assert(keys_in(cs.take(i + 1)) == keys_in(cs.take(i as int)) + prefixed(l, ks));
                assert(prefixed(p0 + l, ks) =~= prefixed(p0, prefixed(l, ks))) by {
                    assert forall|k: int| 0 <= k < ks.len() implies (p0 + l) + ks[k] =~= p0 + (l + ks[k]) by {}
                }
                assert(prefixed(p0, own + keys_in(cs.take(i + 1))) =~= prefixed(
                    p0,
                    own + keys_in(cs.take(i as int)),
                ) + prefixed(p0, prefixed(l, ks)));
            }
            i = i + 1;
        }
        proof {
            assert(node.children@.take(node.children@.len() as int) =~= node.children@);
        }
    }
}

/// The words `p + s` such that `n` stores `s` and `s` begins with `rest`.
pub closed spec fn found_below<E>(n: Node<E>, rest: Seq<char>, p: Seq<char>) -> Set<Seq<char>> {
    Set::new(
        |x: Seq<char>|
            is_prefix(p, x) && lookup(n, x.skip(p.len() as int)) is Some && is_prefix(
                rest,
                x.skip(p.len() as int),
            ),
    )
}

proof fn lemma_all_keys_found<E>(n: Node<E>, p: Seq<char>)
    requires
        wf(n),
    ensures
        strictly_sorted(prefixed(p, keys_of(n))),
        prefixed(p, keys_of(n)).to_set() == found_below(n, Seq::<char>::empty(), p),
{
    lemma_keys_of(n);
    lemma_prefixed_sorted(p, keys_of(n));
    let ks = keys_of(n);
    let xs = prefixed(p, ks);
    assert forall|x: Seq<char>| xs.to_set().contains(x) <==> found_below(n, Seq::<char>::empty(), p).contains(x) by {
        assert(Seq::<char>::empty().take(0) =~= Seq::<char>::empty());
        if xs.to_set().contains(x) {
            let i = choose|i: int| 0 <= i < xs.len() && xs[i] == x;
            assert(x == p + ks[i]);
            assert(x.take(p.len() as int) =~= p);
            assert(x.skip(p.len() as int) =~= ks[i]);
            assert(lookup(n, ks[i]) is Some);
            assert(x.skip(p.len() as int).take(0) =~= Seq::<char>::empty());
        }
        if found_below(n, Seq::<char>::empty(), p).contains(x) {
            let k = x.skip(p.len() as int);
            assert(lookup(n, k) is Some);
            assert(ks.contains(k));
            let i = choose|i: int| 0 <= i < ks.len() && ks[i] == k;
            assert(x =~= p + k);
            assert(xs[i] == x);
        }
    }
    assert(xs.to_set() =~= found_below(n, Seq::<char>::empty(), p));
}

impl<E> PatriciaTrie<E> {
    // Descends until `key[pos..]` is exhausted, then collects the subtree
    // reached. Running out mid-edge is fine: every key below that edge still
    // starts with it.
    fn collect_with_prefix(
        node: &Node<E>,
        key: &[char],
        pos: usize,
        prefix: &mut Vec<char>,
        out: &mut Vec<String>,
    )
        requires
            wf(*node),
            pos <= key@.len(),
        ensures
            final(prefix)@ == old(prefix)@,
            final(out)@.len() >= old(out)@.len(),
            words_of(final(out)@).take(old(out)@.len() as int) == words_of(old(out)@),
            strictly_sorted(words_of(final(out)@).skip(old(out)@.len() as int)),
            words_of(final(out)@).skip(old(out)@.len() as int).to_set() == found_below(
                *node,
                key@.skip(pos as int),
                old(prefix)@,
            ),
        decreases key@.len() - pos,
    {
        let ghost p0 = prefix@;
        let ghost out0 = words_of(out@);
        let ghost n0 = out@.len();
        let ghost rest = key@.skip(pos as int);
        proof {
            lemma_wf_unfold(*node);
        }
        if pos == key.len() {
            Self::collect(node, prefix, out);
            proof {
                assert(rest =~= Seq::<char>::empty());
                lemma_all_keys_found(*node, p0);
                assert(words_of(out@).take(n0 as int) =~= out0);
                assert(words_of(out@).skip(n0 as int) =~= prefixed(p0, keys_of(*node)));
            }
            return;
        }
        let i = match child_index(&node.children, key[pos]) {
            None => {
                proof {
                    assert(words_of(out@).take(n0 as int) =~= out0);
                    assert(words_of(out@).skip(n0 as int) =~= Seq::<Seq<char>>::empty());
                    assert forall|x: Seq<char>| !#[trigger] found_below(*node, rest, p0).contains(x) by {
                        let t = x.skip(p0.len() as int);
                        if is_prefix(rest, t) {
                            assert(t.take(rest.len() as int)[0] == rest[0]);
                            lemma_lookup_in_none(node.children@, t);
                        }
                    }
                    assert(found_below(*node, rest, p0) =~= Set::<Seq<char>>::empty());
                }
                return;
            },
            Some(i) => i,
        };
        let child = &node.children[i];
        let shared = common_prefix_len(child.label.as_slice(), key, pos);
        let ghost l = child.label@;
        proof {
            lemma_prefix_when_shared::<E>(l, key@, pos as int, shared as int);
        }
        let restore_to = prefix.len();
        if shared == key.len() - pos {
            crate::text::append_chars(prefix, child.label.as_slice());
            Self::collect(child, prefix, out);
            prefix.truncate(restore_to);
            proof {
                assert(prefix@ =~= p0);
                lemma_all_keys_found(*child, p0 + l);
                assert(words_of(out@).take(n0 as int) =~= out0);
                assert(words_of(out@).skip(n0 as int) =~= prefixed(p0 + l, keys_of(*child)));
                assert(rest =~= l.take(shared as int));
                assert forall|x: Seq<char>| #[trigger] found_below(*node, rest, p0).contains(x)
                    <==> found_below(*child, Seq::<char>::empty(), p0 + l).contains(x) by {
                    let t = x.skip(p0.len() as int);
                    if found_below(*node, rest, p0).contains(x) {
                        assert(t.take(rest.len() as int)[0] == rest[0]);
                        lemma_lookup_in_at(node.children@, t, i as int);
                        assert(is_prefix(l, t));
                        assert(x.take((p0.len() + l.len()) as int) =~= p0 + l) by {
                            assert(x.take(p0.len() as int) =~= p0);
                            assert(t.take(l.len() as int) =~= l);
                            assert(x.take((p0.len() + l.len()) as int) =~= x.take(p0.len() as int) + t.take(l.len() as int));
                        }
                        assert(x.skip((p0.len() + l.len()) as int) =~= t.skip(l.len() as int));
                        assert(x.skip((p0.len() + l.len()) as int).take(0) =~= Seq::<char>::empty());
                    }
                    if found_below(*child, Seq::<char>::empty(), p0 + l).contains(x) {
                        assert(x.take(p0.len() as int) =~= (p0 + l).take(p0.len() as int));
                        assert((p0 + l).take(p0.len() as int) =~= p0);
                        assert(t.take(l.len() as int) =~= x.take((p0.len() + l.len()) as int).skip(p0.len() as int));
                        assert((p0 + l).skip(p0.len() as int) =~= l);
                        assert(t.skip(l.len() as int) =~= x.skip((p0.len() + l.len()) as int));
                        assert(t.len() > 0);
                        assert(t[0] == l[0]);
                        lemma_lookup_in_at(node.children@, t, i as int);
                        assert(t.take(rest.len() as int) =~= rest);
                    }
                }
                assert(found_below(*node, rest, p0) =~= found_below(*child, Seq::<char>::empty(), p0 + l));
            }
        } else if shared == child.label.len() {
            crate::text::append_chars(prefix, child.label.as_slice());
            Self::collect_with_prefix(child, key, pos + shared, prefix, out);
            prefix.truncate(restore_to);
            proof {
                assert(prefix@ =~= p0);
                let rest2 = key@.skip(pos + shared);
                assert(rest2 =~= rest.skip(l.len() as int));
                assert(rest.take(l.len() as int) =~= l);
                assert forall|x: Seq<char>| #[trigger] found_below(*node, rest, p0).contains(x)
                    <==> found_below(*child, rest2, p0 + l).contains(x) by {
                    let t = x.skip(p0.len() as int);
                    if found_below(*node, rest, p0).contains(x) {
                        assert(t.take(rest.len() as int)[0] == rest[0]);
                        lemma_lookup_in_at(node.children@, t, i as int);
                        assert(t.take(l.len() as int) =~= t.take(rest.len() as int).take(l.len() as int));
                        assert(is_prefix(l, t));
                        assert(x.take((p0.len() + l.len()) as int) =~= x.take(p0.len() as int) + t.take(l.len() as int));
                        assert(x.skip((p0.len() + l.len()) as int) =~= t.skip(l.len() as int));
                        assert(t.skip(l.len() as int).take(rest2.len() as int) =~= t.take(rest.len() as int).skip(l.len() as int));
                        assert(is_prefix(p0 + l, x));
                        assert(lookup(*child, x.skip((p0.len() + l.len()) as int)) is Some);
                        assert(is_prefix(rest2, x.skip((p0.len() + l.len()) as int)));
                        assert((p0 + l).len() == p0.len() + l.len());
                    }
                    if found_below(*child, rest2, p0 + l).contains(x) {
                        assert(x.take(p0.len() as int) =~= (p0 + l).take(p0.len() as int));
                        assert((p0 + l).take(p0.len() as int) =~= p0);
                        assert(t.take(l.len() as int) =~= x.take((p0.len() + l.len()) as int).skip(p0.len() as int));
                        assert((p0 + l).skip(p0.len() as int) =~= l);
                        assert(t.skip(l.len() as int) =~= x.skip((p0.len() + l.len()) as int));
                        assert(t[0] == l[0]);
                        lemma_lookup_in_at(node.children@, t, i as int);
                        assert(t.take(rest.len() as int) =~= t.take(l.len() as int) + t.skip(l.len() as int).take(rest2.len() as int));
                        assert(is_prefix(l, t));
                        assert(lookup(*node, t) == edge(*child, t));
                        assert(rest =~= l + rest2);
                        assert(t.len() >= rest.len());
                        assert(t.skip(l.len() as int).take(rest2.len() as int) =~= rest2);
                        assert(t.take(rest.len() as int) =~= l + rest2);
                        assert(is_prefix(rest, t));
                        assert(is_prefix(p0, x));
                    }
                }
                assert(found_below(*node, rest, p0) =~= found_below(*child, rest2, p0 + l));
            }
        } else {
            proof {
                assert(words_of(out@).take(n0 as int) =~= out0);
                assert(words_of(out@).skip(n0 as int) =~= Seq::<Seq<char>>::empty());
                assert forall|x: Seq<char>| !#[trigger] found_below(*node, rest, p0).contains(x) by {
                    let t = x.skip(p0.len() as int);
                    if is_prefix(rest, t) && lookup(*node, t) is Some {
                        assert(t.take(rest.len() as int)[0] == rest[0]);
                        lemma_lookup_in_at(node.children@, t, i as int);
                        assert(t.take(rest.len() as int)[shared as int] == t.take(l.len() as int)[shared as int]);
                    }
                }
                assert(found_below(*node, rest, p0) =~= Set::<Seq<char>>::empty());
            }
        }
    }
}

pub struct PatriciaTrie<E> {
    root: Node<E>,
    size: usize,
}

impl<E> PatriciaTrie<E> {
    /// The entries the trie holds.
    pub closed spec fn entries(&self) -> Map<Seq<char>, E> {
        Map::new(|s: Seq<char>| lookup(self.root, s) is Some, |s: Seq<char>| lookup(self.root, s)->0)
    }

    /// The trie's structural invariant: the radix tree is well formed, holds
    /// no value at the root, and counts its keys.
    pub closed spec fn well_formed(&self) -> bool {
        &&& wf(self.root)
        &&& self.root.value is None
        &&& self.entries().dom().finite()
        &&& self.size == self.entries().dom().len()
    }

    /// Creates an empty trie.
    pub fn new() -> (trie: Self)
        ensures
            trie.well_formed(),
            trie.entries() == Map::<Seq<char>, E>::empty(),
    {
        let trie = PatriciaTrie { root: Node::new(Vec::new()), size: 0 };
        proof {
            assert(trie.entries() =~= Map::<Seq<char>, E>::empty());
        }
        trie
    }
}


impl<E> PatriciaTrie<E> {
    proof fn lemma_entries(&self)
        ensures
            forall|s: Seq<char>| #[trigger] self.entries().contains_key(s) <==> lookup(self.root, s) is Some,
            forall|s: Seq<char>| self.entries().contains_key(s) ==> #[trigger] self.entries()[s] == lookup(self.root, s)->0,
    {
    }

    /// The keys stored in the trie, in lexicographic order.
    fn keys_with(&self, prefix: &[char]) -> (keys: Vec<String>)
        requires
            self.well_formed(),
        ensures
            strictly_sorted(words_of(keys@)),
            words_of(keys@).to_set() == keys_with_prefix(self.entries().dom(), prefix@),
    {
        let mut keys: Vec<String> = Vec::new();
        let mut path: Vec<char> = Vec::new();
        Self::collect_with_prefix(&self.root, prefix, 0, &mut path, &mut keys);
        proof {
            assert(words_of(keys@).skip(0) =~= words_of(keys@));
            assert(prefix@.skip(0) =~= prefix@);
            assert forall|x: Seq<char>| #[trigger] found_below(self.root, prefix@, Seq::<char>::empty()).contains(x)
                <==> keys_with_prefix(self.entries().dom(), prefix@).contains(x) by {
                assert(x.skip(0) =~= x);
                assert(x.take(0) =~= Seq::<char>::empty());
            }
            assert(found_below(self.root, prefix@, Seq::<char>::empty()) =~= keys_with_prefix(
                self.entries().dom(),
                prefix@,
            ));
        }
        keys
    }
}

impl<E> Default for PatriciaTrie<E> {
    fn default() -> (trie: Self)
        ensures
            trie.well_formed(),
            trie.entries() == Map::<Seq<char>, E>::empty(),
    {
        Self::new()
    }
}

impl<E: Clone> SymbolTable<E> for PatriciaTrie<E> {
    open spec fn table(&self) -> Map<Seq<char>, E> {
        self.entries()
    }

    open spec fn table_ok(&self) -> bool {
        self.well_formed()
    }

    proof fn lemma_table_ok(&self) {
        assert(lookup(self.root, Seq::<char>::empty()) is None);
    }

    fn put(&mut self, key: String, value: E) {
        let chars = chars_of(key.as_str());
        if chars.len() == 0 {
            return;
        }
        let ghost before = self.entries();
        let added = Self::put_in(&mut self.root, chars.as_slice(), 0, value);
        proof {
            assert(chars@.skip(0) =~= chars@);
            assert(self.entries() =~= before.insert(key@, value));
            assert(added == !before.dom().contains(key@));
            assert(self.root.value is None) by {
                assert(lookup(self.root, Seq::<char>::empty()) is None);
            }
        }
        if added {
            self.size = self.size + 1;
        }
    }

    fn get(&self, key: &str) -> (found: Option<E>) {
        let chars = chars_of(key);
        if chars.len() == 0 {
            return None;
        }
        proof {
            assert(chars@.skip(0) =~= chars@);
        }
        match Self::find(&self.root, chars.as_slice(), 0) {
            Some(node) => match &node.value {
                Some(v) => Some(v.clone()),
                None => None,
            },
            None => None,
        }
    }

    fn delete(&mut self, key: &str) {
        let chars = chars_of(key);
        if chars.len() == 0 {
            proof {
                assert(self.entries() =~= self.entries().remove(key@));
            }
            return;
        }
        let ghost before = self.entries();
        let deleted = Self::delete_in(&mut self.root, chars.as_slice(), 0);
        proof {
            assert(chars@.skip(0) =~= chars@);
            assert(self.entries() =~= before.remove(key@));
            assert(deleted == before.dom().contains(key@));
            assert(self.root.value is None) by {
                assert(lookup(self.root, Seq::<char>::empty()) is None);
            }
        }
        if deleted {
            self.size = self.size - 1;
        }
    }

    fn contains(&self, key: &str) -> (found: bool) {
        self.get(key).is_some()
    }

    fn clear(&mut self) {
        self.root = Node::new(Vec::new());
        self.size = 0;
        proof {
            assert(self.entries() =~= Map::<Seq<char>, E>::empty());
        }
    }

    fn is_empty(&self) -> (empty: bool) {
        self.size == 0
    }

    fn get_size(&self) -> (size: usize) {
        self.size
    }

    fn get_all_keys(&self) -> (keys: Vec<String>) {
        let nothing: Vec<char> = Vec::new();
        let keys = self.keys_with(nothing.as_slice());
        proof {
            assert forall|x: Seq<char>| #[trigger] keys_with_prefix(self.entries().dom(), Seq::<char>::empty()).contains(x)
                <==> self.entries().dom().contains(x) by {
                assert(x.take(0) =~= Seq::<char>::empty());
            }
            assert(keys_with_prefix(self.entries().dom(), Seq::<char>::empty()) =~= self.entries().dom());
        }
        keys
    }
}

impl<E> PrefixSearch for PatriciaTrie<E> {
    open spec fn stored_keys(&self) -> Set<Seq<char>> {
        self.entries().dom()
    }

    open spec fn keys_ok(&self) -> bool {
        self.well_formed()
    }

    fn get_keys_with_prefix(&self, prefix: &str) -> (keys: Vec<String>) {
        let chars = chars_of(prefix);
        self.keys_with(chars.as_slice())
    }

    fn longest_prefix_of(&self, prefix: &str) -> (found: Option<String>) {
        let chars = chars_of(prefix);
        let ghost text = chars@;
        let ghost root = self.root;
        if chars.len() == 0 {
            proof {
                assert forall|other: Seq<char>| #![trigger self.entries().dom().contains(other)]
                    self.entries().dom().contains(other) implies !is_prefix(other, text) by {
                    if is_prefix(other, text) {
                        assert(other =~= Seq::<char>::empty());
                    }
                }
            }
            return None;
        }
        let mut node = &self.root;
        let mut consumed: usize = 0;
        let mut longest: usize = 0;
        let mut done = false;
        proof {
            assert forall|t: Seq<char>| #[trigger] lookup(root, text.take(0) + t) == lookup(*node, t) by {
                assert(text.take(0) + t =~= t);
            }
        }
        while !done && consumed < chars.len()
            invariant
                self.well_formed(),
                root == self.root,
                text == chars@,
                wf(*node),
                consumed <= text.len(),
                longest <= consumed,
                forall|t: Seq<char>| #[trigger] lookup(root, text.take(consumed as int) + t) == lookup(*node, t),
                longest > 0 ==> lookup(root, text.take(longest as int)) is Some,
                forall|l: int| longest < l <= consumed ==> #[trigger] lookup(root, text.take(l)) is None,
                done ==> forall|l: int| consumed < l <= text.len() ==> #[trigger] lookup(root, text.take(l)) is None,
            decreases text.len() - consumed, if done { 0nat } else { 1nat },
        {
            let ghost here = *node;
            proof {
                lemma_wf_unfold(here);
            }
            match child_index(&node.children, chars[consumed]) {
                None => {
                    proof {
                        assert forall|l: int| consumed < l <= text.len() implies #[trigger] lookup(root, text.take(l)) is None by {
                            let t = text.take(l).skip(consumed as int);
                            assert(text.take(consumed as int) + t =~= text.take(l));
                            assert(t[0] == text[consumed as int]);
                            lemma_lookup_in_none(here.children@, t);
                        }
                    }
                    done = true;
                },
                Some(i) => {
                    let child = &node.children[i];
                    let shared = common_prefix_len(child.label.as_slice(), chars.as_slice(), consumed);
                    let ghost l = child.label@;
                    proof {
                        lemma_prefix_when_shared::<E>(l, text, consumed as int, shared as int);
                    }
                    if shared < child.label.len() {
                        proof {
                            assert forall|m: int| consumed < m <= text.len() implies #[trigger] lookup(root, text.take(m)) is None by {
                                let t = text.take(m).skip(consumed as int);
                                assert(text.take(consumed as int) + t =~= text.take(m));
                                assert(t[0] == text[consumed as int]);
                                lemma_lookup_in_at(here.children@, t, i as int);
                                if is_prefix(l, t) {
                                    assert(text.skip(consumed as int).take(l.len() as int) =~= t.take(l.len() as int));
                                }
                            }
                        }
                        done = true;
                    } else {
                        proof {
                            assert forall|t: Seq<char>| #[trigger] lookup(root, text.take(consumed + shared) + t)
                                == lookup(*child, t) by {
                                assert(text.take(consumed + shared) =~= text.take(consumed as int) + l);
                                assert(text.take(consumed + shared) + t =~= text.take(consumed as int) + (l + t));
                                assert((l + t)[0] == l[0]);
                                lemma_lookup_in_at(here.children@, l + t, i as int);
                                assert((l + t).take(l.len() as int) =~= l);
                                assert((l + t).skip(l.len() as int) =~= t);
                            }
                            assert forall|m: int| consumed < m < consumed + shared implies #[trigger] lookup(root, text.take(m)) is None by {
                                let t = text.take(m).skip(consumed as int);
                                assert(text.take(consumed as int) + t =~= text.take(m));
                                assert(t[0] == l[0]);
                                lemma_lookup_in_at(here.children@, t, i as int);
                            }
                            assert(text.take(consumed + shared) + Seq::<char>::empty() =~= text.take(consumed + shared));
                        }
                        consumed = consumed + shared;
                        node = child;
                        if node.value.is_some() {
                            longest = consumed;
                        }
                    }
                },
            }
        }
        proof {
            assert forall|other: Seq<char>| #![trigger self.entries().dom().contains(other)]
                self.entries().dom().contains(other) && is_prefix(other, text) implies other.len() <= longest
                && other.len() > 0 && other == text.take(other.len() as int) by {
                assert(lookup(root, Seq::<char>::empty()) is None);
                if other.len() == 0 {
                    assert(other =~= Seq::<char>::empty());
                }
            }
        }
        if longest == 0 {
            None
        } else {
            let head = crate::text::prefix_to(chars.as_slice(), longest);
            let word = string_of(head.as_slice());
            proof {
                assert(is_prefix(word@, text));
            }
            Some(word)
        }
    }
}

} // verus!
