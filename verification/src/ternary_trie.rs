//! A ternary search trie: one character per node, with a left and a right
//! child for the characters that sort before and after it, and a middle child
//! for the next character of the key.
use vstd::prelude::*;
use crate::patricia_trie::prefixed;
use crate::symbol_table::{PrefixSearch, SymbolTable, keys_with_prefix};
use crate::text::{char_lt, chars_of, is_prefix, lemma_char_code_injective, lemma_lex_first_char, lemma_lex_proper_prefix, lex_lt, string_of, strictly_sorted, words_of};

verus! {

pub struct Node<E> {
    // Character stored at this node
    c: char,
    // Value if this node represents a key
    value: Option<E>,
    // Left child (character < node's character)
    left: Option<Box<Node<E>>>,
    // Middle child (next character in key)
    middle: Option<Box<Node<E>>>,
    // Right child (character > node's character)
    right: Option<Box<Node<E>>>,
}

pub struct TernarySearchTrie<E> {
    root: Option<Box<Node<E>>>,
    size: usize,
}

/// What the subtree `t` stores under `s`: the search a lookup performs,
/// going left or right on a smaller or larger character and down the middle
/// on an equal one.
pub closed spec fn find_in<E>(t: Option<Box<Node<E>>>, s: Seq<char>) -> Option<E>
    decreases t,
{
    match t {
        None => None,
        Some(n) => if s.len() == 0 {
            None
        } else if char_lt(s[0], n.c) {
            find_in(n.left, s)
        } else if char_lt(n.c, s[0]) {
            find_in(n.right, s)
        } else if s.len() == 1 {
            n.value
        } else {
            find_in(n.middle, s.drop_first())
        },
    }
}

/// The search-tree invariant: every character reachable through left and
/// right links lies strictly between `lo` and `hi`, and each middle subtree
/// is a search tree in its own right.
pub closed spec fn wf_t<E>(t: Option<Box<Node<E>>>, lo: int, hi: int) -> bool
    decreases t,
{
    match t {
        None => true,
        Some(n) => {
            &&& lo < n.c as int
            &&& (n.c as int) < hi
            &&& wf_t(n.left, lo, n.c as int)
            &&& wf_t(n.right, n.c as int, hi)
            &&& wf_t(n.middle, -1, 0x110000)
        },
    }
}

/// The keys stored in `t`, in the order an in-order walk meets them.
pub closed spec fn keys_t<E>(t: Option<Box<Node<E>>>) -> Seq<Seq<char>>
    decreases t,
{
    match t {
        None => Seq::<Seq<char>>::empty(),
        Some(n) => keys_t(n.left) + (if n.value is Some {
            seq![seq![n.c]]
        } else {
            Seq::<Seq<char>>::empty()
        }) + prefixed(seq![n.c], keys_t(n.middle)) + keys_t(n.right),
    }
}

proof fn lemma_wf_weaken<E>(t: Option<Box<Node<E>>>, lo: int, hi: int, lo2: int, hi2: int)
    requires
        wf_t(t, lo, hi),
        lo2 <= lo,
        hi <= hi2,
    ensures
        wf_t(t, lo2, hi2),
    decreases t,
{
    if let Some(n) = t {
        lemma_wf_weaken(n.left, lo, n.c as int, lo2, n.c as int);
        lemma_wf_weaken(n.right, n.c as int, hi, n.c as int, hi2);
    }
}

proof fn lemma_char_range(c: char)
    ensures
        -1 < (c as int) < 0x110000,
{
}

/// The walk meets exactly the stored keys, each once, in lexicographic
/// order, and each begins with a character within the subtree's bounds.
proof fn lemma_keys_t<E>(t: Option<Box<Node<E>>>, lo: int, hi: int)
    requires
        wf_t(t, lo, hi),
    ensures
        strictly_sorted(keys_t(t)),
        forall|i: int|
            0 <= i < keys_t(t).len() ==> (#[trigger] keys_t(t)[i]).len() > 0 && lo < keys_t(t)[i][0] as int
                && (keys_t(t)[i][0] as int) < hi && find_in(t, keys_t(t)[i]) is Some,
        forall|s: Seq<char>| #[trigger] find_in(t, s) is Some ==> keys_t(t).contains(s),
    decreases t,
{
    if let Some(n) = t {
        let c = n.c;
        lemma_keys_t(n.left, lo, c as int);
        lemma_keys_t(n.right, c as int, hi);
        lemma_keys_t(n.middle, -1, 0x110000);
        let l = keys_t(n.left);
        let own = if n.value is Some {
            seq![seq![c]]
        } else {
            Seq::<Seq<char>>::empty()
        };
        let m = prefixed(seq![c], keys_t(n.middle));
        let r = keys_t(n.right);
        let om = own + m;
        let ks = keys_t(t);
        assert(ks == l + om + r);
        // own and middle keys all begin with `c`, own first
        assert forall|i: int, j: int| 0 <= i < j < om.len() implies lex_lt(#[trigger] om[i], #[trigger] om[j]) by {
            if i >= own.len() {
                let a = keys_t(n.middle)[i - own.len()];
                let b = keys_t(n.middle)[j - own.len()];
                crate::text::lemma_lex_common_prefix(seq![c], a, b);
            } else {
                let b = keys_t(n.middle)[j - own.len()];
                assert(om[i] == seq![c]);
                assert(om[j] == seq![c] + b);
                lemma_lex_proper_prefix(seq![c], b);
            }
        }
        assert forall|i: int| 0 <= i < om.len() implies (#[trigger] om[i]).len() > 0 && om[i][0] == c by {
            if i >= own.len() {
                assert(om[i] == seq![c] + keys_t(n.middle)[i - own.len()]);
            }
        }
        assert forall|i: int, j: int| 0 <= i < l.len() && 0 <= j < om.len() implies lex_lt(#[trigger] l[i], #[trigger] om[j]) by {
            lemma_lex_first_char(l[i], om[j]);
        }
        assert forall|i: int, j: int| 0 <= i < om.len() && 0 <= j < r.len() implies lex_lt(#[trigger] om[i], #[trigger] r[j]) by {
            lemma_lex_first_char(om[i], r[j]);
        }
        let lom = l + om;
        assert forall|i: int, j: int| 0 <= i < j < lom.len() implies lex_lt(#[trigger] lom[i], #[trigger] lom[j]) by {
            if j < l.len() {
                assert(lom[i] == l[i] && lom[j] == l[j]);
            } else if i >= l.len() {
                assert(lom[i] == om[i - l.len()] && lom[j] == om[j - l.len()]);
            } else {
                assert(lom[i] == l[i] && lom[j] == om[j - l.len()]);
            }
        }
        assert forall|i: int, j: int| 0 <= i < j < ks.len() implies lex_lt(#[trigger] ks[i], #[trigger] ks[j]) by {
            if j < lom.len() {
                assert(ks[i] == lom[i] && ks[j] == lom[j]);
            } else if i >= lom.len() {
                assert(ks[i] == r[i - lom.len()] && ks[j] == r[j - lom.len()]);
            } else {
                assert(ks[j] == r[j - lom.len()]);
                assert(ks[i] == lom[i]);
                if i < l.len() {
                    assert(lom[i] == l[i]);
                    lemma_lex_first_char(l[i], r[j - lom.len()]);
                } else {
                    assert(lom[i] == om[i - l.len()]);
                }
            }
        }
        lemma_char_range(c);
        assert forall|i: int| 0 <= i < ks.len() implies (#[trigger] ks[i]).len() > 0 && lo < ks[i][0] as int
            && (ks[i][0] as int) < hi && find_in(t, ks[i]) is Some by {
            if i < l.len() {
                assert(ks[i] == l[i]);
                lemma_char_code_injective(l[i][0], c);
            } else if i < l.len() + own.len() {
                assert(ks[i] == om[i - l.len()]);
                assert(ks[i] == seq![c]);
            } else if i < lom.len() {
                let k = keys_t(n.middle)[i - l.len() - own.len()];
                assert(ks[i] == om[i - l.len()]);
                assert(ks[i] == seq![c] + k);
                assert((seq![c] + k).drop_first() =~= k);
            } else {
                assert(ks[i] == r[i - lom.len()]);
                lemma_char_code_injective(r[i - lom.len()][0], c);
            }
        }
        assert forall|s: Seq<char>| #[trigger] find_in(t, s) is Some implies ks.contains(s) by {
            if char_lt(s[0], c) {
                assert(find_in(n.left, s) is Some);
                assert(l.contains(s));
                let i = choose|i: int| 0 <= i < l.len() && l[i] == s;
                assert(lom[i] == s);
                assert(ks[i] == s);
            } else if char_lt(c, s[0]) {
                assert(find_in(n.right, s) is Some);
                assert(r.contains(s));
                let i = choose|i: int| 0 <= i < r.len() && r[i] == s;
                assert(ks[lom.len() + i] == s);
            } else {
                lemma_char_code_injective(s[0], c);
                if s.len() == 1 {
                    assert(s =~= seq![c]);
                    assert(om[0] == s);
                    assert(lom[l.len() as int] == s);
                    assert(ks[l.len() as int] == s);
                } else {
                    let k = s.drop_first();
                    assert(find_in(n.middle, k) is Some);
                    assert(keys_t(n.middle).contains(k));
                    let i = choose|i: int| 0 <= i < keys_t(n.middle).len() && keys_t(n.middle)[i] == k;
                    assert(s =~= seq![c] + k);
                    assert(m[i] == s);
                    assert(om[own.len() + i] == s);
                    assert(lom[l.len() + own.len() + i] == s);
                    assert(ks[l.len() + own.len() + i] == s);
                }
            }
        }
    }
}


/// The bounds every whole trie and every middle subtree is searched within.
pub open spec fn lowest() -> int {
    -1
}

pub open spec fn highest() -> int {
    0x110000
}

/// Changing what a node's left subtree stores under `suffix`, a word that
/// sorts before the node, changes what the node stores under it and nothing
/// else; likewise on the right.
proof fn lemma_side_update<E>(old_n: Node<E>, new_n: Node<E>, suffix: Seq<char>, upd: Option<E>, left: bool)
    requires
        new_n.c == old_n.c,
        new_n.value == old_n.value,
        new_n.middle == old_n.middle,
        left ==> new_n.right == old_n.right,
        !left ==> new_n.left == old_n.left,
        suffix.len() > 0,
        left ==> char_lt(suffix[0], old_n.c),
        !left ==> char_lt(old_n.c, suffix[0]),
        left ==> forall|s: Seq<char>| #[trigger] find_in(new_n.left, s) == if s == suffix {
            upd
        } else {
            find_in(old_n.left, s)
        },
        !left ==> forall|s: Seq<char>| #[trigger] find_in(new_n.right, s) == if s == suffix {
            upd
        } else {
            find_in(old_n.right, s)
        },
    ensures
        forall|s: Seq<char>| #[trigger] find_in(Some(Box::new(new_n)), s) == if s == suffix {
            upd
        } else {
            find_in(Some(Box::new(old_n)), s)
        },
{
    let c = old_n.c;
    assert forall|s: Seq<char>| #[trigger] find_in(Some(Box::new(new_n)), s) == if s == suffix {
        upd
    } else {
        find_in(Some(Box::new(old_n)), s)
    } by {
        if s.len() > 0 {
            lemma_char_code_injective(s[0], c);
            lemma_char_code_injective(suffix[0], c);
            if char_lt(s[0], c) {
                assert(find_in(Some(Box::new(new_n)), s) == find_in(new_n.left, s));
                assert(find_in(Some(Box::new(old_n)), s) == find_in(old_n.left, s));
                if !left {
                    assert(s != suffix);
                } else {
                    assert(find_in(new_n.left, s) == if s == suffix {
                        upd
                    } else {
                        find_in(old_n.left, s)
                    });
                }
            } else if char_lt(c, s[0]) {
                assert(find_in(Some(Box::new(new_n)), s) == find_in(new_n.right, s));
                assert(find_in(Some(Box::new(old_n)), s) == find_in(old_n.right, s));
                if left {
                    assert(s != suffix);
                } else {
                    assert(find_in(new_n.right, s) == if s == suffix {
                        upd
                    } else {
                        find_in(old_n.right, s)
                    });
                }
            } else {
                assert(s != suffix);
            }
        } else {
            assert(s != suffix);
        }
    }
}

/// Changing what a node's middle subtree stores under the rest of `suffix`,
/// a word beginning with the node's character, changes what the node stores
/// under `suffix` and nothing else.
proof fn lemma_middle_update<E>(old_n: Node<E>, new_n: Node<E>, suffix: Seq<char>, upd: Option<E>)
    requires
        new_n.c == old_n.c,
        new_n.value == old_n.value,
        new_n.left == old_n.left,
        new_n.right == old_n.right,
        suffix.len() > 1,
        suffix[0] == old_n.c,
        forall|s: Seq<char>| #[trigger] find_in(new_n.middle, s) == if s == suffix.drop_first() {
            upd
        } else {
            find_in(old_n.middle, s)
        },
    ensures
        forall|s: Seq<char>| #[trigger] find_in(Some(Box::new(new_n)), s) == if s == suffix {
            upd
        } else {
            find_in(Some(Box::new(old_n)), s)
        },
{
    let c = old_n.c;
    assert forall|s: Seq<char>| #[trigger] find_in(Some(Box::new(new_n)), s) == if s == suffix {
        upd
    } else {
        find_in(Some(Box::new(old_n)), s)
    } by {
        if s.len() > 0 {
            lemma_char_code_injective(s[0], c);
            if !char_lt(s[0], c) && !char_lt(c, s[0]) && s.len() > 1 {
                assert(find_in(Some(Box::new(new_n)), s) == find_in(new_n.middle, s.drop_first()));
                assert(find_in(Some(Box::new(old_n)), s) == find_in(old_n.middle, s.drop_first()));
                assert(find_in(new_n.middle, s.drop_first()) == if s.drop_first() == suffix.drop_first() {
                    upd
                } else {
                    find_in(old_n.middle, s.drop_first())
                });
                if s.drop_first() == suffix.drop_first() {
                    assert(s =~= seq![s[0]] + s.drop_first());
                    assert(suffix =~= seq![suffix[0]] + suffix.drop_first());
                }
                if s == suffix {
                    assert(s.drop_first() == suffix.drop_first());
                }
            } else if s == suffix {
                assert(s.len() > 1);
            } else if char_lt(s[0], c) {
                assert(find_in(Some(Box::new(new_n)), s) == find_in(new_n.left, s));
            } else if char_lt(c, s[0]) {
                assert(find_in(Some(Box::new(new_n)), s) == find_in(new_n.right, s));
            }
        } else {
            assert(s != suffix);
        }
    }
}

/// Changing a node's own value changes what it stores under its one-character
/// word and nothing else.
proof fn lemma_value_update<E>(old_n: Node<E>, new_n: Node<E>, suffix: Seq<char>, upd: Option<E>)
    requires
        new_n.c == old_n.c,
        new_n.value == upd,
        new_n.left == old_n.left,
        new_n.middle == old_n.middle,
        new_n.right == old_n.right,
        suffix.len() == 1,
        suffix[0] == old_n.c,
    ensures
        forall|s: Seq<char>| #[trigger] find_in(Some(Box::new(new_n)), s) == if s == suffix {
            upd
        } else {
            find_in(Some(Box::new(old_n)), s)
        },
{
    let c = old_n.c;
    assert forall|s: Seq<char>| #[trigger] find_in(Some(Box::new(new_n)), s) == if s == suffix {
        upd
    } else {
        find_in(Some(Box::new(old_n)), s)
    } by {
        if s.len() > 0 {
            lemma_char_code_injective(s[0], c);
            if !char_lt(s[0], c) && !char_lt(c, s[0]) && s.len() == 1 {
                assert(s =~= suffix);
            }
        }
    }
}

impl<E> TernarySearchTrie<E> {
    // Inserts `key[pos..]` below `node`. Returns whether a new key was added
    // rather than a value replaced.
    fn put_recursive(
        node: &mut Option<Box<Node<E>>>,
        key: &[char],
        value: E,
        pos: usize,
        Ghost(lo): Ghost<int>,
        Ghost(hi): Ghost<int>,
    ) -> (added: bool)
        requires
            wf_t(*old(node), lo, hi),
            pos < key@.len() ==> lo < key@[pos as int] as int && (key@[pos as int] as int) < hi,
        ensures
            wf_t(*final(node), lo, hi),
            forall|s: Seq<char>| #[trigger]
                find_in(*final(node), s) == if pos < key@.len() && s == key@.skip(pos as int) {
                    Some(value)
                } else {
                    find_in(*old(node), s)
                },
            added == (pos < key@.len() && find_in(*old(node), key@.skip(pos as int)) is None),
        decreases key@.len() - pos, *old(node),
    {
        if pos >= key.len() {
            return false;
        }
        let ghost suffix = key@.skip(pos as int);
        let current_char = key[pos];
        let is_last_char = pos == key.len() - 1;
        proof {
            assert(suffix[0] == current_char);
            lemma_char_range(current_char);
        }
        match node {
            None => {
                let mut fresh = Box::new(
                    Node { c: current_char, value: None, left: None, middle: None, right: None },
                );
                if is_last_char {
                    fresh.value = Some(value);
                    *node = Some(fresh);
                    proof {
                        assert(wf_t(None::<Box<Node<E>>>, lo, current_char as int));
                        assert(wf_t(None::<Box<Node<E>>>, current_char as int, hi));
                        assert(wf_t(None::<Box<Node<E>>>, lowest(), highest()));
                        let nn = *node;
                        assert(nn is Some);
                        assert(nn->0.c == current_char);
                        assert(nn->0.value == Some(value));
                        assert(nn->0.left is None);
                        assert forall|s: Seq<char>| #[trigger] find_in(nn, s) == if s == suffix {
                            Some(value)
                        } else {
                            None::<E>
                        } by {
                            if s.len() == 0 {
                                assert(find_in(nn, s) is None);
                            } else {
                                lemma_char_code_injective(s[0], current_char);
                                if char_lt(s[0], current_char) {
                                    assert(find_in(nn, s) == find_in(nn->0.left, s));
                                    assert(s != suffix);
                                } else if char_lt(current_char, s[0]) {
                                    assert(find_in(nn, s) == find_in(nn->0.right, s));
                                    assert(s != suffix);
                                } else {
                                    assert(s[0] == current_char);
                                    if s.len() == 1 {
                                        assert(s =~= suffix);
                                        assert(find_in(nn, s) == Some(value));
                                    } else {
                                        assert(s != suffix);
                                        assert(find_in(nn, s) == find_in(nn->0.middle, s.drop_first()));
                                    }
                                }
                            }
                        }
                    }
                    true
                } else {
                    proof {
                        assert(key@.skip(pos + 1) =~= suffix.drop_first());
                        lemma_char_range(key@[pos + 1]);
                    }
                    let added = Self::put_recursive(
                        &mut fresh.middle,
                        key,
                        value,
                        pos + 1,
                        Ghost(lowest()),
                        Ghost(highest()),
                    );
                    let ghost blank = Node::<E> { c: current_char, value: None, left: None, middle: None, right: None };
                    proof {
                        lemma_middle_update(blank, *fresh, suffix, Some(value));
                        assert forall|s: Seq<char>| #[trigger] find_in(Some(Box::new(blank)), s) is None by {
                            if s.len() > 0 {
                                if char_lt(s[0], current_char) {
                                    assert(find_in(Some(Box::new(blank)), s) == find_in(blank.left, s));
                                } else if char_lt(current_char, s[0]) {
                                    assert(find_in(Some(Box::new(blank)), s) == find_in(blank.right, s));
                                } else if s.len() > 1 {
                                    assert(find_in(Some(Box::new(blank)), s) == find_in(blank.middle, s.drop_first()));
                                }
                            }
                        }
                        assert(wf_t(None::<Box<Node<E>>>, lo, current_char as int));
                        assert(wf_t(None::<Box<Node<E>>>, current_char as int, hi));
                    }
                    *node = Some(fresh);
                    added
                }
            },
            Some(current_node) => {
                let ghost n = **current_node;
                let c = current_node.c;
                proof {
                    lemma_char_code_injective(current_char, c);
                }
                if current_char < c {
                    let added = Self::put_recursive(
                        &mut current_node.left,
                        key,
                        value,
                        pos,
                        Ghost(lo),
                        Ghost(c as int),
                    );
                    proof {
                        lemma_side_update(n, **current_node, suffix, Some(value), true);
                    }
                    added
                } else if current_char > c {
                    let added = Self::put_recursive(
                        &mut current_node.right,
                        key,
                        value,
                        pos,
                        Ghost(c as int),
                        Ghost(hi),
                    );
                    proof {
                        lemma_side_update(n, **current_node, suffix, Some(value), false);
                    }
                    added
                } else if is_last_char {
                    let is_new_key = current_node.value.is_none();
                    current_node.value = Some(value);
                    proof {
                        lemma_value_update(n, **current_node, suffix, Some(value));
                    }
                    is_new_key
                } else {
                    proof {
                        assert(key@.skip(pos + 1) =~= suffix.drop_first());
                        lemma_char_range(key@[pos + 1]);
                    }
                    let added = Self::put_recursive(
                        &mut current_node.middle,
                        key,
                        value,
                        pos + 1,
                        Ghost(lowest()),
                        Ghost(highest()),
                    );
                    proof {
                        lemma_middle_update(n, **current_node, suffix, Some(value));
                    }
                    added
                }
            },
        }
    }
}


/// Nothing is stored under the empty word.
proof fn lemma_no_empty_key<E>(t: Option<Box<Node<E>>>)
    ensures
        find_in(t, Seq::<char>::empty()) is None,
{
}

/// A node holding no value and no children stores nothing.
proof fn lemma_empty_node<E>(n: Node<E>)
    requires
        n.value is None,
        n.left is None,
        n.middle is None,
        n.right is None,
    ensures
        forall|s: Seq<char>| #[trigger] find_in(Some(Box::new(n)), s) is None,
{
    assert forall|s: Seq<char>| #[trigger] find_in(Some(Box::new(n)), s) is None by {
        if s.len() > 0 {
            if char_lt(s[0], n.c) {
                assert(find_in(Some(Box::new(n)), s) == find_in(n.left, s));
            } else if char_lt(n.c, s[0]) {
                assert(find_in(Some(Box::new(n)), s) == find_in(n.right, s));
            } else if s.len() > 1 {
                assert(find_in(Some(Box::new(n)), s) == find_in(n.middle, s.drop_first()));
            }
        }
    }
}

impl<E> TernarySearchTrie<E> {
    // Returns the value stored under `key[pos..]`.
    fn get_recursive<'a>(node: &'a Option<Box<Node<E>>>, key: &[char], pos: usize) -> (found: Option<&'a E>)
        ensures
            match found {
                Some(v) => pos < key@.len() && find_in(*node, key@.skip(pos as int)) == Some(*v),
                None => pos >= key@.len() || find_in(*node, key@.skip(pos as int)) is None,
            },
        decreases *node,
    {
        if node.is_none() || pos >= key.len() {
            return None;
        }
        let current_node = node.as_ref().unwrap();
        let current_char = key[pos];
        let ghost suffix = key@.skip(pos as int);
        proof {
            assert(suffix[0] == current_char);
            lemma_char_code_injective(current_char, current_node.c);
        }
        if current_char < current_node.c {
            Self::get_recursive(&current_node.left, key, pos)
        } else if current_char > current_node.c {
            Self::get_recursive(&current_node.right, key, pos)
        } else if pos == key.len() - 1 {
            current_node.value.as_ref()
        } else {
            proof {
                assert(key@.skip(pos + 1) =~= suffix.drop_first());
            }
            Self::get_recursive(&current_node.middle, key, pos + 1)
        }
    }

    // Clears the value stored under `key[pos..]`, dropping every node left
    // with neither a value nor children on the way back up.
    fn delete_recursive(
        node: &mut Option<Box<Node<E>>>,
        key: &[char],
        pos: usize,
        Ghost(lo): Ghost<int>,
        Ghost(hi): Ghost<int>,
    ) -> (deleted: bool)
        requires
            wf_t(*old(node), lo, hi),
        ensures
            wf_t(*final(node), lo, hi),
            forall|s: Seq<char>| #[trigger]
                find_in(*final(node), s) == if pos < key@.len() && s == key@.skip(pos as int) {
                    None
                } else {
                    find_in(*old(node), s)
                },
            deleted == (pos < key@.len() && find_in(*old(node), key@.skip(pos as int)) is Some),
        decreases *old(node),
    {
        if node.is_none() || pos >= key.len() {
            return false;
        }
        let ghost suffix = key@.skip(pos as int);
        let ghost before = *node;
        let current_char = key[pos];
        let deleted;
        match node {
            None => {
                return false;
            },
            Some(current_node) => {
                let ghost n = **current_node;
                let c = current_node.c;
                proof {
                    assert(suffix[0] == current_char);
                    lemma_char_code_injective(current_char, c);
                }
                if current_char < c {
                    deleted = Self::delete_recursive(&mut current_node.left, key, pos, Ghost(lo), Ghost(c as int));
                    proof {
                        lemma_side_update(n, **current_node, suffix, None, true);
                    }
                } else if current_char > c {
                    deleted = Self::delete_recursive(&mut current_node.right, key, pos, Ghost(c as int), Ghost(hi));
                    proof {
                        lemma_side_update(n, **current_node, suffix, None, false);
                    }
                } else if pos == key.len() - 1 {
                    deleted = current_node.value.is_some();
                    current_node.value = None;
                    proof {
                        lemma_value_update(n, **current_node, suffix, None);
                    }
                } else {
                    proof {
                        assert(key@.skip(pos + 1) =~= suffix.drop_first());
                    }
                    deleted = Self::delete_recursive(
                        &mut current_node.middle,
                        key,
                        pos + 1,
                        Ghost(lowest()),
                        Ghost(highest()),
                    );
                    proof {
                        lemma_middle_update(n, **current_node, suffix, None);
                    }
                }
            },
        }
        // Check if we can remove this node (no value and no children)
        let should_remove = match node.as_ref() {
            Some(current_node) => current_node.value.is_none() && current_node.left.is_none()
                && current_node.middle.is_none() && current_node.right.is_none(),
            None => false,
        };
        let ghost mid = *node;
        proof {
            assert(forall|s: Seq<char>| #[trigger] find_in(mid, s) == if s == suffix {
                None
            } else {
                find_in(before, s)
            });
        }
        if should_remove {
            proof {
                lemma_empty_node(*node->0);
                assert(wf_t(None::<Box<Node<E>>>, lo, hi));
            }
            *node = None;
            proof {
                assert forall|s: Seq<char>| #[trigger] find_in(*node, s) == find_in(mid, s) by {
                    assert(find_in(mid, s) is None);
                }
            }
        }
        deleted
    }

    // Appends every key of `node`'s subtree, each behind `prefix`, in the
    // order an in-order walk meets them.
    fn collect_keys(node: &Option<Box<Node<E>>>, result: &mut Vec<String>, prefix: &Vec<char>)
        ensures
            words_of(final(result)@) == words_of(old(result)@) + prefixed(prefix@, keys_t(*node)),
        decreases *node,
    {
        let ghost start = words_of(result@);
        match node {
            None => {
                proof {
                    assert(words_of(result@) =~= start + prefixed(prefix@, keys_t(*node)));
                }
            },
            Some(current_node) => {
                let ghost n = **current_node;
                // Recursively collect keys from left subtree
                Self::collect_keys(&current_node.left, result, prefix);
                let ghost after_left = words_of(result@);
                // Add this node's character to the prefix
                let mut new_prefix = prefix.clone();
                new_prefix.push(current_node.c);
                // If this node has a value, it's a complete key
                if current_node.value.is_some() {
                    let word = string_of(new_prefix.as_slice());
                    let ghost before = result@;
                    result.push(word);
                    proof {
                        assert(words_of(result@) =~= words_of(before).push(word@));
                    }
                }
                let ghost after_own = words_of(result@);
                // Recursively collect keys from middle subtree
                Self::collect_keys(&current_node.middle, result, &new_prefix);
                let ghost after_middle = words_of(result@);
                // Recursively collect keys from right subtree
                Self::collect_keys(&current_node.right, result, prefix);
                proof {
                    let p = prefix@;
                    let c = n.c;
                    assert(new_prefix@ =~= p + seq![c]);
                    let own = if n.value is Some {
                        seq![seq![c]]
                    } else {
                        Seq::<Seq<char>>::empty()
                    };
                    assert(after_own =~= after_left + prefixed(p, own)) by {
                        if n.value is Some {
                            assert(p + seq![c] =~= p + seq![c]);
                        }
                    }
                    assert(prefixed(p + seq![c], keys_t(n.middle)) =~= prefixed(p, prefixed(seq![c], keys_t(n.middle)))) by {
                        assert forall|k: int| 0 <= k < keys_t(n.middle).len() implies (p + seq![c]) + keys_t(n.middle)[k]
                            =~= p + (seq![c] + keys_t(n.middle)[k]) by {}
                    }
                    assert(keys_t(*node) == keys_t(n.left) + own + prefixed(seq![c], keys_t(n.middle)) + keys_t(n.right));
                    assert(prefixed(p, keys_t(*node)) =~= prefixed(p, keys_t(n.left)) + prefixed(p, own) + prefixed(
                        p,
                        prefixed(seq![c], keys_t(n.middle)),
                    ) + prefixed(p, keys_t(n.right)));
                    assert(words_of(result@) =~= start + prefixed(p, keys_t(*node)));
                }
            },
        }
    }

    // Returns the node whose character ends `prefix[..]` from `pos` on: its
    // value is what the trie stores under the prefix, and its middle subtree
    // holds what follows it.
    fn find_prefix_node<'a>(
        node: &'a Option<Box<Node<E>>>,
        prefix: &[char],
        pos: usize,
        Ghost(lo): Ghost<int>,
        Ghost(hi): Ghost<int>,
    ) -> (found: Option<&'a Box<Node<E>>>)
        requires
            pos < prefix@.len(),
            wf_t(*node, lo, hi),
        ensures
            match found {
                Some(n) => forall|t: Seq<char>| #[trigger] find_in(*node, prefix@.skip(pos as int) + t)
                    == if t.len() == 0 {
                        n.value
                    } else {
                        find_in(n.middle, t)
                    },
                None => forall|t: Seq<char>| #[trigger] find_in(*node, prefix@.skip(pos as int) + t) is None,
            },
            found is Some ==> wf_t(found->0.middle, lowest(), highest()),
        decreases *node,
    {
        let ghost suffix = prefix@.skip(pos as int);
        match node {
            None => None,
            Some(current_node) => {
                let current_char = prefix[pos];
                let c = current_node.c;
                proof {
                    assert(suffix[0] == current_char);
                    lemma_char_code_injective(current_char, c);
                }
                if current_char < c {
                    let found = Self::find_prefix_node(&current_node.left, prefix, pos, Ghost(lo), Ghost(c as int));
                    proof {
                        assert forall|t: Seq<char>| #[trigger] find_in(*node, suffix + t) == find_in(current_node.left, suffix + t) by {
                            assert((suffix + t)[0] == current_char);
                        }
                    }
                    found
                } else if current_char > c {
                    let found = Self::find_prefix_node(&current_node.right, prefix, pos, Ghost(c as int), Ghost(hi));
                    proof {
                        assert forall|t: Seq<char>| #[trigger] find_in(*node, suffix + t) == find_in(current_node.right, suffix + t) by {
                            assert((suffix + t)[0] == current_char);
                        }
                    }
                    found
                } else if pos == prefix.len() - 1 {
                    proof {
                        assert forall|t: Seq<char>| #[trigger] find_in(*node, suffix + t) == if t.len() == 0 {
                            current_node.value
                        } else {
                            find_in(current_node.middle, t)
                        } by {
                            assert((suffix + t)[0] == current_char);
                            if t.len() > 0 {
                                assert((suffix + t).drop_first() =~= t);
                            }
                        }
                    }
                    Some(current_node)
                } else {
                    let found = Self::find_prefix_node(&current_node.middle, prefix, pos + 1, Ghost(lowest()), Ghost(highest()));
                    proof {
                        assert(prefix@.skip(pos + 1) =~= suffix.drop_first());
                        assert forall|t: Seq<char>| #[trigger] find_in(*node, suffix + t) == find_in(
                            current_node.middle,
                            prefix@.skip(pos + 1) + t,
                        ) by {
                            assert((suffix + t)[0] == current_char);
                            assert((suffix + t).drop_first() =~= prefix@.skip(pos + 1) + t);
                        }
                    }
                    found
                }
            },
        }
    }

    // Returns the length of the longest stored key that `key` begins with,
    // counting from `pos`; `length` is the best found above this node.
    fn longest_prefix_length(node: &Option<Box<Node<E>>>, key: &[char], pos: usize, length: usize) -> (longest: usize)
        requires
            length <= pos <= key@.len(),
        ensures
            length <= longest <= key@.len(),
            longest == length || (pos < longest && find_in(*node, key@.subrange(pos as int, longest as int)) is Some),
            forall|l: int| pos < l <= key@.len() && longest < l ==> #[trigger] find_in(*node, key@.subrange(pos as int, l)) is None,
        decreases *node,
    {
        if node.is_none() || pos >= key.len() {
            return length;
        }
        let current_node = node.as_ref().unwrap();
        let current_char = key[pos];
        let c = current_node.c;
        proof {
            lemma_char_code_injective(current_char, c);
        }
        if current_char < c {
            let longest = Self::longest_prefix_length(&current_node.left, key, pos, length);
            proof {
                assert forall|l: int| pos < l <= key@.len() implies #[trigger] find_in(*node, key@.subrange(pos as int, l))
                    == find_in(current_node.left, key@.subrange(pos as int, l)) by {
                    assert(key@.subrange(pos as int, l)[0] == current_char);
                }
            }
            longest
        } else if current_char > c {
            let longest = Self::longest_prefix_length(&current_node.right, key, pos, length);
            proof {
                assert forall|l: int| pos < l <= key@.len() implies #[trigger] find_in(*node, key@.subrange(pos as int, l))
                    == find_in(current_node.right, key@.subrange(pos as int, l)) by {
                    assert(key@.subrange(pos as int, l)[0] == current_char);
                }
            }
            longest
        } else {
            // We've matched this character
            let new_length = if current_node.value.is_some() {
                pos + 1
            } else {
                length
            };
            proof {
                assert(key@.subrange(pos as int, pos + 1)[0] == current_char);
                assert forall|l: int| pos + 1 < l <= key@.len() implies #[trigger] find_in(*node, key@.subrange(pos as int, l))
                    == find_in(current_node.middle, key@.subrange(pos + 1, l)) by {
                    assert(key@.subrange(pos as int, l)[0] == current_char);
                    assert(key@.subrange(pos as int, l).drop_first() =~= key@.subrange(pos + 1, l));
                }
            }
            if pos == key.len() - 1 {
                new_length
            } else {
                Self::longest_prefix_length(&current_node.middle, key, pos + 1, new_length)
            }
        }
    }
}


impl<E> TernarySearchTrie<E> {
    /// The entries the trie holds.
    pub closed spec fn entries(&self) -> Map<Seq<char>, E> {
        Map::new(|s: Seq<char>| find_in(self.root, s) is Some, |s: Seq<char>| find_in(self.root, s)->0)
    }

    /// The trie's structural invariant: a search tree that counts its keys.
    pub closed spec fn well_formed(&self) -> bool {
        &&& wf_t(self.root, lowest(), highest())
        &&& self.entries().dom().finite()
        &&& self.size == self.entries().dom().len()
    }

    /// Creates an empty trie.
    pub fn new() -> (trie: Self)
        ensures
            trie.well_formed(),
            trie.entries() == Map::<Seq<char>, E>::empty(),
    {
        let trie = TernarySearchTrie { root: None, size: 0 };
        proof {
            assert(trie.entries() =~= Map::<Seq<char>, E>::empty());
        }
        trie
    }

    /// The keys stored in the trie, in lexicographic order.
    fn all_keys(&self) -> (keys: Vec<String>)
        requires
            self.well_formed(),
        ensures
            strictly_sorted(words_of(keys@)),
            words_of(keys@).to_set() == self.entries().dom(),
    {
        let mut result: Vec<String> = Vec::new();
        let prefix: Vec<char> = Vec::new();
        Self::collect_keys(&self.root, &mut result, &prefix);
        proof {
            lemma_keys_t(self.root, lowest(), highest());
            let ks = keys_t(self.root);
            assert(words_of(result@) =~= prefixed(Seq::<char>::empty(), ks));
            assert(prefixed(Seq::<char>::empty(), ks) =~= ks) by {
                assert forall|i: int| 0 <= i < ks.len() implies Seq::<char>::empty() + ks[i] =~= ks[i] by {}
            }
            assert forall|x: Seq<char>| ks.to_set().contains(x) <==> self.entries().dom().contains(x) by {
                if self.entries().dom().contains(x) {
                    assert(find_in(self.root, x) is Some);
                }
            }
            assert(ks.to_set() =~= self.entries().dom());
        }
        result
    }
}

impl<E> Default for TernarySearchTrie<E> {
    fn default() -> (trie: Self)
        ensures
            trie.well_formed(),
            trie.entries() == Map::<Seq<char>, E>::empty(),
    {
        Self::new()
    }
}

impl<E: Clone> SymbolTable<E> for TernarySearchTrie<E> {
    open spec fn table(&self) -> Map<Seq<char>, E> {
        self.entries()
    }

    open spec fn table_ok(&self) -> bool {
        self.well_formed()
    }

    proof fn lemma_table_ok(&self) {
        assert(!self.entries().dom().contains(Seq::<char>::empty())) by {
            lemma_no_empty_key(self.root);
        }
    }

    fn put(&mut self, key: String, value: E) {
        let chars = chars_of(key.as_str());
        if chars.len() == 0 {
            return;
        }
        let ghost before = self.entries();
        proof {
            lemma_char_range(chars@[0]);
        }
        let was_new_key = Self::put_recursive(&mut self.root, chars.as_slice(), value, 0, Ghost(lowest()), Ghost(highest()));
        proof {
            assert(chars@.skip(0) =~= chars@);
            assert(self.entries() =~= before.insert(key@, value));
        }
        if was_new_key {
            self.size = self.size + 1;
        }
    }

    fn get(&self, key: &str) -> (found: Option<E>) {
        let chars = chars_of(key);
        if chars.len() == 0 {
            proof {
                lemma_no_empty_key(self.root);
            }
            return None;
        }
        proof {
            assert(chars@.skip(0) =~= chars@);
        }
        match Self::get_recursive(&self.root, chars.as_slice(), 0) {
            Some(v) => Some(v.clone()),
            None => None,
        }
    }

    fn delete(&mut self, key: &str) {
        let chars = chars_of(key);
        if chars.len() == 0 {
            proof {
                assert(!self.entries().dom().contains(key@)) by {
                    lemma_no_empty_key(self.root);
                }
                assert(self.entries() =~= self.entries().remove(key@));
            }
            return;
        }
        let ghost before = self.entries();
        let deleted = Self::delete_recursive(&mut self.root, chars.as_slice(), 0, Ghost(lowest()), Ghost(highest()));
        proof {
            assert(chars@.skip(0) =~= chars@);
            assert(self.entries() =~= before.remove(key@));
        }
        if deleted {
            self.size = self.size - 1;
        }
    }

    fn contains(&self, key: &str) -> (found: bool) {
        self.get(key).is_some()
    }

    fn clear(&mut self) {
        self.root = None;
        self.size = 0;
        proof {
            assert(self.entries() =~= Map::<Seq<char>, E>::empty());
        }
    }

    fn is_empty(&self) -> (empty: bool) {
        self.size == 0
    }

    fn get_size(&self) -> (size: usize) {
        self.size
    }

    fn get_all_keys(&self) -> (keys: Vec<String>) {
        self.all_keys()
    }
}

impl<E> PrefixSearch for TernarySearchTrie<E> {
    open spec fn stored_keys(&self) -> Set<Seq<char>> {
        self.entries().dom()
    }

    open spec fn keys_ok(&self) -> bool {
        self.well_formed()
    }

    fn get_keys_with_prefix(&self, prefix: &str) -> (keys: Vec<String>) {
        let chars = chars_of(prefix);
        if chars.len() == 0 {
            let keys = self.all_keys();
            proof {
                assert forall|x: Seq<char>| #[trigger] keys_with_prefix(self.entries().dom(), prefix@).contains(x)
                    <==> self.entries().dom().contains(x) by {
                    assert(x.take(0) =~= prefix@);
                }
                assert(keys_with_prefix(self.entries().dom(), prefix@) =~= self.entries().dom());
            }
            return keys;
        }
        let mut result: Vec<String> = Vec::new();
        // Find the node that corresponds to the end of the prefix
        let found = Self::find_prefix_node(&self.root, chars.as_slice(), 0, Ghost(lowest()), Ghost(highest()));
        proof {
            assert(chars@.skip(0) =~= chars@);
        }
        match found {
            Some(subtree) => {
                let ghost p = chars@;
                // If this node has a value, it's a complete key
                if subtree.value.is_some() {
                    let word = string_of(chars.as_slice());
                    result.push(word);
                }
                let ghost own_len = result@.len();
                // Now collect all keys in the middle subtree
                Self::collect_keys(&subtree.middle, &mut result, &chars);
                proof {
                    lemma_keys_t(subtree.middle, lowest(), highest());
                    let ks = keys_t(subtree.middle);
                    let own = if subtree.value is Some {
                        seq![p]
                    } else {
                        Seq::<Seq<char>>::empty()
                    };
                    let ws = words_of(result@);
                    assert(ws =~= own + prefixed(p, ks));
                    assert forall|a: int, b: int| 0 <= a < b < ws.len() implies lex_lt(#[trigger] ws[a], #[trigger] ws[b]) by {
                        if a >= own.len() {
                            crate::text::lemma_lex_common_prefix(p, ks[a - own.len()], ks[b - own.len()]);
                        } else {
                            lemma_lex_proper_prefix(p, ks[b - own.len()]);
                        }
                    }
                    let target = keys_with_prefix(self.entries().dom(), prefix@);
                    assert forall|x: Seq<char>| ws.to_set().contains(x) <==> #[trigger] target.contains(x) by {
                        assert(p + Seq::<char>::empty() =~= p);
                        if ws.to_set().contains(x) {
                            let i = choose|i: int| 0 <= i < ws.len() && ws[i] == x;
                            if i < own.len() {
                                assert(find_in(self.root, p + Seq::<char>::empty()) == subtree.value);
                                assert(p.take(p.len() as int) =~= p);
                            } else {
                                let k = ks[i - own.len()];
                                assert(x == p + k);
                                assert(find_in(self.root, p + k) == find_in(subtree.middle, k));
                                assert(x.take(p.len() as int) =~= p);
                            }
                        }
                        if target.contains(x) {
                            let k = x.skip(p.len() as int);
                            assert(x.take(p.len() as int) =~= p);
                            assert(x =~= p + k);
                            if k.len() == 0 {
                                assert(ws[0] == x);
                            } else {
                                assert(find_in(self.root, p + k) == find_in(subtree.middle, k));
                                assert(ks.contains(k));
                                let j = choose|j: int| 0 <= j < ks.len() && ks[j] == k;
                                assert(ws[own.len() + j] == x);
                            }
                        }
                    }
                    assert(ws.to_set() =~= target);
                }
            },
            None => {
                proof {
                    let target = keys_with_prefix(self.entries().dom(), prefix@);
                    assert forall|x: Seq<char>| !#[trigger] target.contains(x) by {
                        if is_prefix(chars@, x) {
                            assert(x =~= chars@ + x.skip(chars@.len() as int));
                            assert(find_in(self.root, chars@ + x.skip(chars@.len() as int)) is None);
                        }
                    }
                    assert(words_of(result@).to_set() =~= target);
                }
            },
        }
        result
    }

    fn longest_prefix_of(&self, prefix: &str) -> (found: Option<String>) {
        let chars = chars_of(prefix);
        let ghost text = chars@;
        if chars.len() == 0 {
            proof {
                assert forall|other: Seq<char>| #![trigger self.entries().dom().contains(other)]
                    self.entries().dom().contains(other) implies !is_prefix(other, text) by {
                    if is_prefix(other, text) {
                        assert(other =~= Seq::<char>::empty());
                        lemma_no_empty_key(self.root);
                    }
                }
            }
            return None;
        }
        let length = Self::longest_prefix_length(&self.root, chars.as_slice(), 0, 0);
        proof {
            assert forall|l: int| 0 <= l <= text.len() implies #[trigger] text.subrange(0, l) == text.take(l) by {
                assert(text.subrange(0, l) =~= text.take(l));
            }
            assert forall|other: Seq<char>| #![trigger self.entries().dom().contains(other)]
                self.entries().dom().contains(other) && is_prefix(other, text) implies other.len() <= length
                && other.len() > 0 by {
                if other.len() == 0 {
                    lemma_no_empty_key(self.root);
                }
                assert(text.subrange(0, other.len() as int) =~= other);
                assert(find_in(self.root, text.subrange(0, other.len() as int)) is Some);
            }
        }
        if length == 0 {
            None
        } else {
            // Rebuilt from characters rather than sliced by byte offset, so
            // multi-byte keys survive
            let head = crate::text::prefix_to(chars.as_slice(), length);
            let word = string_of(head.as_slice());
            proof {
                assert(text.subrange(0, length as int) =~= head@);
                assert(is_prefix(word@, text));
            }
            Some(word)
        }
    }
}

} // verus!
