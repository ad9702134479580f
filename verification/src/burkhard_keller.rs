//! A Burkhard-Keller tree: a set of words that answers "which of you are
//! within `radius` edits of this query" without measuring every word.
//!
//! Each node keeps its children ordered by their distance from it. A search
//! measures the query against a node once and then descends only into the
//! children whose distance is within `radius` of that measurement, because
//! the triangle inequality puts everything else too far away to match.
//!
//! The distance is the restricted Damerau-Levenshtein, which is not a metric:
//! the triangle inequality the pruning rests on can fail, and where it does a
//! search leaves out a word a scan of the whole set would have returned. What
//! a search returns is therefore stated as the pruned search itself; what is
//! returned is always a stored word at its true distance, and a search with
//! radius zero finds the query exactly when it is stored. The shape the
//! search follows is a value too: [`shape_after`] says where each insertion
//! files its word, and [`shape_search`] walks the result.
use vstd::prelude::*;
use crate::damerau_levenshtein::{char_distance, edit_distance, lemma_edit_distance_symmetric, lemma_edit_distance_zero};
use crate::ranked::{Ranked, insert_ranked, ranked, views};
use crate::text::{chars_before, chars_of, lemma_lex_irreflexive, lemma_lex_total, lemma_lex_transitive, lex_lt, string_of};

verus! {

/// A word [`BkTree::find`] turned up, and how far it is from the query.
///
/// Ordered nearest first and alphabetically within a distance, which is the
/// order a caller wants to offer them in.
#[derive(Debug, Clone, PartialEq, Eq, PartialOrd, Ord)]
pub struct Match {
    pub distance: usize,
    pub word: String,
}

impl View for Match {
    type V = (usize, Seq<char>);

    open spec fn view(&self) -> (usize, Seq<char>) {
        (self.distance, self.word@)
    }
}

impl Ranked for Match {
    open spec fn ranks_before(a: (usize, Seq<char>), b: (usize, Seq<char>)) -> bool {
        a.0 < b.0 || (a.0 == b.0 && lex_lt(a.1, b.1))
    }

    proof fn lemma_ranking(a: (usize, Seq<char>), b: (usize, Seq<char>), c: (usize, Seq<char>)) {
        lemma_lex_irreflexive(a.1);
        if a.0 == b.0 && b.0 == c.0 && lex_lt(a.1, b.1) && lex_lt(b.1, c.1) {
            lemma_lex_transitive(a.1, b.1, c.1);
        }
        if a != b && a.0 == b.0 {
            lemma_lex_total(a.1, b.1);
        }
    }

    fn precedes(&self, other: &Self) -> (before: bool) {
        if self.distance != other.distance {
            return self.distance < other.distance;
        }
        let mine = chars_of(self.word.as_str());
        let theirs = chars_of(other.word.as_str());
        chars_before(mine.as_slice(), theirs.as_slice())
    }
}

pub struct Node {
    // Held as characters, the form the distance is measured in, so a word is
    // converted once when it is inserted rather than once per comparison
    chars: Vec<char>,
    // The distance from the parent to this word; unused at the root
    key: usize,
    // Ordered by their distance from this node, no two at the same distance:
    // two words the same distance away share a subtree
    children: Vec<Node>,
}

/// The words stored in the subtree rooted at `n`.
pub closed spec fn words_at(n: Node) -> Set<Seq<char>>
    decreases n,
{
    words_below(n.children@).insert(n.chars@)
}

/// The words stored in a run of sibling subtrees.
pub closed spec fn words_below(cs: Seq<Node>) -> Set<Seq<char>>
    decreases cs,
{
    if cs.len() == 0 {
        Set::empty()
    } else {
        words_below(cs.drop_last()).union(words_at(cs.last()))
    }
}

/// The structural invariant of a subtree: children ordered by distance,
/// every word below a child at that child's distance from this node.
pub closed spec fn wf(n: Node) -> bool
    decreases n,
{
    let cs = n.children@;
    &&& n.chars@.len() < usize::MAX
    &&& forall|i: int, j: int| 0 <= i < j < cs.len() ==> (#[trigger] cs[i]).key < (#[trigger] cs[j]).key
    &&& forall|i: int| 0 <= i < cs.len() ==> (#[trigger] cs[i]).key > 0
    &&& forall|i: int, w: Seq<char>|
        0 <= i < cs.len() && #[trigger] words_at(cs[i]).contains(w) ==> edit_distance(n.chars@, w) == cs[i].key
    &&& all_wf(cs)
}

/// Every subtree of a run of siblings is well formed.
pub closed spec fn all_wf(cs: Seq<Node>) -> bool
    decreases cs,
{
    if cs.len() == 0 {
        true
    } else {
        all_wf(cs.drop_last()) && wf(cs.last())
    }
}

/// What a search of the subtree at `n` for `q` within `r` edits collects:
/// this node's word if it is near enough, and what the searches of the
/// children within reach collect.
pub closed spec fn reached(n: Node, q: Seq<char>, r: usize) -> Set<(usize, Seq<char>)>
    decreases n,
{
    let d = edit_distance(n.chars@, q);
    let own = if d <= r {
        Set::empty().insert((d as usize, n.chars@))
    } else {
        Set::empty()
    };
    own.union(reached_below(n.children@, q, r, d))
}

/// What the searches of the siblings within `r` of distance `d` collect.
pub closed spec fn reached_below(cs: Seq<Node>, q: Seq<char>, r: usize, d: nat) -> Set<(usize, Seq<char>)>
    decreases cs,
{
    if cs.len() == 0 {
        Set::empty()
    } else {
        let rest = reached_below(cs.drop_last(), q, r, d);
        if within_reach(cs.last().key as nat, d, r as nat) {
            rest.union(reached(cs.last(), q, r))
        } else {
            rest
        }
    }
}

/// Whether a child at distance `key` from a node the query is `d` from can
/// hold a word within `r` of the query, were the distance a metric.
pub open spec fn within_reach(key: nat, d: nat, r: nat) -> bool {
    d <= key + r && key <= d + r
}

/// The shape of a subtree, as a value: the word at its top, its distance
/// from the word above it (zero at the root), and its children in order.
pub struct Shape {
    pub word: Seq<char>,
    pub key: nat,
    pub children: Seq<Shape>,
}

/// A subtree of one word.
pub open spec fn leaf_shape(word: Seq<char>, key: nat) -> Shape {
    Shape { word, key, children: Seq::empty() }
}

/// How many of the leading children sit nearer than `d`: where a word at
/// distance `d` is filed.
pub open spec fn slot(cs: Seq<Shape>, d: nat) -> nat
    decreases cs.len(),
{
    if cs.len() == 0 || cs[0].key >= d {
        0
    } else {
        1 + slot(cs.drop_first(), d)
    }
}

/// The shape after filing `word` in the subtree `t`: nothing changes if it is
/// the top word; otherwise it goes down into the child at its distance from
/// the top word, or becomes a new leaf there, among the children in order.
pub open spec fn shape_insert(t: Shape, word: Seq<char>) -> Shape
    decreases t,
{
    let d = edit_distance(t.word, word);
    let i = slot(t.children, d) as int;
    if d == 0 {
        t
    } else if i < t.children.len() && t.children[i].key == d {
        Shape { word: t.word, key: t.key, children: t.children.update(i, shape_insert(t.children[i], word)) }
    } else {
        Shape { word: t.word, key: t.key, children: t.children.insert(i, leaf_shape(word, d)) }
    }
}

/// The shape of a tree after inserting `word`: the first word becomes the
/// root.
pub open spec fn shape_after(shape: Option<Shape>, word: Seq<char>) -> Shape {
    match shape {
        Some(t) => shape_insert(t, word),
        None => leaf_shape(word, 0),
    }
}

/// The shape a tree has after inserting `words` in order into an empty one.
pub open spec fn shape_of_words(words: Seq<Seq<char>>) -> Option<Shape>
    decreases words.len(),
{
    if words.len() == 0 {
        None
    } else {
        Some(shape_after(shape_of_words(words.drop_last()), words.last()))
    }
}

/// The pruned search of the subtree `t` for `q` within `r` edits: the top
/// word if it is near enough, and what the searches of the children within
/// reach of the top word's distance collect.
pub open spec fn shape_search(t: Shape, q: Seq<char>, r: usize) -> Set<(usize, Seq<char>)>
    decreases t,
{
    let d = edit_distance(t.word, q);
    let own = if d <= r {
        Set::empty().insert((d as usize, t.word))
    } else {
        Set::empty()
    };
    own.union(shape_search_below(t.children, q, r, d))
}

/// What the searches of the siblings within reach of distance `d` collect.
pub open spec fn shape_search_below(cs: Seq<Shape>, q: Seq<char>, r: usize, d: nat) -> Set<(usize, Seq<char>)>
    decreases cs,
{
    if cs.len() == 0 {
        Set::empty()
    } else {
        let rest = shape_search_below(cs.drop_last(), q, r, d);
        if within_reach(cs.last().key, d, r as nat) {
            rest.union(shape_search(cs.last(), q, r))
        } else {
            rest
        }
    }
}

/// The pruned search of a tree of the given shape.
pub open spec fn shape_find(shape: Option<Shape>, q: Seq<char>, r: usize) -> Set<(usize, Seq<char>)> {
    match shape {
        Some(t) => shape_search(t, q, r),
        None => Set::empty(),
    }
}

/// The shape of the subtree at `n`.
pub closed spec fn shape_at(n: Node) -> Shape
    decreases n,
{
    Shape { word: n.chars@, key: n.key as nat, children: shapes_below(n.children@) }
}

/// The shapes of a run of sibling subtrees.
pub closed spec fn shapes_below(cs: Seq<Node>) -> Seq<Shape>
    decreases cs,
{
    if cs.len() == 0 {
        Seq::empty()
    } else {
        shapes_below(cs.drop_last()).push(shape_at(cs.last()))
    }
}

proof fn lemma_shapes_below(cs: Seq<Node>)
    ensures
        shapes_below(cs).len() == cs.len(),
        forall|i: int| 0 <= i < cs.len() ==> #[trigger] shapes_below(cs)[i] == shape_at(cs[i]),
    decreases cs.len(),
{
    if cs.len() > 0 {
        lemma_shapes_below(cs.drop_last());
        assert forall|i: int| 0 <= i < cs.len() implies #[trigger] shapes_below(cs)[i] == shape_at(cs[i]) by {
            if i < cs.len() - 1 {
                assert(cs.drop_last()[i] == cs[i]);
            }
        }
    }
}

/// The shapes of siblings are the siblings' shapes one by one.
proof fn lemma_shapes_below_eq(cs: Seq<Node>, ss: Seq<Shape>)
    requires
        ss.len() == cs.len(),
        forall|i: int| 0 <= i < cs.len() ==> #[trigger] ss[i] == shape_at(cs[i]),
    ensures
        shapes_below(cs) == ss,
{
    lemma_shapes_below(cs);
    assert(shapes_below(cs) =~= ss);
}

/// The search of a subtree follows its shape.
proof fn lemma_reached_shape(n: Node, q: Seq<char>, r: usize)
    ensures
        reached(n, q, r) == shape_search(shape_at(n), q, r),
    decreases n,
{
    lemma_reached_below_shape(n.children@, q, r, edit_distance(n.chars@, q));
}

proof fn lemma_reached_below_shape(cs: Seq<Node>, q: Seq<char>, r: usize, d: nat)
    ensures
        reached_below(cs, q, r, d) == shape_search_below(shapes_below(cs), q, r, d),
    decreases cs,
{
    if cs.len() > 0 {
        lemma_reached_below_shape(cs.drop_last(), q, r, d);
        lemma_reached_shape(cs.last(), q, r);
        let ss = shapes_below(cs);
        assert(ss.drop_last() =~= shapes_below(cs.drop_last()));
        assert(ss.last() == shape_at(cs.last()));
    }
}

/// Where a word at distance `d` is filed: after every child nearer than `d`.
proof fn lemma_slot(cs: Seq<Shape>, d: nat, i: int)
    requires
        0 <= i <= cs.len(),
        forall|j: int| 0 <= j < i ==> (#[trigger] cs[j]).key < d,
        i < cs.len() ==> cs[i].key >= d,
    ensures
        slot(cs, d) == i,
    decreases cs.len(),
{
    if i > 0 {
        assert(cs[0].key < d);
        assert forall|j: int| 0 <= j < i - 1 implies (#[trigger] cs.drop_first()[j]).key < d by {
            assert(cs.drop_first()[j] == cs[j + 1]);
        }
        if i < cs.len() {
            assert(cs.drop_first()[i - 1] == cs[i]);
        }
        lemma_slot(cs.drop_first(), d, i - 1);
    }
}

proof fn lemma_all_wf(cs: Seq<Node>)
    ensures
        all_wf(cs) <==> forall|i: int| 0 <= i < cs.len() ==> wf(#[trigger] cs[i]),
    decreases cs.len(),
{
    if cs.len() > 0 {
        lemma_all_wf(cs.drop_last());
        if forall|i: int| 0 <= i < cs.len() ==> wf(#[trigger] cs[i]) {
            assert forall|i: int| 0 <= i < cs.drop_last().len() implies wf(#[trigger] cs.drop_last()[i]) by {
                assert(cs.drop_last()[i] == cs[i]);
            }
        }
        if all_wf(cs) {
            assert forall|i: int| 0 <= i < cs.len() implies wf(#[trigger] cs[i]) by {
                if i < cs.len() - 1 {
                    assert(cs.drop_last()[i] == cs[i]);
                }
            }
        }
    }
}

proof fn lemma_words_below(cs: Seq<Node>, w: Seq<char>)
    ensures
        words_below(cs).contains(w) <==> exists|i: int| 0 <= i < cs.len() && #[trigger] words_at(cs[i]).contains(w),
    decreases cs.len(),
{
    if cs.len() > 0 {
        lemma_words_below(cs.drop_last(), w);
        if exists|i: int| 0 <= i < cs.drop_last().len() && #[trigger] words_at(cs.drop_last()[i]).contains(w) {
            let i = choose|i: int| 0 <= i < cs.drop_last().len() && #[trigger] words_at(cs.drop_last()[i]).contains(w);
            assert(words_at(cs[i]).contains(w));
        }
        if exists|i: int| 0 <= i < cs.len() && #[trigger] words_at(cs[i]).contains(w) {
            let i = choose|i: int| 0 <= i < cs.len() && #[trigger] words_at(cs[i]).contains(w);
            if i < cs.len() - 1 {
                assert(words_at(cs.drop_last()[i]).contains(w));
            }
        }
        if words_at(cs.last()).contains(w) {
            assert(words_at(cs[cs.len() - 1]).contains(w));
        }
    }
}

proof fn lemma_words_finite(n: Node)
    ensures
        words_at(n).finite(),
    decreases n,
{
    lemma_words_below_finite(n.children@);
}

proof fn lemma_words_below_finite(cs: Seq<Node>)
    ensures
        words_below(cs).finite(),
    decreases cs,
{
    if cs.len() > 0 {
        lemma_words_below_finite(cs.drop_last());
        lemma_words_finite(cs.last());
    }
}

/// The invariant of a node, with the children's invariants spelled out.
proof fn lemma_wf_unfold(n: Node)
    ensures
        wf(n) <==> {
            let cs = n.children@;
            &&& n.chars@.len() < usize::MAX
            &&& forall|i: int, j: int| 0 <= i < j < cs.len() ==> (#[trigger] cs[i]).key < (#[trigger] cs[j]).key
            &&& forall|i: int| 0 <= i < cs.len() ==> (#[trigger] cs[i]).key > 0
            &&& forall|i: int, w: Seq<char>|
                0 <= i < cs.len() && #[trigger] words_at(cs[i]).contains(w) ==> edit_distance(n.chars@, w)
                    == cs[i].key
            &&& forall|i: int| 0 <= i < cs.len() ==> wf(#[trigger] cs[i])
        },
{
    lemma_all_wf(n.children@);
}

/// A word below a child of a well-formed node is at that child's distance
/// from the node, so no word is below two children, nor is the node's own
/// word below any.
proof fn lemma_child_words(n: Node, i: int, w: Seq<char>)
    requires
        wf(n),
        0 <= i < n.children@.len(),
        words_at(n.children@[i]).contains(w),
    ensures
        edit_distance(n.chars@, w) == n.children@[i].key,
        w != n.chars@,
        forall|j: int| 0 <= j < n.children@.len() && j != i ==> !words_at(#[trigger] n.children@[j]).contains(w),
{
    lemma_wf_unfold(n);
    let cs = n.children@;
    lemma_edit_distance_zero(n.chars@, n.chars@);
    assert forall|j: int| 0 <= j < cs.len() && j != i implies !words_at(#[trigger] cs[j]).contains(w) by {
        if words_at(cs[j]).contains(w) {
            assert(edit_distance(n.chars@, w) == cs[j].key);
            if j < i {
                assert(cs[j].key < cs[i].key);
            } else {
                assert(cs[i].key < cs[j].key);
            }
        }
    }
}

/// What a search collects is a stored word at its distance from the query,
/// within the radius.
proof fn lemma_reached_sound(n: Node, q: Seq<char>, r: usize)
    ensures
        forall|v: (usize, Seq<char>)|
            #[trigger] reached(n, q, r).contains(v) ==> words_at(n).contains(v.1) && v.0 == edit_distance(v.1, q)
                && v.0 <= r,
    decreases n,
{
    lemma_reached_below_sound(n.children@, q, r, edit_distance(n.chars@, q));
    assert forall|v: (usize, Seq<char>)| #[trigger] reached(n, q, r).contains(v) implies words_at(n).contains(v.1)
        && v.0 == edit_distance(v.1, q) && v.0 <= r by {
        if reached_below(n.children@, q, r, edit_distance(n.chars@, q)).contains(v) {
            assert(words_below(n.children@).contains(v.1));
        }
    }
}

proof fn lemma_reached_below_sound(cs: Seq<Node>, q: Seq<char>, r: usize, d: nat)
    ensures
        forall|v: (usize, Seq<char>)|
            #[trigger] reached_below(cs, q, r, d).contains(v) ==> words_below(cs).contains(v.1) && v.0
                == edit_distance(v.1, q) && v.0 <= r,
    decreases cs,
{
    if cs.len() > 0 {
        lemma_reached_below_sound(cs.drop_last(), q, r, d);
        lemma_reached_sound(cs.last(), q, r);
        assert forall|v: (usize, Seq<char>)| #[trigger] reached_below(cs, q, r, d).contains(v) implies words_below(
            cs,
        ).contains(v.1) && v.0 == edit_distance(v.1, q) && v.0 <= r by {
            if reached_below(cs.drop_last(), q, r, d).contains(v) {
                assert(words_below(cs.drop_last()).contains(v.1));
            } else {
                assert(reached(cs.last(), q, r).contains(v));
                assert(words_at(cs.last()).contains(v.1));
            }
        }
    }
}

/// What the siblings collect is what each sibling within reach collects.
proof fn lemma_reached_below_at(cs: Seq<Node>, q: Seq<char>, r: usize, d: nat, i: int)
    requires
        0 <= i < cs.len(),
        within_reach(cs[i].key as nat, d, r as nat),
    ensures
        reached(cs[i], q, r).subset_of(reached_below(cs, q, r, d)),
    decreases cs.len(),
{
    if i < cs.len() - 1 {
        lemma_reached_below_at(cs.drop_last(), q, r, d, i);
        assert(cs.drop_last()[i] == cs[i]);
    }
}

/// A search for a stored word finds it, at no distance, whatever the radius:
/// the path down to it is always within reach.
proof fn lemma_reached_exact(n: Node, w: Seq<char>, r: usize)
    requires
        wf(n),
        words_at(n).contains(w),
    ensures
        reached(n, w, r).contains((0usize, w)),
    decreases n,
{
    lemma_wf_unfold(n);
    lemma_edit_distance_zero(n.chars@, w);
    if n.chars@ != w {
        let cs = n.children@;
        lemma_words_below(cs, w);
        let i = choose|i: int| 0 <= i < cs.len() && #[trigger] words_at(cs[i]).contains(w);
        let d = edit_distance(n.chars@, w);
        assert(d == cs[i].key);
        lemma_reached_exact(cs[i], w, r);
        lemma_reached_below_at(cs, w, r, d, i);
    }
}

/// Filing a word under the child at its distance reshapes only that child.
proof fn lemma_shape_descend(o: Node, n: Node, w: Seq<char>, i: int)
    requires
        0 <= i < o.children@.len(),
        n.chars@ == o.chars@,
        n.key == o.key,
        edit_distance(o.chars@, w) > 0,
        forall|j: int| 0 <= j < i ==> (#[trigger] o.children@[j]).key < edit_distance(o.chars@, w),
        o.children@[i].key == edit_distance(o.chars@, w),
        n.children@ == o.children@.update(i, n.children@[i]),
        shape_at(n.children@[i]) == shape_insert(shape_at(o.children@[i]), w),
    ensures
        shape_at(n) == shape_insert(shape_at(o), w),
{
    let ocs = o.children@;
    let oss = shapes_below(ocs);
    let d = edit_distance(o.chars@, w);
    lemma_shapes_below(ocs);
    lemma_shapes_below(n.children@);
    assert forall|j: int| 0 <= j < ocs.len() implies (#[trigger] oss[j]).key == ocs[j].key by {
        assert(oss[j] == shape_at(ocs[j]));
    }
    lemma_slot(oss, d, i);
    assert forall|j: int| 0 <= j < ocs.len() implies #[trigger] oss.update(i, shape_at(n.children@[i]))[j] == shape_at(
        n.children@[j],
    ) by {
        if j != i {
            assert(n.children@[j] == ocs[j]);
        }
    }
    lemma_shapes_below_eq(n.children@, oss.update(i, shape_at(n.children@[i])));
}

/// Filing a word at a distance no child holds adds a leaf among the
/// children, in order.
proof fn lemma_shape_new_leaf(o: Node, n: Node, w: Seq<char>, i: int)
    requires
        0 <= i <= o.children@.len(),
        n.chars@ == o.chars@,
        n.key == o.key,
        edit_distance(o.chars@, w) > 0,
        forall|j: int| 0 <= j < i ==> (#[trigger] o.children@[j]).key < edit_distance(o.chars@, w),
        i < o.children@.len() ==> o.children@[i].key > edit_distance(o.chars@, w),
        n.children@ == o.children@.insert(i, n.children@[i]),
        shape_at(n.children@[i]) == leaf_shape(w, edit_distance(o.chars@, w)),
    ensures
        shape_at(n) == shape_insert(shape_at(o), w),
{
    let ocs = o.children@;
    let cs = n.children@;
    let oss = shapes_below(ocs);
    let d = edit_distance(o.chars@, w);
    lemma_shapes_below(ocs);
    lemma_shapes_below(cs);
    assert forall|j: int| 0 <= j < ocs.len() implies (#[trigger] oss[j]).key == ocs[j].key by {
        assert(oss[j] == shape_at(ocs[j]));
    }
    lemma_slot(oss, d, i);
    let ss = oss.insert(i, leaf_shape(w, d));
    assert forall|j: int| 0 <= j < cs.len() implies #[trigger] ss[j] == shape_at(cs[j]) by {
        if j < i {
            assert(cs[j] == ocs[j]);
        } else if j > i {
            assert(cs[j] == ocs[j - 1]);
        }
    }
    lemma_shapes_below_eq(cs, ss);
}

impl Node {
    fn leaf(chars: Vec<char>, key: usize) -> (node: Node)
        requires
            chars@.len() < usize::MAX,
        ensures
            wf(node),
            node.chars@ == chars@,
            node.key == key,
            words_at(node) == Set::<Seq<char>>::empty().insert(chars@),
            shape_at(node) == leaf_shape(chars@, key as nat),
    {
        let node = Node { chars, key, children: Vec::new() };
        proof {
            lemma_wf_unfold(node);
            assert(shapes_below(node.children@) =~= Seq::<Shape>::empty());
            assert(words_below(node.children@) =~= Set::<Seq<char>>::empty());
            assert(words_at(node) =~= Set::<Seq<char>>::empty().insert(chars@));
        }
        node
    }

    fn word(&self) -> (word: String)
        ensures
            word@ == self.chars@,
    {
        string_of(self.chars.as_slice())
    }

    /// Adds to `found` what the pruned search of this subtree collects.
    fn search(&self, query: &[char], radius: usize, found: &mut Vec<Match>)
        requires
            wf(*self),
            query@.len() < usize::MAX,
            ranked::<Match>(views(old(found)@)),
            forall|v: (usize, Seq<char>)| #[trigger] views(old(found)@).contains(v) ==> !words_at(*self).contains(v.1),
        ensures
            ranked::<Match>(views(final(found)@)),
            views(final(found)@).to_set() == views(old(found)@).to_set().union(reached(*self, query@, radius)),
        decreases *self,
    {
        let ghost n = *self;
        let ghost q = query@;
        let ghost cs = n.children@;
        let ghost before = views(found@).to_set();
        proof {
            lemma_wf_unfold(n);
            assert forall|v: (usize, Seq<char>), j: int|
                #[trigger] views(found@).contains(v) && 0 <= j < cs.len() implies !words_at(#[trigger] cs[j]).contains(v.1) by {
                lemma_words_below(cs, v.1);
            }
        }
        let distance = char_distance(self.chars.as_slice(), query);
        let ghost own = if distance <= radius {
            Set::empty().insert((distance, n.chars@))
        } else {
            Set::<(usize, Seq<char>)>::empty()
        };
        if distance <= radius {
            let item = Match { distance, word: self.word() };
            proof {
                assert(!views(found@).contains(item@));
            }
            insert_ranked(found, item);
        }
        proof {
            assert(views(found@).to_set() =~= before.union(own));
            assert forall|v: (usize, Seq<char>), j: int|
                #[trigger] views(found@).contains(v) && 0 <= j < cs.len() implies !words_at(#[trigger] cs[j]).contains(v.1) by {
                assert(views(found@).to_set().contains(v));
                if !before.contains(v) {
                    if words_at(cs[j]).contains(v.1) {
                        lemma_child_words(n, j, v.1);
                    }
                }
            }
            assert(cs.take(0) =~= Seq::<Node>::empty());
        }
        // A child sits at a known distance from this node, so nothing nearer
        // to the query than `distance - radius` or further than
        // `distance + radius` can be within reach of it
        let nearest = if distance >= radius {
            distance - radius
        } else {
            0
        };
        let furthest = if distance <= usize::MAX - radius {
            distance + radius
        } else {
            usize::MAX
        };
        let mut i: usize = 0;
        while i < self.children.len()
            invariant
                n == *self,
                wf(n),
                cs == n.children@,
                q == query@,
                q.len() < usize::MAX,
                distance == edit_distance(n.chars@, q),
                forall|j: int| 0 <= j < cs.len() ==> wf(#[trigger] cs[j]),
                forall|key: usize| (nearest <= key && key <= furthest) == within_reach(key as nat, distance as nat, radius as nat),
                i <= cs.len(),
                ranked::<Match>(views(found@)),
                views(found@).to_set() == before.union(own).union(reached_below(cs.take(i as int), q, radius, distance as nat)),
                forall|v: (usize, Seq<char>), j: int|
                    #[trigger] views(found@).contains(v) && i <= j < cs.len() ==> !words_at(#[trigger] cs[j]).contains(v.1),
            decreases self.children.len() - i,
        {
            let child = &self.children[i];
            let ghost mid = views(found@).to_set();
            let ghost c = cs[i as int];
            if nearest <= child.key && child.key <= furthest {
                proof {
                    assert forall|v: (usize, Seq<char>)| #[trigger] views(found@).contains(v) implies !words_at(
                        *child,
                    ).contains(v.1) by {
                        assert(!words_at(cs[i as int]).contains(v.1));
                    }
                }
                child.search(query, radius, found);
                proof {
                    assert forall|v: (usize, Seq<char>), j: int|
                        #[trigger] views(found@).contains(v) && i + 1 <= j < cs.len() implies !words_at(
                        #[trigger] cs[j],
                    ).contains(v.1) by {
                        assert(views(found@).to_set().contains(v));
                        if !mid.contains(v) {
                            lemma_reached_sound(c, q, radius);
                            assert(words_at(cs[i as int]).contains(v.1));
                            lemma_child_words(n, i as int, v.1);
                        }
                    }
                }
            }
            proof {
                assert(cs.take(i + 1).drop_last() =~= cs.take(i as int));
                assert(cs.take(i + 1).last() == c);
                assert(views(found@).to_set() =~= before.union(own).union(
                    reached_below(cs.take(i + 1), q, radius, distance as nat),
                ));
            }
            i = i + 1;
        }
        proof {
            assert(cs.take(cs.len() as int) =~= cs);
            assert(views(found@).to_set() =~= before.union(reached(n, q, radius)));
        }
    }

    /// Files `chars` under the child whose distance it shares, recursing until
    /// it reaches a distance no child holds yet. Returns `false` if the word is
    /// already in this subtree.
    fn insert(&mut self, chars: Vec<char>) -> (inserted: bool)
        requires
            wf(*old(self)),
            chars@.len() < usize::MAX,
        ensures
            wf(*final(self)),
            final(self).chars@ == old(self).chars@,
            final(self).key == old(self).key,
            words_at(*final(self)) == words_at(*old(self)).insert(chars@),
            inserted == !words_at(*old(self)).contains(chars@),
            shape_at(*final(self)) == shape_insert(shape_at(*old(self)), chars@),
        decreases *old(self),
    {
        let ghost old_n = *self;
        let ghost w = chars@;
        proof {
            lemma_wf_unfold(old_n);
            lemma_words_below(old_n.children@, w);
        }
        let distance = char_distance(self.chars.as_slice(), chars.as_slice());
        // Nothing to file: a word is no edits from itself, and the tree is a
        // set
        if distance == 0 {
            proof {
                lemma_edit_distance_zero(old_n.chars@, w);
                assert(words_at(old_n) =~= words_at(old_n).insert(w));
            }
            return false;
        }
        let mut i: usize = 0;
        while i < self.children.len() && self.children[i].key < distance
            invariant
                *self == old_n,
                i <= self.children@.len(),
                forall|j: int| 0 <= j < i ==> (#[trigger] self.children@[j]).key < distance,
            decreases self.children.len() - i,
        {
            i = i + 1;
        }
        let ghost ocs = old_n.children@;
        proof {
            // A word not yet below any child is not in this subtree either
            assert forall|j: int| 0 <= j < ocs.len() && (#[trigger] ocs[j]).key != distance implies !words_at(
                ocs[j],
            ).contains(w) by {
                if words_at(ocs[j]).contains(w) {
                    assert(edit_distance(old_n.chars@, w) == ocs[j].key);
                }
            }
        }
        if i < self.children.len() && self.children[i].key == distance {
            let ghost old_child = ocs[i as int];
            let added = self.children[i].insert(chars);
            proof {
                let cs = self.children@;
                let new_child = cs[i as int];
                assert(cs == ocs.update(i as int, new_child));
                assert forall|j: int| 0 <= j < cs.len() implies wf(#[trigger] cs[j]) by {
                    if j != i {
                        assert(cs[j] == ocs[j]);
                    }
                }
                assert forall|j: int, x: Seq<char>|
                    0 <= j < cs.len() && #[trigger] words_at(cs[j]).contains(x) implies edit_distance(
                    self.chars@,
                    x,
                ) == cs[j].key by {
                    if j != i {
                        assert(cs[j] == ocs[j]);
                    } else if x != w {
                        assert(words_at(old_child).contains(x));
                    }
                }
                lemma_wf_unfold(*self);
                assert forall|x: Seq<char>| #[trigger] words_below(cs).contains(x) <==> words_below(ocs).insert(w).contains(
                    x,
                ) by {
                    lemma_words_below(cs, x);
                    lemma_words_below(ocs, x);
                    if x == w {
                        assert(words_at(cs[i as int]).contains(x));
                    } else if exists|j: int| 0 <= j < cs.len() && #[trigger] words_at(cs[j]).contains(x) {
                        let j = choose|j: int| 0 <= j < cs.len() && #[trigger] words_at(cs[j]).contains(x);
                        if j != i {
                            assert(cs[j] == ocs[j]);
                        }
                        assert(words_at(ocs[j]).contains(x));
                    } else if exists|j: int| 0 <= j < ocs.len() && #[trigger] words_at(ocs[j]).contains(x) {
                        let j = choose|j: int| 0 <= j < ocs.len() && #[trigger] words_at(ocs[j]).contains(x);
                        if j != i {
                            assert(cs[j] == ocs[j]);
                        }
                        assert(words_at(cs[j]).contains(x));
                    }
                }
                assert(words_below(cs) =~= words_below(ocs).insert(w));
                assert(words_at(*self) =~= words_at(old_n).insert(w));
                lemma_edit_distance_zero(old_n.chars@, w);
                assert(words_at(old_n).contains(w) == words_at(old_child).contains(w));
                lemma_shape_descend(old_n, *self, w, i as int);
            }
            added
        } else {
            let leaf = Node::leaf(chars, distance);
            proof {
                lemma_edit_distance_zero(old_n.chars@, w);
                assert forall|j: int| i <= j < ocs.len() implies distance < (#[trigger] ocs[j]).key by {
                    if j > i {
                        assert(ocs[i as int].key < ocs[j].key);
                    }
                }
                assert(!words_below(ocs).contains(w));
            }
            self.children.insert(i, leaf);
            proof {
                let cs = self.children@;
                assert(cs == ocs.insert(i as int, leaf));
                assert forall|a: int, b: int| 0 <= a < b < cs.len() implies (#[trigger] cs[a]).key < (
                #[trigger] cs[b]).key by {
                    if b < i {
                    } else if b == i {
                    } else if a < i {
                        assert(cs[b] == ocs[b - 1]);
                    } else if a == i {
                        assert(cs[b] == ocs[b - 1]);
                    } else {
                        assert(cs[a] == ocs[a - 1] && cs[b] == ocs[b - 1]);
                    }
                }
                assert forall|j: int| 0 <= j < cs.len() implies wf(#[trigger] cs[j]) && cs[j].key > 0 by {
                    if j < i {
                        assert(cs[j] == ocs[j]);
                    } else if j > i {
                        assert(cs[j] == ocs[j - 1]);
                    }
                }
                assert forall|j: int, x: Seq<char>|
                    0 <= j < cs.len() && #[trigger] words_at(cs[j]).contains(x) implies edit_distance(
                    self.chars@,
                    x,
                ) == cs[j].key by {
                    if j < i {
                        assert(cs[j] == ocs[j]);
                    } else if j > i {
                        assert(cs[j] == ocs[j - 1]);
                    }
                }
                lemma_wf_unfold(*self);
                assert forall|x: Seq<char>| #[trigger] words_below(cs).contains(x) <==> words_below(ocs).insert(w).contains(
                    x,
                ) by {
                    lemma_words_below(cs, x);
                    lemma_words_below(ocs, x);
                    if x == w {
                        assert(words_at(cs[i as int]).contains(x));
                    } else if exists|j: int| 0 <= j < cs.len() && #[trigger] words_at(cs[j]).contains(x) {
                        let j = choose|j: int| 0 <= j < cs.len() && #[trigger] words_at(cs[j]).contains(x);
                        if j < i {
                            assert(cs[j] == ocs[j]);
                            assert(words_at(ocs[j]).contains(x));
                        } else if j > i {
                            assert(cs[j] == ocs[j - 1]);
                            assert(words_at(ocs[j - 1]).contains(x));
                        }
                    } else if exists|j: int| 0 <= j < ocs.len() && #[trigger] words_at(ocs[j]).contains(x) {
                        let j = choose|j: int| 0 <= j < ocs.len() && #[trigger] words_at(ocs[j]).contains(x);
                        if j < i {
                            assert(words_at(cs[j]).contains(x));
                        } else {
                            assert(cs[j + 1] == ocs[j]);
                            assert(words_at(cs[j + 1]).contains(x));
                        }
                    }
                }
                assert(words_below(cs) =~= words_below(ocs).insert(w));
                assert(words_at(*self) =~= words_at(old_n).insert(w));
                lemma_shape_new_leaf(old_n, *self, w, i as int);
            }
            true
        }
    }
}

/// A set of words searchable by edit distance.
pub struct BkTree {
    root: Option<Node>,
    size: usize,
}

impl View for BkTree {
    type V = Set<Seq<char>>;

    /// The stored words.
    closed spec fn view(&self) -> Set<Seq<char>> {
        match self.root {
            Some(n) => words_at(n),
            None => Set::empty(),
        }
    }
}

impl BkTree {
    /// The tree is intact and counts its words.
    pub closed spec fn well_formed(&self) -> bool {
        &&& match self.root {
            Some(n) => wf(n),
            None => true,
        }
        &&& self@.finite()
        &&& self.size == self@.len()
    }

    /// The shape of the tree, `None` while it is empty.
    pub closed spec fn shape(&self) -> Option<Shape> {
        match self.root {
            Some(n) => Some(shape_at(n)),
            None => None,
        }
    }

    /// What a search for `query` within `radius` edits collects, descending
    /// from the first word stored only into the subtrees within reach.
    pub open spec fn searched(&self, query: Seq<char>, radius: usize) -> Set<(usize, Seq<char>)> {
        shape_find(self.shape(), query, radius)
    }

    /// Creates an empty tree.
    pub fn new() -> (tree: Self)
        ensures
            tree.well_formed(),
            tree@ == Set::<Seq<char>>::empty(),
            tree.shape() == None::<Shape>,
    {
        BkTree { root: None, size: 0 }
    }

    /// Adds `word`, returning `false` if the tree already held it.
    ///
    /// The first word inserted becomes the root every later search starts
    /// from, so a word from the middle of the set shapes a shallower tree than
    /// an outlier does.
    pub fn insert(&mut self, word: &str) -> (inserted: bool)
        requires
            old(self).well_formed(),
            word@.len() < usize::MAX,
            old(self)@.len() < usize::MAX,
        ensures
            final(self).well_formed(),
            final(self)@ == old(self)@.insert(word@),
            inserted == !old(self)@.contains(word@),
            final(self)@.finite(),
            final(self)@.len() == old(self)@.len() + if inserted {
                1int
            } else {
                0int
            },
            final(self).shape() == Some(shape_after(old(self).shape(), word@)),
    {
        let chars = chars_of(word);
        let mut root: Option<Node> = None;
        std::mem::swap(&mut root, &mut self.root);
        let inserted = match root {
            Some(mut node) => {
                let inserted = node.insert(chars);
                self.root = Some(node);
                inserted
            },
            None => {
                self.root = Some(Node::leaf(chars, 0));
                true
            },
        };
        proof {
            if self.root is Some {
                lemma_words_finite(self.root->0);
            }
        }
        if inserted {
            self.size = self.size + 1;
        }
        inserted
    }

    /// Returns the words within `radius` edits of `query` that the pruned
    /// search reaches, nearest first and alphabetically within a distance.
    ///
    /// Everything returned is a stored word at its distance from the query,
    /// and a stored query is always found. Because the distance is not a
    /// metric, a stored word within the radius can still be missed where the
    /// triangle inequality fails on the way down to it.
    pub fn find(&self, query: &str, radius: usize) -> (matches: Vec<Match>)
        requires
            self.well_formed(),
            query@.len() < usize::MAX,
        ensures
            ranked::<Match>(views(matches@)),
            views(matches@).to_set() == self.searched(query@, radius),
            forall|v: (usize, Seq<char>)|
                #[trigger] views(matches@).contains(v) ==> self@.contains(v.1) && v.0 == edit_distance(v.1, query@)
                    && v.0 <= radius,
            self@.contains(query@) ==> views(matches@).contains((0usize, query@)),
    {
        let chars = chars_of(query);
        let mut matches: Vec<Match> = Vec::new();
        match &self.root {
            Some(root) => {
                root.search(chars.as_slice(), radius, &mut matches);
                proof {
                    assert(views(Seq::<Match>::empty()).to_set() =~= Set::<(usize, Seq<char>)>::empty());
                    lemma_reached_sound(*root, query@, radius);
                    lemma_reached_shape(*root, query@, radius);
                    assert(views(matches@).to_set() =~= reached(*root, query@, radius));
                    assert forall|v: (usize, Seq<char>)| #[trigger] views(matches@).contains(v) implies self@.contains(v.1)
                        && v.0 == edit_distance(v.1, query@) && v.0 <= radius by {
                        assert(views(matches@).to_set().contains(v));
                    }
                    if self@.contains(query@) {
                        lemma_reached_exact(*root, query@, radius);
                        assert(views(matches@).to_set().contains((0usize, query@)));
                    }
                }
            },
            None => {
                proof {
                    assert(views(matches@).to_set() =~= Set::<(usize, Seq<char>)>::empty());
                }
            },
        }
        matches
    }

    /// Returns `true` if `word` is stored, exactly as spelled.
    pub fn contains(&self, word: &str) -> (found: bool)
        requires
            self.well_formed(),
            word@.len() < usize::MAX,
        ensures
            found == self@.contains(word@),
    {
        let matches = self.find(word, 0);
        proof {
            if matches@.len() > 0 {
                let v = views(matches@)[0];
                assert(views(matches@).contains(v));
                lemma_edit_distance_zero(v.1, word@);
            }
            if self@.contains(word@) {
                assert(views(matches@).contains((0usize, word@)));
                assert(views(matches@).len() == matches@.len());
            }
        }
        matches.len() > 0
    }

    /// Returns how many words are stored.
    pub fn len(&self) -> (n: usize)
        requires
            self.well_formed(),
        ensures
            n == self@.len(),
    {
        self.size
    }

    /// Returns `true` if no word is stored.
    pub fn is_empty(&self) -> (empty: bool)
        requires
            self.well_formed(),
        ensures
            empty == (self@.len() == 0),
    {
        self.size == 0
    }
}

/// Whether the distance keeps the triangle inequality among `words`.
pub open spec fn triangle_holds(words: Set<Seq<char>>) -> bool {
    forall|a: Seq<char>, b: Seq<char>, c: Seq<char>|
        #![trigger words.contains(a), words.contains(b), words.contains(c)]
        words.contains(a) && words.contains(b) && words.contains(c) ==> edit_distance(a, c) <= edit_distance(a, b)
            + edit_distance(b, c)
}

/// Where the triangle inequality holds, the pruned search of a subtree finds
/// every word of it within the radius.
proof fn lemma_reached_complete(n: Node, q: Seq<char>, r: usize, w: Seq<char>)
    requires
        wf(n),
        words_at(n).contains(w),
        edit_distance(w, q) <= r,
        triangle_holds(words_at(n).insert(q)),
    ensures
        reached(n, q, r).contains((edit_distance(w, q) as usize, w)),
    decreases n,
{
    lemma_wf_unfold(n);
    let all = words_at(n).insert(q);
    let d = edit_distance(n.chars@, q);
    if n.chars@ != w {
        let cs = n.children@;
        lemma_words_below(cs, w);
        let i = choose|i: int| 0 <= i < cs.len() && #[trigger] words_at(cs[i]).contains(w);
        let k = cs[i].key;
        assert(edit_distance(n.chars@, w) == k);
        assert(all.contains(n.chars@) && all.contains(w) && all.contains(q));
        // Nearer than `d - r` or further than `d + r`, the word could not be
        // within `r` of the query
        lemma_edit_distance_symmetric(q, w);
        assert(d <= k + edit_distance(w, q));
        assert(k <= d + edit_distance(q, w));
        assert(within_reach(k as nat, d, r as nat));
        let sub = words_at(cs[i]).insert(q);
        assert(words_below(cs).contains(w));
        assert forall|x: Seq<char>| #[trigger] sub.contains(x) implies all.contains(x) by {
            if x != q {
                lemma_words_below(cs, x);
            }
        }
        assert forall|a: Seq<char>, b: Seq<char>, c: Seq<char>|
            #![trigger sub.contains(a), sub.contains(b), sub.contains(c)]
            sub.contains(a) && sub.contains(b) && sub.contains(c) implies edit_distance(a, c) <= edit_distance(a, b)
                + edit_distance(b, c) by {
            assert(all.contains(a) && all.contains(b) && all.contains(c));
        }
        lemma_reached_complete(cs[i], q, r, w);
        lemma_reached_below_at(cs, q, r, d, i);
    }
}

/// Where the distance keeps the triangle inequality among the stored words and
/// the query, the pruned search finds every stored word within the radius -
/// the property the pruning is for. The restricted distance does not keep it
/// everywhere: `abc` is three edits from `ca` but one from `ac`, which is one
/// from `ca`.
pub proof fn law_search_complete_where_triangle_holds(tree: BkTree, query: Seq<char>, radius: usize, word: Seq<char>)
    requires
        tree.well_formed(),
        tree@.contains(word),
        edit_distance(word, query) <= radius,
        triangle_holds(tree@.insert(query)),
    ensures
        tree.searched(query, radius).contains((edit_distance(word, query) as usize, word)),
{
    match tree.root {
        Some(n) => {
            lemma_reached_complete(n, query, radius, word);
            lemma_reached_shape(n, query, radius);
        },
        None => {},
    }
}

impl Default for BkTree {
    fn default() -> (tree: Self)
        ensures
            tree.well_formed(),
            tree@ == Set::<Seq<char>>::empty(),
            tree.shape() == None::<Shape>,
    {
        BkTree::new()
    }
}

/// The words of `words`, each taken by its characters.
pub open spec fn word_set(words: Seq<&str>) -> Set<Seq<char>> {
    words.map_values(|w: &str| w@).to_set()
}

impl BkTree {
    /// A tree holding every word of `words`, a repeat stored once.
    pub fn from_words(words: &[&str]) -> (tree: Self)
        requires
            forall|i: int| 0 <= i < words@.len() ==> (#[trigger] words@[i])@.len() < usize::MAX,
        ensures
            tree.well_formed(),
            tree@ == word_set(words@),
            tree.shape() == shape_of_words(words@.map_values(|w: &str| w@)),
    {
        let mut tree = BkTree::new();
        let mut k: usize = 0;
        while k < words.len()
            invariant
                forall|i: int| 0 <= i < words@.len() ==> (#[trigger] words@[i])@.len() < usize::MAX,
                k <= words@.len(),
                tree.well_formed(),
                tree@ == word_set(words@.take(k as int)),
                tree.shape() == shape_of_words(words@.take(k as int).map_values(|w: &str| w@)),
            decreases words.len() - k,
        {
            proof {
                let head = words@.take(k as int).map_values(|w: &str| w@);
                assert(words@.take(k + 1).map_values(|w: &str| w@) =~= head.push(words@[k as int]@));
                assert(head.push(words@[k as int]@).drop_last() =~= head);
                head.lemma_push_to_set_commute(words@[k as int]@);
                head.lemma_cardinality_of_set();
            }
            tree.insert(words[k]);
            k = k + 1;
        }
        assert(words@.take(words@.len() as int) =~= words@);
        tree
    }
}

} // verus!
