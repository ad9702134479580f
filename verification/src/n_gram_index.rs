//! An n-gram index: every word filed under each run of `n` characters it
//! contains, so a query can ask which words share its runs instead of being
//! compared to all of them.
//!
//! A word is padded with `n - 1` boundary markers on each side before it is
//! cut up, so its first and last characters carry as many grams as the ones in
//! the middle, and a run that starts a word is a different gram from the same
//! run inside one. The marker is an ordinary character, so a word containing
//! `#` shares grams with a boundary.
//!
//! What comes back is a count of shared grams, which grows with the length of
//! the words as much as with their likeness.
use vstd::prelude::*;
use crate::char_map::{CharMap, position, postings};
use crate::ranked::{Ranked, insert_ranked, insert_unique, law_ranked_unique, ranked, views};
use crate::text::{chars_before, chars_of, copy_chars, lemma_lex_irreflexive, lemma_lex_total,
    lemma_lex_transitive, lex_lt, string_of, words_of};

verus! {

/// The character standing in for what comes before a word and after it.
pub const BOUNDARY: char = '#';

/// `w` with `size - 1` boundary markers on each side.
pub open spec fn padded(w: Seq<char>, size: nat) -> Seq<char> {
    let pad = Seq::new((size - 1) as nat, |i: int| BOUNDARY);
    pad + w + pad
}

/// Every run of `size` characters of the padded `w`, in order, repeats
/// included.
pub open spec fn gram_seq(w: Seq<char>, size: nat) -> Seq<Seq<char>> {
    Seq::new((w.len() + size - 1) as nat, |i: int| padded(w, size).subrange(i, i + size))
}

/// The distinct grams of `w`.
pub open spec fn gram_set(w: Seq<char>, size: nat) -> Set<Seq<char>> {
    gram_seq(w, size).to_set()
}

/// How many distinct grams `q` and `w` have in common.
pub open spec fn shared(q: Seq<char>, w: Seq<char>, size: nat) -> nat {
    gram_set(q, size).intersect(gram_set(w, size)).len()
}

/// The grams of `word` as characters.
fn gram_chars(word: &[char], size: usize) -> (grams: Vec<Vec<char>>)
    requires
        size > 0,
        word@.len() + 2 * size < usize::MAX,
    ensures
        views(grams@) == gram_seq(word@, size as nat),
{
    let padding = size - 1;
    let ghost p = padded(word@, size as nat);
    let mut padded_word: Vec<char> = Vec::new();
    let mut k: usize = 0;
    while k < padding
        invariant
            padding == size - 1,
            k <= padding,
            padded_word@ == Seq::new(k as nat, |i: int| BOUNDARY),
        decreases padding - k,
    {
        padded_word.push(BOUNDARY);
        k = k + 1;
        assert(padded_word@ =~= Seq::new(k as nat, |i: int| BOUNDARY));
    }
    let mut k: usize = 0;
    while k < word.len()
        invariant
            padding == size - 1,
            k <= word@.len(),
            padded_word@ == Seq::new(padding as nat, |i: int| BOUNDARY) + word@.take(k as int),
        decreases word.len() - k,
    {
        padded_word.push(word[k]);
        proof {
            assert(word@.take(k + 1) =~= word@.take(k as int).push(word@[k as int]));
            assert(padded_word@ =~= Seq::new(padding as nat, |i: int| BOUNDARY) + word@.take(k + 1));
        }
        k = k + 1;
    }
    assert(word@.take(word@.len() as int) =~= word@);
    let mut k: usize = 0;
    while k < padding
        invariant
            padding == size - 1,
            k <= padding,
            padded_word@ == Seq::new(padding as nat, |i: int| BOUNDARY) + word@ + Seq::new(k as nat, |i: int| BOUNDARY),
        decreases padding - k,
    {
        padded_word.push(BOUNDARY);
        k = k + 1;
        assert(padded_word@ =~= Seq::new(padding as nat, |i: int| BOUNDARY) + word@ + Seq::new(k as nat, |i: int| BOUNDARY));
    }
    assert(padded_word@ == p);
    let count = word.len() + padding;
    let mut grams: Vec<Vec<char>> = Vec::new();
    let mut at: usize = 0;
    while at < count
        invariant
            p == padded_word@,
            p == padded(word@, size as nat),
            p.len() == word@.len() + 2 * padding,
            padding == size - 1,
            count == word@.len() + padding,
            word@.len() + 2 * size < usize::MAX,
            at <= count,
            views(grams@) == gram_seq(word@, size as nat).take(at as int),
        decreases count - at,
    {
        let mut gram: Vec<char> = Vec::new();
        let mut j: usize = 0;
        while j < size
            invariant
                p == padded_word@,
                p.len() == word@.len() + 2 * padding,
                padding == size - 1,
                count == word@.len() + padding,
                word@.len() + 2 * size < usize::MAX,
                at < count,
                j <= size,
                gram@ == p.subrange(at as int, at + j),
            decreases size - j,
        {
            gram.push(padded_word[at + j]);
            assert(gram@ =~= p.subrange(at as int, at + j + 1));
            j = j + 1;
        }
        let ghost before = views(grams@);
        assert(gram_seq(word@, size as nat)[at as int] == gram@);
        grams.push(gram);
        proof {
            assert(views(grams@) =~= before.push(gram@));
            assert(gram_seq(word@, size as nat).take(at + 1) =~= gram_seq(word@, size as nat).take(at as int).push(
                gram@,
            ));
        }
        at = at + 1;
    }
    assert(gram_seq(word@, size as nat).take(count as int) =~= gram_seq(word@, size as nat));
    grams
}

/// Cuts `word` into every run of `size` characters, padded with [`BOUNDARY`]
/// so the ends of the word are as well covered as its middle.
///
/// Runs are taken over characters rather than bytes, and in the order they
/// appear, repeats included. A word shorter than the padding still yields
/// grams; only the empty word at a size of one has none. A run of no
/// characters is no run at all, so `size` is at least one.
pub fn grams(word: &str, size: usize) -> (grams: Vec<String>)
    requires
        size > 0,
        word@.len() + 2 * size < usize::MAX,
    ensures
        words_of(grams@) == gram_seq(word@, size as nat),
{
    let chars = chars_of(word);
    let cut = gram_chars(chars.as_slice(), size);
    let mut grams: Vec<String> = Vec::new();
    let mut k: usize = 0;
    while k < cut.len()
        invariant
            k <= cut@.len(),
            words_of(grams@) == views(cut@).take(k as int),
        decreases cut.len() - k,
    {
        let gram = string_of(cut[k].as_slice());
        let ghost before = grams@;
        grams.push(gram);
        proof {
            assert(words_of(grams@) =~= words_of(before).push(gram@));
            assert(views(cut@).take(k + 1) =~= views(cut@).take(k as int).push(cut@[k as int]@));
        }
        k = k + 1;
    }
    assert(views(cut@).take(cut@.len() as int) =~= views(cut@));
    grams
}

/// The distinct grams of `word`, in lexicographic order.
fn distinct_grams(word: &[char], size: usize) -> (grams: Vec<Vec<char>>)
    requires
        size > 0,
        word@.len() + 2 * size < usize::MAX,
    ensures
        ranked::<Vec<char>>(views(grams@)),
        views(grams@).to_set() == gram_set(word@, size as nat),
{
    let cut = gram_chars(word, size);
    let mut grams: Vec<Vec<char>> = Vec::new();
    let mut k: usize = 0;
    assert(views(grams@).to_set() =~= views(cut@).take(0).to_set());
    while k < cut.len()
        invariant
            k <= cut@.len(),
            ranked::<Vec<char>>(views(grams@)),
            views(grams@).to_set() == views(cut@).take(k as int).to_set(),
        decreases cut.len() - k,
    {
        insert_unique(&mut grams, copy_chars(cut[k].as_slice()));
        proof {
            let head = views(cut@).take(k as int);
            assert(views(cut@).take(k + 1) =~= head.push(cut@[k as int]@));
            head.lemma_push_to_set_commute(cut@[k as int]@);
        }
        k = k + 1;
    }
    assert(views(cut@).take(cut@.len() as int) =~= views(cut@));
    grams
}

/// Asking one more distinct gram raises the count of grams shared with a
/// word by one if the word has that gram, and leaves it otherwise.
proof fn lemma_count_step(a: Seq<Seq<char>>, k: int, g: Set<Seq<char>>)
    requires
        ranked::<Vec<char>>(a),
        0 <= k < a.len(),
    ensures
        a.take(k + 1).to_set().intersect(g).len() == a.take(k).to_set().intersect(g).len() + (if g.contains(a[k]) {
            1int
        } else {
            0int
        }),
        a.take(k).to_set().intersect(g).len() <= k,
    decreases k,
{
    let head = a.take(k);
    let x = a[k];
    assert(a.take(k + 1) =~= head.push(x));
    head.lemma_push_to_set_commute(x);
    let s = head.to_set();
    assert(!s.contains(x)) by {
        if s.contains(x) {
            let p = choose|p: int| 0 <= p < head.len() && head[p] == x;
            crate::ranked::lemma_ranked_distinct::<Vec<char>>(a, p, k);
        }
    }
    vstd::seq_lib::seq_to_set_is_finite(head);
    if g.contains(x) {
        assert(s.insert(x).intersect(g) =~= s.intersect(g).insert(x));
    } else {
        assert(s.insert(x).intersect(g) =~= s.intersect(g));
    }
    if k > 0 {
        lemma_count_step(a, k - 1, g);
        assert(a.take(k - 1 + 1) =~= a.take(k));
    } else {
        assert(s.intersect(g) =~= Set::<Seq<char>>::empty());
    }
}

/// A word [`NGramIndex::find`] turned up, and how many grams it shares with
/// the query.
#[derive(Debug, Clone, PartialEq, Eq)]
pub struct Match {
    pub shared: usize,
    pub word: String,
}

impl View for Match {
    type V = (usize, Seq<char>);

    open spec fn view(&self) -> (usize, Seq<char>) {
        (self.shared, self.word@)
    }
}

impl Ranked for Match {
    /// Most shared first, then alphabetically.
    open spec fn ranks_before(a: (usize, Seq<char>), b: (usize, Seq<char>)) -> bool {
        a.0 > b.0 || (a.0 == b.0 && lex_lt(a.1, b.1))
    }

    proof fn lemma_ranking(a: (usize, Seq<char>), b: (usize, Seq<char>), c: (usize, Seq<char>)) {
        lemma_lex_irreflexive(a.1);
        if a.0 == b.0 && b.0 == c.0 && lex_lt(a.1, b.1) && lex_lt(b.1, c.1) {
            lemma_lex_transitive(a.1, b.1, c.1);
        }
        if a != b && a.0 == b.0 {
            lemma_lex_total(a.1, b.1);
        }
    }

    fn precedes(&self, other: &Self) -> (before: bool) {
        if self.shared != other.shared {
            return self.shared > other.shared;
        }
        let mine = chars_of(self.word.as_str());
        let theirs = chars_of(other.word.as_str());
        chars_before(mine.as_slice(), theirs.as_slice())
    }
}

/// Whether `id` is filed under `gram` in `index`.
pub open spec fn posted(index: Map<Seq<char>, Seq<usize>>, gram: Seq<char>, id: usize) -> bool {
    index.contains_key(gram) && index[gram].contains(id)
}

/// What an index of `words` answers for `query`: each word sharing at least
/// `minimum` grams with it, and at least one, with how many it shares.
pub open spec fn matches_for(words: Set<Seq<char>>, query: Seq<char>, size: nat, minimum: nat) -> Set<
    (usize, Seq<char>),
> {
    Set::new(
        |v: (usize, Seq<char>)|
            words.contains(v.1) && v.0 == shared(query, v.1, size) && v.0 >= minimum && v.0 >= 1,
    )
}

/// A word has to share a gram to be counted at all, so a minimum of zero asks
/// the same question as a minimum of one.
pub proof fn law_minimum_of_one(words: Set<Seq<char>>, query: Seq<char>, size: nat)
    ensures
        matches_for(words, query, size, 0) == matches_for(words, query, size, 1),
{
    assert(matches_for(words, query, size, 0) =~= matches_for(words, query, size, 1));
}

/// A search of an index with a minimum of zero answers what the same search
/// with a minimum of one answers, word for word and in the same order: any
/// two answers meeting [`NGramIndex::find`]'s promise for the two minimums
/// are the same answer.
pub proof fn law_find_minimum_zero_is_one(
    index: NGramIndex,
    query: Seq<char>,
    zero: Seq<(usize, Seq<char>)>,
    one: Seq<(usize, Seq<char>)>,
)
    requires
        index.well_formed(),
        ranked::<Match>(zero),
        zero.to_set() == matches_for(index@, query, index.gram_size(), 0),
        ranked::<Match>(one),
        one.to_set() == matches_for(index@, query, index.gram_size(), 1),
    ensures
        zero == one,
{
    law_minimum_of_one(index@, query, index.gram_size());
    law_ranked_unique::<Match>(zero, one);
}

/// A set of words, each filed under the grams it is made of.
pub struct NGramIndex {
    size: usize,
    // Words by the position they were inserted at, which is the identifier the
    // postings carry: a gram lists numbers rather than repeating the words
    words: Vec<Vec<char>>,
    // The same words the other way round, so inserting a word already stored
    // and asking whether one is stored cost a lookup rather than a scan
    ids: CharMap<usize>,
    // Every gram, with the words containing it, each once
    postings: CharMap<Vec<usize>>,
}

impl View for NGramIndex {
    type V = Set<Seq<char>>;

    /// The stored words.
    closed spec fn view(&self) -> Set<Seq<char>> {
        self.word_seq().to_set()
    }
}

impl NGramIndex {
    /// The stored words, by identifier.
    pub closed spec fn word_seq(&self) -> Seq<Seq<char>> {
        views(self.words@)
    }

    /// The postings: every gram, with the identifiers filed under it.
    pub closed spec fn index(&self) -> Map<Seq<char>, Seq<usize>> {
        postings(self.postings.entries())
    }

    /// How many characters a gram of this index is.
    pub closed spec fn gram_size(&self) -> nat {
        self.size as nat
    }

    /// Every word is filed under exactly its distinct grams, once each.
    pub closed spec fn well_formed(&self) -> bool {
        let ws = self.word_seq();
        let index = self.index();
        let n = self.size as nat;
        &&& n > 0
        &&& self.ids.well_formed()
        &&& self.postings.well_formed()
        &&& forall|w: Seq<char>| #[trigger] self.ids.entries().contains_key(w) <==> ws.contains(w)
        &&& forall|i: int| 0 <= i < ws.len() ==> self.ids.entries()[#[trigger] ws[i]] == i
        &&& forall|g: Seq<char>| #[trigger] index.contains_key(g) ==> index[g].no_duplicates()
        &&& forall|g: Seq<char>, k: int|
            index.contains_key(g) && 0 <= k < index[g].len() ==> #[trigger] index[g][k] < ws.len() && gram_set(
                ws[index[g][k] as int],
                n,
            ).contains(g)
        &&& forall|i: int, g: Seq<char>|
            0 <= i < ws.len() && #[trigger] gram_set(ws[i], n).contains(g) ==> posted(index, g, i as usize)
    }

    /// Two identifiers never stand for the same word.
    proof fn lemma_distinct(&self, i: int, j: int)
        requires
            self.well_formed(),
            0 <= i < self.word_seq().len(),
            0 <= j < self.word_seq().len(),
            i != j,
        ensures
            self.word_seq()[i] != self.word_seq()[j],
    {
        let ws = self.word_seq();
        assert(self.ids.entries()[ws[i]] == i);
        assert(self.ids.entries()[ws[j]] == j);
    }

    /// An intact index holds finitely many words, one per identifier.
    proof fn lemma_size(&self)
        requires
            self.well_formed(),
        ensures
            self@.finite(),
            self@.len() == self.word_seq().len(),
    {
        let ws = self.word_seq();
        assert forall|i: int, j: int| 0 <= i < ws.len() && 0 <= j < ws.len() && i != j implies ws[i] != ws[j] by {
            self.lemma_distinct(i, j);
        }
        ws.unique_seq_to_set();
    }

    /// Creates an empty index over grams of `size` characters, which is at
    /// least one.
    pub fn new(size: usize) -> (index: Self)
        requires
            size > 0,
        ensures
            index.well_formed(),
            index@ == Set::<Seq<char>>::empty(),
            index.gram_size() == size,
    {
        let index = NGramIndex { size, words: Vec::new(), ids: CharMap::new(), postings: CharMap::new() };
        assert(index.word_seq() =~= Seq::<Seq<char>>::empty());
        assert(index@ =~= Set::<Seq<char>>::empty());
        index
    }

    /// Returns how many characters a gram of this index is.
    pub fn size(&self) -> (size: usize)
        ensures
            size == self.gram_size(),
    {
        self.size
    }

    /// Adds `word`, returning `false` if the index already held it.
    pub fn insert(&mut self, word: &str) -> (inserted: bool)
        requires
            old(self).well_formed(),
            word@.len() + 2 * old(self).gram_size() < usize::MAX,
        ensures
            final(self).well_formed(),
            final(self).gram_size() == old(self).gram_size(),
            final(self)@ == old(self)@.insert(word@),
            inserted == !old(self)@.contains(word@),
            final(self)@.finite(),
            final(self)@.len() == old(self)@.len() + if inserted {
                1int
            } else {
                0int
            },
    {
        let chars = chars_of(word);
        let ghost ws = self.word_seq();
        let ghost n = self.size as nat;
        if self.ids.get(chars.as_slice()).is_some() {
            proof {
                assert(ws.contains(word@));
                assert(self@ =~= self@.insert(word@));
            }
            return false;
        }
        let id = self.words.len();
        let ghost ws2 = ws.push(chars@);
        // A gram a word repeats files it once: each distinct gram is posted
        // once, and a search asks each gram once too
        let grams = distinct_grams(chars.as_slice(), self.size);
        let ghost gs = views(grams@);
        let mut q: usize = 0;
        while q < grams.len()
            invariant
                gs == views(grams@),
                ranked::<Vec<char>>(gs),
                gs.to_set() == gram_set(chars@, n),
                q <= gs.len(),
                ws == self.word_seq(),
                ws2 == ws.push(chars@),
                id == ws.len(),
                n == self.size,
                self.ids == old(self).ids,
                self.words == old(self).words,
                self.size == old(self).size,
                self.postings.well_formed(),
                forall|g: Seq<char>| #[trigger] self.index().contains_key(g) ==> self.index()[g].no_duplicates(),
                forall|g: Seq<char>, k: int|
                    self.index().contains_key(g) && 0 <= k < self.index()[g].len() ==> #[trigger] self.index()[g][k]
                        < ws2.len() && gram_set(ws2[self.index()[g][k] as int], n).contains(g),
                forall|i: int, g: Seq<char>|
                    0 <= i < ws.len() && #[trigger] gram_set(ws[i], n).contains(g) ==> posted(
                        self.index(),
                        g,
                        i as usize,
                    ),
                forall|p: int| 0 <= p < q ==> posted(self.index(), #[trigger] gs[p], id),
                forall|g: Seq<char>| posted(self.index(), g, id) ==> exists|p: int| 0 <= p < q && #[trigger] gs[p] == g,
            decreases grams.len() - q,
        {
            let ghost before = self.index();
            let key = copy_chars(grams[q].as_slice());
            let ghost g0 = gs[q as int];
            proof {
                assert(gs.to_set().contains(g0));
                if before.contains_key(g0) && before[g0].contains(id) {
                    assert(posted(before, g0, id));
                    let p = choose|p: int| 0 <= p < q && #[trigger] gs[p] == g0;
                    crate::ranked::lemma_ranked_distinct::<Vec<char>>(gs, p, q as int);
                }
            }
            self.postings.append(key, id);
            proof {
                let after = self.index();
                assert forall|g: Seq<char>| #[trigger] after.contains_key(g) implies after[g].no_duplicates() by {
                    if g == g0 && before.contains_key(g) {
                        let l = before[g];
                        assert(after[g] == l.push(id));
                        assert forall|x: int, y: int| 0 <= x < y < after[g].len() implies after[g][x] != after[g][y] by {
                            if y == l.len() {
                                assert(!l.contains(id));
                                assert(l[x] == after[g][x]);
                            }
                        }
                    } else if g == g0 {
                        assert(after[g] =~= seq![id]);
                    }
                }
                assert forall|g: Seq<char>, i: usize| posted(before, g, i) implies posted(after, g, i) by {
                    if g == g0 {
                        let t = choose|t: int| 0 <= t < before[g].len() && before[g][t] == i;
                        assert(after[g][t] == i);
                    }
                }
                assert(after[g0][after[g0].len() - 1] == id);
                assert(posted(after, g0, id));
                assert forall|g: Seq<char>, k: int|
                    after.contains_key(g) && 0 <= k < after[g].len() implies #[trigger] after[g][k] < ws2.len()
                        && gram_set(ws2[after[g][k] as int], n).contains(g) by {
                    if g != g0 || (before.contains_key(g) && k < before[g].len()) {
                        assert(after[g][k] == before[g][k]);
                    } else {
                        assert(after[g][k] == id);
                        assert(ws2[id as int] == chars@);
                    }
                }
                assert forall|p: int| 0 <= p < q + 1 implies posted(after, #[trigger] gs[p], id) by {
                    if p < q {
                        assert(posted(before, gs[p], id));
                    }
                }
                assert forall|i: int, g: Seq<char>|
                    0 <= i < ws.len() && #[trigger] gram_set(ws[i], n).contains(g) implies posted(after, g, i as usize) by {
                    assert(posted(before, g, i as usize));
                }
                assert forall|g: Seq<char>| posted(after, g, id) implies exists|p: int|
                    0 <= p < q + 1 && #[trigger] gs[p] == g by {
                    if g == g0 {
                        assert(gs[q as int] == g);
                    } else {
                        assert(after[g] == before[g]);
                        assert(posted(before, g, id));
                        let p = choose|p: int| 0 <= p < q && #[trigger] gs[p] == g;
                        assert(gs[p] == g);
                    }
                }
            }
            q = q + 1;
        }
        let ghost index = self.index();
        let ghost old_ids = self.ids.entries();
        proof {
            assert(!ws.contains(chars@)) by {
                if ws.contains(chars@) {
                    assert(old_ids.contains_key(chars@));
                }
            }
        }
        self.words.push(copy_chars(chars.as_slice()));
        self.ids.insert_new(chars, id);
        proof {
            assert(self.word_seq() =~= ws2);
            let ids_map = self.ids.entries();
            assert forall|w: Seq<char>| #[trigger] ids_map.contains_key(w) <==> ws2.contains(w) by {
                if ws2.contains(w) && w != chars@ {
                    let i = choose|i: int| 0 <= i < ws2.len() && ws2[i] == w;
                    assert(ws[i] == w);
                }
                if ws.contains(w) {
                    let i = choose|i: int| 0 <= i < ws.len() && ws[i] == w;
                    assert(ws2[i] == w);
                }
                if w == chars@ {
                    assert(ws2[id as int] == w);
                }
            }
            assert forall|i: int| 0 <= i < ws2.len() implies ids_map[#[trigger] ws2[i]] == i by {
                if i < ws.len() {
                    assert(ws2[i] == ws[i]);
                    assert(ws.contains(ws[i]));
                }
            }
            assert forall|i: int, g: Seq<char>|
                0 <= i < ws2.len() && #[trigger] gram_set(ws2[i], n).contains(g) implies posted(index, g, i as usize) by {
                if i < ws.len() {
                    assert(ws2[i] == ws[i]);
                    assert(gram_set(ws[i], n).contains(g));
                } else {
                    assert(gs.to_set().contains(g));
                    let p = choose|p: int| 0 <= p < gs.len() && gs[p] == g;
                    assert(posted(index, gs[p], id));
                }
            }
            assert(self.well_formed());
            assert forall|w: Seq<char>| #[trigger] self@.contains(w) <==> old(self)@.insert(word@).contains(w) by {
                if ws2.contains(w) && w != chars@ {
                    let i = choose|i: int| 0 <= i < ws2.len() && ws2[i] == w;
                    assert(ws[i] == w);
                }
                if ws.contains(w) {
                    let i = choose|i: int| 0 <= i < ws.len() && ws[i] == w;
                    assert(ws2[i] == w);
                }
                if w == chars@ {
                    assert(ws2[id as int] == w);
                }
            }
            assert(self@ =~= old(self)@.insert(word@));
        }
        true
    }

    /// Returns the words sharing at least `minimum` grams with `query`, the
    /// ones sharing most first and alphabetically within a count.
    ///
    /// A word has to share a gram to be counted at all, so a minimum of zero
    /// asks the same question as a minimum of one. The empty word at a size of
    /// one shares nothing with anything, itself included, and is never found
    /// this way - [`contains`](NGramIndex::contains) still reports it.
    pub fn find(&self, query: &str, minimum: usize) -> (matches: Vec<Match>)
        requires
            self.well_formed(),
            query@.len() + 2 * self.gram_size() < usize::MAX,
        ensures
            ranked::<Match>(views(matches@)),
            views(matches@).to_set() == matches_for(self@, query@, self.gram_size(), minimum as nat),
    {
        let ghost ws = self.word_seq();
        let ghost index = self.index();
        let ghost n = self.size as nat;
        let qchars = chars_of(query);
        let ghost q = qchars@;
        // Each gram asked once, however often the query repeats it
        let asked = distinct_grams(qchars.as_slice(), self.size);
        let ghost a = views(asked@);
        let count = self.words.len();
        let mut counts: Vec<usize> = Vec::new();
        while counts.len() < count
            invariant
                counts@.len() <= count,
                forall|j: int| 0 <= j < counts@.len() ==> #[trigger] counts@[j] == 0,
            decreases count - counts.len(),
        {
            counts.push(0);
        }
        proof {
            assert forall|j: int| 0 <= j < count implies #[trigger] counts@[j] == a.take(0).to_set().intersect(
                gram_set(ws[j], n),
            ).len() by {
                assert(a.take(0).to_set().intersect(gram_set(ws[j], n)) =~= Set::<Seq<char>>::empty());
            }
        }
        let mut k: usize = 0;
        while k < asked.len()
            invariant
                self.well_formed(),
                ws == self.word_seq(),
                index == self.index(),
                n == self.size,
                a == views(asked@),
                ranked::<Vec<char>>(a),
                count == ws.len(),
                counts@.len() == count,
                k <= a.len(),
                forall|j: int| 0 <= j < count ==> #[trigger] counts@[j] == a.take(k as int).to_set().intersect(
                    gram_set(ws[j], n),
                ).len() && counts@[j] <= k,
            decreases asked.len() - k,
        {
            let ghost g = a[k as int];
            let ghost base = counts@;
            assert(asked@.len() == asked.len());
            proof {
                assert forall|j: int| 0 <= j < count implies #[trigger] a.take(k + 1).to_set().intersect(gram_set(ws[j], n)).len()
                    == base[j] + (if gram_set(ws[j], n).contains(g) { 1int } else { 0int }) by {
                    lemma_count_step(a, k as int, gram_set(ws[j], n));
                }
            }
            match self.postings.get(asked[k].as_slice()) {
                Some(list) => {
                    let ghost l = list@;
                    assert(l == index[g]);
                    let mut t: usize = 0;
                    while t < list.len()
                        invariant
                            self.well_formed(),
                            ws == self.word_seq(),
                            index == self.index(),
                            index.contains_key(g),
                            l == index[g],
                            l == list@,
                            n == self.size,
                            count == ws.len(),
                            counts@.len() == count,
                            k < a.len(),
                            a.len() == asked@.len(),
                            asked@.len() <= usize::MAX,
                            t <= l.len(),
                            base.len() == count,
                            forall|j: int| 0 <= j < count ==> #[trigger] base[j] <= k,
                            forall|j: int|
                                0 <= j < count ==> #[trigger] counts@[j] == base[j] + (if l.take(t as int).contains(j as usize) {
                                    1int
                                } else {
                                    0int
                                }),
                        decreases list.len() - t,
                    {
                        let id = list[t];
                        assert(index[g][t as int] == id);
                        assert(l.no_duplicates());
                        proof {
                            assert(!l.take(t as int).contains(id)) by {
                                if l.take(t as int).contains(id) {
                                    let x = choose|x: int| 0 <= x < t && #[trigger] l.take(t as int)[x] == id;
                                    assert(l[x] == l[t as int]);
                                }
                            }
                        }
                        assert(id < count);
                        assert(counts@[id as int] == base[id as int]);
                        assert(base[id as int] <= k);
                        let bumped = counts[id] + 1;
                        counts.set(id, bumped);
                        proof {
                            assert forall|j: int| 0 <= j < count implies #[trigger] counts@[j] == base[j] + (if l.take(
                                t + 1,
                            ).contains(j as usize) {
                                1int
                            } else {
                                0int
                            }) by {
                                assert(l.take(t + 1) =~= l.take(t as int).push(id));
                                if l.take(t + 1).contains(j as usize) && j != id {
                                    let x = choose|x: int| 0 <= x < t + 1 && #[trigger] l.take(t + 1)[x] == j as usize;
                                    assert(l.take(t as int)[x] == j as usize);
                                }
                                if l.take(t as int).contains(j as usize) {
                                    let x = choose|x: int| 0 <= x < t && #[trigger] l.take(t as int)[x] == j as usize;
                                    assert(l.take(t + 1)[x] == j as usize);
                                }
                                if j == id {
                                    assert(l.take(t + 1)[t as int] == id);
                                }
                            }
                        }
                        t = t + 1;
                    }
                    proof {
                        assert(l.take(l.len() as int) =~= l);
                        assert forall|j: int| 0 <= j < count implies l.contains(j as usize) == #[trigger] gram_set(
                            ws[j],
                            n,
                        ).contains(g) by {
                            if l.contains(j as usize) {
                                let x = choose|x: int| 0 <= x < l.len() && l[x] == j as usize;
                                assert(index[g][x] == j as usize);
                            }
                            if gram_set(ws[j], n).contains(g) {
                                assert(posted(index, g, j as usize));
                            }
                        }
                    }
                },
                None => {
                    proof {
                        assert forall|j: int| 0 <= j < count implies !#[trigger] gram_set(ws[j], n).contains(g) by {
                            if gram_set(ws[j], n).contains(g) {
                                assert(posted(index, g, j as usize));
                            }
                        }
                    }
                },
            }
            k = k + 1;
        }
        proof {
            assert(a.take(a.len() as int) =~= a);
        }
        let least = if minimum > 1 {
            minimum
        } else {
            1
        };
        let mut matches: Vec<Match> = Vec::new();
        let mut id: usize = 0;
        while id < count
            invariant
                self.well_formed(),
                ws == self.word_seq(),
                n == self.size,
                count == ws.len(),
                counts@.len() == count,
                id <= count,
                forall|j: int| 0 <= j < count ==> #[trigger] counts@[j] == shared(q, ws[j], n),
                ranked::<Match>(views(matches@)),
                views(matches@).to_set() == Set::new(
                    |v: (usize, Seq<char>)|
                        exists|j: int| 0 <= j < id && counts@[j] >= least && v == (counts@[j], #[trigger] ws[j]),
                ),
            decreases count - id,
        {
            let ghost before = views(matches@).to_set();
            if counts[id] >= least {
                let found = Match { shared: counts[id], word: string_of(self.words[id].as_slice()) };
                assert(found@ == (counts@[id as int], ws[id as int]));
                proof {
                    assert(!views(matches@).contains(found@)) by {
                        if views(matches@).contains(found@) {
                            assert(before.contains(found@));
                            let j = choose|j: int| 0 <= j < id && counts@[j] >= least && found@ == (counts@[j], #[trigger] ws[j]);
                            self.lemma_distinct(j, id as int);
                        }
                    }
                }
                insert_ranked(&mut matches, found);
            }
            proof {
                assert forall|v: (usize, Seq<char>)| #[trigger] views(matches@).to_set().contains(v) <==> (exists|j: int|
                    0 <= j < id + 1 && counts@[j] >= least && v == (counts@[j], #[trigger] ws[j])) by {
                    if exists|j: int| 0 <= j < id + 1 && counts@[j] >= least && v == (counts@[j], #[trigger] ws[j]) {
                        let j = choose|j: int| 0 <= j < id + 1 && counts@[j] >= least && v == (counts@[j], #[trigger] ws[j]);
                        if j < id {
                            assert(before.contains(v));
                        }
                    }
                    if before.contains(v) {
                        let j = choose|j: int| 0 <= j < id && counts@[j] >= least && v == (counts@[j], #[trigger] ws[j]);
                        assert(0 <= j < id + 1);
                    }
                }
                assert(views(matches@).to_set() =~= Set::new(
                    |v: (usize, Seq<char>)|
                        exists|j: int| 0 <= j < id + 1 && counts@[j] >= least && v == (counts@[j], #[trigger] ws[j]),
                ));
            }
            id = id + 1;
        }
        proof {
            let target = matches_for(self@, q, n, minimum as nat);
            let got = views(matches@).to_set();
            assert forall|v: (usize, Seq<char>)| #[trigger] got.contains(v) <==> target.contains(v) by {
                if got.contains(v) {
                    let j = choose|j: int| 0 <= j < count && counts@[j] >= least && v == (counts@[j], #[trigger] ws[j]);
                    assert(ws.contains(ws[j]));
                }
                if target.contains(v) {
                    let j = choose|j: int| 0 <= j < ws.len() && ws[j] == v.1;
                    assert(counts@[j] == shared(q, ws[j], n));
                    assert(v == (counts@[j], ws[j]));
                }
            }
            assert(got =~= target);
        }
        matches
    }

    /// Returns `true` if `word` is stored, exactly as spelled.
    pub fn contains(&self, word: &str) -> (found: bool)
        requires
            self.well_formed(),
        ensures
            found == self@.contains(word@),
    {
        let chars = chars_of(word);
        self.ids.get(chars.as_slice()).is_some()
    }

    /// Returns how many words are stored.
    pub fn len(&self) -> (n: usize)
        requires
            self.well_formed(),
        ensures
            n == self@.len(),
    {
        proof {
            self.lemma_size();
        }
        self.words.len()
    }

    /// Returns `true` if no word is stored.
    pub fn is_empty(&self) -> (empty: bool)
        requires
            self.well_formed(),
        ensures
            empty == (self@.len() == 0),
    {
        proof {
            self.lemma_size();
        }
        self.words.len() == 0
    }
}

} // verus!
