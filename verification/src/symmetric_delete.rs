//! SymSpell: spelling correction by symmetric deletes.
//!
//! Every dictionary word is filed under each string it becomes when up to
//! `max_distance` characters are dropped, and a query is looked up by the same
//! strings dropped from it. Whatever an edit is, at most one deletion on each
//! side reaches the same string, so the query and every word within reach of
//! it meet on some string: the index is exact rather than a heuristic.
use vstd::prelude::*;
use crate::char_map::{CharMap, position, postings};
use crate::damerau_levenshtein::{char_distance, edit_distance};
use crate::ranked::{Ranked, insert_ranked, insert_unique, ranked, views};
use crate::subsequence::{deletion_set, drops_exactly, law_deletions_meet, lemma_drops_step, lemma_subseq_refl};
use crate::text::{chars_before, chars_of, copy_chars, lemma_lex_irreflexive, lemma_lex_total, lemma_lex_transitive,
    lex_lt, remove_at, string_of, strictly_sorted, words_of};

verus! {

/// The strings one drop away from `rs[j]` for `j < r`, and from `rs[r]` at
/// positions before `a`.
pub open spec fn one_drop(rs: Seq<Seq<char>>, r: int, a: int) -> Set<Seq<char>> {
    Set::new(
        |s: Seq<char>|
            exists|j: int, at: int|
                #![trigger rs[j].remove(at)]
                ((0 <= j < r && 0 <= at < rs[j].len()) || (j == r && 0 <= at < a && at < rs[j].len()))
                    && rs[j].remove(at) == s,
    )
}

/// Returns `word` together with every string it becomes when up to
/// `distance` characters are dropped from it, in lexicographic order and
/// each once.
///
/// Characters, not bytes, so dropping one from `naïve` leaves four characters
/// and not a broken encoding. The word itself is part of the answer: a query
/// that is spelled correctly has to meet its own entry.
pub fn deletes(word: &str, distance: usize) -> (variants: Vec<String>)
    ensures
        strictly_sorted(words_of(variants@)),
        words_of(variants@).to_set() == deletion_set(word@, distance as nat),
{
    let chars = chars_of(word);
    let variants = deletions(chars.as_slice(), distance);
    let mut result: Vec<String> = Vec::new();
    let mut q: usize = 0;
    while q < variants.len()
        invariant
            q <= variants@.len(),
            words_of(result@) == views(variants@).take(q as int),
        decreases variants.len() - q,
    {
        let word = string_of(variants[q].as_slice());
        let ghost before = result@;
        result.push(word);
        proof {
            assert(words_of(result@) =~= words_of(before).push(word@));
            assert(views(variants@).take(q + 1) =~= views(variants@).take(q as int).push(variants@[q as int]@));
        }
        q = q + 1;
    }
    proof {
        assert(views(variants@).take(variants@.len() as int) =~= views(variants@));
    }
    result
}

/// The strings `chars` becomes when up to `distance` of its characters are
/// dropped, itself included, in lexicographic order and each once.
fn deletions(chars: &[char], distance: usize) -> (variants: Vec<Vec<char>>)
    ensures
        ranked::<Vec<char>>(views(variants@)),
        views(variants@).to_set() == deletion_set(chars@, distance as nat),
{
    let ghost w = chars@;
    let mut variants: Vec<Vec<char>> = Vec::new();
    insert_unique(&mut variants, copy_chars(chars));
    let mut round: Vec<Vec<char>> = Vec::new();
    insert_unique(&mut round, copy_chars(chars));
    proof {
        lemma_subseq_refl(w);
        assert forall|s: Seq<char>| views(variants@).to_set().contains(s) <==> #[trigger] deletion_set(w, 0).contains(s) by {
            if deletion_set(w, 0).contains(s) {
                crate::subsequence::lemma_subseq_len(s, w);
                crate::subsequence::lemma_subseq_same_len(s, w);
            }
        }
        assert(views(variants@).to_set() =~= deletion_set(w, 0));
        assert forall|s: Seq<char>| views(round@).to_set().contains(s) <==> #[trigger] drops_exactly(w, 0).contains(s) by {
            if drops_exactly(w, 0).contains(s) {
                crate::subsequence::lemma_subseq_same_len(s, w);
            }
        }
        assert(views(round@).to_set() =~= drops_exactly(w, 0));
    }
    // One round per character dropped, each starting from what the last round
    // produced, so a string is never built twice from the same deletions
    let mut k: usize = 0;
    while k < distance
        invariant
            k <= distance,
            ranked::<Vec<char>>(views(round@)),
            views(round@).to_set() == drops_exactly(w, k as nat),
            ranked::<Vec<char>>(views(variants@)),
            views(variants@).to_set() == deletion_set(w, k as nat),
        decreases distance - k,
    {
        let ghost rs = views(round@);
        let mut shorter: Vec<Vec<char>> = Vec::new();
        proof {
            assert(views(shorter@).to_set() =~= one_drop(rs, 0, 0));
        }
        let mut r: usize = 0;
        while r < round.len()
            invariant
                rs == views(round@),
                r <= rs.len(),
                ranked::<Vec<char>>(views(shorter@)),
                views(shorter@).to_set() == one_drop(rs, r as int, 0),
            decreases round.len() - r,
        {
            let variant = &round[r];
            let mut at: usize = 0;
            while at < variant.len()
                invariant
                    rs == views(round@),
                    r < rs.len(),
                    variant@ == rs[r as int],
                    at <= variant@.len(),
                    ranked::<Vec<char>>(views(shorter@)),
                    views(shorter@).to_set() == one_drop(rs, r as int, at as int),
                decreases variant.len() - at,
            {
                let dropped = remove_at(variant.as_slice(), at);
                let ghost before = views(shorter@).to_set();
                insert_unique(&mut shorter, dropped);
                proof {
                    assert forall|s: Seq<char>| #[trigger] one_drop(rs, r as int, at + 1).contains(s)
                        <==> before.insert(dropped@).contains(s) by {
                        if one_drop(rs, r as int, at + 1).contains(s) {
                            let (j, a) = choose|j: int, a: int|
                                #![trigger rs[j].remove(a)]
                                ((0 <= j < r && 0 <= a < rs[j].len()) || (j == r && 0 <= a < at + 1 && a < rs[j].len()))
                                    && rs[j].remove(a) == s;
                            if !(j == r && a == at) {
                                assert(one_drop(rs, r as int, at as int).contains(s));
                            }
                        }
                        if before.insert(dropped@).contains(s) {
                            if s == dropped@ {
                                assert(rs[r as int].remove(at as int) == s);
                            } else {
                                let (j, a) = choose|j: int, a: int|
                                    #![trigger rs[j].remove(a)]
                                    ((0 <= j < r && 0 <= a < rs[j].len()) || (j == r && 0 <= a < at && a < rs[j].len()))
                                        && rs[j].remove(a) == s;
                                assert(rs[j].remove(a) == s);
                            }
                        }
                    }
                    assert(views(shorter@).to_set() =~= one_drop(rs, r as int, at + 1));
                }
                at = at + 1;
            }
            proof {
                assert forall|s: Seq<char>| #[trigger] one_drop(rs, r as int, at as int).contains(s)
                    <==> one_drop(rs, r + 1, 0).contains(s) by {
                    if one_drop(rs, r as int, at as int).contains(s) {
                        let (j, a) = choose|j: int, a: int|
                            #![trigger rs[j].remove(a)]
                            ((0 <= j < r && 0 <= a < rs[j].len()) || (j == r && 0 <= a < at && a < rs[j].len()))
                                && rs[j].remove(a) == s;
                        assert(rs[j].remove(a) == s);
                    }
                    if one_drop(rs, r + 1, 0).contains(s) {
                        let (j, a) = choose|j: int, a: int|
                            #![trigger rs[j].remove(a)]
                            ((0 <= j < r + 1 && 0 <= a < rs[j].len()) || (j == r + 1 && 0 <= a < 0 && a < rs[j].len()))
                                && rs[j].remove(a) == s;
                        assert(rs[j].remove(a) == s);
                    }
                }
                assert(one_drop(rs, r as int, at as int) =~= one_drop(rs, r + 1, 0));
            }
            r = r + 1;
        }
        proof {
            assert forall|s: Seq<char>| #[trigger] one_drop(rs, rs.len() as int, 0).contains(s)
                <==> drops_exactly(w, (k + 1) as nat).contains(s) by {
                lemma_drops_step(w, k as nat, s);
                if one_drop(rs, rs.len() as int, 0).contains(s) {
                    let (j, a) = choose|j: int, a: int|
                        #![trigger rs[j].remove(a)]
                        ((0 <= j < rs.len() && 0 <= a < rs[j].len()) || (j == rs.len() && 0 <= a < 0 && a < rs[j].len()))
                            && rs[j].remove(a) == s;
                    assert(rs.to_set().contains(rs[j]));
                    assert(drops_exactly(w, k as nat).contains(rs[j]));
                }
                if drops_exactly(w, (k + 1) as nat).contains(s) {
                    let (v, a) = choose|v: Seq<char>, a: int|
                        #![trigger drops_exactly(w, k as nat).contains(v), v.remove(a)]
                        drops_exactly(w, k as nat).contains(v) && 0 <= a < v.len() && v.remove(a) == s;
                    assert(rs.to_set().contains(v));
                    let j = choose|j: int| 0 <= j < rs.len() && rs[j] == v;
                    assert(rs[j].remove(a) == s);
                }
            }
            assert(views(shorter@).to_set() =~= drops_exactly(w, (k + 1) as nat));
        }
        let mut q: usize = 0;
        while q < shorter.len()
            invariant
                q <= shorter@.len(),
                ranked::<Vec<char>>(views(variants@)),
                views(variants@).to_set() == deletion_set(w, k as nat).union(views(shorter@).take(q as int).to_set()),
            decreases shorter.len() - q,
        {
            let ghost before = views(variants@).to_set();
            insert_unique(&mut variants, copy_chars(shorter[q].as_slice()));
            proof {
                let head = views(shorter@).take(q as int);
                assert(views(shorter@).take(q + 1) =~= head.push(shorter@[q as int]@));
                head.lemma_push_to_set_commute(shorter@[q as int]@);
                assert(views(variants@).to_set() =~= deletion_set(w, k as nat).union(views(shorter@).take(q + 1).to_set()));
            }
            q = q + 1;
        }
        proof {
            assert(views(shorter@).take(shorter@.len() as int) =~= views(shorter@));
            assert forall|s: Seq<char>| #[trigger] deletion_set(w, (k + 1) as nat).contains(s)
                <==> deletion_set(w, k as nat).union(drops_exactly(w, (k + 1) as nat)).contains(s) by {}
            assert(views(variants@).to_set() =~= deletion_set(w, (k + 1) as nat));
        }
        round = shorter;
        k = k + 1;
    }
    variants
}

/// A word the dictionary offers for a query, with how far it is and how often
/// it was counted.
#[derive(Debug, Clone, PartialEq, Eq)]
pub struct Suggestion {
    pub distance: usize,
    pub count: u64,
    pub word: String,
}

impl View for Suggestion {
    type V = (usize, u64, Seq<char>);

    open spec fn view(&self) -> (usize, u64, Seq<char>) {
        (self.distance, self.count, self.word@)
    }
}

/// Whether `a` is offered before `b`: nearest first, then the commonest of
/// the words equally near, then alphabetically.
pub open spec fn offered_before(a: (usize, u64, Seq<char>), b: (usize, u64, Seq<char>)) -> bool {
    ||| a.0 < b.0
    ||| a.0 == b.0 && a.1 > b.1
    ||| a.0 == b.0 && a.1 == b.1 && lex_lt(a.2, b.2)
}

impl Ranked for Suggestion {
    open spec fn ranks_before(a: (usize, u64, Seq<char>), b: (usize, u64, Seq<char>)) -> bool {
        offered_before(a, b)
    }

    proof fn lemma_ranking(a: (usize, u64, Seq<char>), b: (usize, u64, Seq<char>), c: (usize, u64, Seq<char>)) {
        lemma_lex_irreflexive(a.2);
        if offered_before(a, b) && offered_before(b, c) && a.0 == c.0 && a.1 == c.1 {
            lemma_lex_transitive(a.2, b.2, c.2);
        }
        if a != b && a.0 == b.0 && a.1 == b.1 {
            lemma_lex_total(a.2, b.2);
        }
    }

    fn precedes(&self, other: &Self) -> (before: bool) {
        if self.distance != other.distance {
            return self.distance < other.distance;
        }
        if self.count != other.count {
            return self.count > other.count;
        }
        let mine = chars_of(self.word.as_str());
        let theirs = chars_of(other.word.as_str());
        chars_before(mine.as_slice(), theirs.as_slice())
    }
}

/// What a dictionary mapping words to counts offers for `query` within
/// `distance` edits: every word that near, with how near it is and its count.
pub open spec fn suggestions_for(dictionary: Map<Seq<char>, u64>, query: Seq<char>, distance: nat) -> Set<
    (usize, u64, Seq<char>),
> {
    Set::new(
        |v: (usize, u64, Seq<char>)|
            dictionary.contains_key(v.2) && v.1 == dictionary[v.2] && v.0 == edit_distance(query, v.2) && v.0
                <= distance,
    )
}

/// Whether `s` is filed under `id` in the index `index`.
pub open spec fn filed(index: Map<Seq<char>, Seq<usize>>, s: Seq<char>, id: usize) -> bool {
    index.contains_key(s) && index[s].contains(id)
}

/// The words an increasing list of positions picks out, where it picks
/// exactly the positions whose word passes `keep`, are the words of `ws`
/// that pass `keep`, in the order `ws` holds them.
proof fn lemma_filed_in_order(ws: Seq<Seq<char>>, l: Seq<usize>, keep: spec_fn(Seq<char>) -> bool)
    requires
        ws.len() <= usize::MAX,
        forall|a: int, b: int| 0 <= a < b < l.len() ==> #[trigger] l[a] < #[trigger] l[b],
        forall|k: int| 0 <= k < l.len() ==> #[trigger] l[k] < ws.len() && keep(ws[l[k] as int]),
        forall|i: int| 0 <= i < ws.len() && keep(#[trigger] ws[i]) ==> l.contains(i as usize),
    ensures
        l.map_values(|id: usize| ws[id as int]) == ws.filter(keep),
    decreases ws.len(),
{
    reveal(Seq::filter);
    if ws.len() == 0 {
        if l.len() > 0 {
            assert(l[0] < ws.len());
        }
        assert(l.map_values(|id: usize| ws[id as int]) =~= ws.filter(keep));
    } else {
        let n = ws.len() - 1;
        let rest = ws.drop_last();
        let x = ws.last();
        let shorter = if keep(x) {
            l.drop_last()
        } else {
            l
        };
        if keep(x) {
            assert(keep(ws[n]));
            assert(l.contains(n as usize));
            let t = choose|t: int| 0 <= t < l.len() && l[t] == n as usize;
            if t < l.len() - 1 {
                assert(l[t] < l[t + 1]);
                assert(l[t + 1] < ws.len());
            }
            assert(t == l.len() - 1);
            assert(l.last() == n);
        } else {
            assert forall|k: int| 0 <= k < l.len() implies #[trigger] l[k] < n by {
                if l[k] == n {
                    assert(keep(ws[l[k] as int]));
                }
            }
        }
        assert forall|k: int| 0 <= k < shorter.len() implies #[trigger] shorter[k] < rest.len() && keep(
            rest[shorter[k] as int],
        ) by {
            assert(shorter[k] == l[k]);
            if keep(x) {
                assert(l[k] < l[l.len() - 1]);
            } else {
                assert(l[k] < n);
            }
        }
        assert forall|i: int| 0 <= i < rest.len() && keep(#[trigger] rest[i]) implies shorter.contains(i as usize) by {
            assert(rest[i] == ws[i]);
            let t = choose|t: int| 0 <= t < l.len() && l[t] == i as usize;
            if keep(x) {
                assert(t != l.len() - 1);
                assert(shorter[t] == i);
            }
        }
        assert forall|a: int, b: int| 0 <= a < b < shorter.len() implies #[trigger] shorter[a] < #[trigger] shorter[b] by {
            assert(shorter[a] == l[a] && shorter[b] == l[b]);
        }
        lemma_filed_in_order(rest, shorter, keep);
        assert(shorter.map_values(|id: usize| rest[id as int]) =~= shorter.map_values(|id: usize| ws[id as int]));
        if keep(x) {
            assert(l.map_values(|id: usize| ws[id as int]) =~= shorter.map_values(|id: usize| ws[id as int]).push(x));
        }
    }
}

/// A dictionary of words that answers which of them a query might have been.
pub struct SymSpell {
    max_distance: usize,
    // Each word's characters, by the position it was inserted at, which is
    // the identifier the index carries
    words: Vec<Vec<char>>,
    // How often each word was counted, at the same positions
    counts: Vec<u64>,
    // The same words the other way round, so a word met twice is counted
    // rather than filed twice
    ids: CharMap<usize>,
    // Every string a word becomes when characters are dropped, with the words
    // it came from. Two words leaving the same string behind share an entry,
    // which is how a misspelling meets what it was meant to be
    variants: CharMap<Vec<usize>>,
}

impl SymSpell {
    /// The stored words, by identifier.
    pub closed spec fn word_seq(&self) -> Seq<Seq<char>> {
        views(self.words@)
    }

    /// Each stored word with how often it was counted.
    pub closed spec fn dictionary(&self) -> Map<Seq<char>, u64> {
        Map::new(
            |w: Seq<char>| self.word_seq().contains(w),
            |w: Seq<char>| self.counts@[position(self.word_seq(), w)],
        )
    }

    /// The index: every string filed, with the identifiers filed under it.
    pub closed spec fn index(&self) -> Map<Seq<char>, Seq<usize>> {
        postings(self.variants.entries())
    }

    /// How many edits from a query the dictionary can reach.
    pub closed spec fn reach(&self) -> nat {
        self.max_distance as nat
    }

    /// The identifiers, the index and the counts agree: every word is filed
    /// under exactly the strings it becomes when up to `max_distance`
    /// characters are dropped.
    pub closed spec fn well_formed(&self) -> bool {
        let ws = self.word_seq();
        let index = self.index();
        &&& self.ids.well_formed()
        &&& self.variants.well_formed()
        &&& self.counts@.len() == ws.len()
        &&& forall|w: Seq<char>| #[trigger] self.ids.entries().contains_key(w) <==> ws.contains(w)
        &&& forall|i: int| 0 <= i < ws.len() ==> self.ids.entries()[#[trigger] ws[i]] == i
        &&& forall|i: int| 0 <= i < ws.len() ==> (#[trigger] ws[i]).len() < usize::MAX
        &&& forall|s: Seq<char>, k: int|
            index.contains_key(s) && 0 <= k < index[s].len() ==> #[trigger] index[s][k] < ws.len()
                && deletion_set(ws[index[s][k] as int], self.max_distance as nat).contains(s)
        &&& forall|i: int, s: Seq<char>|
            0 <= i < ws.len() && #[trigger] deletion_set(ws[i], self.max_distance as nat).contains(s)
                ==> filed(index, s, i as usize)
        &&& forall|s: Seq<char>, a: int, b: int|
            index.contains_key(s) && 0 <= a < b < index[s].len() ==> #[trigger] index[s][a] < #[trigger] index[s][b]
    }

    /// Two identifiers never stand for the same word.
    proof fn lemma_distinct(&self, i: int, j: int)
        requires
            self.well_formed(),
            0 <= i < self.word_seq().len(),
            0 <= j < self.word_seq().len(),
            i != j,
        ensures
            self.word_seq()[i] != self.word_seq()[j],
    {
        let ws = self.word_seq();
        assert(self.ids.entries()[ws[i]] == i);
        assert(self.ids.entries()[ws[j]] == j);
    }

    /// The word with identifier `i` is stored with the count at `i`.
    proof fn lemma_counted(&self, i: int)
        requires
            self.well_formed(),
            0 <= i < self.word_seq().len(),
        ensures
            self.dictionary().contains_key(self.word_seq()[i]),
            self.dictionary()[self.word_seq()[i]] == self.counts@[i],
    {
        let ws = self.word_seq();
        let p = position(ws, ws[i]);
        assert(ws.contains(ws[i]));
        assert(0 <= p < ws.len() && ws[p] == ws[i]);
        if p != i {
            self.lemma_distinct(p, i);
        }
    }

    /// The words in the order they were first inserted hold each stored word
    /// once.
    pub proof fn lemma_word_seq(&self)
        requires
            self.well_formed(),
        ensures
            self.word_seq().no_duplicates(),
            self.word_seq().to_set() == self.dictionary().dom(),
    {
        let ws = self.word_seq();
        assert forall|i: int, j: int| 0 <= i < ws.len() && 0 <= j < ws.len() && i != j implies ws[i] != ws[j] by {
            self.lemma_distinct(i, j);
        }
        assert(ws.to_set() =~= self.dictionary().dom());
    }

    /// An intact dictionary holds finitely many words, one per identifier.
    proof fn lemma_size(&self)
        requires
            self.well_formed(),
        ensures
            self.dictionary().dom().finite(),
            self.dictionary().dom().len() == self.word_seq().len(),
    {
        let ws = self.word_seq();
        assert(self.dictionary().dom() =~= ws.to_set());
        assert forall|i: int, j: int| 0 <= i < ws.len() && 0 <= j < ws.len() && i != j implies ws[i] != ws[j] by {
            self.lemma_distinct(i, j);
        }
        ws.unique_seq_to_set();
    }

    /// Creates an empty dictionary reaching `max_distance` edits from a query.
    ///
    /// A distance of zero indexes nothing but the words themselves, which
    /// makes [`lookup`](SymSpell::lookup) an exact search.
    pub fn new(max_distance: usize) -> (speller: Self)
        ensures
            speller.well_formed(),
            speller.dictionary() == Map::<Seq<char>, u64>::empty(),
            speller.reach() == max_distance,
            speller.word_seq() == Seq::<Seq<char>>::empty(),
    {
        let speller = SymSpell {
            max_distance,
            words: Vec::new(),
            counts: Vec::new(),
            ids: CharMap::new(),
            variants: CharMap::new(),
        };
        assert(speller.word_seq() =~= Seq::<Seq<char>>::empty());
        assert(speller.dictionary() =~= Map::<Seq<char>, u64>::empty());
        speller
    }

    /// Returns how many edits from a query this dictionary can reach.
    pub fn max_distance(&self) -> (reach: usize)
        ensures
            reach == self.reach(),
    {
        self.max_distance
    }

    /// Adds `count` occurrences of `word`, returning `false` if the dictionary
    /// already held it and this only raised its count.
    ///
    /// Counts add up because a word met twice is the same word met twice; only
    /// the first meeting files it under its deletions.
    pub fn insert(&mut self, word: &str, count: u64) -> (fresh: bool)
        requires
            old(self).well_formed(),
            word@.len() < usize::MAX,
            old(self).dictionary().contains_key(word@) ==> old(self).dictionary()[word@] + count <= u64::MAX,
        ensures
            final(self).well_formed(),
            final(self).reach() == old(self).reach(),
            fresh == !old(self).dictionary().contains_key(word@),
            final(self).dictionary() == old(self).dictionary().insert(
                word@,
                if fresh {
                    count
                } else {
                    (old(self).dictionary()[word@] + count) as u64
                },
            ),
            final(self).dictionary().dom().finite(),
            final(self).dictionary().dom().len() == old(self).dictionary().dom().len() + if fresh {
                1int
            } else {
                0int
            },
            final(self).word_seq() == if fresh {
                old(self).word_seq().push(word@)
            } else {
                old(self).word_seq()
            },
    {
        proof {
            old(self).lemma_size();
        }
        let chars = chars_of(word);
        let ghost ws = self.word_seq();
        let ghost old_dict = self.dictionary();
        let ghost md = self.max_distance as nat;
        if let Some(id) = self.ids.get(chars.as_slice()) {
            let id = *id;
            proof {
                let i = choose|i: int| 0 <= i < ws.len() && ws[i] == word@;
                assert(self.ids.entries()[ws[i]] == i);
                self.lemma_counted(i);
            }
            let total = self.counts[id] + count;
            let ghost old_index = self.index();
            self.counts.set(id, total);
            proof {
                assert(self.word_seq() == ws);
                assert(self.index() == old_index);
                assert(self.well_formed());
                assert forall|w: Seq<char>| #[trigger] self.dictionary().contains_key(w) implies self.dictionary()[w]
                    == old_dict.insert(word@, total)[w] by {
                    let i = choose|i: int| 0 <= i < ws.len() && ws[i] == w;
                    self.lemma_counted(i);
                    if i != id {
                        assert(self.ids.entries()[ws[i]] == i);
                    }
                }
                assert(self.dictionary() =~= old_dict.insert(word@, total));
                self.lemma_size();
            }
            return false;
        }
        let id = self.words.len();
        let ghost ws2 = ws.push(chars@);
        let variants = deletions(chars.as_slice(), self.max_distance);
        let ghost vs = views(variants@);
        let mut q: usize = 0;
        while q < variants.len()
            invariant
                vs == views(variants@),
                vs.to_set() == deletion_set(chars@, md),
                ranked::<Vec<char>>(vs),
                q <= vs.len(),
                ws == self.word_seq(),
                ws2 == ws.push(chars@),
                id == ws.len(),
                md == self.max_distance,
                self.ids == old(self).ids,
                self.words == old(self).words,
                self.counts == old(self).counts,
                self.max_distance == old(self).max_distance,
                self.variants.well_formed(),
                forall|s: Seq<char>, k: int|
                    self.index().contains_key(s) && 0 <= k < self.index()[s].len()
                        ==> #[trigger] self.index()[s][k] < ws2.len() && deletion_set(
                        ws2[self.index()[s][k] as int],
                        md,
                    ).contains(s),
                forall|i: int, s: Seq<char>|
                    0 <= i < ws.len() && #[trigger] deletion_set(ws[i], md).contains(s) ==> filed(
                        self.index(),
                        s,
                        i as usize,
                    ),
                forall|p: int| 0 <= p < q ==> filed(self.index(), #[trigger] vs[p], id),
                forall|s: Seq<char>, a: int, b: int|
                    self.index().contains_key(s) && 0 <= a < b < self.index()[s].len() ==> #[trigger] self.index()[s][a]
                        < #[trigger] self.index()[s][b],
                forall|s: Seq<char>, k: int|
                    self.index().contains_key(s) && 0 <= k < self.index()[s].len() && #[trigger] self.index()[s][k] == id
                        ==> vs.take(q as int).contains(s),
            decreases variants.len() - q,
        {
            let ghost before = self.index();
            let key = copy_chars(variants[q].as_slice());
            self.variants.append(key, id);
            proof {
                let after = self.index();
                let k0 = vs[q as int];
                // Each variant comes once, so this word is not on its list yet
                assert forall|k: int| before.contains_key(k0) && 0 <= k < before[k0].len() implies #[trigger] before[k0][k]
                    < id by {
                    if before[k0][k] == id {
                        let p = choose|p: int| 0 <= p < q && vs.take(q as int)[p] == k0;
                        assert(vs[p] == k0);
                        crate::ranked::lemma_ranked_distinct::<Vec<char>>(vs, p, q as int);
                    }
                }
                assert forall|s: Seq<char>, a: int, b: int|
                    after.contains_key(s) && 0 <= a < b < after[s].len() implies #[trigger] after[s][a]
                        < #[trigger] after[s][b] by {
                    if s == k0 && before.contains_key(s) && b == before[s].len() {
                        assert(after[s][a] == before[s][a]);
                    } else if s == k0 && before.contains_key(s) {
                        assert(after[s][a] == before[s][a]);
                        assert(after[s][b] == before[s][b]);
                    }
                }
                assert forall|s: Seq<char>, k: int|
                    after.contains_key(s) && 0 <= k < after[s].len() && #[trigger] after[s][k] == id implies vs.take(
                    q + 1,
                ).contains(s) by {
                    if s == k0 {
                        assert(vs.take(q + 1)[q as int] == k0);
                    } else {
                        assert(after[s][k] == before[s][k]);
                        let p = choose|p: int| 0 <= p < q && vs.take(q as int)[p] == s;
                        assert(vs.take(q + 1)[p] == s);
                    }
                }
                assert(vs.to_set().contains(k0));
                assert forall|s: Seq<char>, i: usize| filed(before, s, i) implies filed(after, s, i) by {
                    if s == k0 {
                        let t = choose|t: int| 0 <= t < before[s].len() && before[s][t] == i;
                        assert(after[s][t] == i);
                    }
                }
                assert(after[k0][after[k0].len() - 1] == id);
                assert(filed(after, k0, id));
                assert forall|s: Seq<char>, k: int|
                    after.contains_key(s) && 0 <= k < after[s].len() implies #[trigger] after[s][k] < ws2.len()
                        && deletion_set(ws2[after[s][k] as int], md).contains(s) by {
                    if s != k0 || (before.contains_key(s) && k < before[s].len()) {
                        assert(after[s][k] == before[s][k]);
                    } else {
                        assert(after[s][k] == id);
                        assert(ws2[id as int] == chars@);
                    }
                }
                assert forall|p: int| 0 <= p < q + 1 implies filed(after, #[trigger] vs[p], id) by {
                    if p < q {
                        assert(filed(before, vs[p], id));
                    }
                }
                assert forall|i: int, s: Seq<char>|
                    0 <= i < ws.len() && #[trigger] deletion_set(ws[i], md).contains(s) implies filed(
                        after,
                        s,
                        i as usize,
                    ) by {
                    assert(filed(before, s, i as usize));
                }
            }
            q = q + 1;
        }
        let ghost index = self.index();
        let ghost old_ids = self.ids.entries();
        proof {
            assert(!ws.contains(chars@)) by {
                if ws.contains(chars@) {
                    assert(old_ids.contains_key(chars@));
                }
            }
        }
        self.words.push(copy_chars(chars.as_slice()));
        self.counts.push(count);
        self.ids.insert_new(chars, id);
        proof {
            assert(self.word_seq() =~= ws2);
            let ids_map = self.ids.entries();
            assert forall|w: Seq<char>| #[trigger] ids_map.contains_key(w) <==> ws2.contains(w) by {
                if ws2.contains(w) && w != chars@ {
                    let i = choose|i: int| 0 <= i < ws2.len() && ws2[i] == w;
                    assert(ws[i] == w);
                }
                if ws.contains(w) {
                    let i = choose|i: int| 0 <= i < ws.len() && ws[i] == w;
                    assert(ws2[i] == w);
                }
                if w == chars@ {
                    assert(ws2[id as int] == w);
                }
            }
            assert forall|i: int| 0 <= i < ws2.len() implies ids_map[#[trigger] ws2[i]] == i by {
                if i < ws.len() {
                    assert(ws2[i] == ws[i]);
                    assert(ws.contains(ws[i]));
                }
            }
            assert forall|i: int, s: Seq<char>|
                0 <= i < ws2.len() && #[trigger] deletion_set(ws2[i], md).contains(s) implies filed(
                    index,
                    s,
                    i as usize,
                ) by {
                if i < ws.len() {
                    assert(ws2[i] == ws[i]);
                    assert(deletion_set(ws[i], md).contains(s));
                } else {
                    assert(vs.to_set().contains(s));
                    let p = choose|p: int| 0 <= p < vs.len() && vs[p] == s;
                    assert(filed(index, vs[p], id));
                }
            }
            assert(self.well_formed());
            let new_dict = old_dict.insert(word@, count);
            assert forall|w: Seq<char>| #[trigger] self.dictionary().contains_key(w) <==> new_dict.contains_key(w) by {
                if ws2.contains(w) && w != chars@ {
                    let i = choose|i: int| 0 <= i < ws2.len() && ws2[i] == w;
                    assert(ws[i] == w);
                }
                if ws.contains(w) {
                    let i = choose|i: int| 0 <= i < ws.len() && ws[i] == w;
                    assert(ws2[i] == w);
                }
                if w == chars@ {
                    assert(ws2[id as int] == w);
                }
            }
            assert forall|w: Seq<char>| #[trigger] self.dictionary().contains_key(w) implies self.dictionary()[w]
                == new_dict[w] by {
                let i = choose|i: int| 0 <= i < ws2.len() && ws2[i] == w;
                self.lemma_counted(i);
                if i < ws.len() {
                    assert(ws[i] == w);
                    old(self).lemma_counted(i);
                }
            }
            assert(self.dictionary() =~= new_dict);
            self.lemma_size();
        }
        true
    }

    /// What the word with identifier `id` is offered as for `query`.
    pub closed spec fn offer(&self, query: Seq<char>, id: int) -> (usize, u64, Seq<char>) {
        (edit_distance(query, self.word_seq()[id]) as usize, self.counts@[id], self.word_seq()[id])
    }

    /// Every word within `distance` of `query` is filed under one of the
    /// strings the query becomes when up to `distance` characters are dropped.
    proof fn lemma_reached(&self, query: Seq<char>, distance: nat, i: int) -> (s: Seq<char>)
        requires
            self.well_formed(),
            distance <= self.reach(),
            0 <= i < self.word_seq().len(),
            edit_distance(query, self.word_seq()[i]) <= distance,
        ensures
            deletion_set(query, distance).contains(s),
            filed(self.index(), s, i as usize),
    {
        let w = self.word_seq()[i];
        law_deletions_meet(query, w, distance);
        let s = choose|s: Seq<char>| #[trigger] deletion_set(query, distance).contains(s) && deletion_set(w, distance).contains(s);
        assert(deletion_set(w, self.max_distance as nat).contains(s));
        s
    }

    /// Returns the words within `distance` edits of `query`, nearest first,
    /// the commonest first among words equally near, then alphabetically.
    ///
    /// The answer is exactly what measuring the query against every stored
    /// word would give: the index only spares measuring the words that cannot
    /// be near.
    ///
    /// A `distance` beyond the reach the dictionary was built for is not
    /// accepted: the words that far out were never filed under the strings a
    /// query would meet them by, so the answer would be missing some of them.
    pub fn lookup(&self, query: &str, distance: usize) -> (suggestions: Vec<Suggestion>)
        requires
            self.well_formed(),
            distance <= self.reach(),
            query@.len() < usize::MAX,
        ensures
            ranked::<Suggestion>(views(suggestions@)),
            views(suggestions@).to_set() == suggestions_for(self.dictionary(), query@, distance as nat),
    {
        let ghost ws = self.word_seq();
        let ghost index = self.index();
        let qchars = chars_of(query);
        let ghost q = qchars@;
        // Where the query could meet a word: both sides having dropped up to
        // `distance` characters, they meet on a string one of them is filed
        // under
        let qvars = deletions(qchars.as_slice(), distance);
        let ghost qv = views(qvars@);
        let n = self.words.len();
        let mut seen: Vec<bool> = Vec::new();
        while seen.len() < n
            invariant
                seen@.len() <= n,
                forall|j: int| 0 <= j < seen@.len() ==> !#[trigger] seen@[j],
            decreases n - seen.len(),
        {
            seen.push(false);
        }
        let mut candidates: Vec<usize> = Vec::new();
        let mut a: usize = 0;
        while a < qvars.len()
            invariant
                self.well_formed(),
                ws == self.word_seq(),
                index == self.index(),
                qv == views(qvars@),
                n == ws.len(),
                a <= qv.len(),
                seen@.len() == n,
                candidates@.no_duplicates(),
                forall|c: int| 0 <= c < candidates@.len() ==> #[trigger] candidates@[c] < n && seen@[candidates@[c] as int],
                forall|i: int| 0 <= i < n && #[trigger] seen@[i] ==> candidates@.contains(i as usize),
                forall|b: int, i: usize| 0 <= b < a && #[trigger] filed(index, qv[b], i) ==> seen@[i as int],
            decreases qvars.len() - a,
        {
            match self.variants.get(qvars[a].as_slice()) {
                Some(list) => {
                    let mut k: usize = 0;
                    while k < list.len()
                        invariant
                            self.well_formed(),
                            ws == self.word_seq(),
                            index == self.index(),
                            qv == views(qvars@),
                            n == ws.len(),
                            a < qv.len(),
                            index.contains_key(qv[a as int]),
                            list@ == index[qv[a as int]],
                            k <= list@.len(),
                            seen@.len() == n,
                            candidates@.no_duplicates(),
                            forall|c: int|
                                0 <= c < candidates@.len() ==> #[trigger] candidates@[c] < n && seen@[candidates@[c] as int],
                            forall|i: int| 0 <= i < n && #[trigger] seen@[i] ==> candidates@.contains(i as usize),
                            forall|b: int, i: usize| 0 <= b < a && #[trigger] filed(index, qv[b], i) ==> seen@[i as int],
                            forall|kk: int| 0 <= kk < k ==> seen@[#[trigger] list@[kk] as int],
                        decreases list.len() - k,
                    {
                        let id = list[k];
                        assert(index[qv[a as int]][k as int] == id);
                        if !seen[id] {
                            let ghost before = candidates@;
                            proof {
                                assert(!before.contains(id)) by {
                                    if before.contains(id) {
                                        let c = choose|c: int| 0 <= c < before.len() && before[c] == id;
                                        assert(seen@[before[c] as int]);
                                    }
                                }
                            }
                            seen.set(id, true);
                            candidates.push(id);
                            proof {
                                assert forall|i: int| 0 <= i < n && #[trigger] seen@[i] implies candidates@.contains(
                                    i as usize,
                                ) by {
                                    if i == id {
                                        assert(candidates@[before.len() as int] == id);
                                    } else {
                                        let c = choose|c: int| 0 <= c < before.len() && before[c] == i as usize;
                                        assert(candidates@[c] == i as usize);
                                    }
                                }
                                assert forall|x: int, y: int|
                                    0 <= x < candidates@.len() && 0 <= y < candidates@.len() && x != y implies candidates@[x]
                                    != candidates@[y] by {
                                    if x < before.len() && y < before.len() {
                                        assert(before[x] != before[y]);
                                    } else if x < before.len() {
                                        assert(before.contains(before[x]));
                                    } else if y < before.len() {
                                        assert(before.contains(before[y]));
                                    }
                                }
                            }
                        }
                        k = k + 1;
                    }
                    proof {
                        assert forall|b: int, i: usize| 0 <= b < a + 1 && #[trigger] filed(index, qv[b], i) implies seen@[i as int] by {
                            if b == a {
                                let kk = choose|kk: int| 0 <= kk < list@.len() && list@[kk] == i;
                                assert(seen@[list@[kk] as int]);
                            }
                        }
                    }
                },
                None => {
                    proof {
                        assert forall|b: int, i: usize| 0 <= b < a + 1 && #[trigger] filed(index, qv[b], i) implies seen@[i as int] by {}
                    }
                },
            }
            a = a + 1;
        }
        proof {
            assert forall|i: int| 0 <= i < n && edit_distance(q, #[trigger] ws[i]) <= distance implies candidates@.contains(
                i as usize,
            ) by {
                let s = self.lemma_reached(q, distance as nat, i);
                assert(qv.to_set().contains(s));
                let b = choose|b: int| 0 <= b < qv.len() && qv[b] == s;
                assert(filed(index, qv[b], i as usize));
            }
        }
        // Meeting on a string only says a word is worth measuring: `sea` and
        // `set` both leave `se`, but so do `sea` and `sets`
        let mut suggestions: Vec<Suggestion> = Vec::new();
        let mut t: usize = 0;
        while t < candidates.len()
            invariant
                self.well_formed(),
                ws == self.word_seq(),
                n == ws.len(),
                q == qchars@,
                q.len() < usize::MAX,
                t <= candidates@.len(),
                candidates@.no_duplicates(),
                forall|c: int| 0 <= c < candidates@.len() ==> #[trigger] candidates@[c] < n,
                ranked::<Suggestion>(views(suggestions@)),
                views(suggestions@).to_set() == Set::new(
                    |v: (usize, u64, Seq<char>)|
                        exists|c: int|
                            0 <= c < t && edit_distance(q, ws[candidates@[c] as int]) <= distance && v == #[trigger] self.offer(
                                q,
                                candidates@[c] as int,
                            ),
                ),
            decreases candidates.len() - t,
        {
            let id = candidates[t];
            assert(candidates@[t as int] < n);
            assert(ws[id as int] == self.words@[id as int]@);
            assert(ws[id as int].len() < usize::MAX);
            let measured = char_distance(qchars.as_slice(), self.words[id].as_slice());
            let ghost before = views(suggestions@).to_set();
            if measured <= distance {
                let found = Suggestion {
                    distance: measured,
                    count: self.counts[id],
                    word: string_of(self.words[id].as_slice()),
                };
                assert(found@ == self.offer(q, id as int));
                proof {
                    assert(!views(suggestions@).contains(found@)) by {
                        if views(suggestions@).contains(found@) {
                            assert(views(suggestions@).to_set().contains(found@));
                            let c = choose|c: int|
                                0 <= c < t && edit_distance(q, ws[candidates@[c] as int]) <= distance && found@
                                    == #[trigger] self.offer(q, candidates@[c] as int);
                            self.lemma_distinct(candidates@[c] as int, id as int);
                        }
                    }
                }
                insert_ranked(&mut suggestions, found);
            }
            proof {
                assert forall|v: (usize, u64, Seq<char>)| #[trigger] views(suggestions@).to_set().contains(v) <==> (exists|c: int|
                    0 <= c < t + 1 && edit_distance(q, ws[candidates@[c] as int]) <= distance && v == #[trigger] self.offer(
                        q,
                        candidates@[c] as int,
                    )) by {
                    if exists|c: int|
                        0 <= c < t + 1 && edit_distance(q, ws[candidates@[c] as int]) <= distance && v == #[trigger] self.offer(
                            q,
                            candidates@[c] as int,
                        ) {
                        let c = choose|c: int|
                            0 <= c < t + 1 && edit_distance(q, ws[candidates@[c] as int]) <= distance && v == #[trigger] self.offer(
                                q,
                                candidates@[c] as int,
                            );
                        if c < t {
                            assert(before.contains(v));
                        }
                    }
                    if before.contains(v) {
                        let c = choose|c: int|
                            0 <= c < t && edit_distance(q, ws[candidates@[c] as int]) <= distance && v == #[trigger] self.offer(
                                q,
                                candidates@[c] as int,
                            );
                        assert(0 <= c < t + 1);
                    }
                }
                assert(views(suggestions@).to_set() =~= Set::new(
                    |v: (usize, u64, Seq<char>)|
                        exists|c: int|
                            0 <= c < t + 1 && edit_distance(q, ws[candidates@[c] as int]) <= distance && v == #[trigger] self.offer(
                                q,
                                candidates@[c] as int,
                            ),
                ));
            }
            t = t + 1;
        }
        proof {
            let target = suggestions_for(self.dictionary(), q, distance as nat);
            let got = views(suggestions@).to_set();
            assert forall|v: (usize, u64, Seq<char>)| #[trigger] got.contains(v) <==> target.contains(v) by {
                if got.contains(v) {
                    let c = choose|c: int|
                        0 <= c < t && edit_distance(q, ws[candidates@[c] as int]) <= distance && v == #[trigger] self.offer(
                            q,
                            candidates@[c] as int,
                        );
                    self.lemma_counted(candidates@[c] as int);
                }
                if target.contains(v) {
                    let i = choose|i: int| 0 <= i < ws.len() && ws[i] == v.2;
                    self.lemma_counted(i);
                    assert(edit_distance(q, ws[i]) <= distance);
                    assert(candidates@.contains(i as usize));
                    let c = choose|c: int| 0 <= c < candidates@.len() && candidates@[c] == i as usize;
                    assert(v == self.offer(q, candidates@[c] as int));
                }
            }
            assert(got =~= target);
        }
        suggestions
    }

    /// Returns the words filed under `variant`: those it is left of when up
    /// to the dictionary's reach of characters are dropped. Candidates rather
    /// than answers: sharing a variant only says two words are worth measuring
    /// against each other.
    pub fn filed_under(&self, variant: &str) -> (words: Vec<String>)
        requires
            self.well_formed(),
        ensures
            words_of(words@).to_set() == self.dictionary().dom().filter(
                |w: Seq<char>| deletion_set(w, self.reach()).contains(variant@),
            ),
            words_of(words@) == self.word_seq().filter(|w: Seq<char>| deletion_set(w, self.reach()).contains(variant@)),
    {
        let ghost ws = self.word_seq();
        let ghost index = self.index();
        let ghost target = self.dictionary().dom().filter(
            |w: Seq<char>| deletion_set(w, self.reach()).contains(variant@),
        );
        let chars = chars_of(variant);
        let mut words: Vec<String> = Vec::new();
        match self.variants.get(chars.as_slice()) {
            Some(list) => {
                let mut k: usize = 0;
                while k < list.len()
                    invariant
                        self.well_formed(),
                        ws == self.word_seq(),
                        index == self.index(),
                        index.contains_key(variant@),
                        list@ == index[variant@],
                        k <= list@.len(),
                        words_of(words@) == list@.take(k as int).map_values(|id: usize| ws[id as int]),
                    decreases list.len() - k,
                {
                    let id = list[k];
                    assert(index[variant@][k as int] == id);
                    let word = string_of(self.words[id].as_slice());
                    let ghost before = words@;
                    words.push(word);
                    proof {
                        assert(words_of(words@) =~= words_of(before).push(word@));
                        assert(list@.take(k + 1) =~= list@.take(k as int).push(id));
                        assert(list@.take(k + 1).map_values(|id: usize| ws[id as int]) =~= list@.take(
                            k as int,
                        ).map_values(|id: usize| ws[id as int]).push(ws[id as int]));
                    }
                    k = k + 1;
                }
                proof {
                    let l = list@;
                    assert(l.take(l.len() as int) =~= l);
                    assert(self.words.len() == self.words@.len());
                    lemma_filed_in_order(
                        ws,
                        l,
                        |w: Seq<char>| deletion_set(w, self.reach()).contains(variant@),
                    );
                    assert forall|w: Seq<char>| #[trigger] words_of(words@).to_set().contains(w) <==> target.contains(w) by {
                        if words_of(words@).to_set().contains(w) {
                            let x = choose|x: int| 0 <= x < words_of(words@).len() && words_of(words@)[x] == w;
                            assert(index[variant@][x] == l[x]);
                            assert(ws[l[x] as int] == w);
                            self.lemma_counted(l[x] as int);
                        }
                        if target.contains(w) {
                            let i = choose|i: int| 0 <= i < ws.len() && ws[i] == w;
                            assert(deletion_set(ws[i], self.max_distance as nat).contains(variant@));
                            assert(filed(index, variant@, i as usize));
                            let x = choose|x: int| 0 <= x < l.len() && l[x] == i as usize;
                            assert(words_of(words@)[x] == w);
                        }
                    }
                    assert(words_of(words@).to_set() =~= target);
                }
            },
            None => {
                proof {
                    assert(self.words.len() == self.words@.len());
                    lemma_filed_in_order(
                        ws,
                        Seq::empty(),
                        |w: Seq<char>| deletion_set(w, self.reach()).contains(variant@),
                    );
                    assert forall|w: Seq<char>| !#[trigger] target.contains(w) by {
                        if target.contains(w) {
                            let i = choose|i: int| 0 <= i < ws.len() && ws[i] == w;
                            assert(deletion_set(ws[i], self.max_distance as nat).contains(variant@));
                            assert(filed(index, variant@, i as usize));
                        }
                    }
                    assert(words_of(words@).to_set() =~= target);
                }
            },
        }
        words
    }

    /// Returns how often `word` was counted, or `None` if it is not stored.
    pub fn count(&self, word: &str) -> (count: Option<u64>)
        requires
            self.well_formed(),
        ensures
            count == (if self.dictionary().contains_key(word@) {
                Some(self.dictionary()[word@])
            } else {
                None::<u64>
            }),
    {
        let chars = chars_of(word);
        match self.ids.get(chars.as_slice()) {
            Some(id) => {
                let id = *id;
                proof {
                    let ws = self.word_seq();
                    let i = choose|i: int| 0 <= i < ws.len() && ws[i] == word@;
                    assert(self.ids.entries()[ws[i]] == i);
                    self.lemma_counted(i);
                }
                Some(self.counts[id])
            },
            None => None,
        }
    }

    /// Returns `true` if `word` is stored, exactly as spelled.
    pub fn contains(&self, word: &str) -> (found: bool)
        requires
            self.well_formed(),
        ensures
            found == self.dictionary().contains_key(word@),
    {
        let chars = chars_of(word);
        self.ids.get(chars.as_slice()).is_some()
    }

    /// Returns how many words are stored.
    pub fn len(&self) -> (n: usize)
        requires
            self.well_formed(),
        ensures
            n == self.dictionary().dom().len(),
    {
        proof {
            self.lemma_size();
        }
        self.words.len()
    }

    /// Returns `true` if no word is stored.
    pub fn is_empty(&self) -> (empty: bool)
        requires
            self.well_formed(),
        ensures
            empty == (self.dictionary().dom().len() == 0),
    {
        proof {
            self.lemma_size();
        }
        self.words.len() == 0
    }
}

} // verus!
