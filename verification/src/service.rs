//! The decisions of the suggestion service: which words of a scope complete a
//! prefix, which correct a misspelling, how they are ordered and spelled, and
//! how many of them a request gets.
//!
//! A scope's words are stored under lower-cased keys, so a query matches
//! whatever its casing, and answered in the spelling the word file used. The
//! keys are computed where the words and queries arrive; everything here
//! works on keys.
use vstd::prelude::*;
use std::sync::Arc;
use crate::char_map::CharMap;
use crate::damerau_levenshtein::edit_distance;
use crate::patricia_trie::PatriciaTrie;
use crate::shared_trie_map::share;
use crate::ranked::{Ranked, insert_unique, law_ranked_unique, ranked, views};
use crate::symbol_table::{PrefixSearch, SymbolTable, keys_with_prefix, law_listing_determined};
use crate::subsequence::deletion_set;
use crate::symmetric_delete::{SymSpell, suggestions_for};
use crate::text::{chars_before, chars_of, lemma_lex_irreflexive, lemma_lex_total, lemma_lex_transitive, lex_lt,
    is_latin1, is_prefix, latin1_lowered, lower_case, strictly_sorted, to_lower_case, words_of};

verus! {

/// The scope a request without one searches.
pub const DEFAULT_SCOPE: &'static str = "default";

/// How many suggestions a request without a limit gets.
pub const DEFAULT_LIMIT: usize = 10;

/// The most suggestions any request gets.
pub const MAX_LIMIT: usize = 100;

/// The longest query worth correcting, in characters.
///
/// Dropping characters costs a variant per pair of positions, so the work a
/// correction does grows with the square of what was typed - and a caller can
/// type as much as it likes. The cut is generous rather than tight: nothing
/// within two edits of a query this long could be a word at all.
pub const MAX_CORRECTED_QUERY: usize = 128;

/// How many characters a query and a word may each drop before they have to
/// meet on the same string, which is the number of edits a correction reaches.
pub const MAX_EDIT_DISTANCE: usize = 2;

/// How many suggestions a request gets: what it asked for, or the default,
/// and never more than the cap.
pub fn effective_limit(requested: Option<usize>) -> (limit: usize)
    ensures
        limit == (match requested {
            Some(asked) => if asked < MAX_LIMIT {
                asked
            } else {
                MAX_LIMIT
            },
            None => DEFAULT_LIMIT,
        }),
{
    let asked = match requested {
        Some(asked) => asked,
        None => DEFAULT_LIMIT,
    };
    if asked < MAX_LIMIT {
        asked
    } else {
        MAX_LIMIT
    }
}

/// The first `limit` keys of `trie` that start with `prefix`, in
/// lexicographic order.
pub fn completions(trie: &PatriciaTrie<u32>, prefix: &str, limit: usize) -> (keys: Vec<String>)
    requires
        trie.keys_ok(),
    ensures
        exists|all: Seq<Seq<char>>|
            {
                &&& strictly_sorted(all)
                &&& all.to_set() == keys_with_prefix(trie.stored_keys(), prefix@)
                &&& words_of(keys@) == if limit < all.len() {
                    all.take(limit as int)
                } else {
                    all
                }
            },
{
    let mut keys = trie.get_keys_with_prefix(prefix);
    let ghost all = words_of(keys@);
    keys.truncate(limit);
    proof {
        if limit < all.len() {
            assert(words_of(keys@) =~= all.take(limit as int));
        } else {
            assert(words_of(keys@) =~= all);
        }
    }
    keys
}

/// Reorders the candidates a prefix search turned up, since the trie yields
/// them lexicographically rather than best-first.
pub trait Ranker {
    fn rank(&self, candidates: Vec<String>) -> Vec<String>;
}

/// The ranking that keeps the trie's order.
pub struct DefaultRanker;

impl Ranker for DefaultRanker {
    fn rank(&self, candidates: Vec<String>) -> (ranked: Vec<String>)
        ensures
            ranked == candidates,
    {
        candidates
    }
}

/// A word a misspelling could have been: how far it is, the rank it was
/// loaded at, and how the word file spells it.
#[derive(Debug, Clone, PartialEq, Eq)]
pub struct Correction {
    pub distance: usize,
    pub rank: u32,
    pub word: String,
}

impl View for Correction {
    type V = (usize, u32, Seq<char>);

    open spec fn view(&self) -> (usize, u32, Seq<char>) {
        (self.distance, self.rank, self.word@)
    }
}

impl Ranked for Correction {
    /// Nearest first, then the earliest of the words equally near - the
    /// files are written commonest first - then alphabetically.
    open spec fn ranks_before(a: (usize, u32, Seq<char>), b: (usize, u32, Seq<char>)) -> bool {
        ||| a.0 < b.0
        ||| a.0 == b.0 && a.1 < b.1
        ||| a.0 == b.0 && a.1 == b.1 && lex_lt(a.2, b.2)
    }

    proof fn lemma_ranking(a: (usize, u32, Seq<char>), b: (usize, u32, Seq<char>), c: (usize, u32, Seq<char>)) {
        lemma_lex_irreflexive(a.2);
        if a.0 == b.0 && b.0 == c.0 && a.1 == b.1 && b.1 == c.1 && lex_lt(a.2, b.2) && lex_lt(b.2, c.2) {
            lemma_lex_transitive(a.2, b.2, c.2);
        }
        if a != b && a.0 == b.0 && a.1 == b.1 {
            lemma_lex_total(a.2, b.2);
        }
    }

    fn precedes(&self, other: &Self) -> (before: bool) {
        if self.distance != other.distance {
            return self.distance < other.distance;
        }
        if self.rank != other.rank {
            return self.rank < other.rank;
        }
        let mine = chars_of(self.word.as_str());
        let theirs = chars_of(other.word.as_str());
        chars_before(mine.as_slice(), theirs.as_slice())
    }
}

/// The words of one scope: how each key is spelled, the rank it was loaded
/// at, and the delete index a misspelling of it is looked up by.
pub struct ScopeWords {
    spellings: CharMap<String>,
    ranks: CharMap<u32>,
    speller: SymSpell,
}

/// The spellings and ranks of the keys of `filing` that `variant` is left of
/// when up to [`MAX_EDIT_DISTANCE`] characters are dropped, one pair per key,
/// in the order of `filing`.
pub open spec fn filed_candidates(
    filing: Seq<Seq<char>>,
    spellings: Map<Seq<char>, Seq<char>>,
    ranks: Map<Seq<char>, u32>,
    variant: Seq<char>,
) -> Seq<(Seq<char>, u32)> {
    filing.filter(|k: Seq<char>| deletion_set(k, MAX_EDIT_DISTANCE as nat).contains(variant)).map_values(
        |k: Seq<char>| (spellings[k], ranks[k]),
    )
}

/// The corrections a scope offers for `key` within `max_distance` edits:
/// every key that near, with its rank and spelling.
pub open spec fn corrections_for(
    spellings: Map<Seq<char>, Seq<char>>,
    ranks: Map<Seq<char>, u32>,
    key: Seq<char>,
    max_distance: nat,
) -> Set<(usize, u32, Seq<char>)> {
    Set::new(
        |v: (usize, u32, Seq<char>)|
            exists|k: Seq<char>|
                #![trigger spellings.contains_key(k)]
                spellings.contains_key(k) && edit_distance(key, k) <= max_distance && v == (
                    edit_distance(key, k) as usize,
                    ranks[k],
                    spellings[k],
                ),
    )
}

impl ScopeWords {
    /// How each stored key is spelled.
    pub closed spec fn spelling(&self) -> Map<Seq<char>, Seq<char>> {
        self.spellings.entries().map_values(|word: String| word@)
    }

    /// The rank each stored key was last loaded at.
    pub closed spec fn rank(&self) -> Map<Seq<char>, u32> {
        self.ranks.entries()
    }

    /// The stored keys in the order they were first recorded.
    pub closed spec fn filing(&self) -> Seq<Seq<char>> {
        self.speller.word_seq()
    }

    /// The three maps hold the same keys, and the index reaches the
    /// corrections' distance.
    pub closed spec fn well_formed(&self) -> bool {
        &&& self.spellings.well_formed()
        &&& self.ranks.well_formed()
        &&& self.speller.well_formed()
        &&& self.speller.reach() == MAX_EDIT_DISTANCE
        &&& self.ranks.entries().dom() == self.spellings.entries().dom()
        &&& self.speller.dictionary().dom() == self.spellings.entries().dom()
    }

    /// A scope with no words.
    pub fn new() -> (words: Self)
        ensures
            words.well_formed(),
            words.spelling() == Map::<Seq<char>, Seq<char>>::empty(),
            words.rank() == Map::<Seq<char>, u32>::empty(),
            words.filing() == Seq::<Seq<char>>::empty(),
    {
        let words = ScopeWords { spellings: CharMap::new(), ranks: CharMap::new(), speller: SymSpell::new(MAX_EDIT_DISTANCE) };
        assert(words.spelling() =~= Map::<Seq<char>, Seq<char>>::empty());
        assert(words.speller.dictionary().dom() =~= words.spellings.entries().dom());
        words
    }

    /// Records that `key` is spelled `word` and ranked `rank`, returning
    /// whether the key was already recorded. A key recorded again keeps the
    /// later spelling and rank, and is filed under its deletes once.
    pub fn record(&mut self, key: &str, word: &str, rank: u32) -> (repeated: bool)
        requires
            old(self).well_formed(),
            key@.len() < usize::MAX,
        ensures
            final(self).well_formed(),
            repeated == old(self).spelling().contains_key(key@),
            final(self).spelling() == old(self).spelling().insert(key@, word@),
            final(self).rank() == old(self).rank().insert(key@, rank),
            final(self).filing() == if repeated {
                old(self).filing()
            } else {
                old(self).filing().push(key@)
            },
    {
        let chars = chars_of(key);
        let ghost old_spellings = self.spellings.entries();
        let displaced = self.spellings.insert(crate::text::copy_chars(chars.as_slice()), word.to_owned());
        let repeated = displaced.is_some();
        self.ranks.insert(crate::text::copy_chars(chars.as_slice()), rank);
        if !repeated {
            self.speller.insert(key, 1);
        }
        proof {
            assert(self.spelling() =~= old(self).spelling().insert(key@, word@));
            assert(self.ranks.entries().dom() =~= self.spellings.entries().dom());
            assert(self.speller.dictionary().dom() =~= self.spellings.entries().dom());
        }
        repeated
    }

    /// Replaces every key with the word this scope recorded for it. A key
    /// with no spelling recorded stands in for itself, so a suggestion is
    /// never dropped for want of an entry.
    pub fn spell(&self, keys: Vec<String>) -> (words: Vec<String>)
        requires
            self.well_formed(),
        ensures
            words@.len() == keys@.len(),
            forall|i: int|
                0 <= i < keys@.len() ==> (#[trigger] words@[i])@ == if self.spelling().contains_key(keys@[i]@) {
                    self.spelling()[keys@[i]@]
                } else {
                    keys@[i]@
                },
    {
        let mut words: Vec<String> = Vec::new();
        let mut i: usize = 0;
        while i < keys.len()
            invariant
                self.well_formed(),
                i <= keys@.len(),
                words@.len() == i,
                forall|j: int|
                    0 <= j < i ==> (#[trigger] words@[j])@ == if self.spelling().contains_key(keys@[j]@) {
                        self.spelling()[keys@[j]@]
                    } else {
                        keys@[j]@
                    },
            decreases keys.len() - i,
        {
            let chars = chars_of(keys[i].as_str());
            let word = match self.spellings.get(chars.as_slice()) {
                Some(spelling) => spelling.clone(),
                None => keys[i].clone(),
            };
            words.push(word);
            i = i + 1;
        }
        words
    }

    /// Returns the words filed under `variant`, with the rank each was
    /// loaded at: the words it is left of when up to [`MAX_EDIT_DISTANCE`]
    /// characters are dropped from their keys, each key once, in the order
    /// the keys were first recorded.
    pub fn candidates(&self, variant: &str) -> (found: Vec<(String, u32)>)
        requires
            self.well_formed(),
        ensures
            views(found@) == filed_candidates(self.filing(), self.spelling(), self.rank(), variant@),
            self.filing().no_duplicates(),
            self.filing().to_set() == self.spelling().dom(),
            views(found@).to_set() == Set::new(
                |c: (Seq<char>, u32)|
                    exists|k: Seq<char>|
                        #![trigger self.spelling().contains_key(k)]
                        self.spelling().contains_key(k) && deletion_set(k, MAX_EDIT_DISTANCE as nat).contains(variant@)
                            && c == (self.spelling()[k], self.rank()[k]),
            ),
    {
        let keys = self.speller.filed_under(variant);
        let ghost filed = self.speller.dictionary().dom().filter(
            |w: Seq<char>| deletion_set(w, MAX_EDIT_DISTANCE as nat).contains(variant@),
        );
        let ghost target = Set::new(
            |c: (Seq<char>, u32)|
                exists|k: Seq<char>|
                    #![trigger self.spelling().contains_key(k)]
                    self.spelling().contains_key(k) && deletion_set(k, MAX_EDIT_DISTANCE as nat).contains(variant@)
                        && c == (self.spelling()[k], self.rank()[k]),
        );
        let mut found: Vec<(String, u32)> = Vec::new();
        let mut i: usize = 0;
        while i < keys.len()
            invariant
                self.well_formed(),
                i <= keys@.len(),
                words_of(keys@).to_set() == filed,
                filed == self.speller.dictionary().dom().filter(
                    |w: Seq<char>| deletion_set(w, MAX_EDIT_DISTANCE as nat).contains(variant@),
                ),
                views(found@) == words_of(keys@).take(i as int).map_values(
                    |k: Seq<char>| (self.spelling()[k], self.rank()[k]),
                ),
            decreases keys.len() - i,
        {
            let chars = chars_of(keys[i].as_str());
            let ghost k = keys@[i as int]@;
            proof {
                assert(words_of(keys@)[i as int] == k);
                assert(filed.contains(k));
                assert(self.speller.dictionary().dom().contains(k));
            }
            let word = match self.spellings.get(chars.as_slice()) {
                Some(spelling) => spelling.clone(),
                None => String::new(),
            };
            let rank = match self.ranks.get(chars.as_slice()) {
                Some(rank) => *rank,
                None => 0,
            };
            let ghost before = views(found@);
            found.push((word, rank));
            proof {
                assert(views(found@) =~= before.push((word@, rank)));
                assert(words_of(keys@).take(i + 1) =~= words_of(keys@).take(i as int).push(k));
                assert(words_of(keys@).take(i + 1).map_values(|k: Seq<char>| (self.spelling()[k], self.rank()[k]))
                    =~= words_of(keys@).take(i as int).map_values(
                    |k: Seq<char>| (self.spelling()[k], self.rank()[k]),
                ).push((self.spelling()[k], self.rank()[k])));
            }
            i = i + 1;
        }
        proof {
            let ks = words_of(keys@);
            assert(ks.take(ks.len() as int) =~= ks);
            self.speller.lemma_word_seq();
            assert(self.filing().to_set() =~= self.spelling().dom());
            assert((|w: Seq<char>| deletion_set(w, self.speller.reach()).contains(variant@)) =~= (|k: Seq<char>|
                deletion_set(k, MAX_EDIT_DISTANCE as nat).contains(variant@)));
            assert forall|c: (Seq<char>, u32)| #[trigger] views(found@).to_set().contains(c) <==> target.contains(c) by {
                if views(found@).to_set().contains(c) {
                    let x = choose|x: int| 0 <= x < views(found@).len() && views(found@)[x] == c;
                    assert(ks.to_set().contains(ks[x]));
                    assert(self.spelling().contains_key(ks[x]));
                }
                if target.contains(c) {
                    let k = choose|k: Seq<char>|
                        #![trigger self.spelling().contains_key(k)]
                        self.spelling().contains_key(k) && deletion_set(k, MAX_EDIT_DISTANCE as nat).contains(variant@)
                            && c == (self.spelling()[k], self.rank()[k]);
                    assert(self.speller.dictionary().dom().contains(k));
                    assert(filed.contains(k));
                    let x = choose|x: int| 0 <= x < ks.len() && ks[x] == k;
                    assert(views(found@)[x] == c);
                }
            }
            assert(views(found@).to_set() =~= target);
        }
        found
    }

    /// Returns the words this scope's keys within `max_distance` edits of
    /// `key` stand for, nearest first, then by rank, then alphabetically.
    ///
    /// What comes back is what comparing `key` to every stored key would
    /// have found: the delete index only spares measuring the keys that
    /// cannot be near.
    pub fn correct(&self, key: &str, max_distance: usize) -> (corrections: Vec<Correction>)
        requires
            self.well_formed(),
            max_distance <= MAX_EDIT_DISTANCE,
            key@.len() < usize::MAX,
        ensures
            ranked::<Correction>(views(corrections@)),
            views(corrections@).to_set() == corrections_for(self.spelling(), self.rank(), key@, max_distance as nat),
    {
        let found = self.speller.lookup(key, max_distance);
        let ghost target = corrections_for(self.spelling(), self.rank(), key@, max_distance as nat);
        let ghost reached = suggestions_for(self.speller.dictionary(), key@, max_distance as nat);
        let mut corrections: Vec<Correction> = Vec::new();
        let mut i: usize = 0;
        while i < found.len()
            invariant
                self.well_formed(),
                i <= found@.len(),
                reached == suggestions_for(self.speller.dictionary(), key@, max_distance as nat),
                views(found@).to_set() == reached,
                ranked::<Correction>(views(corrections@)),
                views(corrections@).to_set() == Set::new(
                    |v: (usize, u32, Seq<char>)|
                        exists|j: int|
                            0 <= j < i && v == (
                                found@[j].distance,
                                self.rank()[#[trigger] found@[j].word@],
                                self.spelling()[found@[j].word@],
                            ),
                ),
            decreases found.len() - i,
        {
            let chars = chars_of(found[i].word.as_str());
            let ghost k = found@[i as int].word@;
            proof {
                assert(views(found@)[i as int] == found@[i as int]@);
                assert(views(found@).contains(found@[i as int]@));
                assert(reached.contains(found@[i as int]@));
                assert(self.speller.dictionary().contains_key(k));
                assert(self.speller.dictionary().dom().contains(k));
                assert(self.spellings.entries().contains_key(k));
            }
            let word = match self.spellings.get(chars.as_slice()) {
                Some(spelling) => spelling.clone(),
                None => String::new(),
            };
            let rank = match self.ranks.get(chars.as_slice()) {
                Some(rank) => *rank,
                None => 0,
            };
            let ghost before = views(corrections@).to_set();
            let item = Correction { distance: found[i].distance, rank, word };
            insert_unique(&mut corrections, item);
            proof {
                assert forall|v: (usize, u32, Seq<char>)| #[trigger] views(corrections@).to_set().contains(v) <==> (exists|j: int|
                    0 <= j < i + 1 && v == (
                        found@[j].distance,
                        self.rank()[#[trigger] found@[j].word@],
                        self.spelling()[found@[j].word@],
                    )) by {
                    if exists|j: int|
                        0 <= j < i + 1 && v == (
                            found@[j].distance,
                            self.rank()[#[trigger] found@[j].word@],
                            self.spelling()[found@[j].word@],
                        ) {
                        let j = choose|j: int|
                            0 <= j < i + 1 && v == (
                                found@[j].distance,
                                self.rank()[#[trigger] found@[j].word@],
                                self.spelling()[found@[j].word@],
                            );
                        if j < i {
                            assert(before.contains(v));
                        }
                    }
                    if before.contains(v) {
                        let j = choose|j: int|
                            0 <= j < i && v == (
                                found@[j].distance,
                                self.rank()[#[trigger] found@[j].word@],
                                self.spelling()[found@[j].word@],
                            );
                        assert(0 <= j < i + 1);
                    }
                }
                assert(views(corrections@).to_set() =~= Set::new(
                    |v: (usize, u32, Seq<char>)|
                        exists|j: int|
                            0 <= j < i + 1 && v == (
                                found@[j].distance,
                                self.rank()[#[trigger] found@[j].word@],
                                self.spelling()[found@[j].word@],
                            ),
                ));
            }
            i = i + 1;
        }
        proof {
            let got = views(corrections@).to_set();
            assert forall|v: (usize, u32, Seq<char>)| #[trigger] got.contains(v) <==> target.contains(v) by {
                if got.contains(v) {
                    let j = choose|j: int|
                        0 <= j < found@.len() && v == (
                            found@[j].distance,
                            self.rank()[#[trigger] found@[j].word@],
                            self.spelling()[found@[j].word@],
                        );
                    assert(views(found@)[j] == found@[j]@);
                    assert(views(found@).contains(found@[j]@));
                    let k = found@[j].word@;
                    assert(reached.contains(found@[j]@));
                    assert(self.spelling().contains_key(k));
                }
                if target.contains(v) {
                    let k = choose|k: Seq<char>|
                        #![trigger self.spelling().contains_key(k)]
                        self.spelling().contains_key(k) && edit_distance(key@, k) <= max_distance && v == (
                            edit_distance(key@, k) as usize,
                            self.rank()[k],
                            self.spelling()[k],
                        );
                    let s = (edit_distance(key@, k) as usize, self.speller.dictionary()[k], k);
                    assert(self.spellings.entries().contains_key(k));
                    assert(reached.contains(s));
                    let j = choose|j: int| 0 <= j < views(found@).len() && views(found@)[j] == s;
                    assert(found@[j]@ == s);
                    assert(v == (found@[j].distance, self.rank()[found@[j].word@], self.spelling()[found@[j].word@]));
                }
            }
            assert(got =~= target);
        }
        corrections
    }

    /// The words to offer for a query no key starts with, read as a
    /// misspelling: the first `limit` corrections of `key` within
    /// [`MAX_EDIT_DISTANCE`] edits, or none for a key longer than
    /// [`MAX_CORRECTED_QUERY`] characters.
    pub fn corrections(&self, key: &str, limit: usize) -> (words: Vec<String>)
        requires
            self.well_formed(),
        ensures
            words@.len() <= limit,
            key@.len() > MAX_CORRECTED_QUERY ==> words@.len() == 0,
            key@.len() <= MAX_CORRECTED_QUERY ==> exists|all: Seq<(usize, u32, Seq<char>)>|
                {
                    &&& ranked::<Correction>(all)
                    &&& all.to_set() == corrections_for(
                        self.spelling(),
                        self.rank(),
                        key@,
                        MAX_EDIT_DISTANCE as nat,
                    )
                    &&& words_of(words@) == (if limit < all.len() {
                        all.take(limit as int)
                    } else {
                        all
                    }).map_values(|c: (usize, u32, Seq<char>)| c.2)
                },
    {
        let chars = chars_of(key);
        if chars.len() > MAX_CORRECTED_QUERY {
            return Vec::new();
        }
        let mut found = self.correct(key, MAX_EDIT_DISTANCE);
        let ghost all = views(found@);
        found.truncate(limit);
        let ghost kept = views(found@);
        proof {
            if limit < all.len() {
                assert(kept =~= all.take(limit as int));
            } else {
                assert(kept =~= all);
            }
        }
        let mut words: Vec<String> = Vec::new();
        let mut i: usize = 0;
        while i < found.len()
            invariant
                kept == views(found@),
                i <= kept.len(),
                words_of(words@) == kept.take(i as int).map_values(|c: (usize, u32, Seq<char>)| c.2),
            decreases found.len() - i,
        {
            let word = found[i].word.clone();
            let ghost before = words@;
            words.push(word);
            proof {
                assert(words_of(words@) =~= words_of(before).push(word@));
                assert(kept.take(i + 1) =~= kept.take(i as int).push(kept[i as int]));
                assert(kept.take(i + 1).map_values(|c: (usize, u32, Seq<char>)| c.2) =~= kept.take(
                    i as int,
                ).map_values(|c: (usize, u32, Seq<char>)| c.2).push(kept[i as int].2));
            }
            i = i + 1;
        }
        proof {
            assert(kept.take(kept.len() as int) =~= kept);
            assert(words_of(words@).len() == words@.len());
        }
        words
    }
}

/// The invariant a scope's lock keeps: its words are intact.
pub struct IntactScope;

impl vstd::rwlock::RwLockPredicate<ScopeWords> for IntactScope {
    open spec fn inv(self, words: ScopeWords) -> bool {
        words.well_formed()
    }
}

/// One scope's words, shared between every holder of the handle.
pub type SharedScope = Arc<vstd::rwlock::RwLock<ScopeWords, IntactScope>>;

/// The invariant the table of scopes keeps: the table is intact.
pub struct IntactScopes;

impl vstd::rwlock::RwLockPredicate<CharMap<SharedScope>> for IntactScopes {
    open spec fn inv(self, table: CharMap<SharedScope>) -> bool {
        table.well_formed()
    }
}

/// The words of every scope, keyed by scope name.
///
/// Scoped rather than shared: two scopes may spell the same word differently,
/// and each has to answer with its own, and a misspelling is corrected only
/// by the words of the scope it was typed in. The table lock is held only long
/// enough to copy a handle out of it, so one scope's lookups do not block
/// another's. What a call finds depends on what other threads recorded before
/// it took the locks.
pub struct Scopes {
    scopes: vstd::rwlock::RwLock<CharMap<SharedScope>, IntactScopes>,
}

impl Scopes {
    /// No scopes.
    pub fn new() -> (scopes: Self) {
        let table: CharMap<SharedScope> = CharMap::new();
        Scopes { scopes: vstd::rwlock::RwLock::new(table, Ghost(IntactScopes)) }
    }

    /// Returns the words of `scope`, or `None` if the scope has none.
    pub fn get(&self, scope: &str) -> (found: Option<SharedScope>) {
        let key = chars_of(scope);
        let reading = self.scopes.acquire_read();
        let found = match reading.borrow().get(key.as_slice()) {
            Some(words) => Some(share(words)),
            None => None,
        };
        reading.release_read();
        found
    }

    /// Returns the words of `scope`, registering an empty set first if the
    /// scope has none yet.
    pub fn get_or_create(&self, scope: &str) -> (words: SharedScope) {
        if let Some(words) = self.get(scope) {
            return words;
        }
        let key = chars_of(scope);
        let (mut table, writing) = self.scopes.acquire_write();
        let words = match table.get(key.as_slice()) {
            Some(words) => share(words),
            None => {
                let words: SharedScope = Arc::new(vstd::rwlock::RwLock::new(ScopeWords::new(), Ghost(IntactScope)));
                let handle = share(&words);
                table.insert_new(key, words);
                handle
            },
        };
        writing.release_write(table);
        words
    }

    /// Records in `scope` that `key` is spelled `word` and ranked `rank`,
    /// registering the scope if it is new. Returns whether the key was
    /// already recorded there.
    pub fn record(&self, scope: &str, key: &str, word: &str, rank: u32) -> (repeated: bool)
        requires
            key@.len() < usize::MAX,
    {
        let handle = self.get_or_create(scope);
        let (mut words, writing) = handle.acquire_write();
        let repeated = words.record(key, word, rank);
        writing.release_write(words);
        repeated
    }

    /// Records `word` at `rank` in `scope` under its lower case, the form a
    /// query is matched in, and returns that key to file the word under
    /// elsewhere. Returns `None`, recording nothing, for a word whose lower
    /// case is too long to index.
    pub fn record_word(&self, scope: &str, word: &str, rank: u32) -> (key: Option<String>)
        ensures
            match key {
                Some(k) => k@ == lower_case(word@) && lower_case(word@).len() < usize::MAX,
                None => lower_case(word@).len() >= usize::MAX,
            },
            is_latin1(word@) ==> lower_case(word@) == latin1_lowered(word@),
            is_latin1(word@) && word@.len() < usize::MAX ==> key is Some,
    {
        let key = to_lower_case(word);
        let chars = chars_of(key.as_str());
        if chars.len() == usize::MAX {
            return None;
        }
        self.record(scope, key.as_str(), word, rank);
        Some(key)
    }

    /// Replaces every key with the word `scope` recorded for it. A key with
    /// no spelling recorded - or a scope with none at all - stands in for
    /// itself, so a suggestion is never dropped for want of an entry.
    pub fn spell(&self, scope: &str, keys: Vec<String>) -> (words: Vec<String>)
        ensures
            words@.len() == keys@.len(),
            exists|spelling: Map<Seq<char>, Seq<char>>| words_of(words@) == spelled(spelling, words_of(keys@)),
    {
        let ghost given = words_of(keys@);
        match self.get(scope) {
            Some(handle) => {
                let reading = handle.acquire_read();
                let scope_words = reading.borrow();
                let ghost spelling = scope_words.spelling();
                let words = scope_words.spell(keys);
                reading.release_read();
                assert(words_of(words@) =~= spelled(spelling, given));
                words
            },
            None => {
                assert(words_of(keys@) =~= spelled(Map::empty(), given));
                keys
            },
        }
    }

    /// Returns the words of `scope` that `key` could have been a misspelling
    /// of, with the rank each was loaded at, nearest first and the
    /// earliest-ranked among words equally near. A scope that was never built
    /// has nothing to correct with.
    ///
    /// What comes back is the word and rank of each correction the scope's
    /// words offered when this took the scope's lock, in the order they are
    /// offered: nearest first, then by rank, then alphabetically, every one
    /// within `max_distance` of `key`.
    pub fn correct(&self, scope: &str, key: &str, max_distance: usize) -> (found: Vec<(String, u32)>)
        requires
            key@.len() < usize::MAX,
            max_distance <= MAX_EDIT_DISTANCE,
        ensures
            exists|spelling: Map<Seq<char>, Seq<char>>, rank: Map<Seq<char>, u32>|
                spelling.dom().finite() && views(found@) == corrected_with_ranks(
                    spelling,
                    rank,
                    key@,
                    max_distance as nat,
                ),
    {
        let mut found: Vec<(String, u32)> = Vec::new();
        match self.get(scope) {
            Some(handle) => {
                let reading = handle.acquire_read();
                let scope_words = reading.borrow();
                let ghost (spelling, rank) = (scope_words.spelling(), scope_words.rank());
                proof {
                    scope_words.spellings.lemma_entries();
                    assert(spelling.dom() =~= scope_words.spellings.entries().dom());
                }
                let corrections = scope_words.correct(key, max_distance);
                reading.release_read();
                let ghost offered = views(corrections@);
                proof {
                    lemma_ranked_corrections(offered, corrections_for(spelling, rank, key@, max_distance as nat));
                }
                let mut i: usize = 0;
                while i < corrections.len()
                    invariant
                        offered == views(corrections@),
                        i <= offered.len(),
                        views(found@) == offered.take(i as int).map_values(|c: (usize, u32, Seq<char>)| (c.2, c.1)),
                    decreases corrections.len() - i,
                {
                    let pair = (corrections[i].word.clone(), corrections[i].rank);
                    let ghost before = views(found@);
                    found.push(pair);
                    proof {
                        assert(views(found@) =~= before.push((offered[i as int].2, offered[i as int].1)));
                        assert(offered.take(i + 1) =~= offered.take(i as int).push(offered[i as int]));
                        assert(offered.take(i + 1).map_values(|c: (usize, u32, Seq<char>)| (c.2, c.1))
                            =~= offered.take(i as int).map_values(|c: (usize, u32, Seq<char>)| (c.2, c.1)).push(
                            (offered[i as int].2, offered[i as int].1),
                        ));
                    }
                    i = i + 1;
                }
                proof {
                    assert(offered.take(offered.len() as int) =~= offered);
                    assert(views(found@) == corrected_with_ranks(spelling, rank, key@, max_distance as nat));
                }
            },
            None => {
                proof {
                    let none = corrections_for(Map::empty(), Map::empty(), key@, max_distance as nat);
                    assert(none =~= Set::<(usize, u32, Seq<char>)>::empty());
                    let nothing = Seq::<(usize, u32, Seq<char>)>::empty();
                    assert(nothing.to_set() =~= none);
                    lemma_ranked_corrections(nothing, none);
                    assert(views(found@) =~= ranked_corrections(none).map_values(
                        |c: (usize, u32, Seq<char>)| (c.2, c.1),
                    ));
                    assert(views(found@) == corrected_with_ranks(Map::empty(), Map::empty(), key@, max_distance as nat));
                    assert(Map::<Seq<char>, Seq<char>>::empty().dom() =~= Set::<Seq<char>>::empty());
                }
            },
        }
        found
    }

    /// The words to offer for a query `scope` holds no completion of: the
    /// first `limit` corrections of `key`, or none for a key longer than
    /// [`MAX_CORRECTED_QUERY`] characters or a scope that was never built.
    pub fn corrections(&self, scope: &str, key: &str, limit: usize) -> (words: Vec<String>)
        ensures
            words@.len() <= limit,
            key@.len() > MAX_CORRECTED_QUERY ==> words@.len() == 0,
            key@.len() <= MAX_CORRECTED_QUERY ==> exists|spelling: Map<Seq<char>, Seq<char>>, rank: Map<Seq<char>, u32>|
                words_of(words@) == #[trigger] corrected(spelling, rank, key@, limit as nat),
    {
        match self.get(scope) {
            Some(handle) => {
                let reading = handle.acquire_read();
                let scope_words = reading.borrow();
                let ghost (spelling, rank) = (scope_words.spelling(), scope_words.rank());
                let words = scope_words.corrections(key, limit);
                reading.release_read();
                proof {
                    if key@.len() <= MAX_CORRECTED_QUERY {
                        let target = corrections_for(spelling, rank, key@, MAX_EDIT_DISTANCE as nat);
                        let cs = choose|cs: Seq<(usize, u32, Seq<char>)>|
                            {
                                &&& ranked::<Correction>(cs)
                                &&& cs.to_set() == target
                                &&& words_of(words@) == (if limit < cs.len() {
                                    cs.take(limit as int)
                                } else {
                                    cs
                                }).map_values(|c: (usize, u32, Seq<char>)| c.2)
                            };
                        lemma_ranked_corrections(cs, target);
                    }
                    assert(key@.len() <= MAX_CORRECTED_QUERY ==> words_of(words@) == corrected(
                        spelling,
                        rank,
                        key@,
                        limit as nat,
                    ));
                }
                words
            },
            None => {
                let words: Vec<String> = Vec::new();
                proof {
                    let none = corrections_for(Map::empty(), Map::empty(), key@, MAX_EDIT_DISTANCE as nat);
                    assert(none =~= Set::<(usize, u32, Seq<char>)>::empty());
                    let nothing = Seq::<(usize, u32, Seq<char>)>::empty();
                    assert(nothing.to_set() =~= none);
                    lemma_ranked_corrections(nothing, none);
                    assert(words_of(words@) =~= first(ranked_corrections(none), limit as nat).map_values(
                        |c: (usize, u32, Seq<char>)| c.2,
                    ));
                    assert(words_of(words@) == corrected(Map::empty(), Map::empty(), key@, limit as nat));
                }
                words
            },
        }
    }

    /// Returns the words of `scope` filed under `variant`, with the rank
    /// each was loaded at, or nothing if no word of that scope leaves it
    /// behind.
    pub fn candidates(&self, scope: &str, variant: &str) -> (found: Vec<(String, u32)>)
        ensures
            exists|filing: Seq<Seq<char>>, spelling: Map<Seq<char>, Seq<char>>, rank: Map<Seq<char>, u32>|
                #![trigger filed_candidates(filing, spelling, rank, variant@)]
                filing.no_duplicates() && filing.to_set() == spelling.dom() && views(found@) == filed_candidates(
                    filing,
                    spelling,
                    rank,
                    variant@,
                ),
    {
        match self.get(scope) {
            Some(handle) => {
                let reading = handle.acquire_read();
                let scope_words = reading.borrow();
                let found = scope_words.candidates(variant);
                let ghost (filing, spelling, rank) = (scope_words.filing(), scope_words.spelling(), scope_words.rank());
                reading.release_read();
                assert(views(found@) == filed_candidates(filing, spelling, rank, variant@));
                found
            },
            None => {
                let found: Vec<(String, u32)> = Vec::new();
                proof {
                    let none = Seq::<Seq<char>>::empty();
                    reveal(Seq::filter);
                    assert(filed_candidates(none, Map::empty(), Map::empty(), variant@) =~= views(found@));
                    assert(none.to_set() =~= Map::<Seq<char>, Seq<char>>::empty().dom());
                }
                found
            },
        }
    }
}

impl Default for Scopes {
    fn default() -> (scopes: Self) {
        Scopes::new()
    }
}

/// A scope with finitely many keys offers finitely many corrections.
proof fn lemma_corrections_finite(
    spelling: Map<Seq<char>, Seq<char>>,
    rank: Map<Seq<char>, u32>,
    key: Seq<char>,
    max_distance: nat,
)
    requires
        spelling.dom().finite(),
    ensures
        corrections_for(spelling, rank, key, max_distance).finite(),
{
    let f = |k: Seq<char>| (edit_distance(key, k) as usize, rank[k], spelling[k]);
    let near = spelling.dom().filter(|k: Seq<char>| edit_distance(key, k) <= max_distance);
    near.lemma_map_finite(f);
    assert forall|v: (usize, u32, Seq<char>)| #[trigger] corrections_for(spelling, rank, key, max_distance).contains(v)
        <==> near.map(f).contains(v) by {
        if near.map(f).contains(v) {
            let k = choose|k: Seq<char>| near.contains(k) && f(k) == v;
            assert(spelling.contains_key(k));
        }
        if corrections_for(spelling, rank, key, max_distance).contains(v) {
            let k = choose|k: Seq<char>|
                #![trigger spelling.contains_key(k)]
                spelling.contains_key(k) && edit_distance(key, k) <= max_distance && v == (
                    edit_distance(key, k) as usize,
                    rank[k],
                    spelling[k],
                );
            assert(near.contains(k));
        }
    }
    assert(corrections_for(spelling, rank, key, max_distance) =~= near.map(f));
}

/// Whether `pair` is the word and rank of a key of the scope within
/// `max_distance` edits of `key`.
pub open spec fn near_key_of(
    spelling: Map<Seq<char>, Seq<char>>,
    rank: Map<Seq<char>, u32>,
    key: Seq<char>,
    max_distance: nat,
    pair: (Seq<char>, u32),
) -> bool {
    exists|k: Seq<char>|
        #![trigger spelling.contains_key(k)]
        spelling.contains_key(k) && edit_distance(key, k) <= max_distance && pair == (spelling[k], rank[k])
}

/// Whatever words a scope holds, it offers as corrections of `key` within
/// `max_distance` edits the word and rank of every key it holds that near,
/// and nothing that is not the word and rank of such a key.
pub proof fn law_corrections_are_the_near_keys(
    spelling: Map<Seq<char>, Seq<char>>,
    rank: Map<Seq<char>, u32>,
    key: Seq<char>,
    max_distance: nat,
)
    requires
        spelling.dom().finite(),
    ensures
        forall|k: Seq<char>|
            #![trigger spelling.contains_key(k)]
            spelling.contains_key(k) && edit_distance(key, k) <= max_distance ==> corrected_with_ranks(
                spelling,
                rank,
                key,
                max_distance,
            ).contains((spelling[k], rank[k])),
        forall|j: int|
            0 <= j < corrected_with_ranks(spelling, rank, key, max_distance).len() ==> near_key_of(
                spelling,
                rank,
                key,
                max_distance,
                #[trigger] corrected_with_ranks(spelling, rank, key, max_distance)[j],
            ),
{
    let found = corrections_for(spelling, rank, key, max_distance);
    lemma_corrections_finite(spelling, rank, key, max_distance);
    crate::ranked::lemma_ranked_exists::<Correction>(found);
    let all = ranked_corrections(found);
    assert(all.to_set() == found);
    let offered = corrected_with_ranks(spelling, rank, key, max_distance);
    assert forall|k: Seq<char>|
        #![trigger spelling.contains_key(k)]
        spelling.contains_key(k) && edit_distance(key, k) <= max_distance implies offered.contains(
        (spelling[k], rank[k]),
    ) by {
        let c = (edit_distance(key, k) as usize, rank[k], spelling[k]);
        assert(found.contains(c));
        assert(all.to_set().contains(c));
        let j = choose|j: int| 0 <= j < all.len() && all[j] == c;
        assert(offered[j] == (spelling[k], rank[k]));
    }
    assert forall|j: int| 0 <= j < offered.len() implies near_key_of(
        spelling,
        rank,
        key,
        max_distance,
        #[trigger] offered[j],
    ) by {
        assert(all.to_set().contains(all[j]));
        assert(found.contains(all[j]));
        let k = choose|k: Seq<char>|
            #![trigger spelling.contains_key(k)]
            spelling.contains_key(k) && edit_distance(key, k) <= max_distance && all[j] == (
                edit_distance(key, k) as usize,
                rank[k],
                spelling[k],
            );
        assert(offered[j] == (spelling[k], rank[k]));
    }
}

/// A key recorded in a scope is offered as a correction of every query
/// within the distance asked: after `record(key, word, rank)`, what
/// `correct(query, max_distance)` answers holds `word` at `rank` and at its
/// distance whenever the query is that near the key.
pub proof fn law_recorded_key_is_corrected(
    before: ScopeWords,
    after: ScopeWords,
    key: Seq<char>,
    word: Seq<char>,
    rank: u32,
    query: Seq<char>,
    max_distance: nat,
    offered: Seq<(usize, u32, Seq<char>)>,
)
    requires
        after.spelling() == before.spelling().insert(key, word),
        after.rank() == before.rank().insert(key, rank),
        offered.to_set() == corrections_for(after.spelling(), after.rank(), query, max_distance),
        edit_distance(query, key) <= max_distance,
    ensures
        offered.contains((edit_distance(query, key) as usize, rank, word)),
{
    let c = (edit_distance(query, key) as usize, rank, word);
    assert(after.spelling().contains_key(key));
    assert(corrections_for(after.spelling(), after.rank(), query, max_distance).contains(c));
    assert(offered.to_set().contains(c));
}

/// The keys of `keys` in lexicographic order.
pub open spec fn sorted_keys(keys: Set<Seq<char>>) -> Seq<Seq<char>> {
    choose|all: Seq<Seq<char>>| strictly_sorted(all) && all.to_set() == keys
}

/// The corrections of `found` in the order they are offered: nearest first,
/// then by rank, then alphabetically.
pub open spec fn ranked_corrections(found: Set<(usize, u32, Seq<char>)>) -> Seq<(usize, u32, Seq<char>)> {
    choose|all: Seq<(usize, u32, Seq<char>)>| ranked::<Correction>(all) && all.to_set() == found
}

/// The first `limit` elements of `s`, or all of them if it has fewer.
pub open spec fn first<A>(s: Seq<A>, limit: nat) -> Seq<A> {
    if limit < s.len() {
        s.take(limit as int)
    } else {
        s
    }
}

/// The words of the first `limit` corrections a scope with spellings
/// `spelling` and ranks `rank` offers for `key`, in the order they are
/// offered.
pub open spec fn corrected(
    spelling: Map<Seq<char>, Seq<char>>,
    rank: Map<Seq<char>, u32>,
    key: Seq<char>,
    limit: nat,
) -> Seq<Seq<char>> {
    first(ranked_corrections(corrections_for(spelling, rank, key, MAX_EDIT_DISTANCE as nat)), limit).map_values(
        |c: (usize, u32, Seq<char>)| c.2,
    )
}

/// The word and rank of each correction a scope with spellings `spelling`
/// and ranks `rank` offers for `key` within `max_distance` edits, in the
/// order they are offered.
pub open spec fn corrected_with_ranks(
    spelling: Map<Seq<char>, Seq<char>>,
    rank: Map<Seq<char>, u32>,
    key: Seq<char>,
    max_distance: nat,
) -> Seq<(Seq<char>, u32)> {
    ranked_corrections(corrections_for(spelling, rank, key, max_distance)).map_values(
        |c: (usize, u32, Seq<char>)| (c.2, c.1),
    )
}

/// Each of `keys` in the spelling `spelling` records for it, or itself where
/// none is recorded.
pub open spec fn spelled(spelling: Map<Seq<char>, Seq<char>>, keys: Seq<Seq<char>>) -> Seq<Seq<char>> {
    keys.map_values(
        |k: Seq<char>|
            if spelling.contains_key(k) {
                spelling[k]
            } else {
                k
            },
    )
}

/// What a scope with spellings `spelling` and ranks `rank` answers for `key`,
/// the keys `completing` starting with it: the first `limit` of them in
/// lexicographic order, spelled; or, if there are none to give, the first
/// `limit` corrections of a key no longer than [`MAX_CORRECTED_QUERY`]; or
/// nothing.
pub open spec fn answer(
    completing: Set<Seq<char>>,
    spelling: Map<Seq<char>, Seq<char>>,
    rank: Map<Seq<char>, u32>,
    key: Seq<char>,
    limit: nat,
) -> Seq<Seq<char>> {
    if limit > 0 && completing != Set::<Seq<char>>::empty() {
        spelled(spelling, first(sorted_keys(completing), limit))
    } else if key.len() <= MAX_CORRECTED_QUERY {
        corrected(spelling, rank, key, limit)
    } else {
        Seq::empty()
    }
}

/// A ranked sequence of corrections holding exactly `found` is the one
/// `ranked_corrections` names.
proof fn lemma_ranked_corrections(all: Seq<(usize, u32, Seq<char>)>, found: Set<(usize, u32, Seq<char>)>)
    requires
        ranked::<Correction>(all),
        all.to_set() == found,
    ensures
        ranked_corrections(found) == all,
{
    let chosen = ranked_corrections(found);
    assert(ranked::<Correction>(chosen) && chosen.to_set() == found);
    law_ranked_unique::<Correction>(chosen, all);
}

/// A strictly sorted sequence holding exactly `keys` is the one
/// `sorted_keys` names.
proof fn lemma_sorted_keys(all: Seq<Seq<char>>, keys: Set<Seq<char>>)
    requires
        strictly_sorted(all),
        all.to_set() == keys,
    ensures
        sorted_keys(keys) == all,
{
    let chosen = sorted_keys(keys);
    assert(strictly_sorted(chosen) && chosen.to_set() == keys);
    law_listing_determined(chosen, all);
}

/// The answer one scope gives to a query for `key`: the first `limit` keys
/// of `trie` that start with it, in the spelling the scope recorded, or - if
/// no key does - the first `limit` corrections of it read as a misspelling.
///
/// A prefix match is preferred to a correction: a caller mid-word has a
/// well-formed query, and its completions are what it is typing.
pub fn suggestions_in(trie: &PatriciaTrie<u32>, words: &ScopeWords, key: &str, limit: usize) -> (answer_words: Vec<
    String,
>)
    requires
        trie.keys_ok(),
        words.well_formed(),
    ensures
        words_of(answer_words@) == answer(
            keys_with_prefix(trie.stored_keys(), key@),
            words.spelling(),
            words.rank(),
            key@,
            limit as nat,
        ),
        answer_words@.len() <= limit,
        ({
            let completing = keys_with_prefix(trie.stored_keys(), key@);
            &&& completing.finite()
            &&& limit > 0 && completing.len() > 0 ==> answer_words@.len() == if limit < completing.len() {
                limit as nat
            } else {
                completing.len()
            }
            &&& completing.len() == 0 && key@.len() > MAX_CORRECTED_QUERY ==> answer_words@.len() == 0
        }),
{
    let found = completions(trie, key, limit);
    let ghost completing = keys_with_prefix(trie.stored_keys(), key@);
    let ghost all = choose|all: Seq<Seq<char>>|
        {
            &&& strictly_sorted(all)
            &&& all.to_set() == completing
            &&& words_of(found@) == if limit < all.len() {
                all.take(limit as int)
            } else {
                all
            }
        };
    proof {
        assert forall|i: int, j: int| 0 <= i < all.len() && 0 <= j < all.len() && i != j implies all[i] != all[j] by {
            if i < j {
                crate::text::lemma_lex_irreflexive(all[i]);
            } else {
                crate::text::lemma_lex_irreflexive(all[j]);
            }
        }
        all.unique_seq_to_set();
        assert(words_of(found@).len() == found@.len());
        lemma_sorted_keys(all, completing);
        if all.len() > 0 {
            assert(completing.contains(all[0]));
        }
        if completing != Set::<Seq<char>>::empty() {
            if !(exists|x: Seq<char>| completing.contains(x)) {
                assert(completing =~= Set::<Seq<char>>::empty());
            }
            let k = choose|x: Seq<char>| completing.contains(x);
            assert(all.to_set().contains(k));
            assert(all.len() > 0);
        } else {
            assert(all.len() == 0) by {
                if all.len() > 0 {
                    assert(all.to_set().contains(all[0]));
                }
            }
        }
    }
    if found.len() > 0 {
        let ranked = DefaultRanker.rank(found);
        let answer_words = words.spell(ranked);
        proof {
            assert(words_of(answer_words@) =~= spelled(words.spelling(), words_of(found@)));
        }
        answer_words
    } else {
        let answer_words = words.corrections(key, limit);
        proof {
            if key@.len() <= MAX_CORRECTED_QUERY {
                let cs = choose|cs: Seq<(usize, u32, Seq<char>)>|
                    {
                        &&& ranked::<Correction>(cs)
                        &&& cs.to_set() == corrections_for(
                            words.spelling(),
                            words.rank(),
                            key@,
                            MAX_EDIT_DISTANCE as nat,
                        )
                        &&& words_of(answer_words@) == (if limit < cs.len() {
                            cs.take(limit as int)
                        } else {
                            cs
                        }).map_values(|c: (usize, u32, Seq<char>)| c.2)
                    };
                lemma_ranked_corrections(
                    cs,
                    corrections_for(words.spelling(), words.rank(), key@, MAX_EDIT_DISTANCE as nat),
                );
            } else {
                assert(words_of(answer_words@) =~= Seq::<Seq<char>>::empty());
            }
        }
        answer_words
    }
}

/// The answer to `query` in `scope`: what [`suggestions_in`] gives for the
/// lower case of the query, the form the keys are filed in, and the scope's
/// words as they stand when it takes the scope's lock, or for no words at all
/// if the scope was never registered.
pub fn suggestions(trie: &PatriciaTrie<u32>, scopes: &Scopes, scope: &str, query: &str, limit: usize) -> (words: Vec<
    String,
>)
    requires
        trie.keys_ok(),
    ensures
        exists|spelling: Map<Seq<char>, Seq<char>>, rank: Map<Seq<char>, u32>|
            words_of(words@) == answer(keys_with_prefix(trie.stored_keys(), lower_case(query@)), spelling, rank, lower_case(query@), limit as nat),
        is_latin1(query@) ==> lower_case(query@) == latin1_lowered(query@),
        words@.len() <= limit,
        ({
            let completing = keys_with_prefix(trie.stored_keys(), lower_case(query@));
            &&& completing.finite()
            &&& limit > 0 && completing.len() > 0 ==> words@.len() == if limit < completing.len() {
                limit as nat
            } else {
                completing.len()
            }
            &&& completing.len() == 0 && lower_case(query@).len() > MAX_CORRECTED_QUERY ==> words@.len() == 0
        }),
{
    let lowered = to_lower_case(query);
    let key = lowered.as_str();
    match scopes.get(scope) {
        Some(handle) => {
            let reading = handle.acquire_read();
            let scope_words = reading.borrow();
            let ghost (spelling, rank) = (scope_words.spelling(), scope_words.rank());
            let words = suggestions_in(trie, scope_words, key, limit);
            reading.release_read();
            assert(words_of(words@) == answer(keys_with_prefix(trie.stored_keys(), key@), spelling, rank, key@, limit as nat));
            words
        },
        None => {
            let nothing = ScopeWords::new();
            let words = suggestions_in(trie, &nothing, key, limit);
            assert(words_of(words@) == answer(
                keys_with_prefix(trie.stored_keys(), key@),
                nothing.spelling(),
                nothing.rank(),
                key@,
                limit as nat,
            ));
            words
        },
    }
}

/// The entries of a trie holding `entries` once the words of a word file are
/// put into it in file order, each under its lower case, ranked by its
/// position in the file as a `u32` holds it (modulo 2^32). An empty key is
/// not stored, a lower case too long to record is skipped, and a table that
/// can count no more keys takes no more.
pub open spec fn loaded(entries: Map<Seq<char>, u32>, words: Seq<Seq<char>>) -> Map<Seq<char>, u32>
    decreases words.len(),
{
    if words.len() == 0 {
        entries
    } else {
        let before = loaded(entries, words.drop_last());
        let key = lower_case(words.last());
        let rank = ((words.len() - 1) % 0x1_0000_0000) as u32;
        if key.len() == 0 || key.len() >= usize::MAX || before.dom().len() >= usize::MAX {
            before
        } else {
            before.insert(key, rank)
        }
    }
}

/// Loads one scope's word file, its words in file order: registers the
/// scope, then records each word in it under its lower case at its position
/// in the file, and puts that key into `trie` with the same rank. A word
/// repeated later in the file keeps the later rank.
pub fn load_scope(trie: &mut PatriciaTrie<u32>, scopes: &Scopes, scope: &str, words: &[&str])
    requires
        old(trie).table_ok(),
    ensures
        final(trie).table_ok(),
        final(trie).table() == loaded(old(trie).table(), words@.map_values(|w: &str| w@)),
        forall|i: int|
            0 <= i < words@.len() && is_latin1(#[trigger] words@[i]@) ==> lower_case(words@[i]@) == latin1_lowered(
                words@[i]@,
            ),
{
    scopes.get_or_create(scope);
    let mut i: usize = 0;
    while i < words.len()
        invariant
            trie.table_ok(),
            i <= words@.len(),
            trie.table() == loaded(old(trie).table(), words@.take(i as int).map_values(|w: &str| w@)),
            forall|j: int|
                0 <= j < i && is_latin1(#[trigger] words@[j]@) ==> lower_case(words@[j]@) == latin1_lowered(
                    words@[j]@,
                ),
        decreases words.len() - i,
    {
        let ghost done = words@.take(i as int).map_values(|w: &str| w@);
        let ghost next = words@.take(i + 1).map_values(|w: &str| w@);
        proof {
            assert(next.drop_last() =~= done);
            assert(next.last() == words@[i as int]@);
            trie.lemma_table_ok();
        }
        let rank = ((i as u64) % 0x1_0000_0000u64) as u32;
        if let Some(key) = scopes.record_word(scope, words[i], rank) {
            if trie.get_size() < usize::MAX {
                trie.put(key, rank);
            }
        }
        i = i + 1;
    }
    assert(words@.take(words@.len() as int) =~= words@);
}

/// Loading adds at most one key per word and drops none it started with.
proof fn lemma_loaded_grows(entries: Map<Seq<char>, u32>, words: Seq<Seq<char>>)
    requires
        entries.dom().finite(),
    ensures
        loaded(entries, words).dom().finite(),
        loaded(entries, words).dom().len() <= entries.dom().len() + words.len(),
    decreases words.len(),
{
    if words.len() > 0 {
        let before = loaded(entries, words.drop_last());
        lemma_loaded_grows(entries, words.drop_last());
        let key = lower_case(words.last());
        if before.dom().contains(key) {
            assert(before.insert(key, 0).dom() =~= before.dom());
        }
        assert(before.insert(key, 0).dom() =~= before.dom().insert(key));
        assert forall|r: u32| #[trigger] before.insert(key, r).dom() == before.dom().insert(key) by {
            assert(before.insert(key, r).dom() =~= before.dom().insert(key));
        }
    }
}

/// Every word of a loaded file is found afterwards under its lower case, so
/// every query whose lower case begins that key completes to it, and the
/// rank it is found at is its line's position in the file if no later line
/// has the same lower case. Nothing is dropped where the table has room for
/// the whole file and the word's lower case is neither empty nor too long to
/// index.
pub proof fn law_loaded_words_are_found(
    entries: Map<Seq<char>, u32>,
    words: Seq<Seq<char>>,
    i: int,
    query: Seq<char>,
)
    requires
        entries.dom().finite(),
        entries.dom().len() + words.len() < usize::MAX,
        0 <= i < words.len(),
        0 < lower_case(words[i]).len() < usize::MAX,
    ensures
        loaded(entries, words).contains_key(lower_case(words[i])),
        is_prefix(lower_case(query), lower_case(words[i])) ==> keys_with_prefix(
            loaded(entries, words).dom(),
            lower_case(query),
        ).contains(lower_case(words[i])),
        (forall|j: int| i < j < words.len() ==> lower_case(#[trigger] words[j]) != lower_case(words[i])) ==> loaded(
            entries,
            words,
        )[lower_case(words[i])] == (i % 0x1_0000_0000) as u32,
    decreases words.len(),
{
    let key = lower_case(words[i]);
    let n = words.len() - 1;
    let rest = words.drop_last();
    let before = loaded(entries, rest);
    lemma_loaded_grows(entries, rest);
    if i < n {
        assert(rest[i] == words[i]);
        law_loaded_words_are_found(entries, rest, i, query);
        if forall|j: int| i < j < words.len() ==> lower_case(#[trigger] words[j]) != key {
            assert forall|j: int| i < j < rest.len() implies lower_case(#[trigger] rest[j]) != lower_case(rest[i]) by {
                assert(rest[j] == words[j]);
            }
            assert(lower_case(words[n]) != key);
        }
    }
}

/// Whether none of `names` is the default scope: the service does not start
/// without one, since answering every query with nothing looks healthy while
/// being useless.
pub fn lacks_default_scope(names: &[String]) -> (lacking: bool)
    ensures
        lacking == !exists|i: int| 0 <= i < names@.len() && (#[trigger] names@[i])@ == DEFAULT_SCOPE@,
{
    let wanted = chars_of(DEFAULT_SCOPE);
    let mut i: usize = 0;
    while i < names.len()
        invariant
            wanted@ == DEFAULT_SCOPE@,
            i <= names@.len(),
            forall|j: int| 0 <= j < i ==> (#[trigger] names@[j])@ != DEFAULT_SCOPE@,
        decreases names.len() - i,
    {
        let name = chars_of(names[i].as_str());
        if !chars_before(name.as_slice(), wanted.as_slice()) && !chars_before(wanted.as_slice(), name.as_slice()) {
            proof {
                if name@ != wanted@ {
                    lemma_lex_total(name@, wanted@);
                }
            }
            return false;
        }
        proof {
            if name@ == wanted@ {
                lemma_lex_irreflexive(name@);
            }
        }
        i = i + 1;
    }
    true
}

} // verus!
