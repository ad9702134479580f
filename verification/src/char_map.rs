//! A map keyed by words, kept as a vector of keys in lexicographic order with
//! the values beside them, so a key is found by binary search.
use vstd::prelude::*;
use crate::ranked::{Ranked, lemma_ranked_distinct, lemma_ranked_insert, ranked, views};
use crate::text::{chars_before, lemma_lex_total, lemma_lex_transitive, lex_lt, strictly_sorted, string_of, words_of};

verus! {

/// Words mapped to values: the keys strictly increasing, each value at the
/// position of its key.
pub struct CharMap<V> {
    keys: Vec<Vec<char>>,
    values: Vec<V>,
}

/// The position of `k` among `ks`.
pub open spec fn position(ks: Seq<Seq<char>>, k: Seq<char>) -> int {
    choose|i: int| 0 <= i < ks.len() && ks[i] == k
}

/// In a strictly increasing sequence the position of each element is where
/// it stands.
pub proof fn lemma_position(ks: Seq<Seq<char>>, i: int)
    requires
        ranked::<Vec<char>>(ks),
        0 <= i < ks.len(),
    ensures
        position(ks, ks[i]) == i,
{
    let p = position(ks, ks[i]);
    assert(0 <= p < ks.len() && ks[p] == ks[i]);
    if p != i {
        lemma_ranked_distinct::<Vec<char>>(ks, p, i);
    }
}

impl<V> CharMap<V> {
    /// The keys, in order.
    pub closed spec fn key_seq(&self) -> Seq<Seq<char>> {
        views(self.keys@)
    }

    /// The keys are strictly increasing and each has a value.
    pub closed spec fn well_formed(&self) -> bool {
        &&& self.keys@.len() == self.values@.len()
        &&& ranked::<Vec<char>>(self.key_seq())
    }

    /// The map from each key to its value.
    pub closed spec fn entries(&self) -> Map<Seq<char>, V> {
        Map::new(
            |k: Seq<char>| self.key_seq().contains(k),
            |k: Seq<char>| self.values@[position(self.key_seq(), k)],
        )
    }

    /// An intact map holds finitely many keys, as many as it stores.
    pub proof fn lemma_entries(&self)
        requires
            self.well_formed(),
        ensures
            self.entries().dom().finite(),
            self.entries().dom().len() == self.key_seq().len(),
    {
        let ks = self.key_seq();
        assert(self.entries().dom() =~= ks.to_set());
        assert forall|i: int, j: int| 0 <= i < ks.len() && 0 <= j < ks.len() && i != j implies ks[i] != ks[j] by {
            lemma_ranked_distinct::<Vec<char>>(ks, i, j);
        }
        ks.unique_seq_to_set();
    }

    /// An empty map.
    pub fn new() -> (map: Self)
        ensures
            map.well_formed(),
            map.entries() == Map::<Seq<char>, V>::empty(),
    {
        let map = CharMap { keys: Vec::new(), values: Vec::new() };
        assert(map.entries() =~= Map::<Seq<char>, V>::empty());
        map
    }

    /// Returns how many keys the map holds.
    pub fn len(&self) -> (n: usize)
        requires
            self.well_formed(),
        ensures
            n == self.entries().dom().len(),
    {
        proof {
            self.lemma_entries();
        }
        assert(self.key_seq().len() == self.keys@.len());
        self.keys.len()
    }

    /// Finds `key`: `Ok` with its position if it is stored, `Err` with the
    /// position it would be stored at if not.
    fn find(&self, key: &[char]) -> (at: Result<usize, usize>)
        requires
            self.well_formed(),
        ensures
            match at {
                Ok(i) => i < self.key_seq().len() && self.key_seq()[i as int] == key@,
                Err(i) => {
                    &&& i <= self.key_seq().len()
                    &&& !self.key_seq().contains(key@)
                    &&& forall|j: int| 0 <= j < i ==> lex_lt(#[trigger] self.key_seq()[j], key@)
                    &&& forall|j: int| i <= j < self.key_seq().len() ==> lex_lt(key@, #[trigger] self.key_seq()[j])
                },
            },
    {
        let ghost ks = self.key_seq();
        let mut lo: usize = 0;
        let mut hi: usize = self.keys.len();
        while lo < hi
            invariant
                ks == self.key_seq(),
                self.well_formed(),
                lo <= hi <= ks.len(),
                forall|j: int| 0 <= j < lo ==> lex_lt(#[trigger] ks[j], key@),
                forall|j: int| hi <= j < ks.len() ==> lex_lt(key@, #[trigger] ks[j]),
            decreases hi - lo,
        {
            let mid = lo + (hi - lo) / 2;
            assert(ks[mid as int] == self.keys@[mid as int]@);
            if chars_before(self.keys[mid].as_slice(), key) {
                proof {
                    assert forall|j: int| 0 <= j < mid + 1 implies lex_lt(#[trigger] ks[j], key@) by {
                        if j < mid {
                            assert(lex_lt(ks[j], ks[mid as int]));
                            lemma_lex_transitive(ks[j], ks[mid as int], key@);
                        }
                    }
                }
                lo = mid + 1;
            } else if chars_before(key, self.keys[mid].as_slice()) {
                proof {
                    assert forall|j: int| mid <= j < ks.len() implies lex_lt(key@, #[trigger] ks[j]) by {
                        if j > mid {
                            assert(lex_lt(ks[mid as int], ks[j]));
                            lemma_lex_transitive(key@, ks[mid as int], ks[j]);
                        }
                    }
                }
                hi = mid;
            } else {
                proof {
                    if ks[mid as int] != key@ {
                        lemma_lex_total(ks[mid as int], key@);
                    }
                }
                return Ok(mid);
            }
        }
        proof {
            assert forall|j: int| 0 <= j < ks.len() implies ks[j] != key@ by {
                if j < lo {
                    <Vec<char> as Ranked>::lemma_ranking(key@, key@, key@);
                } else {
                    <Vec<char> as Ranked>::lemma_ranking(key@, key@, key@);
                }
            }
        }
        Err(lo)
    }

    /// Returns the value stored under `key`, or `None` if it is absent.
    pub fn get(&self, key: &[char]) -> (found: Option<&V>)
        requires
            self.well_formed(),
        ensures
            match found {
                Some(v) => self.entries().contains_key(key@) && *v == self.entries()[key@],
                None => !self.entries().contains_key(key@),
            },
    {
        match self.find(key) {
            Ok(i) => {
                proof {
                    lemma_position(self.key_seq(), i as int);
                }
                Some(&self.values[i])
            },
            Err(_) => None,
        }
    }

    /// Stores `value` under `key`, returning the value it displaced, if any.
    pub fn insert(&mut self, key: Vec<char>, value: V) -> (displaced: Option<V>)
        requires
            old(self).well_formed(),
        ensures
            final(self).well_formed(),
            final(self).entries() == old(self).entries().insert(key@, value),
            displaced == if old(self).entries().contains_key(key@) {
                Some(old(self).entries()[key@])
            } else {
                None::<V>
            },
    {
        let ghost old_map = self.entries();
        match self.find(key.as_slice()) {
            Ok(i) => {
                let ghost ks = self.key_seq();
                proof {
                    lemma_position(ks, i as int);
                }
                let mut swapped = value;
                std::mem::swap(&mut self.values[i], &mut swapped);
                proof {
                    assert(self.key_seq() == ks);
                    assert forall|k: Seq<char>| #[trigger] self.entries().contains_key(k) implies self.entries()[k]
                        == old_map.insert(key@, value)[k] by {
                        let j = choose|j: int| 0 <= j < ks.len() && ks[j] == k;
                        lemma_position(ks, j);
                    }
                    assert(self.entries() =~= old_map.insert(key@, value));
                }
                Some(swapped)
            },
            Err(at) => {
                let ghost (old_keys, old_values) = (self.key_seq(), self.values@);
                let ghost k = key@;
                self.keys.insert(at, key);
                self.values.insert(at, value);
                proof {
                    assert(self.key_seq() =~= old_keys.insert(at as int, k));
                    Self::lemma_inserted(old_keys, old_values, self.key_seq(), self.values@, at as int, k, value);
                }
                None
            },
        }
    }

    /// Removes `key` and returns its value, or `None` if it is absent.
    pub fn remove(&mut self, key: &[char]) -> (removed: Option<V>)
        requires
            old(self).well_formed(),
        ensures
            final(self).well_formed(),
            final(self).entries() == old(self).entries().remove(key@),
            removed == if old(self).entries().contains_key(key@) {
                Some(old(self).entries()[key@])
            } else {
                None::<V>
            },
    {
        let ghost old_map = self.entries();
        match self.find(key) {
            Ok(i) => {
                let ghost (ks, vs) = (self.key_seq(), self.values@);
                proof {
                    lemma_position(ks, i as int);
                }
                self.keys.remove(i);
                let value = self.values.remove(i);
                proof {
                    let nks = self.key_seq();
                    assert(nks =~= ks.remove(i as int));
                    assert forall|a: int, b: int| 0 <= a < b < nks.len() implies <Vec<char> as Ranked>::ranks_before(
                        #[trigger] nks[a],
                        #[trigger] nks[b],
                    ) by {
                        let (x, y) = (if a < i { a } else { a + 1 }, if b < i { b } else { b + 1 });
                        assert(nks[a] == ks[x] && nks[b] == ks[y]);
                        assert(<Vec<char> as Ranked>::ranks_before(ks[x], ks[y]));
                    }
                    assert forall|k: Seq<char>| #[trigger] self.entries().contains_key(k) <==> old_map.remove(key@).contains_key(k) by {
                        if nks.contains(k) {
                            let j = choose|j: int| 0 <= j < nks.len() && nks[j] == k;
                            let x = if j < i { j } else { j + 1 };
                            assert(ks[x] == k);
                            if k == key@ {
                                lemma_ranked_distinct::<Vec<char>>(ks, x, i as int);
                            }
                        }
                        if old_map.contains_key(k) && k != key@ {
                            let j = choose|j: int| 0 <= j < ks.len() && ks[j] == k;
                            if j < i {
                                assert(nks[j] == k);
                            } else {
                                assert(nks[j - 1] == k);
                            }
                        }
                    }
                    assert forall|k: Seq<char>| #[trigger] self.entries().contains_key(k) implies self.entries()[k]
                        == old_map[k] by {
                        let j = choose|j: int| 0 <= j < nks.len() && nks[j] == k;
                        lemma_position(nks, j);
                        let x = if j < i { j } else { j + 1 };
                        assert(ks[x] == k);
                        lemma_position(ks, x);
                    }
                    assert(self.entries() =~= old_map.remove(key@));
                }
                Some(value)
            },
            Err(_) => {
                assert(old_map.remove(key@) =~= old_map);
                None
            },
        }
    }

    /// Removes every key.
    pub fn clear(&mut self)
        ensures
            final(self).well_formed(),
            final(self).entries() == Map::<Seq<char>, V>::empty(),
    {
        self.keys = Vec::new();
        self.values = Vec::new();
        assert(self.entries() =~= Map::<Seq<char>, V>::empty());
    }

    /// Returns every key, in lexicographic order.
    pub fn keys(&self) -> (keys: Vec<String>)
        requires
            self.well_formed(),
        ensures
            strictly_sorted(words_of(keys@)),
            words_of(keys@).to_set() == self.entries().dom(),
    {
        let ghost ks = self.key_seq();
        let mut keys: Vec<String> = Vec::new();
        let mut i: usize = 0;
        while i < self.keys.len()
            invariant
                ks == self.key_seq(),
                i <= ks.len(),
                words_of(keys@) == ks.take(i as int),
            decreases self.keys.len() - i,
        {
            let key = string_of(self.keys[i].as_slice());
            let ghost before = keys@;
            keys.push(key);
            proof {
                assert(words_of(keys@) =~= words_of(before).push(key@));
                assert(ks.take(i + 1) =~= ks.take(i as int).push(ks[i as int]));
            }
            i = i + 1;
        }
        proof {
            assert(ks.take(ks.len() as int) =~= ks);
            assert forall|a: int, b: int| 0 <= a < b < ks.len() implies lex_lt(#[trigger] ks[a], #[trigger] ks[b]) by {
                assert(<Vec<char> as Ranked>::ranks_before(ks[a], ks[b]));
            }
            assert(self.entries().dom() =~= ks.to_set());
        }
        keys
    }

    /// The map after a new key is stored at position `at` of its keys.
    proof fn lemma_inserted(
        old_keys: Seq<Seq<char>>,
        old_values: Seq<V>,
        new_keys: Seq<Seq<char>>,
        new_values: Seq<V>,
        at: int,
        key: Seq<char>,
        value: V,
    )
        requires
            ranked::<Vec<char>>(old_keys),
            old_keys.len() == old_values.len(),
            0 <= at <= old_keys.len(),
            forall|j: int| 0 <= j < at ==> lex_lt(#[trigger] old_keys[j], key),
            forall|j: int| at <= j < old_keys.len() ==> lex_lt(key, #[trigger] old_keys[j]),
            new_keys == old_keys.insert(at, key),
            new_values == old_values.insert(at, value),
        ensures
            ranked::<Vec<char>>(new_keys),
            Map::new(
                |k: Seq<char>| new_keys.contains(k),
                |k: Seq<char>| new_values[position(new_keys, k)],
            ) == Map::new(
                |k: Seq<char>| old_keys.contains(k),
                |k: Seq<char>| old_values[position(old_keys, k)],
            ).insert(key, value),
    {
        assert forall|j: int| 0 <= j < at implies <Vec<char> as Ranked>::ranks_before(#[trigger] old_keys[j], key) by {
            assert(lex_lt(old_keys[j], key));
        }
        assert forall|j: int| at <= j < old_keys.len() implies <Vec<char> as Ranked>::ranks_before(key, #[trigger] old_keys[j]) by {
            assert(lex_lt(key, old_keys[j]));
        }
        lemma_ranked_insert::<Vec<char>>(old_keys, at, key);
        let m_new = Map::new(
            |k: Seq<char>| new_keys.contains(k),
            |k: Seq<char>| new_values[position(new_keys, k)],
        );
        let m_old = Map::new(
            |k: Seq<char>| old_keys.contains(k),
            |k: Seq<char>| old_values[position(old_keys, k)],
        );
        assert forall|k: Seq<char>| #[trigger] m_new.contains_key(k) <==> m_old.insert(key, value).contains_key(k) by {
            if new_keys.contains(k) {
                let i = choose|i: int| 0 <= i < new_keys.len() && new_keys[i] == k;
                if i < at {
                    assert(old_keys[i] == k);
                } else if i > at {
                    assert(old_keys[i - 1] == k);
                }
            }
            if old_keys.contains(k) {
                let i = choose|i: int| 0 <= i < old_keys.len() && old_keys[i] == k;
                if i < at {
                    assert(new_keys[i] == k);
                } else {
                    assert(new_keys[i + 1] == k);
                }
            }
            if k == key {
                assert(new_keys[at] == k);
            }
        }
        assert forall|k: Seq<char>| #[trigger] m_new.contains_key(k) implies m_new[k] == m_old.insert(key, value)[k] by {
            let i = choose|i: int| 0 <= i < new_keys.len() && new_keys[i] == k;
            lemma_position(new_keys, i);
            if i < at {
                lemma_position(old_keys, i);
                assert(lex_lt(k, key));
                <Vec<char> as Ranked>::lemma_ranking(k, k, k);
            } else if i > at {
                lemma_position(old_keys, i - 1);
                assert(lex_lt(key, k));
                <Vec<char> as Ranked>::lemma_ranking(k, k, k);
            }
        }
        assert(m_new =~= m_old.insert(key, value));
    }

    /// Stores `value` under `key`, which the map does not hold yet.
    pub fn insert_new(&mut self, key: Vec<char>, value: V)
        requires
            old(self).well_formed(),
            !old(self).entries().contains_key(key@),
        ensures
            final(self).well_formed(),
            final(self).entries() == old(self).entries().insert(key@, value),
    {
        match self.find(key.as_slice()) {
            Ok(_) => {},
            Err(at) => {
                let ghost (old_keys, old_values) = (self.key_seq(), self.values@);
                let ghost (k, v) = (key@, value);
                self.keys.insert(at, key);
                self.values.insert(at, value);
                proof {
                    assert(self.key_seq() =~= old_keys.insert(at as int, k));
                    Self::lemma_inserted(old_keys, old_values, self.key_seq(), self.values@, at as int, k, v);
                }
            },
        }
    }
}

/// The lists of a map of lists, each taken by its view.
pub open spec fn postings(m: Map<Seq<char>, Vec<usize>>) -> Map<Seq<char>, Seq<usize>> {
    m.map_values(|v: Vec<usize>| v@)
}

impl CharMap<Vec<usize>> {
    /// Adds `id` to the end of the list stored under `key`, starting the
    /// list if the key is new.
    pub fn append(&mut self, key: Vec<char>, id: usize)
        requires
            old(self).well_formed(),
        ensures
            final(self).well_formed(),
            final(self).entries().dom() == old(self).entries().dom().insert(key@),
            forall|k: Seq<char>| #[trigger] old(self).entries().contains_key(k) && k != key@
                ==> final(self).entries()[k] == old(self).entries()[k],
            final(self).entries()[key@]@ == if old(self).entries().contains_key(key@) {
                old(self).entries()[key@]@.push(id)
            } else {
                seq![id]
            },
            postings(final(self).entries()) == postings(old(self).entries()).insert(
                key@,
                if postings(old(self).entries()).contains_key(key@) {
                    postings(old(self).entries())[key@].push(id)
                } else {
                    seq![id]
                },
            ),
    {
        let ghost before = self.entries();
        match self.find(key.as_slice()) {
            Ok(i) => {
                let ghost old_map = self.entries();
                let ghost ks = self.key_seq();
                let ghost old_values = self.values@;
                proof {
                    lemma_position(ks, i as int);
                }
                self.values[i].push(id);
                proof {
                    assert(self.key_seq() == ks);
                    assert(self.entries().dom() =~= old_map.dom().insert(key@));
                    assert forall|k: Seq<char>| #[trigger] old_map.contains_key(k) && k != key@ implies self.entries()[k]
                        == old_map[k] by {
                        let j = choose|j: int| 0 <= j < ks.len() && ks[j] == k;
                        lemma_position(ks, j);
                    }
                }
            },
            Err(at) => {
                let ghost (old_keys, old_values) = (self.key_seq(), self.values@);
                let ghost k = key@;
                let mut list: Vec<usize> = Vec::new();
                list.push(id);
                let ghost v = list;
                assert(list@ =~= seq![id]);
                self.keys.insert(at, key);
                self.values.insert(at, list);
                proof {
                    assert(self.key_seq() =~= old_keys.insert(at as int, k));
                    Self::lemma_inserted(old_keys, old_values, self.key_seq(), self.values@, at as int, k, v);
                    assert(self.entries().dom() =~= old(self).entries().dom().insert(key@));
                    assert forall|k: Seq<char>| #[trigger] before.contains_key(k) && k != key@ implies self.entries()[k]
                        == before[k] by {
                        let j = choose|j: int| 0 <= j < old_keys.len() && old_keys[j] == k;
                        assert(old_keys.contains(k));
                    }
                }
            },
        }
        proof {
            let after = self.entries();
            let expected = postings(before).insert(
                key@,
                if postings(before).contains_key(key@) {
                    postings(before)[key@].push(id)
                } else {
                    seq![id]
                },
            );
            assert(postings(after).dom() =~= expected.dom());
            assert forall|k: Seq<char>| #[trigger] postings(after).contains_key(k) implies postings(after)[k]
                == expected[k] by {
                if k != key@ {
                    assert(after[k] == before[k]);
                }
            }
            assert(postings(after) =~= expected);
        }
    }
}

} // verus!
