//! The abstractions a string-keyed store implements.
//!
//! [`SymbolTable`] is the map-like half: the operations any keyed store could
//! offer. [`PrefixSearch`] is the half a trie exists for - queries that
//! exploit the shared structure of the stored keys.
//!
//! The empty string is not a storable key: `put` ignores it, and the lookups
//! report it as absent.
use vstd::prelude::*;
use crate::ranked::{Ranked, law_ranked_unique};
use crate::text::{is_prefix, strictly_sorted, words_of};

verus! {

/// The map-like operations of a string-keyed symbol table, stated over the
/// map from keys (as character sequences) to values that the table holds.
pub trait SymbolTable<E: Clone> {
    /// The entries the table holds.
    spec fn table(&self) -> Map<Seq<char>, E>;

    /// Whether the table's internal structure is intact.
    spec fn table_ok(&self) -> bool;

    /// An intact table holds finitely many entries, none under the empty key.
    proof fn lemma_table_ok(&self)
        requires
            self.table_ok(),
        ensures
            self.table().dom().finite(),
            !self.table().contains_key(Seq::<char>::empty()),
    ;

    /// Associates `value` with `key`, replacing any value already stored
    /// there. The empty key is ignored.
    fn put(&mut self, key: String, value: E)
        requires
            old(self).table_ok(),
            old(self).table().dom().len() < usize::MAX,
        ensures
            final(self).table_ok(),
            key@.len() == 0 ==> final(self).table() == old(self).table(),
            key@.len() > 0 ==> final(self).table() == old(self).table().insert(key@, value),
    ;

    /// Returns a copy of the value stored under `key`, or `None` if absent.
    fn get(&self, key: &str) -> (found: Option<E>)
        requires
            self.table_ok(),
        ensures
            match found {
                Some(v) => self.table().contains_key(key@) && cloned::<E>(self.table()[key@], v),
                None => !self.table().contains_key(key@),
            },
    ;

    /// Removes `key` and its value. Removing an absent key is a no-op.
    fn delete(&mut self, key: &str)
        requires
            old(self).table_ok(),
        ensures
            final(self).table_ok(),
            final(self).table() == old(self).table().remove(key@),
    ;

    /// Returns `true` if a value is stored under `key`.
    fn contains(&self, key: &str) -> (found: bool)
        requires
            self.table_ok(),
        ensures
            found == self.table().contains_key(key@),
    ;

    /// Removes every entry, leaving the table empty.
    fn clear(&mut self)
        ensures
            final(self).table_ok(),
            final(self).table() == Map::<Seq<char>, E>::empty(),
    ;

    /// Returns `true` if the table holds no entries.
    fn is_empty(&self) -> (empty: bool)
        requires
            self.table_ok(),
        ensures
            empty == (self.table().dom().len() == 0),
    ;

    /// Returns the number of entries.
    fn get_size(&self) -> (size: usize)
        requires
            self.table_ok(),
        ensures
            size == self.table().dom().len(),
    ;

    /// Returns every stored key, in lexicographic order.
    fn get_all_keys(&self) -> (keys: Vec<String>)
        requires
            self.table_ok(),
        ensures
            strictly_sorted(words_of(keys@)),
            words_of(keys@).to_set() == self.table().dom(),
    ;
}

/// The keys of a table that begin with `prefix`.
pub open spec fn keys_with_prefix(keys: Set<Seq<char>>, prefix: Seq<char>) -> Set<Seq<char>> {
    keys.filter(|k: Seq<char>| is_prefix(prefix, k))
}

/// Whether `found` is the longest of `keys` that is a prefix of `text`, or
/// `None` exactly when no key is a prefix of it.
pub open spec fn is_longest_prefix(keys: Set<Seq<char>>, text: Seq<char>, found: Option<Seq<char>>) -> bool {
    match found {
        Some(k) => {
            &&& keys.contains(k)
            &&& is_prefix(k, text)
            &&& forall|other: Seq<char>|
                #![trigger keys.contains(other)]
                keys.contains(other) && is_prefix(other, text) ==> other.len() <= k.len()
        },
        None => forall|other: Seq<char>|
            #![trigger keys.contains(other)]
            keys.contains(other) ==> !is_prefix(other, text),
    }
}

/// Prefix queries over a string-keyed store.
pub trait PrefixSearch {
    /// The keys the store holds.
    spec fn stored_keys(&self) -> Set<Seq<char>>;

    /// Whether the store's internal structure is intact.
    spec fn keys_ok(&self) -> bool;

    /// Returns every stored key beginning with `prefix`, in lexicographic
    /// order. An empty prefix matches every key.
    fn get_keys_with_prefix(&self, prefix: &str) -> (keys: Vec<String>)
        requires
            self.keys_ok(),
        ensures
            strictly_sorted(words_of(keys@)),
            words_of(keys@).to_set() == keys_with_prefix(self.stored_keys(), prefix@),
    ;

    /// Returns the longest stored key that is a prefix of `prefix`, or `None`
    /// if no stored key is one.
    fn longest_prefix_of(&self, prefix: &str) -> (found: Option<String>)
        requires
            self.keys_ok(),
        ensures
            is_longest_prefix(
                self.stored_keys(),
                prefix@,
                match found {
                    Some(k) => Some(k@),
                    None => None,
                },
            ),
    ;
}

/// What a read gives back of a write: once a table `put` `value` under a
/// non-empty `key`, it holds `value` there, and every other key holds what
/// it held before.
pub proof fn law_read_after_write<E: Clone, T: SymbolTable<E>>(before: T, after: T, key: Seq<char>, value: E)
    requires
        before.table_ok(),
        key.len() > 0,
        after.table() == before.table().insert(key, value),
    ensures
        after.table().contains_key(key),
        after.table()[key] == value,
        forall|other: Seq<char>|
            other != key ==> (#[trigger] after.table().contains_key(other) == before.table().contains_key(other)
                && (before.table().contains_key(other) ==> after.table()[other] == before.table()[other])),
{
}

/// What a delete leaves: the key is gone and every other key holds what it
/// held before.
pub proof fn law_gone_after_delete<E: Clone, T: SymbolTable<E>>(before: T, after: T, key: Seq<char>)
    requires
        before.table_ok(),
        after.table() == before.table().remove(key),
    ensures
        !after.table().contains_key(key),
        forall|other: Seq<char>|
            other != key ==> (#[trigger] after.table().contains_key(other) == before.table().contains_key(other)
                && (before.table().contains_key(other) ==> after.table()[other] == before.table()[other])),
{
}

/// Two tables holding the same keys list them alike: a listing in strict
/// lexicographic order is determined by the keys it lists, whichever
/// structure produced it.
pub proof fn law_listing_determined(a: Seq<Seq<char>>, b: Seq<Seq<char>>)
    requires
        strictly_sorted(a),
        strictly_sorted(b),
        a.to_set() == b.to_set(),
    ensures
        a == b,
{
    assert forall|i: int, j: int| 0 <= i < j < a.len() implies <Vec<char> as Ranked>::ranks_before(
        #[trigger] a[i],
        #[trigger] a[j],
    ) by {}
    assert forall|i: int, j: int| 0 <= i < j < b.len() implies <Vec<char> as Ranked>::ranks_before(
        #[trigger] b[i],
        #[trigger] b[j],
    ) by {}
    law_ranked_unique::<Vec<char>>(a, b);
}

} // verus!
