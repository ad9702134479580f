//! A thread-safe map from name to [`PatriciaTrie`].
//!
//! One process often needs several independent tries - one per language, per
//! tenant, per index - reachable from every thread that serves a request.
//! [`SharedTrieMap`] is that registry: a name-keyed table whose values are
//! tries, with every method taking `&self` so a single instance can be shared
//! behind an `Arc` rather than cloned per thread.
//!
//! Locking is two levels deep. The table itself sits behind one lock, whose
//! invariant is that the table is intact; each trie sits behind its own
//! `std::sync::RwLock`. Lookups hold the table lock only long enough to copy
//! a handle out of it, so a long prefix scan over one trie blocks neither the
//! other tries nor threads registering new ones.
//!
//! What a call finds depends on what other threads did before it took the
//! lock, so the methods promise what holds whatever happened in between: the
//! table stays intact, and the names come back sorted and unique.
use vstd::prelude::*;
use std::sync::Arc;
use crate::char_map::CharMap;
use crate::patricia_trie::PatriciaTrie;
use crate::text::{chars_of, strictly_sorted, words_of};

verus! {

/// Declares `std::sync::RwLock` to the proofs, which see nothing inside it.
#[verifier::external_type_specification]
#[verifier::external_body]
#[verifier::reject_recursive_types(T)]
pub struct ExStdRwLock<T: ?Sized>(std::sync::RwLock<T>);

/// A single trie in the map, shared between every holder of the handle.
///
/// Lock it with `read` for queries and `write` for updates. A handle stays
/// valid after the entry is removed from the map - it simply becomes private
/// to whoever still holds it.
pub type SharedTrie<E> = Arc<std::sync::RwLock<PatriciaTrie<E>>>;

/// Calls `std::sync::RwLock::new`: a new, unlocked lock guarding `value`.
/// Nothing is stated of it, since the proofs cannot look behind the lock.
#[verifier::external_body]
fn new_lock<T>(value: T) -> std::sync::RwLock<T> {
    std::sync::RwLock::new(value)
}

/// Calls `Arc::clone`: a second handle to the same allocation, so the value
/// it points to is the one `handle` points to.
#[verifier::external_body]
pub(crate) fn share<T>(handle: &Arc<T>) -> (copy: Arc<T>)
    ensures
        copy == *handle,
{
    Arc::clone(handle)
}

/// The invariant the table lock keeps: the table is intact.
pub struct IntactTable;

impl<E> vstd::rwlock::RwLockPredicate<CharMap<SharedTrie<E>>> for IntactTable {
    open spec fn inv(self, table: CharMap<SharedTrie<E>>) -> bool {
        table.well_formed()
    }
}

/// A thread-safe table of named [`PatriciaTrie`]s.
#[verifier::reject_recursive_types(E)]
pub struct SharedTrieMap<E> {
    tries: vstd::rwlock::RwLock<CharMap<SharedTrie<E>>, IntactTable>,
}

impl<E> SharedTrieMap<E> {
    /// Creates an empty map.
    pub fn new() -> (map: Self) {
        let table: CharMap<SharedTrie<E>> = CharMap::new();
        SharedTrieMap { tries: vstd::rwlock::RwLock::new(table, Ghost(IntactTable)) }
    }

    /// Returns a handle to the trie stored under `name`, or `None` if absent.
    pub fn get(&self, name: &str) -> (found: Option<SharedTrie<E>>) {
        let key = chars_of(name);
        let reading = self.tries.acquire_read();
        let table = reading.borrow();
        let found = match table.get(key.as_slice()) {
            Some(trie) => Some(share(trie)),
            None => None,
        };
        reading.release_read();
        found
    }

    /// Returns a handle to the trie stored under `name`, registering an empty
    /// one first if nothing is stored there.
    ///
    /// Concurrent callers naming the same trie all receive the same handle:
    /// exactly one of them creates it, the rest observe that creation.
    pub fn get_or_create(&self, name: &str) -> (trie: SharedTrie<E>) {
        // The common case is an existing trie, which a read lock serves without
        // excluding other readers.
        if let Some(trie) = self.get(name) {
            return trie;
        }
        // Another thread may have registered `name` between the two locks, so
        // look again under the write lock rather than inserting blindly -
        // otherwise the loser of the race would replace the winner's trie,
        // discarding writes and invalidating handles already handed out.
        let key = chars_of(name);
        let (mut table, writing) = self.tries.acquire_write();
        let handle = match table.get(key.as_slice()) {
            Some(trie) => share(trie),
            None => {
                let trie: SharedTrie<E> = Arc::new(new_lock(PatriciaTrie::new()));
                let handle = share(&trie);
                table.insert_new(key, trie);
                handle
            },
        };
        writing.release_write(table);
        handle
    }

    /// Stores `trie` under `name` and returns the handle it displaced, if any.
    ///
    /// Threads still holding the previous handle keep using the previous trie;
    /// only lookups made from now on see the new one.
    pub fn insert(&self, name: String, trie: PatriciaTrie<E>) -> (displaced: Option<SharedTrie<E>>) {
        let key = chars_of(name.as_str());
        let shared: SharedTrie<E> = Arc::new(new_lock(trie));
        let (mut table, writing) = self.tries.acquire_write();
        let displaced = table.insert(key, shared);
        writing.release_write(table);
        displaced
    }

    /// Removes the entry under `name`, returning its handle if there was one.
    pub fn remove(&self, name: &str) -> (removed: Option<SharedTrie<E>>) {
        let key = chars_of(name);
        let (mut table, writing) = self.tries.acquire_write();
        let removed = table.remove(key.as_slice());
        writing.release_write(table);
        removed
    }

    /// Returns `true` if a trie is registered under `name`.
    pub fn contains(&self, name: &str) -> (found: bool) {
        let key = chars_of(name);
        let reading = self.tries.acquire_read();
        let found = reading.borrow().get(key.as_slice()).is_some();
        reading.release_read();
        found
    }

    /// Returns the number of registered tries.
    pub fn len(&self) -> (n: usize) {
        let reading = self.tries.acquire_read();
        let n = reading.borrow().len();
        reading.release_read();
        n
    }

    /// Returns `true` if no trie is registered.
    pub fn is_empty(&self) -> (empty: bool) {
        self.len() == 0
    }

    /// Returns every registered name, in lexicographic order and each once.
    pub fn names(&self) -> (names: Vec<String>)
        ensures
            strictly_sorted(words_of(names@)),
    {
        let reading = self.tries.acquire_read();
        let names = reading.borrow().keys();
        reading.release_read();
        names
    }

    /// Removes every entry, leaving the map empty.
    ///
    /// Tries whose handles are still held elsewhere stay alive for those
    /// holders; they are only unreachable through this map.
    pub fn clear(&self) {
        let (mut table, writing) = self.tries.acquire_write();
        table.clear();
        writing.release_write(table);
    }
}

impl<E> Default for SharedTrieMap<E> {
    fn default() -> (map: Self) {
        Self::new()
    }
}

} // verus!
