//! Spelling suggestions: edit distances, the structures that search by them,
//! the tries that complete a prefix, and the decisions of a service that
//! offers completions and corrections of what was typed.
pub mod burkhard_keller;
pub mod char_map;
pub mod damerau_levenshtein;
pub mod n_gram_index;
pub mod patricia_trie;
pub mod ranked;
pub mod service;
pub mod shared_trie_map;
pub mod subsequence;
pub mod symbol_table;
pub mod symmetric_delete;
pub mod ternary_trie;
pub mod text;
pub mod word_file;

pub use burkhard_keller::BkTree;
pub use damerau_levenshtein::{distance, distance_of};
pub use n_gram_index::{BOUNDARY, NGramIndex, grams};
pub use patricia_trie::PatriciaTrie;
pub use shared_trie_map::{SharedTrie, SharedTrieMap};
pub use symbol_table::{PrefixSearch, SymbolTable};
pub use symmetric_delete::{Suggestion, SymSpell, deletes};
pub use ternary_trie::TernarySearchTrie;
