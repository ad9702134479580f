use std::collections::BTreeSet;
use suggest::burkhard_keller::BkTree;
use suggest::n_gram_index::NGramIndex;
use suggest::symmetric_delete::{SymSpell, deletes};
use suggest::{PatriciaTrie, PrefixSearch, SharedTrieMap, SymbolTable, TernarySearchTrie, distance};

// Two words within `d` edits of each other meet on a string each becomes when
// up to `d` characters are dropped
#[test]
fn words_within_reach_share_a_deletion() {
    let words = ["ca", "ac", "abc", "sea", "tea", "seat", "shore", "hsore", "", "a"];
    for query in words {
        for word in words {
            let d = distance(query, word);
            for reach in d..=3 {
                let mine: BTreeSet<String> = deletes(query, reach).into_iter().collect();
                let theirs: BTreeSet<String> = deletes(word, reach).into_iter().collect();
                assert!(
                    mine.intersection(&theirs).next().is_some(),
                    "{query} and {word} within {reach}"
                );
            }
        }
    }
}

#[test]
fn the_distance_is_symmetric_and_zero_only_between_equals() {
    let words = ["", "a", "ca", "abc", "naïve", "naive", "shore"];
    for left in words {
        for right in words {
            assert_eq!(distance(left, right), distance(right, left));
            assert_eq!(distance(left, right) == 0, left == right);
        }
    }
}

// What a read gives back of a write, through both tries
#[test]
fn a_read_gives_back_the_last_write() {
    let mut patricia = PatriciaTrie::new();
    let mut ternary = TernarySearchTrie::new();
    for (value, key) in ["sea", "shell", "sea", "shore"].iter().enumerate() {
        patricia.put(key.to_string(), value);
        ternary.put(key.to_string(), value);
    }
    assert_eq!(patricia.get("sea"), Some(2));
    assert_eq!(ternary.get("sea"), Some(2));
    assert_eq!(patricia.get("shell"), Some(1));
    assert_eq!(ternary.get("shell"), Some(1));

    patricia.delete("sea");
    ternary.delete("sea");
    assert_eq!(patricia.get("sea"), None);
    assert_eq!(ternary.get("sea"), None);
    assert_eq!(patricia.get("shore"), Some(3));
    assert_eq!(ternary.get("shore"), Some(3));

    // The same keys are listed alike by both
    assert_eq!(patricia.get_all_keys(), ternary.get_all_keys());
    assert_eq!(
        patricia.get_keys_with_prefix("sh"),
        ternary.get_keys_with_prefix("sh")
    );
}

// A stored query is found at no distance whatever the radius
#[test]
fn a_stored_word_is_always_found() {
    let words = ["ca", "ac", "abc", "sea", "shore", "she"];
    let tree = BkTree::from_words(&words);
    for word in words {
        for radius in 0..4 {
            assert!(
                tree.find(word, radius)
                    .iter()
                    .any(|found| found.distance == 0 && found.word == word),
                "{word} within {radius}"
            );
        }
        assert!(tree.contains(word));
    }
    assert!(!tree.contains("cab"));
}

#[test]
fn a_minimum_of_zero_is_a_minimum_of_one() {
    let mut index = NGramIndex::new(2);
    for word in ["sea", "shell", "shore", ""] {
        index.insert(word);
    }
    for query in ["sea", "s", "", "xyz"] {
        assert_eq!(index.find(query, 0), index.find(query, 1));
    }
}

#[test]
fn the_lookup_never_answers_beyond_the_distance() {
    let mut speller = SymSpell::new(2);
    for word in ["sea", "seat", "shore", "she", "sells"] {
        speller.insert(word, 1);
    }
    for query in ["se", "sho", "xyz", "seats"] {
        for found in speller.lookup(query, 1) {
            assert!(found.distance <= 1);
            assert_eq!(found.distance, distance(query, &found.word));
        }
    }
}

#[test]
fn names_come_back_sorted_and_once() {
    let map = SharedTrieMap::<u32>::new();
    for name in ["fr", "en", "de", "en", "es"] {
        map.get_or_create(name);
    }
    assert_eq!(map.names(), ["de", "en", "es", "fr"]);
    assert_eq!(map.len(), 4);
}
