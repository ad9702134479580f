use std::sync::Arc;
use suggest::{PatriciaTrie, PrefixSearch, SharedTrieMap, SymbolTable};

// The whole point of the type: it has to cross thread boundaries and be
// usable from several at once. A compile failure here is the real assertion.
fn assert_send_sync<T: Send + Sync>() {}

#[test]
fn test_is_send_and_sync() {
    assert_send_sync::<SharedTrieMap<u32>>();
    assert_send_sync::<SharedTrieMap<String>>();
    assert_send_sync::<Arc<SharedTrieMap<u32>>>();
}

#[test]
fn tests_test_basic_operations() {
    let map = SharedTrieMap::<i32>::new();

    assert!(map.is_empty());
    assert_eq!(map.len(), 0);
    assert!(map.get("en").is_none());
    assert!(!map.contains("en"));

    map.get_or_create("en")
        .write()
        .unwrap()
        .put("sea".to_string(), 2);
    map.get_or_create("fr")
        .write()
        .unwrap()
        .put("mer".to_string(), 3);

    assert!(!map.is_empty());
    assert_eq!(map.len(), 2);
    assert!(map.contains("en"));
    assert_eq!(map.names(), ["en", "fr"]);
    assert_eq!(map.get("en").unwrap().read().unwrap().get("sea"), Some(2));
    assert_eq!(map.get("fr").unwrap().read().unwrap().get("sea"), None);

    map.clear();
    assert!(map.is_empty());
    assert_eq!(map.names(), Vec::<String>::new());
}

#[test]
fn test_get_or_create_returns_the_same_trie() {
    let map = SharedTrieMap::<i32>::new();

    let first = map.get_or_create("en");
    let second = map.get_or_create("en");

    assert!(Arc::ptr_eq(&first, &second));
    assert_eq!(map.len(), 1);

    // A write through one handle is visible through the other
    first.write().unwrap().put("sea".to_string(), 2);
    assert_eq!(second.read().unwrap().get("sea"), Some(2));
}

#[test]
fn test_insert_and_remove() {
    let map = SharedTrieMap::<i32>::new();

    let mut trie = PatriciaTrie::new();
    trie.put("sea".to_string(), 2);
    assert!(map.insert("en".to_string(), trie).is_none());
    assert_eq!(map.get("en").unwrap().read().unwrap().get("sea"), Some(2));

    // Replacing hands back the old trie, which its holders keep using
    let mut replacement = PatriciaTrie::new();
    replacement.put("shore".to_string(), 7);
    let displaced = map.insert("en".to_string(), replacement).unwrap();
    assert_eq!(displaced.read().unwrap().get("sea"), Some(2));
    assert_eq!(map.get("en").unwrap().read().unwrap().get("sea"), None);
    assert_eq!(map.len(), 1);

    let removed = map.remove("en").unwrap();
    assert_eq!(removed.read().unwrap().get("shore"), Some(7));
    assert!(map.is_empty());
    assert!(map.remove("en").is_none());
}

#[test]
fn test_handles_outlive_removal() {
    let map = SharedTrieMap::<i32>::new();
    let trie = map.get_or_create("en");
    trie.write().unwrap().put("sea".to_string(), 2);

    map.remove("en");
    assert!(map.get("en").is_none());

    // The removed trie is still usable through the handle held here
    trie.write().unwrap().put("shore".to_string(), 7);
    assert_eq!(trie.read().unwrap().get_all_keys(), ["sea", "shore"]);

    // ...and a new `get_or_create` starts from an empty one
    assert!(map.get_or_create("en").read().unwrap().is_empty());
}

