use suggest::PatriciaTrie;
use suggest::SymbolTable;
use suggest::service::{
    DEFAULT_LIMIT, DefaultRanker, MAX_CORRECTED_QUERY, MAX_EDIT_DISTANCE, MAX_LIMIT, Ranker,
    ScopeWords, Scopes, completions, effective_limit, lacks_default_scope, load_scope, suggestions,
};

#[test]
fn default_ranker_keeps_the_order() {
    let candidates = vec!["shell".to_string(), "sea".to_string()];

    // Also pins that the trait stays dyn-compatible
    let ranker: &dyn Ranker = &DefaultRanker;

    assert_eq!(ranker.rank(candidates.clone()), candidates);
}

#[test]
fn a_request_without_a_limit_gets_the_default() {
    assert_eq!(effective_limit(None), DEFAULT_LIMIT);
    assert_eq!(effective_limit(Some(1)), 1);
    assert_eq!(effective_limit(Some(0)), 0);
}

#[test]
fn no_request_gets_more_than_the_cap() {
    assert_eq!(effective_limit(Some(MAX_LIMIT)), MAX_LIMIT);
    assert_eq!(effective_limit(Some(100_000)), MAX_LIMIT);
    assert_eq!(effective_limit(Some(usize::MAX)), MAX_LIMIT);
}

fn trie(words: &[&str]) -> PatriciaTrie<u32> {
    let mut trie = PatriciaTrie::new();
    for (rank, word) in words.iter().enumerate() {
        trie.put(word.to_string(), rank as u32);
    }
    trie
}

#[test]
fn completions_are_the_first_keys_with_the_prefix() {
    let trie = trie(&["sea", "shell", "shore", "apple"]);

    assert_eq!(completions(&trie, "sh", 10), ["shell", "shore"]);
    assert_eq!(completions(&trie, "s", 2), ["sea", "shell"]);
    assert_eq!(completions(&trie, "", 10), ["apple", "sea", "shell", "shore"]);
    assert_eq!(completions(&trie, "z", 10), Vec::<String>::new());
    assert_eq!(completions(&trie, "s", 0), Vec::<String>::new());
}

fn scope(words: &[&str]) -> ScopeWords {
    let mut scope = ScopeWords::new();
    for (rank, word) in words.iter().enumerate() {
        scope.record(&word.to_lowercase(), word, rank as u32);
    }
    scope
}

#[test]
fn a_key_is_answered_in_the_spelling_of_the_file() {
    let scope = scope(&["TradeDate", "TradePrice"]);

    assert_eq!(
        scope.spell(vec!["tradedate".to_string(), "tradeprice".to_string()]),
        ["TradeDate", "TradePrice"]
    );
    // A key with no spelling recorded stands in for itself
    assert_eq!(scope.spell(vec!["missing".to_string()]), ["missing"]);
    assert_eq!(scope.spell(Vec::new()), Vec::<String>::new());
}

#[test]
fn a_key_recorded_again_keeps_the_later_spelling_and_rank() {
    let mut scope = ScopeWords::new();

    assert!(!scope.record("invrating", "InvRating", 3));
    assert!(scope.record("invrating", "INVRATING", 7));
    assert_eq!(scope.spell(vec!["invrating".to_string()]), ["INVRATING"]);

    let corrections = scope.correct("invratin", MAX_EDIT_DISTANCE);
    assert_eq!(corrections.len(), 1);
    assert_eq!(corrections[0].word, "INVRATING");
    assert_eq!(corrections[0].rank, 7);
    assert_eq!(corrections[0].distance, 1);
}

#[test]
fn corrections_come_nearest_first_then_by_rank() {
    let scope = scope(&["shell", "sea", "shore", "she"]);

    let corrections = scope.correct("shel", 2);
    let offered: Vec<(usize, u32, &str)> = corrections
        .iter()
        .map(|found| (found.distance, found.rank, found.word.as_str()))
        .collect();

    // `shell` and `she` are one edit out, `sea` two and `shore` three;
    // equally near words come in the order they were loaded
    assert_eq!(offered, [(1, 0, "shell"), (1, 3, "she"), (2, 1, "sea")]);
    assert_eq!(scope.correct("shel", 1).len(), 2);
    assert_eq!(scope.correct("shel", 0).len(), 0);
}

#[test]
fn a_correction_is_measured_before_it_is_offered() {
    // Both words leave `ab` behind, and they are four edits apart
    let scope = scope(&["abxy", "pqab"]);

    let corrections = scope.correct("abxy", MAX_EDIT_DISTANCE);
    assert_eq!(corrections.len(), 1);
    assert_eq!(corrections[0].word, "abxy");
    assert_eq!(corrections[0].rank, 0);
}

#[test]
fn corrections_honour_the_limit_and_the_longest_query() {
    let scope = scope(&["shell", "sea", "shore", "she"]);

    assert_eq!(scope.corrections("shel", 1), ["shell"]);
    assert_eq!(scope.corrections("shel", 10), ["shell", "she", "sea"]);
    assert_eq!(scope.corrections("zzzzzz", 10), Vec::<String>::new());

    let long = "s".repeat(MAX_CORRECTED_QUERY + 1);
    assert_eq!(scope.corrections(&long, 10), Vec::<String>::new());

    // Counted in characters, not bytes
    let wide = "é".repeat(MAX_CORRECTED_QUERY);
    assert_eq!(scope.corrections(&wide, 10), Vec::<String>::new());
}

#[test]
fn original_words_answer_within_their_scope() {
    let words = Scopes::new();

    words.record("columns", "tradedate", "TradeDate", 0);
    words.record("shouting", "tradedate", "TRADEDATE", 0);

    let key = || vec!["tradedate".to_string()];

    // The same key, spelled the way each scope recorded it
    assert_eq!(words.spell("columns", key()), ["TradeDate"]);
    assert_eq!(words.spell("shouting", key()), ["TRADEDATE"]);

    // A scope that recorded nothing, and a key it never saw, answer with
    // what they were given rather than dropping it
    assert_eq!(words.spell("unknown", key()), ["tradedate"]);
    assert_eq!(
        words.spell("columns", vec!["missing".to_string()]),
        ["missing"]
    );
}

// Sharing a variant only nominates a word - `abxy` and `pqab` both leave
// `ab` behind, and they are four edits apart - so each is measured
#[test]
fn sym_spell_lookup_measures_a_candidate_before_offering_it() {
    let variants = Scopes::new();
    for (rank, word) in ["abxy", "pqab"].iter().enumerate() {
        variants.record("words", word, word, rank as u32);
    }

    // Both words are filed under `ab`, and only one survives measuring
    assert_eq!(variants.candidates("words", "ab").len(), 2);
    assert_eq!(
        variants.correct("words", "abxy", MAX_EDIT_DISTANCE),
        [("abxy".to_string(), 0)]
    );

    // A scope that was never built has nothing to correct with, the way it
    // has nothing to spell with
    assert!(
        variants
            .correct("nope", "abxy", MAX_EDIT_DISTANCE)
            .is_empty()
    );
}

#[test]
fn a_scope_hands_out_one_set_of_words() {
    let scopes = Scopes::new();
    assert!(scopes.get("sea").is_none());
    let first = scopes.get_or_create("sea");
    let second = scopes.get_or_create("sea");
    assert!(std::sync::Arc::ptr_eq(&first, &second));

    scopes.record("sea", "seagull", "Seagull", 1);
    assert_eq!(scopes.candidates("sea", "segull"), [("Seagull".to_string(), 1)]);
    assert!(scopes.candidates("default", "segull").is_empty());
    assert_eq!(scopes.corrections("sea", "segull", 10), ["Seagull"]);
    assert_eq!(scopes.corrections("nope", "segull", 10), Vec::<String>::new());
}

// The scopes the endpoint tests of the service seed, registered in both the
// trie and the scope's words the way loading does it
fn seeded(words: &[&str]) -> (PatriciaTrie<u32>, Scopes) {
    let trie_words: Vec<String> = words.iter().map(|word| word.to_lowercase()).collect();
    let mut trie = PatriciaTrie::new();
    let scopes = Scopes::new();
    for (rank, word) in words.iter().enumerate() {
        let key = word.to_lowercase();
        scopes.record("default", &key, word, rank as u32);
        trie.put(trie_words[rank].clone(), rank as u32);
    }
    (trie, scopes)
}

#[test]
fn a_prefix_is_answered_with_its_completions() {
    let (trie, scopes) = seeded(&["sea", "shell", "shore"]);

    assert_eq!(suggestions(&trie, &scopes, "default", "sh", 10), ["shell", "shore"]);
    assert_eq!(suggestions(&trie, &scopes, "default", "s", 1), ["sea"]);
    assert_eq!(
        suggestions(&trie, &scopes, "default", "", 10),
        ["sea", "shell", "shore"]
    );
}

#[test]
fn completions_come_back_as_the_file_spells_them() {
    let (trie, scopes) = seeded(&["TradeDate", "TradePrice"]);

    assert_eq!(
        suggestions(&trie, &scopes, "default", "trade", 10),
        ["TradeDate", "TradePrice"]
    );
    // A scope with no spellings answers with the keys
    assert_eq!(
        suggestions(&trie, &scopes, "elsewhere", "trade", 10),
        ["tradedate", "tradeprice"]
    );
}

#[test]
fn a_query_no_word_starts_with_is_corrected() {
    let (trie, scopes) = seeded(&["sea", "shell", "shore"]);

    assert_eq!(suggestions(&trie, &scopes, "default", "seat", 10), ["sea"]);
    assert_eq!(suggestions(&trie, &scopes, "default", "shsll", 10), ["shell"]);
    assert_eq!(suggestions(&trie, &scopes, "default", "zebra", 10), Vec::<String>::new());
    // A prefix match is preferred to a correction
    assert_eq!(suggestions(&trie, &scopes, "default", "she", 10), ["shell"]);
}

#[test]
fn a_corrected_transposition_comes_back_as_the_file_spells_it() {
    let (trie, scopes) = seeded(&["TradeDate", "TradePrice"]);

    assert_eq!(
        suggestions(&trie, &scopes, "default", "tradedaet", 10),
        ["TradeDate"]
    );
}

#[test]
fn a_query_longer_than_any_word_is_not_corrected() {
    let (trie, scopes) = seeded(&["sea", "shell", "shore"]);
    let query = "s".repeat(MAX_CORRECTED_QUERY + 1);

    assert_eq!(suggestions(&trie, &scopes, "default", &query, 10), Vec::<String>::new());
}

#[test]
fn a_query_is_matched_whatever_its_case() {
    let (trie, scopes) = seeded(&["TradeDate", "TradePrice"]);

    assert_eq!(
        suggestions(&trie, &scopes, "default", "TrAdE", 10),
        ["TradeDate", "TradePrice"]
    );
    assert_eq!(
        suggestions(&trie, &scopes, "default", "TRADEDAET", 10),
        ["TradeDate"]
    );
}

#[test]
fn a_word_is_recorded_under_its_lower_case() {
    let scopes = Scopes::new();

    assert_eq!(
        scopes.record_word("columns", "TradeDate", 0),
        Some("tradedate".to_string())
    );
    assert_eq!(
        scopes.spell("columns", vec!["tradedate".to_string()]),
        ["TradeDate"]
    );
}

#[test]
fn a_scope_is_loaded_under_lower_cased_keys_at_file_ranks() {
    let mut trie = PatriciaTrie::new();
    let scopes = Scopes::new();
    load_scope(&mut trie, &scopes, "columns", &["TradeDate", "TradePrice", "TRADEDATE"]);

    // The repeat keeps the later rank and spelling
    assert_eq!(trie.get("tradedate"), Some(2));
    assert_eq!(trie.get("tradeprice"), Some(1));
    assert_eq!(trie.get_size(), 2);
    assert_eq!(
        suggestions(&trie, &scopes, "columns", "Trade", 10),
        ["TRADEDATE", "TradePrice"]
    );
}

#[test]
fn the_default_scope_is_looked_for_by_name() {
    assert!(lacks_default_scope(&[]));
    assert!(lacks_default_scope(&["columns".to_string(), "defaults".to_string()]));
    assert!(!lacks_default_scope(&["columns".to_string(), "default".to_string()]));
}

#[test]
fn candidates_come_once_each_in_filing_order() {
    let mut scope = ScopeWords::new();
    scope.record("seat", "Seat", 4);
    scope.record("sea", "Sea", 2);
    scope.record("seat", "SEAT", 5);

    assert_eq!(
        scope.candidates("sea"),
        [("SEAT".to_string(), 5), ("Sea".to_string(), 2)]
    );
}
