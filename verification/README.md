# suggest

Spelling suggestions, verified with Verus.

The library (`src/`) holds the logic, each function with a contract that
Verus proves:

- `damerau_levenshtein`: the restricted Damerau-Levenshtein distance, stated
  as the optimal-string-alignment recurrence, with its bounds and symmetry.
- `symmetric_delete`: `deletes` and the `SymSpell` dictionary, whose lookup is
  proved to answer exactly what measuring the query against every word would
  (`subsequence` holds the proof that words within reach share a deletion).
- `burkhard_keller`: the BK-tree, whose search is stated as the pruned search
  it performs; it is sound, finds a stored query, and is complete wherever the
  triangle inequality holds.
- `n_gram_index`: padded n-grams and an index counting the distinct grams a
  query shares with each word.
- `patricia_trie`, `ternary_trie`, `symbol_table`: two tries behind one
  map-like and prefix-search interface; `shared_trie_map` a thread-safe table
  of tries.
- `service` and `word_file`: what the suggestion service answers - completions
  of a prefix in the spelling of the word file, or corrections of a
  misspelling - and how a word file is read.
- `char_map`, `ranked`, `text`: a word-keyed sorted map, sorted insertion,
  and words as character sequences.

`app/` is the HTTP service around the library (actix-web), reading the word
files from `src/data` at startup.
