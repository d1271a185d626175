# strprox

Error-tolerant autocompletion, verified with Verus.

Given a list of stored strings and a query, the library finds stored strings whose
prefixes are close to the query in Levenshtein distance (the prefix edit distance), using
the matching-based method (META): a trie of the stored strings, an inverted index by depth
and character, and sets of matchings between query prefixes and trie nodes that are
deduced one query character at a time and kept in a cache between queries.

Layout:

- `src/levenshtein.rs`: edit distance and prefix edit distance, with their mathematical
  definitions and laws, and an autocompleter that measures every stored string.
- `src/order.rs`: the order of results (distance, then lexicographic) and of integers.
- `src/measured.rs`: the result type.
- `src/meta.rs`: the trie (its nodes are the prefixes of the stored strings in
  lexicographic order), the inverted index, matching sets and the first and second
  deductions, with the laws that they build the matchings within each edit distance
  exactly.
- `src/cache.rs`: the cache of prefix states (a `ptrie` prefix tree, a `slab` of query
  strings and a least-recently-used index) and its pruning.
- `src/complete.rs`: assembling the matchings of a query within edit distance 2, and
  autocompletion: the top requested stored strings by prefix edit distance, where the
  matchings mark the strings that lie further away so that they need not be measured.
- `src/sample.rs`: random edits of stored strings (with `rand`), used to build test queries.
- `app/main.rs`: a program that times autocompletion on a word list and plots the times.
