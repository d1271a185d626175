use std::collections::BTreeMap;
use strprox::cache::Cache;
use strprox::meta::{char_succ, MetaAutocompleter, Trie};
use strprox::complete::measure_results;
use strprox::MeasuredPrefix;

fn strings(words: &[&str]) -> Vec<String> {
    words.iter().map(|w| w.to_string()).collect()
}

fn contains_string(measures: &[MeasuredPrefix], expected: &str) -> bool {
    measures.iter().any(|measure| measure.string == expected)
}

#[test]
fn trie_sorts_and_dedups() {
    let trie = Trie::new(4, strings(&["b", "a", "b", "ab"]));
    assert_eq!(trie.strings, strings(&["a", "ab", "b"]));
}

#[test]
fn autocompleter_len_counts_distinct_strings() {
    let autocompleter = MetaAutocompleter::new(3, strings(&["x", "y", "x"]));
    assert_eq!(autocompleter.len(), 2);
}

#[test]
fn char_succ_examples() {
    assert_eq!(char_succ('a'), Some('b'));
    assert_eq!(char_succ('\u{d7ff}'), Some('\u{e000}'));
    assert_eq!(char_succ(char::MAX), None);
}

#[test]
fn meta_paper_example() {
    let source = strings(&["soho", "solid", "solo", "solve", "soon", "throw"]);
    let autocompleter = MetaAutocompleter::new(source.len(), source);
    let mut cache = Cache::new();
    let result = autocompleter.autocomplete("ssol", 3, &mut cache);
    for measure in &result {
        println!("{:#?}", measure);
    }
    // these are the only strings with PEDs of 1
    assert!(contains_string(&result, "solid"));
    assert!(contains_string(&result, "solo"));
    assert!(contains_string(&result, "solve"));
}

#[test]
fn meta_exact_prefix() {
    let source = strings(&["success", "successor", "successive", "decrement", "decrease", "decreasing"]);
    let autocompleter = MetaAutocompleter::new(source.len(), source);
    let mut cache = Cache::new();
    let result = autocompleter.autocomplete("decr", 6, &mut cache);
    assert!(result.len() >= 3);
    assert_eq!(
        result[..3].to_vec(),
        vec![
            MeasuredPrefix { string: "decrease".to_string(), prefix_distance: 0 },
            MeasuredPrefix { string: "decreasing".to_string(), prefix_distance: 0 },
            MeasuredPrefix { string: "decrement".to_string(), prefix_distance: 0 },
        ]
    );
    assert!(result[3..].iter().all(|m| m.prefix_distance > 0));
}

#[test]
fn meta_results_are_sorted_and_measured() {
    let source = strings(&["success", "successor", "successive", "decrement", "decrease", "decreasing"]);
    let autocompleter = MetaAutocompleter::new(source.len(), source);
    let mut cache = Cache::new();
    let result = autocompleter.autocomplete("zucc", 3, &mut cache);
    assert!(!result.is_empty());
    for m in &result {
        assert_eq!(m.prefix_distance, strprox::levenshtein::prefix_edit_distance("zucc", &m.string));
    }
    for pair in result.windows(2) {
        assert!((pair[0].prefix_distance, &pair[0].string) < (pair[1].prefix_distance, &pair[1].string));
    }
}

#[test]
fn meta_cache_gives_the_same_results() {
    let source = strings(&["soho", "solid", "solo", "solve", "soon", "throw"]);
    let autocompleter = MetaAutocompleter::new(source.len(), source);
    let mut cache = Cache::new();
    let first = autocompleter.autocomplete("ssol", 3, &mut cache);
    let second = autocompleter.autocomplete("ssol", 3, &mut cache);
    let extended = autocompleter.autocomplete("ssolv", 3, &mut cache);
    let mut fresh = Cache::new();
    assert_eq!(first, second);
    assert_eq!(extended, autocompleter.autocomplete("ssolv", 3, &mut fresh));
}

#[test]
fn meta_empty_query_has_results() {
    let source = strings(&["b", "a", "c", "d"]);
    let autocompleter = MetaAutocompleter::new(source.len(), source);
    let mut cache = Cache::new();
    let result = autocompleter.autocomplete("", 3, &mut cache);
    assert_eq!(
        result,
        vec![
            MeasuredPrefix { string: "a".to_string(), prefix_distance: 0 },
            MeasuredPrefix { string: "b".to_string(), prefix_distance: 0 },
            MeasuredPrefix { string: "c".to_string(), prefix_distance: 0 },
        ]
    );
}

#[test]
fn measure_results_sorts() {
    let result = measure_results(strings(&["solve", "soho", "solid"]), "sol");
    assert_eq!(
        result,
        vec![
            MeasuredPrefix { string: "solid".to_string(), prefix_distance: 0 },
            MeasuredPrefix { string: "solve".to_string(), prefix_distance: 0 },
            MeasuredPrefix { string: "soho".to_string(), prefix_distance: 1 },
        ]
    );
}

#[test]
fn assemble_holds_the_root() {
    let source = strings(&["ab"]);
    let autocompleter = MetaAutocompleter::new(source.len(), source);
    let mut cache = Cache::new();
    let set = autocompleter.assemble("", &mut cache);
    assert_eq!(set.matchings.len(), 1);
    assert_eq!(set.matchings.get(&(0u8, 0usize)), Some(&0u8));
    let set = autocompleter.assemble("ab", &mut cache);
    // exact matchings of "a" and "ab", and the root
    assert_eq!(set.matchings.get(&(1u8, 1usize)), Some(&0u8));
    assert_eq!(set.matchings.get(&(2u8, 2usize)), Some(&0u8));
}

#[test]
fn prune_keeps_a_small_cache() {
    let source = strings(&["ab", "abc"]);
    let mut autocompleter = MetaAutocompleter::new(source.len(), source);
    let mut cache = Cache::new();
    let before = autocompleter.autocomplete("ab", 3, &mut cache);
    autocompleter.prune(&mut cache);
    let after = autocompleter.autocomplete("ab", 3, &mut cache);
    assert_eq!(before, after);
}

#[test]
fn prune_after_many_visits() {
    let source = strings(&["ab", "abc", "b"]);
    let mut autocompleter = MetaAutocompleter::new(source.len(), source);
    let mut cache = Cache::new();
    let expected = autocompleter.autocomplete("ab", 3, &mut cache);
    // every repeated query files its entry under a new visit time
    for _ in 0..1003 {
        assert_eq!(autocompleter.autocomplete("ab", 3, &mut cache), expected);
    }
    autocompleter.prune(&mut cache);
    assert_eq!(autocompleter.autocomplete("ab", 3, &mut cache), expected);
    assert_eq!(autocompleter.autocomplete("b", 3, &mut cache), autocompleter.autocomplete("b", 3, &mut Cache::new()));
}

/// Tests that autocomplete can return exact associated categories
#[test]
fn two_categories() {
    let source = strings(&["success", "successor", "successive", "decrement", "decrease", "decreasing"]);
    let autocompleter = MetaAutocompleter::new(source.len(), source.clone());
    let mut cache = Cache::new();
    let result = autocompleter.autocomplete("zucc", 3, &mut cache);
    assert!(contains_string(&result, "success"));
    assert!(contains_string(&result, "successor"));
    assert!(contains_string(&result, "successive"));
    assert_eq!(result, strprox::levenshtein::unindexed_autocomplete("zucc", 3, &source));

    let result = autocompleter.autocomplete("deck", 3, &mut cache);
    assert!(contains_string(&result, "decrement"));
    assert!(contains_string(&result, "decrease"));
    assert!(contains_string(&result, "decreasing"));
    assert_eq!(result, strprox::levenshtein::unindexed_autocomplete("deck", 3, &source));
}

/// The example in the README
#[test]
fn example() {
    let source = strings(&["success", "successive", "successor", "decrease", "decreasing", "decrement"]);
    let autocompleter = MetaAutocompleter::new(source.len(), source);
    let mut cache = Cache::new();
    let result = autocompleter.autocomplete("luck", 3, &mut cache);
    let result_strings: Vec<&str> = result.iter().map(|m| m.string.as_str()).collect();
    assert_eq!(result_strings, vec!["success", "successive", "successor"]);
}

/// Tests that autocomplete works for a prefix that only requires an insertion at the beginning
#[test]
fn insertion_ped() {
    let source = strings(&["oobf", "fbor", "bobf"]);
    let autocompleter = MetaAutocompleter::new(source.len(), source);
    let mut cache = Cache::new();
    let result = autocompleter.autocomplete("foob", 1, &mut cache);
    assert_eq!(result[0].string, "oobf");
}

#[test]
fn meta_long_query_is_truncated() {
    let source = strings(&["abc", "abd", "xyz"]);
    let autocompleter = MetaAutocompleter::new(source.len(), source);
    let long: String = std::iter::repeat('a').take(300).collect();
    let cut: String = std::iter::repeat('a').take(255).collect();
    let mut cache = Cache::new();
    assert_eq!(autocompleter.autocomplete(&long, 3, &mut cache), autocompleter.autocomplete(&cut, 3, &mut Cache::new()));
}

#[test]
fn second_deduction_from_the_whole_query() {
    // nodes in pre-order: root, "a", "ab", "abx", "abxb"
    let source = strings(&["ab", "abxb"]);
    let autocompleter = MetaAutocompleter::new(source.len(), source);
    let mut cache = Cache::new();
    let set = autocompleter.assemble("ab", &mut cache);
    assert_eq!(set.matchings.get(&(2u8, 2usize)), Some(&0u8));
    // "ab" and "abxb" are two edits apart
    assert_eq!(set.matchings.get(&(2u8, 4usize)), Some(&2u8));
    assert_eq!(strprox::levenshtein::edit_distance("ab", "abxb"), 2);
}

fn matching_map(entries: &[((u8, usize), u8)]) -> BTreeMap<(u8, usize), u8> {
    entries.iter().cloned().collect()
}

#[test]
fn assemble_gives_exact_distances_on_one_word() {
    // nodes in pre-order: root, "a", "aa", "aaa"
    let source = strings(&["aaa"]);
    let autocompleter = MetaAutocompleter::new(source.len(), source);
    let mut cache = Cache::new();
    let set = autocompleter.assemble("a", &mut cache);
    assert_eq!(set.matchings, matching_map(&[((0, 0), 0), ((1, 1), 0), ((1, 2), 1), ((1, 3), 2)]));
    // the cached deductions give the same set again
    let again = autocompleter.assemble("a", &mut cache);
    assert_eq!(again.matchings, set.matchings);
}

#[test]
fn assemble_gives_exact_distances_on_two_words() {
    // nodes in pre-order: root, "a", "ab", "b", "ba"
    let source = strings(&["ba", "ab"]);
    let autocompleter = MetaAutocompleter::new(source.len(), source);
    let mut cache = Cache::new();
    let set = autocompleter.assemble("bb", &mut cache);
    assert_eq!(
        set.matchings,
        matching_map(&[((0, 0), 0), ((1, 2), 1), ((1, 3), 0), ((2, 2), 1), ((2, 3), 1)])
    );
}

#[test]
fn assemble_deduces_for_queries_beyond_ascii() {
    // nodes in pre-order: root, "é", "éé"
    let source = strings(&["éé"]);
    let autocompleter = MetaAutocompleter::new(source.len(), source);
    let mut cache = Cache::new();
    let set = autocompleter.assemble("é", &mut cache);
    assert_eq!(set.matchings, matching_map(&[((0, 0), 0), ((1, 1), 0), ((1, 2), 1)]));
}

#[test]
fn assemble_of_the_empty_query_is_the_root() {
    let source = strings(&["ab", "b"]);
    let autocompleter = MetaAutocompleter::new(source.len(), source);
    let set = autocompleter.assemble("", &mut Cache::new());
    assert_eq!(set.matchings, matching_map(&[((0, 0), 0)]));
}

#[test]
fn same_strings_give_the_same_nodes() {
    let first = MetaAutocompleter::new(3, strings(&["b", "a", "b"]));
    let second = MetaAutocompleter::new(2, strings(&["a", "b"]));
    for query in ["a", "b", "ab", "ba", "bb"] {
        let one = first.assemble(query, &mut Cache::new());
        let other = second.assemble(query, &mut Cache::new());
        assert_eq!(one.matchings, other.matchings);
    }
    // nodes in pre-order: root, "a", "b"
    let set = first.assemble("b", &mut Cache::new());
    assert_eq!(set.matchings, matching_map(&[((0, 0), 0), ((1, 2), 0)]));
    let set = first.assemble("ab", &mut Cache::new());
    // "a" matches node "a" exactly; "ab" is one edit from "b" and from "a"
    assert_eq!(set.matchings, matching_map(&[((0, 0), 0), ((1, 1), 0), ((2, 2), 1)]));
}

#[test]
fn autocomplete_returns_the_requested_number() {
    let source = strings(&["success", "successor", "successive", "decrement", "decrease", "decreasing"]);
    let autocompleter = MetaAutocompleter::new(source.len(), source.clone());
    let mut cache = Cache::new();
    for query in ["", "s", "dec", "zucc", "xyzzy", "decreasingly"] {
        for requested in [0, 1, 2, 5, 6, 10] {
            let result = autocompleter.autocomplete(query, requested, &mut cache);
            assert_eq!(result.len(), requested.min(6));
            assert_eq!(result, strprox::levenshtein::unindexed_autocomplete(query, requested, &source));
        }
    }
}

#[test]
fn autocomplete_finds_distant_strings() {
    // every stored string is at prefix edit distance 3 or more from the query
    let source = strings(&["abc", "abd", "xyz"]);
    let autocompleter = MetaAutocompleter::new(source.len(), source.clone());
    let result = autocompleter.autocomplete("qqqq", 2, &mut Cache::new());
    assert_eq!(result, strprox::levenshtein::unindexed_autocomplete("qqqq", 2, &source));
    assert_eq!(result.len(), 2);
    assert!(result.iter().all(|m| m.prefix_distance >= 3));
}
