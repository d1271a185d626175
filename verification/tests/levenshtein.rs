use strprox::levenshtein::{
    edit_distance, edit_distance_chars, final_lev_row, prefix_edit_distance,
    prefix_edit_distance_chars, to_char_vec, unindexed_autocomplete,
};
use strprox::MeasuredPrefix;

fn strings(words: &[&str]) -> Vec<String> {
    words.iter().map(|w| w.to_string()).collect()
}

fn result_strings(result: &[MeasuredPrefix]) -> Vec<&str> {
    result.iter().map(|m| m.string.as_str()).collect()
}

#[test]
pub fn edtest() {
    let distance = edit_distance("quer", "qzer");
    println!("{}", distance);
    assert_eq!(distance, 1);
}

#[test]
fn try_range() {
    println!("{:?}", (2..=2).into_iter().collect::<Vec<_>>());
}

#[test]
fn edit_distance_examples() {
    assert_eq!(edit_distance("kitten", "sitting"), 3);
    assert_eq!(edit_distance("", "abc"), 3);
    assert_eq!(edit_distance("abc", ""), 3);
    assert_eq!(edit_distance("", ""), 0);
    assert_eq!(edit_distance("flaw", "lawn"), 2);
    assert_eq!(edit_distance("物不见人", "见物不见人"), 1);
}

#[test]
fn edit_distance_is_symmetric_on_examples() {
    assert_eq!(edit_distance("sunday", "saturday"), edit_distance("saturday", "sunday"));
    assert_eq!(edit_distance("abc", "abc"), 0);
}

#[test]
fn prefix_edit_distance_examples() {
    // a prefix of the stored string is reached without edits
    assert_eq!(prefix_edit_distance("succ", "success"), 0);
    // one substitution at the start
    assert_eq!(prefix_edit_distance("zucc", "success"), 1);
    // one insertion at the beginning
    assert_eq!(prefix_edit_distance("foob", "oobf"), 1);
    assert_eq!(prefix_edit_distance("foob", "fbor"), 2);
    assert_eq!(prefix_edit_distance("foob", "bobf"), 2);
    // an empty stored string costs the whole query
    assert_eq!(prefix_edit_distance("abc", ""), 3);
    assert_eq!(prefix_edit_distance("", "abc"), 0);
    assert_eq!(prefix_edit_distance("ssol", "solid"), 1);
    assert_eq!(prefix_edit_distance("ssol", "soho"), 2);
}

#[test]
fn prefix_edit_distance_is_at_most_edit_distance() {
    for (a, b) in [("quer", "qzer"), ("deck", "decrement"), ("luck", "success"), ("", "x")] {
        assert!(prefix_edit_distance(a, b) <= edit_distance(a, b));
        assert!(prefix_edit_distance(a, b) <= a.chars().count());
    }
}

#[test]
fn chars_versions_agree() {
    let a = to_char_vec("decrease");
    let b = to_char_vec("deck");
    assert_eq!(edit_distance_chars(&b, &a), edit_distance("deck", "decrease"));
    assert_eq!(prefix_edit_distance_chars(&b, &a), prefix_edit_distance("deck", "decrease"));
    assert_eq!(prefix_edit_distance_chars(&b, &a), 1);
}

#[test]
fn final_lev_row_example() {
    let first = to_char_vec("ab");
    let second = to_char_vec("abc");
    assert_eq!(final_lev_row(&first, &second), vec![2, 1, 0, 1]);
}

#[test]
fn to_char_vec_example() {
    assert_eq!(to_char_vec("a许b"), vec!['a', '许', 'b']);
}

#[test]
fn unindexed_two_categories() {
    let source = strings(&["success", "successor", "successive", "decrement", "decrease", "decreasing"]);
    let result = unindexed_autocomplete("zucc", 3, &source);
    assert_eq!(result_strings(&result), vec!["success", "successive", "successor"]);
    assert!(result.iter().all(|m| m.prefix_distance == 1));
    let result = unindexed_autocomplete("deck", 3, &source);
    assert_eq!(result_strings(&result), vec!["decrease", "decreasing", "decrement"]);
}

#[test]
fn unindexed_insertion_ped() {
    let source = strings(&["oobf", "fbor", "bobf"]);
    let result = unindexed_autocomplete("foob", 1, &source);
    assert_eq!(result.len(), 1);
    assert_eq!(result[0].string, "oobf");
    assert_eq!(result[0].prefix_distance, 1);
}

#[test]
fn unindexed_returns_all_when_fewer_are_stored() {
    let source = strings(&["b", "a"]);
    let result = unindexed_autocomplete("a", 10, &source);
    assert_eq!(
        result,
        vec![
            MeasuredPrefix { string: "a".to_string(), prefix_distance: 0 },
            MeasuredPrefix { string: "b".to_string(), prefix_distance: 1 },
        ]
    );
    assert!(unindexed_autocomplete("a", 0, &source).is_empty());
}
