use strprox::levenshtein::edit_distance;
use strprox::sample::{apply_edit, edit_budget, random_edits, sample_edited_string};

#[test]
fn random_edits_stay_within_the_number_of_edits() {
    for edits in 0..6 {
        for _ in 0..20 {
            let edited = random_edits("abandoned", edits);
            assert!(edit_distance("abandoned", &edited) <= edits);
            let length = edited.chars().count() as isize;
            assert!((length - 9).unsigned_abs() <= edits);
        }
    }
}

#[test]
fn random_edits_of_nothing() {
    assert_eq!(random_edits("x", 0), "x");
    let edited = random_edits("", 2);
    assert!(edited.chars().count() <= 2);
    assert!(edited.chars().all(|c| c.is_ascii_alphanumeric()));
}

#[test]
fn sample_edited_string_picks_a_source_string() {
    let source = vec!["success", "decrease", "许学轺"];
    let mut rng = rand::thread_rng();
    for _ in 0..50 {
        let (string, edited, edits) = sample_edited_string(&source, &mut rng, 2);
        assert!(source.contains(&string));
        assert!(edits <= 2);
        assert!(edit_distance(string, &edited) <= edits);
    }
}

#[test]
fn sample_edited_string_makes_at_most_five_edits() {
    let source = vec!["abandoned"];
    let mut rng = rand::thread_rng();
    for _ in 0..50 {
        let (string, edited, edits) = sample_edited_string(&source, &mut rng, 10);
        assert_eq!(string, "abandoned");
        assert!(edits <= 5);
        assert!(edit_distance(string, &edited) <= edits);
    }
}

#[test]
fn random_edits_of_an_empty_string_insert() {
    for _ in 0..20 {
        let edited = random_edits("", 1);
        assert_eq!(edited.chars().count(), 1);
        assert!(edited.chars().all(|c| c.is_ascii_alphanumeric()));
    }
}

#[test]
fn apply_edit_examples() {
    let mut chars: Vec<char> = "abc".chars().collect();
    apply_edit(&mut chars, 1, 3, 'd');
    assert_eq!(chars, vec!['a', 'b', 'c', 'd']);
    apply_edit(&mut chars, 2, 0, 'z');
    assert_eq!(chars, vec!['b', 'c', 'd']);
    apply_edit(&mut chars, 3, 1, 'x');
    assert_eq!(chars, vec!['b', 'x', 'd']);
    apply_edit(&mut chars, 7, 1, 'y');
    assert_eq!(chars, vec!['b', 'x', 'd']);
}

#[test]
fn edit_budget_is_at_most_five() {
    assert_eq!(edit_budget(0), 0);
    assert_eq!(edit_budget(3), 3);
    assert_eq!(edit_budget(5), 5);
    assert_eq!(edit_budget(9), 5);
}
