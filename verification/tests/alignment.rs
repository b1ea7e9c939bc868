use fuzzy_locator::align::{smith_waterman_align, word_match_score};
use fuzzy_locator::edit_distance::levenshtein_distance;

fn strings(items: &[&str]) -> Vec<String> {
    items.iter().map(|s| s.to_string()).collect()
}

fn book() -> Vec<String> {
    strings(&["the", "quick", "brown", "fox", "jumps", "over", "the", "lazy", "dog"])
}

#[test]
fn levenshtein_of_known_pairs() {
    assert_eq!(levenshtein_distance("kitten", "sitting"), 3);
    assert_eq!(levenshtein_distance("flaw", "lawn"), 2);
    assert_eq!(levenshtein_distance("abc", "abc"), 0);
    assert_eq!(levenshtein_distance("brawn", "brown"), 1);
}

#[test]
fn levenshtein_against_empty_string_is_the_length() {
    assert_eq!(levenshtein_distance("", ""), 0);
    assert_eq!(levenshtein_distance("", "abc"), 3);
    assert_eq!(levenshtein_distance("abcd", ""), 4);
}

#[test]
fn levenshtein_counts_characters_not_bytes() {
    assert_eq!(levenshtein_distance("é", "e"), 1);
    assert_eq!(levenshtein_distance("日本語", "日本"), 1);
}

#[test]
fn levenshtein_is_symmetric_on_examples() {
    assert_eq!(
        levenshtein_distance("sunday", "saturday"),
        levenshtein_distance("saturday", "sunday")
    );
    assert_eq!(levenshtein_distance("sunday", "saturday"), 3);
}

#[test]
fn match_score_has_three_levels() {
    assert_eq!(word_match_score("fox", "fox"), 2);
    assert_eq!(word_match_score("brawn", "brown"), 1);
    assert_eq!(word_match_score("fox", "foxy"), 1);
    assert_eq!(word_match_score("fox", "fo"), 1);
    assert_eq!(word_match_score("cat", "dog"), -1);
    assert_eq!(word_match_score("fox", "foxes"), -1);
}

#[test]
fn alignment_of_an_exact_run() {
    let found = smith_waterman_align(&strings(&["quick", "brown", "fox", "jumps"]), &book(), 0);
    assert_eq!(found.alignment_score, 8);
    assert_eq!(found.start_index_in_window, 1);
    assert_eq!(found.end_index_in_window, 4);
}

#[test]
fn alignment_bridges_a_missing_word() {
    let found = smith_waterman_align(&strings(&["quick", "fox", "jumps", "over"]), &book(), 0);
    assert_eq!(found.alignment_score, 7);
    assert_eq!(found.start_index_in_window, 1);
    assert_eq!(found.end_index_in_window, 5);
}

#[test]
fn alignment_bridges_an_extra_word() {
    let found = smith_waterman_align(
        &strings(&["quick", "brown", "fox", "really", "jumps", "over"]),
        &book(),
        0,
    );
    assert_eq!(found.alignment_score, 9);
    assert_eq!(found.start_index_in_window, 1);
    assert_eq!(found.end_index_in_window, 5);
}

#[test]
fn alignment_with_nothing_in_common_is_the_sentinel() {
    let found = smith_waterman_align(&strings(&["zzz", "yyy"]), &book(), 0);
    assert_eq!(found.alignment_score, 0);
    assert_eq!(found.start_index_in_window, 0);
    assert_eq!(found.end_index_in_window, 0);
}

#[test]
fn alignment_of_empty_sides_is_the_sentinel() {
    let none: Vec<String> = Vec::new();
    let a = smith_waterman_align(&none, &book(), 0);
    assert_eq!((a.alignment_score, a.start_index_in_window, a.end_index_in_window), (0, 0, 0));
    let b = smith_waterman_align(&book(), &none, 0);
    assert_eq!((b.alignment_score, b.start_index_in_window, b.end_index_in_window), (0, 0, 0));
}

#[test]
fn alignment_prefers_the_first_of_two_equal_runs() {
    let window = strings(&["a", "b", "x", "a", "b"]);
    let found = smith_waterman_align(&strings(&["a", "b"]), &window, 0);
    assert_eq!(found.alignment_score, 4);
    assert_eq!(found.start_index_in_window, 0);
    assert_eq!(found.end_index_in_window, 1);
}

#[test]
fn alignment_gives_up_when_the_bound_is_out_of_reach() {
    // After the first row the best cell holds 2 and three rows are left:
    // at most 8 can be reached, which is below the bound.
    let found = smith_waterman_align(&strings(&["quick", "brown", "fox", "jumps"]), &book(), 100);
    assert_eq!(found.alignment_score, 2);
    assert_eq!(found.start_index_in_window, 1);
    assert_eq!(found.end_index_in_window, 1);
}

#[test]
fn alignment_goes_on_while_the_bound_is_in_reach() {
    let found = smith_waterman_align(&strings(&["quick", "brown", "fox", "jumps"]), &book(), 8);
    assert_eq!(found.alignment_score, 8);
    let found = smith_waterman_align(&strings(&["quick", "brown", "fox", "jumps"]), &book(), 9);
    assert_eq!(found.alignment_score, 2);
}
