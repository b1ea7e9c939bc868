use fuzzy_locator::text::{
    chars_of, join_tokens, normalize_text, split_text, token_chars, tokenize,
};

fn strings(items: &[&str]) -> Vec<String> {
    items.iter().map(|s| s.to_string()).collect()
}

#[test]
fn normalize_lowercases_and_strips_punctuation() {
    assert_eq!(normalize_text("Hello, World!"), "hello world");
}

#[test]
fn normalize_collapses_whitespace_and_trims() {
    assert_eq!(normalize_text("  The   QUICK\tbrown\nfox. "), "the quick brown fox");
}

#[test]
fn normalize_of_empty_text_is_empty() {
    assert_eq!(normalize_text(""), "");
}

#[test]
fn normalize_of_punctuation_only_is_empty() {
    assert_eq!(normalize_text("?!... --- ;;"), "");
}

#[test]
fn normalize_keeps_letters_and_digits_of_any_script() {
    assert_eq!(normalize_text("ÉCOLE Über 42!"), "école über 42");
}

#[test]
fn normalize_is_stable_on_its_own_result() {
    let once = normalize_text("It's  a Dog-eat-dog   world, isn't it?");
    assert_eq!(once, "it s a dog eat dog world isn t it");
    assert_eq!(normalize_text(&once), once);
}

#[test]
fn tokenize_splits_normal_form_into_words() {
    assert_eq!(
        tokenize("It's a dog-eat-dog world"),
        strings(&["it", "s", "a", "dog", "eat", "dog", "world"])
    );
}

#[test]
fn tokenize_of_text_without_letters_gives_no_tokens() {
    assert!(tokenize("").is_empty());
    assert!(tokenize(" \t\n").is_empty());
    assert!(tokenize("...").is_empty());
}

#[test]
fn split_text_takes_the_text_as_it_stands() {
    assert_eq!(split_text("  Hello,   World! "), strings(&["Hello,", "World!"]));
    assert!(split_text("").is_empty());
}

#[test]
fn chars_of_lists_characters_in_order() {
    assert_eq!(chars_of("añb"), vec!['a', 'ñ', 'b']);
    assert!(chars_of("").is_empty());
}

#[test]
fn token_chars_lists_the_characters_of_each_token() {
    let tokens = strings(&["ab", "", "c"]);
    assert_eq!(token_chars(&tokens), vec![vec!['a', 'b'], vec![], vec!['c']]);
}

#[test]
fn join_tokens_joins_a_stretch_with_single_spaces() {
    let tokens = strings(&["the", "quick", "brown", "fox"]);
    assert_eq!(join_tokens(&tokens, 1, 4), "quick brown fox");
    assert_eq!(join_tokens(&tokens, 2, 3), "brown");
    assert_eq!(join_tokens(&tokens, 2, 2), "");
    assert_eq!(join_tokens(&tokens, 0, 4), "the quick brown fox");
}
