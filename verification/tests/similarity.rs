use fuzzy_locator::ratio::Ratio;
use fuzzy_locator::similarity::{
    are_words_similar, calculate_combined_similarity, closeness, contains_chars,
    generate_ngrams, generate_token_ngrams, jaccard_similarity, n_gram_similarity, sorted_chars,
    string_similarity, strip_whitespace, word_level_similarity, word_to_phrase_similarity,
};

fn strings(items: &[&str]) -> Vec<String> {
    items.iter().map(|s| s.to_string()).collect()
}

fn ratio(num: u128, den: u128) -> Ratio {
    Ratio { num, den }
}

#[test]
fn string_similarity_is_distance_over_longer_length() {
    assert_eq!(string_similarity("kitten", "sitting"), ratio(3, 7));
    assert_eq!(string_similarity("cat", "dog"), ratio(3, 3));
}

#[test]
fn string_similarity_ignores_case() {
    assert_eq!(string_similarity("ABC", "abc"), ratio(0, 3));
}

#[test]
fn string_similarity_of_two_empty_strings_is_zero() {
    assert_eq!(string_similarity("", ""), ratio(0, 1));
    assert_eq!(string_similarity("", "ab"), ratio(2, 2));
}

#[test]
fn closeness_is_one_minus_similarity() {
    assert_eq!(closeness("kitten", "sitting"), ratio(4, 7));
    assert_eq!(closeness("same", "same"), ratio(4, 4));
    assert_eq!(closeness("", ""), ratio(1, 1));
}

#[test]
fn ngram_similarity_is_jaccard_of_ngram_sets() {
    assert_eq!(n_gram_similarity("a b c d", "b c d e", 2), ratio(2, 4));
    assert_eq!(n_gram_similarity("a b c d", "b c d e", 3), ratio(1, 3));
    assert_eq!(n_gram_similarity("a b c", "a b c", 1), ratio(3, 3));
}

#[test]
fn ngram_similarity_counts_a_repeated_ngram_once() {
    assert_eq!(n_gram_similarity("a b a b", "a b", 2), ratio(1, 2));
}

#[test]
fn ngram_similarity_without_ngrams_is_zero() {
    assert_eq!(n_gram_similarity("a b", "a b", 3), ratio(0, 1));
    assert_eq!(n_gram_similarity("a b", "a b", 0), ratio(0, 1));
    assert_eq!(n_gram_similarity("", "", 2), ratio(0, 1));
    assert_eq!(n_gram_similarity("a b c", "", 2), ratio(0, 2));
}

#[test]
fn token_ngrams_keep_order_and_repetitions() {
    assert_eq!(
        generate_token_ngrams(&strings(&["a", "b", "a", "b"]), 2),
        strings(&["a b", "b a", "a b"])
    );
    assert!(generate_token_ngrams(&strings(&["a", "b"]), 3).is_empty());
    assert!(generate_token_ngrams(&strings(&["a", "b"]), 0).is_empty());
    assert_eq!(generate_token_ngrams(&strings(&["a", "b"]), 2), strings(&["a b"]));
}

#[test]
fn text_ngrams_are_distinct() {
    assert_eq!(generate_ngrams("a b a b a", 2), strings(&["a b", "b a"]));
}

#[test]
fn jaccard_of_lists_without_repetitions() {
    let a = strings(&["x", "y", "z"]);
    let b = strings(&["y", "z", "w", "v"]);
    assert_eq!(jaccard_similarity(&a, &b), ratio(2, 5));
    let none: Vec<String> = Vec::new();
    assert_eq!(jaccard_similarity(&none, &none), ratio(0, 1));
    assert_eq!(jaccard_similarity(&a, &none), ratio(0, 3));
}

#[test]
fn equal_words_are_similar() {
    assert!(are_words_similar("hello", "hello", ratio(1, 1)));
    assert!(are_words_similar("", "", ratio(1, 1)));
}

#[test]
fn close_words_are_similar_at_the_threshold() {
    // One edit in five characters: closeness 4/5.
    assert!(are_words_similar("hello", "hallo", ratio(4, 5)));
    assert!(!are_words_similar("hello", "hallo", ratio(81, 100)));
}

#[test]
fn a_contained_word_of_three_bytes_is_similar() {
    assert!(are_words_similar("testing", "test", ratio(9, 10)));
    assert!(are_words_similar("test", "testing", ratio(9, 10)));
    assert!(!are_words_similar("ab", "a", ratio(9, 10)));
    assert!(!are_words_similar("hello", "help", ratio(4, 5)));
}

#[test]
fn thresholds_of_any_size_are_compared_exactly() {
    let huge = u128::MAX;
    // 4/5 written with a denominator far beyond 64 bits.
    let den = huge - huge % 5;
    let four_fifths = Ratio { num: den / 5 * 4, den };
    assert!(are_words_similar("hello", "hallo", four_fifths));
    assert!(!are_words_similar("hello", "hallo", Ratio { num: den / 5 * 4 + 1, den }));
    assert!(are_words_similar("hello", "hallo", Ratio { num: den / 5 * 4 - 1, den }));
    assert!(!are_words_similar("hello", "world", Ratio { num: huge, den: huge }));
    assert!(are_words_similar("hello", "world", Ratio { num: 0, den: huge }));
    // A threshold above one is reached by equal words only.
    assert!(!are_words_similar("hello", "hallo", Ratio { num: huge, den: 1 }));
    assert!(are_words_similar("hello", "hello", Ratio { num: huge, den: 1 }));
}

#[test]
fn containment_counts_bytes_of_the_shorter_word() {
    // "é" takes two bytes, so "éa" takes three.
    assert!(are_words_similar("éab", "éa", ratio(99, 100)));
    assert!(!are_words_similar("abc", "ab", ratio(99, 100)));
}

#[test]
fn word_equal_to_phrase_in_normal_form_scores_one() {
    assert_eq!(word_to_phrase_similarity("hello", "HELLO!"), ratio(1, 1));
}

#[test]
fn word_close_to_phrase_without_spaces() {
    assert_eq!(word_to_phrase_similarity("notebook", "note book"), ratio(8, 8));
    assert_eq!(word_to_phrase_similarity("note book", "notebook"), ratio(8, 9));
}

#[test]
fn word_without_spaces_close_to_phrase() {
    assert_eq!(word_to_phrase_similarity("ab cd ef gh", "abcdefgh"), ratio(8, 8));
}

#[test]
fn word_close_to_phrase_as_they_stand() {
    assert_eq!(word_to_phrase_similarity("abcdefghijk", "abcdefghxyz"), ratio(8, 11));
}

#[test]
fn anagram_scores_nine_tenths_of_sorted_closeness() {
    assert_eq!(word_to_phrase_similarity("listen", "silent"), ratio(54, 60));
}

#[test]
fn unrelated_word_and_phrase_score_their_closeness() {
    assert_eq!(word_to_phrase_similarity("cat", "dog"), ratio(0, 3));
}

#[test]
fn word_level_similarity_of_a_contained_run_is_one() {
    assert_eq!(
        word_level_similarity("quick brown fox", "The quick brown fox jumps"),
        ratio(6, 6)
    );
}

#[test]
fn word_level_similarity_with_a_misheard_word() {
    assert_eq!(
        word_level_similarity("quick brawn fox", "the quick brown fox jumps"),
        ratio(5, 6)
    );
}

#[test]
fn word_level_similarity_of_empty_transcript_is_zero() {
    assert_eq!(word_level_similarity("", "abc"), ratio(0, 1));
    assert_eq!(word_level_similarity("abc", ""), ratio(0, 2));
}

#[test]
fn combined_similarity_measure_by_measure() {
    let m = calculate_combined_similarity("the quick brown", "The quick, brown fox");
    assert_eq!(m.word_level, ratio(6, 6));
    assert_eq!(m.ngram_2, ratio(2, 3));
    assert_eq!(m.ngram_3, ratio(1, 2));
    assert_eq!(m.ngram_4, ratio(0, 1));
    assert_eq!(m.characters, ratio(15, 19));
    assert!(m.contained);
}

#[test]
fn combined_score_is_the_weighted_sum() {
    let m = calculate_combined_similarity("the quick brown", "The quick, brown fox");
    // 0.5 * 1 + 0.15 * 1/2 + 0.15 * 2/3 + 0.1 * 0 + 0.05 * 15/19 + 0.05 * 0.5
    let score = m.score().unwrap();
    assert_eq!(score.den, 1000 * 6 * 2 * 3 * 1 * 19);
    assert_eq!(
        score.num,
        25 * (6 * 2 * 3 * 19)
            + 500 * 6 * (2 * 3 * 19)
            + 150 * 1 * (6 * 3 * 19)
            + 150 * 2 * (6 * 2 * 19)
            + 50 * 15 * (6 * 2 * 3)
    );
    let value = score.num as f64 / score.den as f64;
    let expected = 0.5 + 0.15 * 0.5 + 0.15 * (2.0 / 3.0) + 0.05 * (15.0 / 19.0) + 0.05 * 0.5;
    assert!((value - expected).abs() < 1e-12);
}

#[test]
fn combined_score_of_equal_texts_is_short_of_one_by_the_containment() {
    let m = calculate_combined_similarity("one two three four five", "one two three four five");
    let score = m.score().unwrap();
    // Every measure is one; the containment score is one half.
    assert_eq!(score.num * 1000, 975 * score.den);
}

#[test]
fn combined_score_of_unrelated_texts() {
    let m = calculate_combined_similarity("alpha beta", "gamma delta epsilon");
    let score = m.score().unwrap();
    // Only the characters have something in common.
    assert_eq!(m.characters.den, 19);
    assert_eq!(score.num * m.characters.den, 50 * m.characters.num * score.den / 1000);
    assert!(score.num * 20 <= score.den);
}

#[test]
fn combined_score_does_not_fit_for_huge_denominators() {
    let big = Ratio { num: 1, den: 1 << 30 };
    let m = fuzzy_locator::similarity::CombinedSimilarity {
        word_level: big,
        ngram_2: big,
        ngram_3: big,
        ngram_4: big,
        characters: big,
        contained: false,
    };
    assert_eq!(m.score(), None);
    let small = fuzzy_locator::similarity::CombinedSimilarity {
        word_level: Ratio { num: 1, den: 2 },
        ngram_2: Ratio::zero(),
        ngram_3: Ratio::zero(),
        ngram_4: Ratio::zero(),
        characters: Ratio::one(),
        contained: true,
    };
    assert_eq!(small.score(), Some(Ratio { num: 25 * 2 + 500 + 50 * 2, den: 2000 }));
}

#[test]
fn combined_similarity_of_unrelated_texts() {
    let m = calculate_combined_similarity("alpha beta", "gamma delta epsilon");
    assert_eq!(m.word_level, ratio(0, 4));
    assert_eq!(m.ngram_2, ratio(0, 3));
    assert_eq!(m.ngram_3, ratio(0, 1));
    assert_eq!(m.ngram_4, ratio(0, 1));
    assert!(!m.contained);
}

#[test]
fn helpers_on_characters() {
    assert_eq!(strip_whitespace("a b\tc\n"), "abc");
    assert_eq!(sorted_chars("silent"), "eilnst");
    assert_eq!(sorted_chars("banana"), "aaabnn");
    let hay: Vec<char> = "the quick".chars().collect();
    let needle: Vec<char> = "e q".chars().collect();
    let other: Vec<char> = "eq".chars().collect();
    let empty: Vec<char> = Vec::new();
    assert!(contains_chars(&hay, &needle));
    assert!(!contains_chars(&hay, &other));
    assert!(contains_chars(&hay, &empty));
    assert!(!contains_chars(&needle, &hay));
}

#[test]
fn ratio_constants() {
    assert_eq!(Ratio::zero(), ratio(0, 1));
    assert_eq!(Ratio::one(), ratio(1, 1));
}
