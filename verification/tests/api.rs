use fuzzy_locator::{
    are_words_similar, calculate_combined_similarity, levenshtein_distance, n_gram_similarity,
    normalize_text, string_similarity, word_level_similarity, word_to_phrase_similarity,
    ClipboardHistory, ClipboardMode, Ratio, TextLocator,
};

#[test]
fn the_library_from_its_root() {
    let mut locator = TextLocator::new();
    locator.preprocess("Call me Ishmael. Some years ago, never mind how long precisely.");
    let found = locator.query("some years ago never mind").unwrap();
    assert_eq!(found.matched_text, "some years ago never mind");
    assert_eq!((found.start_word_index, found.end_word_index), (3, 7));
    assert_eq!(found.alignment_score, 10);
    assert_eq!(found.confidence, Ratio { num: 10, den: 10 });

    assert_eq!(normalize_text("Call me Ishmael."), "call me ishmael");
    assert_eq!(levenshtein_distance("ishmael", "ismael"), 1);
    assert_eq!(string_similarity("Ishmael", "ismael"), Ratio { num: 1, den: 7 });
    assert_eq!(n_gram_similarity("call me ishmael", "call me", 2), Ratio { num: 1, den: 2 });
    assert!(are_words_similar("ishmael", "ismael", Ratio { num: 4, den: 5 }));
    assert_eq!(word_to_phrase_similarity("ishmael", "ish mael"), Ratio { num: 7, den: 7 });
    assert_eq!(word_level_similarity("call me", "call me ishmael"), Ratio { num: 4, den: 4 });
    assert!(calculate_combined_similarity("call me", "call me ishmael").contained);

    let mut history = ClipboardHistory::new(3);
    history.record_copy("x", ClipboardMode::Stack);
    assert_eq!(history.next_paste(ClipboardMode::Stack), Some("x".to_string()));
}

#[test]
fn misheard_snippets_are_still_located() {
    let mut locator = TextLocator::new();
    locator.preprocess(
        "It was the best of times, it was the worst of times, it was the age of wisdom, \
         it was the age of foolishness, it was the epoch of belief.",
    );
    // "wisdum" is one edit from "wisdom".
    let found = locator.query("the age of wisdum").unwrap();
    assert_eq!(found.alignment_score, 7);
    assert_eq!(found.matched_text, "the age of wisdom");
    assert_eq!((found.start_word_index, found.end_word_index), (14, 17));
    // A dropped word is bridged at the price of a gap.
    let found = locator.query("it was the epoch belief").unwrap();
    assert_eq!(found.alignment_score, 9);
    assert_eq!(found.matched_text, "it was the epoch of belief");
}
