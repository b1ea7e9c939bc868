use fuzzy_locator::locator::{count_overlaps, rank_windows, select_candidates, TextLocator};
use std::time::Instant;

fn make_locator(book: &str) -> TextLocator {
    let mut locator = TextLocator::new();
    locator.preprocess(book);
    locator
}

#[test]
fn exact_match() {
    let locator = make_locator("the quick brown fox jumps over the lazy dog");
    let value = locator.query("quick brown fox jumps");
    assert!(value.is_some());
}

#[test]
fn one_word_substitution() {
    let locator = make_locator("the quick brown fox jumps over the lazy dog");
    let value = locator.query("quick brawn fox jumps");
    assert!(value.is_some());
}

#[test]
fn missing_word() {
    let locator = make_locator("the quick brown fox jumps over the lazy dog");
    let value = locator.query("quick fox jumps over");
    assert!(value.is_some());
}

#[test]
fn extra_word() {
    let locator = make_locator("the quick brown fox jumps over the lazy dog");
    let value = locator.query("quick brown fox really jumps over");
    assert!(value.is_some());
}

#[test]
fn wrong_snippet_low_quality_or_none() {
    let locator = make_locator("the quick brown fox jumps over the lazy dog");
    let value = locator.query("unrelated galaxy banana quantum phrase");
    if let Some(parsed) = value {
        let confidence = parsed.confidence.num as f64 / parsed.confidence.den as f64;
        assert!(confidence < 0.4);
    }
}

#[test]
fn performance_100k_words() {
    let mut words = Vec::with_capacity(100_000);
    for i in 0..100_000 {
        words.push(format!("word{}", i % 2000));
    }
    let book = words.join(" ");
    let locator = make_locator(&book);

    let start = Instant::now();
    let _ = locator.query("word120 word121 word122 word123 word124 word125");
    let elapsed = start.elapsed().as_millis();
    assert!(elapsed < 500, "expected <500ms query, got {}ms", elapsed);
}

#[test]
fn exact_match_is_located_with_full_confidence() {
    let locator = make_locator("the quick brown fox jumps over the lazy dog");
    let found = locator.query("quick brown fox jumps").unwrap();
    assert_eq!(found.window_id, 0);
    assert_eq!(found.start_word_index, 1);
    assert_eq!(found.end_word_index, 4);
    assert_eq!(found.matched_text, "quick brown fox jumps");
    assert_eq!(found.alignment_score, 8);
    assert_eq!(found.confidence.num, 8);
    assert_eq!(found.confidence.den, 8);
}

#[test]
fn one_substitution_costs_one_point() {
    let locator = make_locator("the quick brown fox jumps over the lazy dog");
    let found = locator.query("quick brawn fox jumps").unwrap();
    assert_eq!(found.alignment_score, 7);
    assert_eq!(found.start_word_index, 1);
    assert_eq!(found.end_word_index, 4);
    assert_eq!(found.matched_text, "quick brown fox jumps");
    assert_eq!(found.confidence.num, 7);
    assert_eq!(found.confidence.den, 8);
}

fn strings(items: &[&str]) -> Vec<String> {
    items.iter().map(|s| s.to_string()).collect()
}

fn numbered_words(count: usize) -> String {
    let mut words = Vec::with_capacity(count);
    for i in 0..count {
        words.push(format!("w{}", i));
    }
    words.join(" ")
}

fn state_to_json(state: &fuzzy_locator::locator::TextLocatorState) -> String {
    let mut root = serde_json::Map::new();
    let words: Vec<serde_json::Value> =
        state.words.iter().map(|w| serde_json::Value::String(w.clone())).collect();
    root.insert("words".to_string(), serde_json::Value::Array(words));
    let mut windows = Vec::new();
    for window in &state.windows {
        let mut item = serde_json::Map::new();
        item.insert("id".to_string(), serde_json::Value::from(window.id as u64));
        item.insert(
            "start_word_index".to_string(),
            serde_json::Value::from(window.start_word_index as u64),
        );
        item.insert(
            "end_word_index".to_string(),
            serde_json::Value::from(window.end_word_index as u64),
        );
        let tokens: Vec<serde_json::Value> =
            window.tokens.iter().map(|t| serde_json::Value::String(t.clone())).collect();
        item.insert("tokens".to_string(), serde_json::Value::Array(tokens));
        windows.push(serde_json::Value::Object(item));
    }
    root.insert("windows".to_string(), serde_json::Value::Array(windows));
    let mut index = serde_json::Map::new();
    for entry in &state.inverted_index {
        let ids: Vec<serde_json::Value> =
            entry.window_ids.iter().map(|id| serde_json::Value::from(*id as u64)).collect();
        index.insert(entry.shingle.clone(), serde_json::Value::Array(ids));
    }
    root.insert("inverted_index".to_string(), serde_json::Value::Object(index));
    root.insert(
        "window_size_words".to_string(),
        serde_json::Value::from(state.window_size_words as u64),
    );
    root.insert(
        "step_size_words".to_string(),
        serde_json::Value::from(state.step_size_words as u64),
    );
    serde_json::to_string(&serde_json::Value::Object(root)).unwrap()
}

fn state_from_json(json: &str) -> Option<fuzzy_locator::locator::TextLocatorState> {
    let root: serde_json::Value = serde_json::from_str(json).ok()?;
    let mut words = Vec::new();
    for word in root.get("words")?.as_array()? {
        words.push(word.as_str()?.to_string());
    }
    let mut windows = Vec::new();
    for window in root.get("windows")?.as_array()? {
        let mut tokens = Vec::new();
        for token in window.get("tokens")?.as_array()? {
            tokens.push(token.as_str()?.to_string());
        }
        windows.push(fuzzy_locator::window::Window {
            id: window.get("id")?.as_u64()? as usize,
            start_word_index: window.get("start_word_index")?.as_u64()? as usize,
            end_word_index: window.get("end_word_index")?.as_u64()? as usize,
            tokens,
        });
    }
    let mut inverted_index = Vec::new();
    for (shingle, ids) in root.get("inverted_index")?.as_object()? {
        let mut window_ids = Vec::new();
        for id in ids.as_array()? {
            window_ids.push(id.as_u64()? as usize);
        }
        inverted_index.push(fuzzy_locator::shingle_index::IndexEntry {
            shingle: shingle.clone(),
            window_ids,
        });
    }
    Some(fuzzy_locator::locator::TextLocatorState {
        words,
        windows,
        inverted_index,
        window_size_words: root.get("window_size_words")?.as_u64()? as usize,
        step_size_words: root.get("step_size_words")?.as_u64()? as usize,
    })
}

fn same_result(
    a: &Option<fuzzy_locator::locator::QueryResult>,
    b: &Option<fuzzy_locator::locator::QueryResult>,
) -> bool {
    match (a, b) {
        (None, None) => true,
        (Some(x), Some(y)) => {
            x.window_id == y.window_id
                && x.start_word_index == y.start_word_index
                && x.end_word_index == y.end_word_index
                && x.matched_text == y.matched_text
                && x.alignment_score == y.alignment_score
                && x.confidence == y.confidence
        }
        _ => false,
    }
}

#[test]
fn serde_roundtrip() {
    let mut locator = TextLocator::new();
    locator.preprocess("a b c d e f g h i j k l m n o p q r");
    let json = state_to_json(&locator.state());
    let restored = match state_from_json(&json) {
        Some(state) => TextLocator::from_state(state),
        None => TextLocator::new(),
    };
    let value = restored.query("f g h");
    assert!(value.is_some());
}

#[test]
fn restored_locator_answers_as_the_first_one() {
    let mut locator = TextLocator::with_parameters(12, 5).unwrap();
    locator.preprocess(&numbered_words(90));
    let json = state_to_json(&locator.state());
    let restored = TextLocator::from_state(state_from_json(&json).unwrap());
    for snippet in [
        "w10 w11 w12 w13",
        "w40 w41 x42 w43 w44",
        "w88 w89",
        "w7",
        "nothing of the kind",
        "",
        "w20 w21 w22 w20 w21 w22",
    ] {
        assert!(same_result(&locator.query(snippet), &restored.query(snippet)));
    }
    let again = TextLocator::from_state(locator.state());
    assert!(same_result(&locator.query("w33 w34 w35"), &again.query("w33 w34 w35")));
    assert!(again.query("w33 w34 w35").is_some());
}

#[test]
fn snapshot_with_a_zero_size_gives_a_new_locator() {
    let mut locator = TextLocator::new();
    locator.preprocess("a b c d e f");
    let mut snapshot = locator.state();
    snapshot.step_size_words = 0;
    let restored = TextLocator::from_state(snapshot);
    assert!(restored.query("a b c").is_none());
    let state = restored.state();
    assert!(state.words.is_empty());
    assert!(state.windows.is_empty());
    assert!(state.inverted_index.is_empty());
    assert_eq!(state.window_size_words, 100);
    assert_eq!(state.step_size_words, 30);
}

#[test]
fn unreadable_snapshot_gives_an_empty_locator() {
    let restored = match state_from_json("{ not json") {
        Some(state) => TextLocator::from_state(state),
        None => TextLocator::new(),
    };
    assert!(restored.query("anything").is_none());
    assert_eq!(restored.state().windows.len(), 0);
}

#[test]
fn new_locator_has_default_sizes_and_finds_nothing() {
    let locator = TextLocator::new();
    let state = locator.state();
    assert_eq!(state.window_size_words, 100);
    assert_eq!(state.step_size_words, 30);
    assert!(state.words.is_empty());
    assert!(locator.query("quick brown fox").is_none());
    let other = TextLocator::default();
    assert_eq!(other.state().window_size_words, 100);
    assert!(other.query("quick").is_none());
}

#[test]
fn sizes_of_zero_are_refused() {
    assert!(TextLocator::with_parameters(0, 5).is_none());
    assert!(TextLocator::with_parameters(5, 0).is_none());
    assert!(TextLocator::with_parameters(0, 0).is_none());
    assert!(TextLocator::with_parameters(1, 1).is_some());
}

#[test]
fn short_text_is_one_window() {
    let locator = make_locator("the quick brown fox jumps over the lazy dog");
    let state = locator.state();
    assert_eq!(state.words.len(), 9);
    assert_eq!(state.windows.len(), 1);
    assert_eq!(state.windows[0].id, 0);
    assert_eq!(state.windows[0].start_word_index, 0);
    assert_eq!(state.windows[0].end_word_index, 8);
    assert_eq!(state.windows[0].tokens, state.words);
    assert_eq!(state.inverted_index.len(), 7);
}

#[test]
fn windows_overlap_and_the_last_ends_at_the_last_word() {
    let mut locator = TextLocator::with_parameters(4, 2).unwrap();
    locator.preprocess("a b c d e f g h i j k");
    let state = locator.state();
    let spans: Vec<(usize, usize, usize)> = state
        .windows
        .iter()
        .map(|w| (w.id, w.start_word_index, w.end_word_index))
        .collect();
    assert_eq!(spans, vec![(0, 0, 3), (1, 2, 5), (2, 4, 7), (3, 6, 9), (4, 8, 10)]);
    assert_eq!(state.windows[1].tokens, strings(&["c", "d", "e", "f"]));
    assert_eq!(state.windows[4].tokens, strings(&["i", "j", "k"]));
}

#[test]
fn a_step_beyond_the_end_leaves_the_rest_without_window() {
    let mut locator = TextLocator::with_parameters(3, 20).unwrap();
    locator.preprocess("a b c d e f g h i j");
    let state = locator.state();
    assert_eq!(state.windows.len(), 1);
    assert_eq!(state.windows[0].end_word_index, 2);
}

#[test]
fn index_lists_each_window_once_for_a_shingle() {
    let mut locator = TextLocator::with_parameters(5, 1).unwrap();
    locator.preprocess("a b c a b c d");
    let state = locator.state();
    // Windows: [a b c a b], [b c a b c], [c a b c d].
    assert_eq!(state.windows.len(), 3);
    let mut listed: Vec<(String, Vec<usize>)> = state
        .inverted_index
        .iter()
        .map(|e| (e.shingle.clone(), e.window_ids.clone()))
        .collect();
    listed.sort();
    assert_eq!(
        listed,
        vec![
            ("a b c".to_string(), vec![0, 1, 2]),
            ("b c a".to_string(), vec![0, 1]),
            ("b c d".to_string(), vec![2]),
            ("c a b".to_string(), vec![0, 1, 2]),
        ]
    );
}

#[test]
fn empty_text_gives_an_empty_index() {
    let locator = make_locator("");
    let state = locator.state();
    assert!(state.words.is_empty());
    assert!(state.windows.is_empty());
    assert!(state.inverted_index.is_empty());
    assert!(locator.query("quick brown fox").is_none());
    let locator = make_locator("...  !!! ???");
    assert!(locator.state().windows.is_empty());
    assert!(locator.query("a").is_none());
}

#[test]
fn preprocess_replaces_what_was_indexed() {
    let mut locator = make_locator("the quick brown fox");
    assert!(locator.query("quick brown").is_some());
    locator.preprocess("lorem ipsum dolor sit amet");
    assert!(locator.query("quick brown").is_none());
    assert_eq!(locator.query("ipsum dolor sit").unwrap().start_word_index, 1);
    assert_eq!(locator.state().words.len(), 5);
}

#[test]
fn snippet_without_tokens_finds_nothing() {
    let locator = make_locator("the quick brown fox jumps over the lazy dog");
    assert!(locator.query("").is_none());
    assert!(locator.query("  ").is_none());
    assert!(locator.query("?!").is_none());
}

#[test]
fn unrelated_snippet_has_low_confidence_or_no_match() {
    let locator = make_locator("the quick brown fox jumps over the lazy dog");
    match locator.query("unrelated galaxy banana quantum phrase") {
        None => {}
        Some(found) => {
            assert!((found.confidence.num as f64) / (found.confidence.den as f64) < 0.4);
            assert!(found.alignment_score > 0);
        }
    }
}

#[test]
fn missing_and_extra_words_are_bridged() {
    let locator = make_locator("the quick brown fox jumps over the lazy dog");
    let missing = locator.query("quick fox jumps over").unwrap();
    assert_eq!(missing.alignment_score, 7);
    assert_eq!(missing.matched_text, "quick brown fox jumps over");
    assert_eq!((missing.confidence.num, missing.confidence.den), (7, 8));
    let extra = locator.query("quick brown fox really jumps over").unwrap();
    assert_eq!(extra.alignment_score, 9);
    assert_eq!((extra.start_word_index, extra.end_word_index), (1, 5));
    assert_eq!((extra.confidence.num, extra.confidence.den), (9, 12));
}

#[test]
fn query_normalises_the_snippet() {
    let locator = make_locator("The quick brown fox jumps over the lazy dog.");
    let found = locator.query("  QUICK, brown --- FOX!  ").unwrap();
    assert_eq!(found.matched_text, "quick brown fox");
    assert_eq!(found.alignment_score, 6);
    assert_eq!((found.start_word_index, found.end_word_index), (1, 3));
}

#[test]
fn repeated_queries_give_the_same_result() {
    let locator = make_locator(&numbered_words(400));
    for snippet in ["w120 w121 w122 w123", "w5 x6 w7", "zzz", "w399"] {
        let first = locator.query(snippet);
        let second = locator.query(snippet);
        let third = locator.query(snippet);
        assert!(same_result(&first, &second));
        assert!(same_result(&second, &third));
    }
}

#[test]
fn every_run_of_a_long_text_is_found_exactly() {
    let locator = make_locator(&numbered_words(400));
    for start in [0usize, 29, 30, 95, 100, 131, 250, 394] {
        let run: Vec<String> = (start..start + 6).map(|i| format!("w{}", i)).collect();
        let snippet = run.join(" ");
        let found = locator.query(&snippet).unwrap();
        assert_eq!(found.matched_text, snippet);
        assert_eq!(found.alignment_score, 12);
        assert_eq!(found.start_word_index, start);
        assert_eq!(found.end_word_index, start + 5);
        assert_eq!(found.confidence.num, found.confidence.den);
    }
}

#[test]
fn one_changed_token_costs_one_point_at_most() {
    let locator = make_locator(&numbered_words(400));
    let found = locator.query("w200 w201 w20x w203 w204").unwrap();
    assert!(found.alignment_score >= 9);
    assert!(found.alignment_score <= 10);
    assert_eq!((found.start_word_index, found.end_word_index), (200, 204));
    let found = locator.query("w300 w301 w302 w303 w3040").unwrap();
    assert_eq!(found.alignment_score, 9);
}

#[test]
fn confidence_lies_between_zero_and_one() {
    let locator = make_locator(&numbered_words(300));
    for snippet in ["w1", "w1 w2", "w10 zz w12 yy w14", "w299 w0", "q w150 q", "w7 w7 w7 w7"] {
        if let Some(found) = locator.query(snippet) {
            assert!(found.confidence.den > 0);
            assert!(found.confidence.num <= found.confidence.den);
            assert!(found.alignment_score > 0);
            assert_eq!(found.confidence.num as i128, found.alignment_score);
        }
    }
}

#[test]
fn short_snippet_is_looked_for_in_the_first_windows() {
    // Two tokens have no shingle: the first twenty windows are tried.
    let locator = make_locator(&numbered_words(400));
    let found = locator.query("w50 w51").unwrap();
    assert_eq!(found.alignment_score, 4);
    assert_eq!((found.start_word_index, found.end_word_index), (50, 51));
    let mut far = TextLocator::with_parameters(10, 10).unwrap();
    far.preprocess(&format!("{} zebra giraffe elephant", numbered_words(200)));
    assert_eq!(far.state().windows.len(), 21);
    assert!(far.query("zebra giraffe").is_none());
    let near = far.query("w190 w191").unwrap();
    assert_eq!((near.window_id, near.start_word_index), (19, 190));
    let found = far.query("zebra giraffe elephant").unwrap();
    assert_eq!((found.window_id, found.start_word_index, found.end_word_index), (20, 200, 202));
}

#[test]
fn equal_windows_are_ranked_by_position() {
    let mut locator = TextLocator::with_parameters(4, 4).unwrap();
    locator.preprocess("a b c d a b c d a b c d");
    let found = locator.query("a b c d").unwrap();
    assert_eq!(found.window_id, 0);
    assert_eq!((found.start_word_index, found.end_word_index), (0, 3));
}

#[test]
fn ranking_is_by_count_then_by_position() {
    assert_eq!(rank_windows(&vec![1, 3, 3, 0, 2], 3), vec![1, 2, 4]);
    assert_eq!(rank_windows(&vec![1, 3, 3, 0, 2], 10), vec![1, 2, 4, 0]);
    assert_eq!(rank_windows(&vec![0, 0, 0], 2), Vec::<usize>::new());
    assert_eq!(rank_windows(&vec![5, 5, 5], 0), Vec::<usize>::new());
    assert_eq!(select_candidates(&vec![0, 0, 7, 0], 2), vec![2]);
    assert_eq!(select_candidates(&vec![0, 0, 0, 0], 2), vec![0, 1]);
    assert_eq!(select_candidates(&vec![0, 0], 5), vec![0, 1]);
    assert_eq!(select_candidates(&Vec::new(), 5), Vec::<usize>::new());
    let mut index = fuzzy_locator::shingle_index::ShingleIndex::new(8);
    index.add("a b c".to_string(), 0);
    index.add("a b c".to_string(), 2);
    index.add("b c d".to_string(), 2);
    index.add("x y z".to_string(), 9);
    let counts = count_overlaps(&index, &strings(&["a", "b", "c", "d", "a", "b", "c"]), 3);
    // Shingles: a b c, b c d, c d a, d a b, a b c.
    assert_eq!(counts, vec![2, 0, 3]);
    assert_eq!(count_overlaps(&index, &strings(&["a", "b"]), 3), vec![0, 0, 0]);
}

#[test]
fn a_window_can_be_crowded_out_of_the_candidates() {
    // Twenty-one windows hold both shingles of the snippet without holding
    // the snippet; the window that holds it comes after them and is not
    // among the twenty candidates.
    let mut text = String::new();
    for _ in 0..21 {
        text.push_str("alpha beta gamma omega beta gamma delta ");
    }
    text.push_str("alpha beta gamma delta");
    let mut locator = TextLocator::with_parameters(7, 7).unwrap();
    locator.preprocess(&text);
    assert_eq!(locator.state().windows.len(), 22);
    let found = locator.query("alpha beta gamma delta").unwrap();
    assert_eq!(found.alignment_score, 6);
    assert_eq!(found.window_id, 0);
    assert_eq!(found.matched_text, "alpha beta gamma");
    // With one window fewer before it, the window is a candidate.
    let mut text = String::new();
    for _ in 0..19 {
        text.push_str("alpha beta gamma omega beta gamma delta ");
    }
    text.push_str("alpha beta gamma delta");
    locator.preprocess(&text);
    let found = locator.query("alpha beta gamma delta").unwrap();
    assert_eq!(found.alignment_score, 8);
    assert_eq!(found.window_id, 19);
    assert_eq!((found.start_word_index, found.end_word_index), (133, 136));
}

#[test]
fn a_changed_token_can_lead_to_another_window() {
    // The only shingle of the snippet that occurs in the text stands in the
    // first window, which becomes the only candidate; the window that holds
    // the run the snippet was taken from shares no shingle with it.
    let mut locator = TextLocator::with_parameters(5, 5).unwrap();
    locator.preprocess(
        "alpha beta gammo xylophone quartz \
         one two three four five \
         alpha beta gamma delta zenith",
    );
    assert_eq!(locator.state().windows.len(), 3);
    let found = locator.query("alpha beta gammo delta").unwrap();
    assert_eq!(found.window_id, 0);
    assert_eq!(found.alignment_score, 6);
    assert_eq!(found.matched_text, "alpha beta gammo");
    // Asked for as it stands, the run is found in its own window.
    let found = locator.query("alpha beta gamma delta").unwrap();
    assert_eq!(found.window_id, 2);
    assert_eq!(found.alignment_score, 8);
    // With a change that leaves no shingle anywhere, the first windows are
    // tried, and the run is found with one point less.
    let found = locator.query("alpha beto gamma delta").unwrap();
    assert_eq!(found.window_id, 2);
    assert_eq!(found.alignment_score, 7);
    assert_eq!((found.start_word_index, found.end_word_index), (10, 13));
}
