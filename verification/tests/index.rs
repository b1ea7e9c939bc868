use fuzzy_locator::shingle_index::{copy_ids, IndexEntry, ShingleIndex};
use fuzzy_locator::window::{build_index, build_windows, copy_tokens};

fn strings(items: &[&str]) -> Vec<String> {
    items.iter().map(|s| s.to_string()).collect()
}

fn listed(index: &ShingleIndex) -> Vec<(String, Vec<usize>)> {
    let mut all: Vec<(String, Vec<usize>)> =
        index.entries().into_iter().map(|e| (e.shingle, e.window_ids)).collect();
    all.sort();
    all
}

#[test]
fn new_index_holds_nothing() {
    let index = ShingleIndex::new(4);
    assert!(index.get(&"a b c".to_string()).is_none());
    assert!(index.entries().is_empty());
    let index = ShingleIndex::new(0);
    assert!(index.get(&"".to_string()).is_none());
}

#[test]
fn add_lists_ids_in_order_and_once_in_a_row() {
    let mut index = ShingleIndex::new(2);
    index.add("a b c".to_string(), 0);
    index.add("a b c".to_string(), 0);
    index.add("a b c".to_string(), 1);
    index.add("b c d".to_string(), 1);
    index.add("a b c".to_string(), 1);
    index.add("a b c".to_string(), 0);
    assert_eq!(index.get(&"a b c".to_string()), Some(&vec![0, 1, 0]));
    assert_eq!(index.get(&"b c d".to_string()), Some(&vec![1]));
    assert_eq!(index.get(&"c d e".to_string()), None);
}

#[test]
fn insert_replaces_what_was_listed() {
    let mut index = ShingleIndex::new(1);
    index.insert("k".to_string(), vec![1, 2, 3]);
    index.insert("l".to_string(), vec![]);
    index.insert("k".to_string(), vec![9]);
    assert_eq!(index.get(&"k".to_string()), Some(&vec![9]));
    assert_eq!(index.get(&"l".to_string()), Some(&vec![]));
    assert_eq!(listed(&index), vec![("k".to_string(), vec![9]), ("l".to_string(), vec![])]);
}

#[test]
fn many_keys_in_few_buckets() {
    let mut index = ShingleIndex::new(3);
    for i in 0..200usize {
        index.add(format!("key {}", i), i);
        index.add(format!("key {}", i), i + 1);
    }
    for i in 0..200usize {
        assert_eq!(index.get(&format!("key {}", i)), Some(&vec![i, i + 1]));
    }
    assert_eq!(index.entries().len(), 200);
    assert!(index.get(&"key 200".to_string()).is_none());
}

#[test]
fn entries_and_from_entries_are_inverse() {
    let mut index = ShingleIndex::new(5);
    index.add("a b c".to_string(), 0);
    index.add("a b c".to_string(), 3);
    index.add("x y z".to_string(), 1);
    let restored = ShingleIndex::from_entries(&index.entries(), 2);
    assert_eq!(listed(&restored), listed(&index));
    assert_eq!(restored.get(&"a b c".to_string()), Some(&vec![0, 3]));
}

#[test]
fn from_entries_lets_the_later_entry_count() {
    let entries = vec![
        IndexEntry { shingle: "a".to_string(), window_ids: vec![1] },
        IndexEntry { shingle: "b".to_string(), window_ids: vec![2] },
        IndexEntry { shingle: "a".to_string(), window_ids: vec![3, 4] },
    ];
    let index = ShingleIndex::from_entries(&entries, 4);
    assert_eq!(index.get(&"a".to_string()), Some(&vec![3, 4]));
    assert_eq!(index.get(&"b".to_string()), Some(&vec![2]));
    assert_eq!(index.entries().len(), 2);
}

#[test]
fn windows_and_index_of_a_word_list() {
    let words = strings(&["a", "b", "c", "d", "e"]);
    let windows = build_windows(&words, 3, 1);
    assert_eq!(windows.len(), 3);
    assert_eq!(windows[2].tokens, strings(&["c", "d", "e"]));
    assert_eq!((windows[2].id, windows[2].start_word_index, windows[2].end_word_index), (2, 2, 4));
    let index = build_index(&windows, 4);
    assert_eq!(
        listed(&index),
        vec![
            ("a b c".to_string(), vec![0]),
            ("b c d".to_string(), vec![1]),
            ("c d e".to_string(), vec![2]),
        ]
    );
    assert!(build_windows(&Vec::new(), 3, 1).is_empty());
}

#[test]
fn copies_are_equal_to_what_they_copy() {
    assert_eq!(copy_ids(&vec![3, 1, 2]), vec![3, 1, 2]);
    assert_eq!(copy_tokens(&strings(&["a", "b", "c"]), 1, 3), strings(&["b", "c"]));
    assert!(copy_tokens(&strings(&["a"]), 1, 1).is_empty());
}
