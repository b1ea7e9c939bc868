use fuzzy_locator::clipboard::{increment_numbers, ClipboardHistory, ClipboardMode};
use fuzzy_locator::platform::{PlatformEvent, PlatformStatus};

#[test]
fn mode_names() {
    assert_eq!(ClipboardMode::Stack.as_str(), "stack");
    assert_eq!(ClipboardMode::Queue.as_str(), "queue");
    assert_eq!(ClipboardMode::Increment.as_str(), "increment");
}

#[test]
fn new_history_is_empty() {
    let history = ClipboardHistory::new(5);
    assert_eq!(history.stack_len(), 0);
    assert_eq!(history.queue_len(), 0);
    assert_eq!(history.increment_text(), None);
}

#[test]
fn stack_pastes_last_copy_first() {
    let mut history = ClipboardHistory::new(10);
    history.record_copy("a", ClipboardMode::Stack);
    history.record_copy("b", ClipboardMode::Stack);
    history.record_copy("c", ClipboardMode::Stack);
    assert_eq!(history.stack_len(), 3);
    assert_eq!(history.next_paste(ClipboardMode::Stack), Some("c".to_string()));
    assert_eq!(history.next_paste(ClipboardMode::Stack), Some("b".to_string()));
    assert_eq!(history.stack_len(), 1);
    assert_eq!(history.next_paste(ClipboardMode::Stack), Some("a".to_string()));
    assert_eq!(history.next_paste(ClipboardMode::Stack), None);
}

#[test]
fn queue_pastes_first_copy_first() {
    let mut history = ClipboardHistory::new(10);
    history.record_copy("a", ClipboardMode::Queue);
    history.record_copy("b", ClipboardMode::Queue);
    assert_eq!(history.queue_len(), 2);
    assert_eq!(history.next_paste(ClipboardMode::Queue), Some("a".to_string()));
    assert_eq!(history.next_paste(ClipboardMode::Queue), Some("b".to_string()));
    assert_eq!(history.next_paste(ClipboardMode::Queue), None);
}

#[test]
fn modes_do_not_mix() {
    let mut history = ClipboardHistory::new(10);
    history.record_copy("s", ClipboardMode::Stack);
    history.record_copy("q", ClipboardMode::Queue);
    history.record_copy("n1", ClipboardMode::Increment);
    assert_eq!(history.stack_len(), 1);
    assert_eq!(history.queue_len(), 1);
    assert_eq!(history.increment_text(), Some("n1"));
    assert_eq!(history.next_paste(ClipboardMode::Queue), Some("q".to_string()));
    assert_eq!(history.stack_len(), 1);
}

#[test]
fn oldest_texts_leave_a_full_stack() {
    let mut history = ClipboardHistory::new(2);
    history.record_copy("a", ClipboardMode::Stack);
    history.record_copy("b", ClipboardMode::Stack);
    history.record_copy("c", ClipboardMode::Stack);
    assert_eq!(history.stack_len(), 2);
    assert_eq!(history.next_paste(ClipboardMode::Stack), Some("c".to_string()));
    assert_eq!(history.next_paste(ClipboardMode::Stack), Some("b".to_string()));
    assert_eq!(history.next_paste(ClipboardMode::Stack), None);
}

#[test]
fn oldest_texts_leave_a_full_queue() {
    let mut history = ClipboardHistory::new(2);
    history.record_copy("a", ClipboardMode::Queue);
    history.record_copy("b", ClipboardMode::Queue);
    history.record_copy("c", ClipboardMode::Queue);
    assert_eq!(history.queue_len(), 2);
    assert_eq!(history.next_paste(ClipboardMode::Queue), Some("b".to_string()));
    assert_eq!(history.next_paste(ClipboardMode::Queue), Some("c".to_string()));
    assert_eq!(history.next_paste(ClipboardMode::Queue), None);
}

#[test]
fn a_history_holds_one_text_at_least() {
    let mut history = ClipboardHistory::new(0);
    history.record_copy("a", ClipboardMode::Stack);
    history.record_copy("b", ClipboardMode::Stack);
    assert_eq!(history.stack_len(), 1);
    assert_eq!(history.next_paste(ClipboardMode::Stack), Some("b".to_string()));
}

#[test]
fn increment_mode_counts_up_with_every_paste() {
    let mut history = ClipboardHistory::new(10);
    assert_eq!(history.next_paste(ClipboardMode::Increment), None);
    history.record_copy("file009.txt", ClipboardMode::Increment);
    assert_eq!(history.increment_text(), Some("file009.txt"));
    assert_eq!(history.next_paste(ClipboardMode::Increment), Some("file010.txt".to_string()));
    assert_eq!(history.next_paste(ClipboardMode::Increment), Some("file011.txt".to_string()));
    assert_eq!(history.increment_text(), Some("file011.txt"));
}

#[test]
fn increment_numbers_increases_every_number() {
    assert_eq!(increment_numbers("v1.9"), "v2.10");
    assert_eq!(increment_numbers("item 7 of 12"), "item 8 of 13");
    assert_eq!(increment_numbers("0"), "1");
}

#[test]
fn increment_numbers_keeps_the_width_of_a_number() {
    assert_eq!(increment_numbers("007"), "008");
    assert_eq!(increment_numbers("009"), "010");
    assert_eq!(increment_numbers("file0099"), "file0100");
}

#[test]
fn increment_numbers_grows_a_number_of_nines() {
    assert_eq!(increment_numbers("a99"), "a100");
    assert_eq!(increment_numbers("9"), "10");
    assert_eq!(increment_numbers("09"), "10");
}

#[test]
fn increment_numbers_leaves_text_without_digits() {
    assert_eq!(increment_numbers(""), "");
    assert_eq!(increment_numbers("no digits here"), "no digits here");
    assert_eq!(increment_numbers("٣ ४"), "٣ ४");
}

#[test]
fn increment_numbers_leaves_numbers_beyond_64_bits() {
    assert_eq!(increment_numbers("18446744073709551614"), "18446744073709551615");
    assert_eq!(increment_numbers("18446744073709551615"), "18446744073709551615");
    assert_eq!(increment_numbers("99999999999999999999999"), "99999999999999999999999");
    assert_eq!(increment_numbers("x18446744073709551616y5"), "x18446744073709551616y6");
}

#[test]
fn platform_values_hold_what_they_are_given() {
    let status = PlatformStatus { listener: "active".to_string(), hotkeys: "Alt+Q".to_string() };
    let copy = status.clone();
    assert_eq!(copy.listener, "active");
    assert_eq!(copy.hotkeys, "Alt+Q");
    let event = PlatformEvent::PasteRequested;
    assert!(matches!(event, PlatformEvent::PasteRequested));
}
