use fuzzy_locator::clipboard::ClipboardMode;
use fuzzy_locator::session::{ClipboardRead, ClipboardSession, ClipboardWrite};

fn text(s: &str) -> ClipboardRead {
    ClipboardRead::Text(s.to_string())
}

#[test]
fn new_session_is_in_stack_mode_and_empty() {
    let session = ClipboardSession::new();
    assert_eq!(session.mode(), ClipboardMode::Stack);
    assert_eq!(session.history().stack_len(), 0);
    assert_eq!(session.history().queue_len(), 0);
    assert_eq!(*session.last_clipboard_text(), None);
    assert_eq!(*session.last_pasted_text(), None);
    assert_eq!(*session.clipboard_error(), None);
}

#[test]
fn a_new_text_is_recorded_once() {
    let mut session = ClipboardSession::new();
    session.poll_clipboard(text("one"));
    session.poll_clipboard(text("one"));
    assert_eq!(session.history().stack_len(), 1);
    session.poll_clipboard(text("two"));
    assert_eq!(session.history().stack_len(), 2);
    assert_eq!(*session.last_clipboard_text(), Some("two".to_string()));
}

#[test]
fn texts_are_recorded_in_the_mode_of_the_session() {
    let mut session = ClipboardSession::new();
    session.set_mode(ClipboardMode::Queue);
    session.poll_clipboard(text("a"));
    session.poll_clipboard(text("b"));
    assert_eq!(session.history().queue_len(), 2);
    assert_eq!(session.history().stack_len(), 0);
    session.set_mode(ClipboardMode::Increment);
    session.poll_clipboard(text("n7"));
    assert_eq!(session.history().increment_text(), Some("n7"));
    assert_eq!(session.mode(), ClipboardMode::Increment);
}

#[test]
fn read_failures_are_kept_as_the_last_error() {
    let mut session = ClipboardSession::new();
    session.poll_clipboard(ClipboardRead::Unavailable);
    assert_eq!(*session.clipboard_error(), Some("Clipboard unavailable".to_string()));
    session.poll_clipboard(ClipboardRead::Failed("busy".to_string()));
    assert_eq!(*session.clipboard_error(), Some("Clipboard read error: busy".to_string()));
    session.poll_clipboard(text("fine"));
    assert_eq!(*session.clipboard_error(), None);
    assert_eq!(session.history().stack_len(), 1);
}

#[test]
fn a_paste_takes_the_text_from_the_history() {
    let mut session = ClipboardSession::new();
    session.poll_clipboard(text("one"));
    session.poll_clipboard(text("two"));
    let pasted = session.handle_paste_request();
    assert_eq!(pasted, Some("two".to_string()));
    assert_eq!(session.history().stack_len(), 1);
    assert!(session.paste_written("two".to_string(), ClipboardWrite::Written));
    assert_eq!(*session.last_pasted_text(), Some("two".to_string()));
    assert_eq!(*session.last_clipboard_text(), Some("two".to_string()));
    assert_eq!(*session.clipboard_error(), None);
}

#[test]
fn the_sessions_own_text_is_not_recorded_when_read_back() {
    let mut session = ClipboardSession::new();
    session.poll_clipboard(text("one"));
    session.poll_clipboard(text("two"));
    let pasted = session.handle_paste_request().unwrap();
    assert!(session.paste_written(pasted, ClipboardWrite::Written));
    session.poll_clipboard(text("two"));
    assert_eq!(session.history().stack_len(), 1);
    // The second time the text counts as known, not as the session's own.
    session.poll_clipboard(text("two"));
    assert_eq!(session.history().stack_len(), 1);
    session.poll_clipboard(text("three"));
    assert_eq!(session.history().stack_len(), 2);
}

#[test]
fn another_text_after_a_paste_is_recorded() {
    let mut session = ClipboardSession::new();
    session.poll_clipboard(text("one"));
    let pasted = session.handle_paste_request().unwrap();
    assert!(session.paste_written(pasted, ClipboardWrite::Written));
    session.poll_clipboard(text("other"));
    assert_eq!(session.history().stack_len(), 1);
    assert_eq!(*session.last_clipboard_text(), Some("other".to_string()));
    // The text written before is new again once another one was seen.
    session.poll_clipboard(text("one"));
    assert_eq!(session.history().stack_len(), 2);
}

#[test]
fn a_paste_without_history_clears_the_pasted_text() {
    let mut session = ClipboardSession::new();
    session.poll_clipboard(text("one"));
    let pasted = session.handle_paste_request().unwrap();
    assert!(session.paste_written(pasted, ClipboardWrite::Written));
    assert_eq!(*session.last_pasted_text(), Some("one".to_string()));
    assert_eq!(session.handle_paste_request(), None);
    assert_eq!(*session.last_pasted_text(), None);
}

#[test]
fn write_failures_are_kept_and_nothing_is_injected() {
    let mut session = ClipboardSession::new();
    session.poll_clipboard(text("one"));
    let pasted = session.handle_paste_request().unwrap();
    assert!(!session.paste_written(pasted, ClipboardWrite::Failed("locked".to_string())));
    assert_eq!(*session.clipboard_error(), Some("Clipboard write error: locked".to_string()));
    assert_eq!(*session.last_pasted_text(), None);
    assert!(!session.paste_written("x".to_string(), ClipboardWrite::Unavailable));
    assert_eq!(*session.clipboard_error(), Some("Clipboard unavailable".to_string()));
    session.paste_failed("no hook".to_string());
    assert_eq!(*session.clipboard_error(), Some("Paste inject error: no hook".to_string()));
}

#[test]
fn increment_mode_pastes_count_up() {
    let mut session = ClipboardSession::new();
    session.set_mode(ClipboardMode::Increment);
    session.poll_clipboard(text("page 9"));
    assert_eq!(session.handle_paste_request(), Some("page 10".to_string()));
    assert_eq!(session.handle_paste_request(), Some("page 11".to_string()));
}
