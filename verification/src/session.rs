//! The decisions of the clipboard helper: what to record when the clipboard
//! was read, and what to do when a paste is asked for. Reading and writing
//! the clipboard and sending keystrokes is left to the caller, who reports
//! how each went.

use vstd::prelude::*;
use vstd::string::*;
use crate::clipboard::{
    after_copy, after_paste, paste_of, text_view, ClipboardHistory, ClipboardMode, HistoryModel,
};

verus! {

/// Number of texts that the history of a session holds in each mode.
pub const SESSION_HISTORY_ITEMS: usize = 200;

/// How an attempt to read the clipboard went.
#[derive(Debug)]
pub enum ClipboardRead {
    /// There is no clipboard to read.
    Unavailable,
    /// The clipboard holds this text.
    Text(String),
    /// Reading failed, for the reason given.
    Failed(String),
}

/// How an attempt to write the clipboard went.
#[derive(Debug)]
pub enum ClipboardWrite {
    /// There is no clipboard to write.
    Unavailable,
    /// The text was written.
    Written,
    /// Writing failed, for the reason given.
    Failed(String),
}

/// A session as a mathematical value.
pub struct SessionModel {
    /// The mode in which copies are recorded and pastes served.
    pub mode: ClipboardMode,
    /// What was copied.
    pub history: HistoryModel,
    /// The text that the clipboard held when it was last read or written.
    pub last_clipboard_text: Option<Seq<char>>,
    /// The text that the session wrote to the clipboard last.
    pub last_written_text: Option<Seq<char>>,
    /// Whether the next text read is expected to be the session's own.
    pub suppress_next_record: bool,
    /// The text pasted last.
    pub last_pasted_text: Option<Seq<char>>,
    /// What went wrong last, if anything.
    pub clipboard_error: Option<Seq<char>>,
}

/// The state of a clipboard helper between two events.
pub struct ClipboardSession {
    mode: ClipboardMode,
    history: ClipboardHistory,
    last_clipboard_text: Option<String>,
    last_written_text: Option<String>,
    suppress_next_record: bool,
    last_pasted_text: Option<String>,
    clipboard_error: Option<String>,
}

impl View for ClipboardSession {
    type V = SessionModel;

    closed spec fn view(&self) -> SessionModel {
        SessionModel {
            mode: self.mode,
            history: self.history@,
            last_clipboard_text: text_view(self.last_clipboard_text),
            last_written_text: text_view(self.last_written_text),
            suppress_next_record: self.suppress_next_record,
            last_pasted_text: text_view(self.last_pasted_text),
            clipboard_error: text_view(self.clipboard_error),
        }
    }
}

/// The session after the clipboard was read and held `text`. A text that
/// the session wrote itself is not recorded, the first time it is read back.
/// A text that the clipboard held already is not recorded again.
pub open spec fn after_text_read(session: SessionModel, text: Seq<char>) -> SessionModel {
    if session.suppress_next_record && session.last_written_text == Some(text) {
        SessionModel {
            last_clipboard_text: Some(text),
            clipboard_error: None,
            suppress_next_record: false,
            ..session
        }
    } else if session.last_clipboard_text != Some(text) {
        SessionModel {
            history: after_copy(session.history, text, session.mode),
            last_clipboard_text: Some(text),
            clipboard_error: None,
            suppress_next_record: false,
            ..session
        }
    } else {
        SessionModel { suppress_next_record: false, ..session }
    }
}

/// The session after an attempt to read the clipboard.
pub open spec fn after_read(session: SessionModel, read: ClipboardRead) -> SessionModel {
    match read {
        ClipboardRead::Unavailable => SessionModel {
            clipboard_error: Some("Clipboard unavailable"@),
            ..session
        },
        ClipboardRead::Text(text) => after_text_read(session, text@),
        ClipboardRead::Failed(reason) => SessionModel {
            clipboard_error: Some("Clipboard read error: "@ + reason@),
            ..session
        },
    }
}

/// The session after a paste was asked for: the text to paste has left the
/// history; if there is none, nothing is shown as pasted last.
pub open spec fn after_paste_request(session: SessionModel) -> SessionModel {
    match paste_of(session.history, session.mode) {
        Some(text) => SessionModel {
            history: after_paste(session.history, session.mode),
            ..session
        },
        None => SessionModel { last_pasted_text: None, ..session },
    }
}

/// The session after an attempt to write `text` to the clipboard for a
/// paste.
pub open spec fn after_write(session: SessionModel, text: Seq<char>, write: ClipboardWrite) -> SessionModel {
    match write {
        ClipboardWrite::Unavailable => SessionModel {
            clipboard_error: Some("Clipboard unavailable"@),
            ..session
        },
        ClipboardWrite::Written => SessionModel {
            last_clipboard_text: Some(text),
            last_written_text: Some(text),
            suppress_next_record: true,
            last_pasted_text: Some(text),
            clipboard_error: None,
            ..session
        },
        ClipboardWrite::Failed(reason) => SessionModel {
            clipboard_error: Some("Clipboard write error: "@ + reason@),
            ..session
        },
    }
}

/// `prefix` followed by `reason`.
fn error_message(prefix: &str, reason: &String) -> (message: String)
    ensures
        message@ == prefix@ + reason@,
{
    let mut message = prefix.to_owned();
    message.append(reason.as_str());
    message
}

impl ClipboardSession {
    /// A session in stack mode with an empty history.
    pub fn new() -> (session: ClipboardSession)
        ensures
            session@.mode == ClipboardMode::Stack,
            session@.history == (HistoryModel {
                stack: Seq::empty(),
                queue: Seq::empty(),
                increment_text: None,
                max_items: SESSION_HISTORY_ITEMS as nat,
            }),
            session@.last_clipboard_text is None,
            session@.last_written_text is None,
            !session@.suppress_next_record,
            session@.last_pasted_text is None,
            session@.clipboard_error is None,
    {
        ClipboardSession {
            mode: ClipboardMode::Stack,
            history: ClipboardHistory::new(SESSION_HISTORY_ITEMS),
            last_clipboard_text: None,
            last_written_text: None,
            suppress_next_record: false,
            last_pasted_text: None,
            clipboard_error: None,
        }
    }

    /// The mode of the session.
    pub fn mode(&self) -> (mode: ClipboardMode)
        ensures
            mode == self@.mode,
    {
        self.mode
    }

    /// Changes the mode; the history stays as it is.
    pub fn set_mode(&mut self, mode: ClipboardMode)
        ensures
            final(self)@ == (SessionModel { mode, ..old(self)@ }),
    {
        self.mode = mode;
    }

    /// The history of the session.
    pub fn history(&self) -> (history: &ClipboardHistory)
        ensures
            history@ == self@.history,
    {
        &self.history
    }

    /// The text that the clipboard held when it was last read or written.
    pub fn last_clipboard_text(&self) -> (text: &Option<String>)
        ensures
            text_view(*text) == self@.last_clipboard_text,
    {
        &self.last_clipboard_text
    }

    /// The text pasted last.
    pub fn last_pasted_text(&self) -> (text: &Option<String>)
        ensures
            text_view(*text) == self@.last_pasted_text,
    {
        &self.last_pasted_text
    }

    /// What went wrong last, if anything.
    pub fn clipboard_error(&self) -> (text: &Option<String>)
        ensures
            text_view(*text) == self@.clipboard_error,
    {
        &self.clipboard_error
    }

    /// Takes note of an attempt to read the clipboard: a new text is
    /// recorded in the history, a failure is kept as the last error.
    pub fn poll_clipboard(&mut self, read: ClipboardRead)
        ensures
            final(self)@ == after_read(old(self)@, read),
    {
        match read {
            ClipboardRead::Unavailable => {
                self.clipboard_error = Some("Clipboard unavailable".to_owned());
            },
            ClipboardRead::Text(text) => {
                if self.suppress_next_record {
                    let own: bool = match &self.last_written_text {
                        Some(written) => *written == text,
                        None => false,
                    };
                    if own {
                        self.last_clipboard_text = Some(text);
                        self.clipboard_error = None;
                        self.suppress_next_record = false;
                        return;
                    }
                    self.suppress_next_record = false;
                }
                let known: bool = match &self.last_clipboard_text {
                    Some(last) => *last == text,
                    None => false,
                };
                if !known {
                    self.history.record_copy(text.as_str(), self.mode);
                    self.last_clipboard_text = Some(text);
                    self.clipboard_error = None;
                }
            },
            ClipboardRead::Failed(reason) => {
                self.clipboard_error = Some(error_message("Clipboard read error: ", &reason));
            },
        }
    }

    /// Begins a paste: hands back the text to write to the clipboard, if the
    /// history has one for the mode of the session.
    pub fn handle_paste_request(&mut self) -> (text: Option<String>)
        ensures
            text_view(text) == paste_of(old(self)@.history, old(self)@.mode),
            final(self)@ == after_paste_request(old(self)@),
    {
        let text = self.history.next_paste(self.mode);
        if text.is_none() {
            self.last_pasted_text = None;
        }
        text
    }

    /// Takes note of the attempt to write `text` to the clipboard, and says
    /// whether the paste keystroke is to be sent: it is, once the text is
    /// written.
    pub fn paste_written(&mut self, text: String, write: ClipboardWrite) -> (inject: bool)
        ensures
            final(self)@ == after_write(old(self)@, text@, write),
            inject == (write is Written),
    {
        match write {
            ClipboardWrite::Unavailable => {
                self.clipboard_error = Some("Clipboard unavailable".to_owned());
                false
            },
            ClipboardWrite::Written => {
                self.last_clipboard_text = Some(text.clone());
                self.last_written_text = Some(text.clone());
                self.suppress_next_record = true;
                self.last_pasted_text = Some(text);
                self.clipboard_error = None;
                true
            },
            ClipboardWrite::Failed(reason) => {
                self.clipboard_error = Some(error_message("Clipboard write error: ", &reason));
                false
            },
        }
    }

    /// Takes note that the paste keystroke could not be sent.
    pub fn paste_failed(&mut self, reason: String)
        ensures
            final(self)@ == (SessionModel {
                clipboard_error: Some("Paste inject error: "@ + reason@),
                ..old(self)@
            }),
    {
        self.clipboard_error = Some(error_message("Paste inject error: ", &reason));
    }
}

} // verus!
