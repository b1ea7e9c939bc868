//! What the platform layer reports to the clipboard helper.

use vstd::prelude::*;

verus! {

/// What the platform hooks say of themselves.
#[derive(Debug, Clone)]
pub struct PlatformStatus {
    /// State of the keyboard listener.
    pub listener: String,
    /// The hotkeys that are watched.
    pub hotkeys: String,
}

/// Something that the platform hooks noticed.
#[derive(Debug, Clone, Copy)]
pub enum PlatformEvent {
    /// The paste hotkey was pressed.
    PasteRequested,
}

} // verus!
