//! Fuzzy text location: finds where a noisy, machine-transcribed snippet
//! falls inside a large text.
//!
//! A [`TextLocator`] cuts the words of a text into overlapping windows and
//! lists every three-word shingle of every window in an inverted index. A
//! query ranks the windows by the shingles they share with the snippet,
//! aligns the snippet with the best of them, token by token, and hands back
//! the matched words with a confidence.
//!
//! - [`text`]: normal form and tokens of a text;
//! - [`edit_distance`]: Levenshtein distance;
//! - [`align`], [`alignment_laws`]: local alignment with early exit, and
//!   what holds of it;
//! - [`window`], [`window_laws`], [`shingle_index`]: windows and their index;
//! - [`locator`], [`locator_laws`]: indexing and querying, and what holds of
//!   every query;
//! - [`similarity`], [`ratio`]: stand-alone similarity measures, as exact
//!   fractions;
//! - [`clipboard`], [`session`], [`platform`]: a clipboard history in stack,
//!   queue and increment mode, and the decisions of a clipboard helper.

pub mod align;
pub mod alignment_laws;
pub mod clipboard;
pub mod edit_distance;
pub mod locator;
pub mod locator_laws;
pub mod platform;
pub mod ratio;
pub mod session;
pub mod shingle_index;
pub mod similarity;
pub mod text;
pub mod window;
pub mod window_laws;

pub use clipboard::{ClipboardHistory, ClipboardMode};
pub use edit_distance::levenshtein_distance;
pub use locator::{QueryResult, TextLocator, TextLocatorState};
pub use platform::{PlatformEvent, PlatformStatus};
pub use ratio::Ratio;
pub use similarity::{
    are_words_similar, calculate_combined_similarity, n_gram_similarity, string_similarity,
    word_level_similarity, word_to_phrase_similarity,
};
pub use text::normalize_text;
