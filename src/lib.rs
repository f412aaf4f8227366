//! Removal of the matches of a regular expression from a text.
//!
//! Where what survives is one contiguous piece of the text (every match
//! sits in a run at its start or in a run at its end), the result borrows
//! the text; otherwise the surviving pieces are copied, in order, into one
//! new buffer. Each function exists for `str` and for bytes, and also takes
//! the spans to remove directly, so that any ordered spans can be removed.

pub mod laws;
pub mod matcher;
pub mod remove;
mod source;
pub mod spans;

pub use remove::{
    bytes_remove_all_matches, bytes_remove_match, bytes_remove_span, bytes_remove_spans,
    remove_all_matches, remove_match, remove_span, remove_spans,
};
