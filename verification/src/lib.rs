//! Load and step through JSONL agent traces: filter, aggregate and locate
//! events, and walk them one at a time with a cursor.
//!
//! Each event is a JSON value, held as a [`JsonValue`]. No field names are
//! imposed: every method is told which key to look at.

use vstd::prelude::*;

pub mod json;
pub mod text;
pub mod error;
pub mod seqs;
pub mod counts;
pub mod replay;
pub mod debugger;
pub mod jsonl;
pub mod laws;

pub use counts::KindCounts;
pub use debugger::Debugger;
pub use error::ReplayError;
pub use json::JsonValue;
pub use jsonl::{JsonlLine, JsonlLoader, is_blank_line, read_line};
pub use replay::Replay;

verus! {
} // verus!
