//! Streaming, case-insensitive search for a token in UTF-8 text, with the line and byte
//! position of every match.
//!
//! - `utf8`: lead-byte lengths and incremental decoding of a byte stream.
//! - `track`: occurrences and the line, character and byte counters.
//! - `matcher`: case folding and the sliding-window matcher, restarted at newlines and
//!   at the separator.
//! - `scanner`: the scan state machine that a reader drives byte by byte, with
//!   progress reports and cancellation, and a whole-buffer scan.
use vstd::prelude::*;

pub mod matcher;
pub mod scanner;
pub mod track;
pub mod utf8;

verus! {

} // verus!
