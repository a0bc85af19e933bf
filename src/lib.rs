//! Extraction of quoted spans from text that arrives one byte at a time.
//!
//! Bytes go through an incremental UTF-8 decoder; each decoded unit drives a
//! small state machine that collects the spans between an opening and a
//! closing quotation mark.
use vstd::prelude::*;

pub mod decoder;
pub mod laws;
pub mod machine;

pub use decoder::Utf8Decoder;
pub use machine::{process_string, CollectQuotes, QuotesStates, QuotesView};
