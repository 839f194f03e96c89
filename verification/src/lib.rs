//! Ingestion pipeline for per-hour electricity meter readings.
//!
//! The library decodes a provider's CSV and JSON payloads into canonical
//! readings, plans the session-authenticated fetch requests, and models the
//! idempotent persistence step that reports per-batch insert/update counts.

pub mod bytes;
pub mod date;
pub mod csv_format;
pub mod json_format;
pub mod paths;
pub mod config;
pub mod decimal;
pub mod fetch;
pub mod reading;
pub mod store;

use vstd::prelude::*;

verus! {

/// Why a payload failed to decode.
///
/// `Malformed` reports a document whose structure breaks the wire shape and
/// is fatal for that document; `Empty` reports a decode that produced no
/// usable readings, which the provider's contract rules out for any valid
/// date range.
#[derive(Clone, Copy, PartialEq, Eq, Structural, Debug)]
pub enum DecodeError {
    Empty,
    Malformed,
}

} // verus!
