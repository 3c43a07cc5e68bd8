//! Verified ingestion engine for an e-paper calendar: chunked iCalendar (ICS)
//! parsing with character-boundary-safe assembly, date/time normalization to
//! UTC instants, window filtering, and ordered event output.

use vstd::prelude::*;

pub mod assemble;
pub mod bytes;
pub mod civil;
pub mod datetime;
pub mod device;
pub mod dither;
pub mod parser;
pub mod ui;

verus! {

/// Only a 2xx response status authorizes feeding the body into the engine.
pub fn status_authorizes_feed(status: u16) -> (r: bool)
    ensures
        r == (200 <= status <= 299),
{
    200 <= status && status <= 299
}

} // verus!
