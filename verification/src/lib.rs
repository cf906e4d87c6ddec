//! Outbound webhook notification with a bounded delivery-history log.
//!
//! The library builds the HTTP request for a delivery attempt, interprets
//! the response, and keeps the last few attempts in a newest-first ring
//! that is mirrored to a JSON file whose reader and writer live here too.

pub mod codec;
pub mod history;
pub mod jsontext;
pub mod notify;

use vstd::prelude::*;

verus! {

/// Greatest number of delivery attempts the history keeps.
pub const MAX_WEBHOOK_HISTORY_ENTRIES: usize = 5;

} // verus!
