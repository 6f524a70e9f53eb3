//! A verified session packet log: ingests small ordered batches of
//! comma-separated rows ("packets"), assigns dense sequence indices,
//! deduplicates rows by timestamp monotonicity, tracks a write and a read
//! cursor, and reassembles a session's packets into one payload whose
//! header line appears exactly once.

pub mod cursor;
pub mod forward;
pub mod laws;
pub mod recorder;
pub mod store;
pub mod text;
pub mod ts;

use vstd::prelude::*;

verus! {

/// Fixed body of the liveness probe: the probe succeeds independently of all
/// recorder state.
pub fn health_response() -> (r: &'static str)
    ensures
        r@ == "OK"@,
{
    "OK"
}

} // verus!
