//! A replicated, content-addressed patch store with a deterministic merge
//! engine for timestamped activity events.
//!
//! Events recorded on one device are grouped into immutable patches. Each
//! patch is identified by a ref derived from its canonical serialization, and
//! chained to its predecessor through a parent ref, so every device owns an
//! append-only history. A per-device meta record advertises the head of that
//! device's chain. Merging walks every known device's chain backward and
//! produces one deduplicated timeline, sorted by timestamp with deterministic
//! tie-breaking, tolerating partially replicated stores.

use vstd::prelude::*;

pub mod chain;
pub mod codec;
pub mod memstore;
pub mod merge;
pub mod order;
pub mod record;
pub mod store;
pub mod types;

verus! {

/// Splits a duration given in whole minutes into whole hours and leftover
/// minutes, as the presentation layer renders durations.
pub fn duration_hours_minutes(minutes: u64) -> (r: (u64, u64))
    ensures
        r.0 == minutes / 60,
        r.1 == minutes % 60,
        minutes == r.0 * 60 + r.1,
{
    (minutes / 60, minutes % 60)
}

} // verus!
