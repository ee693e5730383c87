//! Time-sortable unique identifiers: ULIDs and UUID version 7 (RFC 9562).
//!
//! Both formats put a 48-bit millisecond timestamp in their most significant
//! bits, so sorting the encoded values sorts by time. Within one millisecond a
//! [`MonotonicClock`] uses the random field as a counter, so IDs minted in the
//! same millisecond still order by creation.
//!
//! The clock and the random bytes are supplied by the caller: each generator
//! takes the clock, the time (wall clock or pinned), and a source of random
//! bytes that is called only when a new millisecond starts.

pub mod clock;
pub mod crockford;
pub mod digits;
pub mod text;
pub mod time;
pub mod ulid;
pub mod uuid;

pub use clock::MonotonicClock;
pub use crockford::UlidError;
pub use ulid::{ulid, ulid_at, ulid_system_time, ulid_timestamp_ms};
pub use uuid::{uuid7, uuid7_at, Uuid};

use vstd::prelude::*;

verus! {

/// The crate version.
pub const VERSION: &'static str = "0.1.0";

} // verus!
