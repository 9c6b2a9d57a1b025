//! Built-in functions that provide default values.

use crate::components::DataInstanceRaw;
use crate::encoding::{MAX_TIMESTAMP, MIN_TIMESTAMP};
use crate::tokenizer::Function;
use vstd::prelude::*;

verus! {

/// Relies on `ulid::Ulid::new`: a new ULID from the current time and a random
/// number, as the 128-bit integer that `uuid::Uuid::from(Ulid)` keeps.
#[verifier::external_body]
fn new_ulid() -> (r: u128) {
    ulid::Ulid::new().0
}

/// Relies on `time::OffsetDateTime::now_utc` and `unix_timestamp`: the current
/// time in seconds since the Unix epoch. An `OffsetDateTime` keeps its date
/// between the years -9999 and 9999, so the seconds are in that range.
#[verifier::external_body]
fn now_unix_timestamp() -> (r: i64)
    ensures
        MIN_TIMESTAMP <= r <= MAX_TIMESTAMP,
{
    time::OffsetDateTime::now_utc().unix_timestamp()
}

impl Function {
    /// Calls the function: `ULID()` gives a new UUID made from a ULID, `NOW()`
    /// the current timestamp.
    pub fn call(&self) -> (r: DataInstanceRaw)
        ensures
            match self {
                Function::Ulid => r is Uuid,
                Function::Now => (r matches DataInstanceRaw::Timestamp(t) && MIN_TIMESTAMP <= t
                    <= MAX_TIMESTAMP),
            },
    {
        match self {
            Function::Ulid => DataInstanceRaw::Uuid(new_ulid()),
            Function::Now => DataInstanceRaw::Timestamp(now_unix_timestamp()),
        }
    }
}

} // verus!
