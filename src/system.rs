use vstd::prelude::*;

verus! {

/// Relies on uuid::Uuid::new_v4 and Uuid::as_u128: a random version-4
/// identifier as its 128-bit value. Nothing is promised of which value comes.
#[verifier::external_body]
pub(crate) fn random_task_id() -> (r: u128) {
    uuid::Uuid::new_v4().as_u128()
}

/// Relies on chrono::Utc::now and DateTime::timestamp_micros: the system
/// clock in microseconds since the Unix epoch. `Utc::now` fails on a clock set
/// before the epoch, so the value is never negative.
#[verifier::external_body]
pub(crate) fn now_micros() -> (r: i64)
    ensures
        r >= 0,
{
    chrono::Utc::now().timestamp_micros()
}

} // verus!
