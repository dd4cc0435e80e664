//! The clock.

use vstd::prelude::*;

verus! {

/// `chrono::ParseError`, opaque: setting up a tailer is typed to fail with it, and never does.
#[verifier::external_type_specification]
#[verifier::external_body]
pub struct ExParseError(chrono::ParseError);

/// `chrono::Utc::now`, as milliseconds since the start of 1970 by
/// `chrono::DateTime::timestamp_millis`. Nothing is claimed of the time: the clock may stand
/// still, jump or run backwards between two readings. `chrono` panics where the clock stands
/// before 1970, which no argument could rule out.
#[verifier::external_body]
pub(crate) fn now_millis() -> (now: u64) {
    chrono::Utc::now().timestamp_millis() as u64
}

} // verus!
