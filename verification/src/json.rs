//! JSON values, carried through unread.

use vstd::prelude::*;

verus! {

/// `serde_json::Value`, opaque to the proofs: the indexer hands JSON on as it came.
#[verifier::external_type_specification]
#[verifier::external_body]
pub struct ExValue(serde_json::Value);

/// `<serde_json::Value as Clone>::clone`: a copy of a JSON value is that same value.
pub assume_specification[ <serde_json::Value as Clone>::clone ](
    value: &serde_json::Value,
) -> (copy: serde_json::Value)
    ensures
        copy == *value,
;

} // verus!
