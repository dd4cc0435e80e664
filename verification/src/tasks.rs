//! Waiting for tasks.

use vstd::prelude::*;

verus! {

/// Takes up what the next task that was waited for came to: its value goes behind those of the
/// tasks before it. The failure of a task is handed back.
pub fn record_joined<T, E>(results: &mut Vec<T>, joined: Result<T, E>) -> (failure: Option<E>)
    ensures
        match joined {
            Ok(value) => failure is None && final(results)@ == old(results)@.push(value),
            Err(error) => failure == Some(error) && final(results)@ == old(results)@,
        },
{
    match joined {
        Ok(value) => {
            results.push(value);
            None
        },
        Err(error) => Some(error),
    }
}

} // verus!
