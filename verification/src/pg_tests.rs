//! Tests that need a database.

use vstd::prelude::*;

verus! {

/// Whether tests that need a database are skipped: they are where no `INDEXER_DATABASE_URL` is
/// set, which in CI, where `CIRCLECI` is set, has to be.
pub fn should_skip_pg_tests(circleci: bool, indexer_database_url: bool) -> (skip: bool)
    requires
        circleci ==> indexer_database_url,
    ensures
        skip == !indexer_database_url,
{
    if indexer_database_url {
        false
    } else {
        true
    }
}

} // verus!
