//! Picks out of the transactions of a node the events, resources and table items that a
//! subscriber asked for, and puts them together into requests for the subscriber's endpoint.
//!
//! - [`transaction`] is what comes in, [`processing_result`] what goes out.
//! - [`selection`] finds in a transaction what is asked for.
//! - [`batch`] makes the reports on a batch of transactions, for either kind of indexer.
//! - [`http`] and [`ws`] are the two kinds of indexer, each with its tailer.
//! - [`round`] and [`sort`] make one request out of what several tasks found.
pub mod batch;
pub mod http;
pub mod json;
pub mod pg_tests;
pub mod processing_result;
pub mod round;
pub mod selection;
pub mod sequences;
pub mod sort;
pub mod strings;
pub mod tasks;
pub mod time;
pub mod transaction;
pub mod ws;
