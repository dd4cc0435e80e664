//! The indexer that reports over HTTP and picks types by their printed form.
pub mod answers;
pub mod moving_average;
pub mod runtime;
pub mod tailer;
