//! The indexer that reports over a websocket and picks struct types by address, module and name.
pub mod answers;
pub mod processing_result;
pub mod runtime;
pub mod tailer;
pub mod types;
