//! What the indexer reports to its endpoint.

use serde_json::Value;
use vstd::prelude::*;

use crate::sequences::views;
use crate::transaction::MoveStructValue;

verus! {

/// A report on one transaction, placed by the version of that transaction.
pub trait Versioned: Sized {
    spec fn spec_version(&self) -> u64;

    fn version(&self) -> (version: u64)
        ensures
            version == self.spec_version(),
    ;
}

/// The reports on one batch of transactions, with the first and the last version of the batch.
#[derive(Debug)]
pub struct ProcessingResult<T> {
    pub transactions: Vec<T>,
    pub start_version: u64,
    pub end_version: u64,
}

/// What is sent to the endpoint.
#[derive(Debug)]
pub struct EndpointRequest<T> {
    pub transactions: Vec<T>,
}

/// The report on a transaction.
#[derive(Debug)]
pub struct EndpointTransaction {
    pub version: u64,
    pub timestamp: u64,
    pub events: Vec<EndpointEvent>,
    pub resources: Vec<EndpointResourceChange>,
    pub changes: Vec<EndpointTableChange>,
}

#[verifier::ext_equal]
pub struct EndpointTransactionView {
    pub version: u64,
    pub timestamp: u64,
    pub events: Seq<EndpointEventView>,
    pub resources: Seq<EndpointResourceChangeView>,
    pub changes: Seq<EndpointTableChangeView>,
}

impl View for EndpointTransaction {
    type V = EndpointTransactionView;

    open spec fn view(&self) -> EndpointTransactionView {
        EndpointTransactionView {
            version: self.version,
            timestamp: self.timestamp,
            events: views(self.events@),
            resources: views(self.resources@),
            changes: views(self.changes@),
        }
    }
}

impl Versioned for EndpointTransaction {
    open spec fn spec_version(&self) -> u64 {
        self.version
    }

    fn version(&self) -> (version: u64) {
        self.version
    }
}

/// An event that was asked for.
#[derive(Debug)]
pub struct EndpointEvent {
    pub address: String,
    pub typ: String,
    pub data: Value,
}

#[verifier::ext_equal]
pub struct EndpointEventView {
    pub address: Seq<char>,
    pub typ: Seq<char>,
    pub data: Value,
}

impl View for EndpointEvent {
    type V = EndpointEventView;

    open spec fn view(&self) -> EndpointEventView {
        EndpointEventView { address: self.address@, typ: self.typ@, data: self.data }
    }
}

/// A change of a resource that was asked for: its new value, or none where it was deleted.
#[derive(Debug)]
pub struct EndpointResourceChange {
    pub address: String,
    pub typ: String,
    pub data: Option<MoveStructValue>,
}

#[verifier::ext_equal]
pub struct EndpointResourceChangeView {
    pub address: Seq<char>,
    pub typ: Seq<char>,
    pub data: Option<Seq<(Seq<char>, Value)>>,
}

impl View for EndpointResourceChange {
    type V = EndpointResourceChangeView;

    open spec fn view(&self) -> EndpointResourceChangeView {
        EndpointResourceChangeView {
            address: self.address@,
            typ: self.typ@,
            data: match self.data {
                Some(value) => Some(value@),
                None => None,
            },
        }
    }
}

/// A change of an item in a table that was asked for: its key, and its new value or none where
/// it was deleted.
#[derive(Debug)]
pub struct EndpointTableChange {
    pub handle: String,
    pub key: Value,
    pub value: Option<Value>,
}

#[verifier::ext_equal]
pub struct EndpointTableChangeView {
    pub handle: Seq<char>,
    pub key: Value,
    pub value: Option<Value>,
}

impl View for EndpointTableChange {
    type V = EndpointTableChangeView;

    open spec fn view(&self) -> EndpointTableChangeView {
        EndpointTableChangeView { handle: self.handle@, key: self.key, value: self.value }
    }
}

} // verus!
