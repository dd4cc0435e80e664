//! What is reported over the websocket.

use vstd::prelude::*;

use crate::processing_result::{
    EndpointEvent, EndpointEventView, EndpointResourceChange, EndpointResourceChangeView,
    EndpointTableChange, EndpointTableChangeView, Versioned,
};
use crate::sequences::views;

verus! {

/// The report on a transaction, with the entry function that it called, if it called one.
#[derive(Debug)]
pub struct EndpointTransaction {
    pub version: u64,
    pub timestamp: u64,
    pub function: Option<String>,
    pub events: Vec<EndpointEvent>,
    pub resources: Vec<EndpointResourceChange>,
    pub changes: Vec<EndpointTableChange>,
}

#[verifier::ext_equal]
pub struct EndpointTransactionView {
    pub version: u64,
    pub timestamp: u64,
    pub function: Option<Seq<char>>,
    pub events: Seq<EndpointEventView>,
    pub resources: Seq<EndpointResourceChangeView>,
    pub changes: Seq<EndpointTableChangeView>,
}

impl View for EndpointTransaction {
    type V = EndpointTransactionView;

    open spec fn view(&self) -> EndpointTransactionView {
        EndpointTransactionView {
            version: self.version,
            timestamp: self.timestamp,
            function: match self.function {
                Some(function) => Some(function@),
                None => None,
            },
            events: views(self.events@),
            resources: views(self.resources@),
            changes: views(self.changes@),
        }
    }
}

impl Versioned for EndpointTransaction {
    open spec fn spec_version(&self) -> u64 {
        self.version
    }

    fn version(&self) -> (version: u64) {
        self.version
    }
}

} // verus!
