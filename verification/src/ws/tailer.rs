//! Picks out of batches of transactions what the endpoint asked for.

use vstd::prelude::*;

use crate::batch::{self, Report};
use crate::processing_result::ProcessingResult;
use crate::round::{is_round_of, Round};
use crate::selection::{
    check_processable, is_in_ledger_order, is_processable, successful, Matches, MatchesView,
    Selection,
};
use crate::sequences::views;
use crate::strings::{clone_strings, contains_string};
use crate::transaction::{
    Address, Event, EventView, MoveStructTag, MoveStructTagView, Transaction, TransactionPayload,
    TransactionPayloadView, TransactionView, UserTransaction, UserTransactionView,
};
use crate::ws::processing_result::{EndpointTransaction, EndpointTransactionView};
use crate::ws::types::{
    are_parsed_from, can_parse, has_move_type, to_type, type_of, TypeVec, TypeView,
};

verus! {

/// The types of events, the types of resources and the handles of tables to report on.
pub struct Tailer {
    events: TypeVec,
    resources: TypeVec,
    handles: Vec<String>,
}

#[verifier::ext_equal]
pub struct TailerView {
    pub events: Seq<TypeView>,
    pub resources: Seq<TypeView>,
    pub handles: Seq<Seq<char>>,
}

impl View for Tailer {
    type V = TailerView;

    closed spec fn view(&self) -> TailerView {
        TailerView {
            events: self.events@,
            resources: self.resources@,
            handles: views(self.handles@),
        }
    }
}

impl Clone for Tailer {
    fn clone(&self) -> (copy: Self)
        ensures
            copy@ == self@,
    {
        Tailer {
            events: self.events.clone(),
            resources: self.resources.clone(),
            handles: clone_strings(&self.handles),
        }
    }
}

impl Selection for Tailer {
    open spec fn keeps_event(&self, event: EventView) -> bool {
        has_move_type(self@.events, event.typ)
    }

    open spec fn keeps_resource(&self, tag: MoveStructTagView) -> bool {
        self@.resources.contains(type_of(tag))
    }

    open spec fn keeps_handle(&self, handle: Seq<char>) -> bool {
        self@.handles.contains(handle)
    }

    fn selects_event(&self, event: &Event) -> (kept: bool) {
        self.events.contains_move_type(&event.typ)
    }

    fn selects_resource(&self, tag: &MoveStructTag) -> (kept: bool) {
        self.resources.contains(tag)
    }

    fn selects_handle(&self, handle: &String) -> (kept: bool) {
        contains_string(&self.handles, handle)
    }
}

impl Report for EndpointTransaction {
    open spec fn on(
        transaction: UserTransactionView,
        found: MatchesView,
    ) -> EndpointTransactionView {
        EndpointTransactionView {
            version: transaction.info.version,
            timestamp: transaction.timestamp,
            function: match transaction.payload {
                TransactionPayloadView::EntryFunctionPayload { function } => Some(function),
                TransactionPayloadView::Other => None,
            },
            events: found.events,
            resources: found.resources,
            changes: found.changes,
        }
    }

    open spec fn version_of(report: EndpointTransactionView) -> u64 {
        report.version
    }

    open spec fn matches_in(report: EndpointTransactionView) -> MatchesView {
        MatchesView {
            events: report.events,
            resources: report.resources,
            changes: report.changes,
        }
    }

    proof fn lemma_on(transaction: UserTransactionView, found: MatchesView) {
    }

    proof fn lemma_placed_by_version(report: Self) {
    }

    fn report(transaction: &UserTransaction, found: Matches) -> (report: Self) {
        let function = if let TransactionPayload::EntryFunctionPayload { function }
            = &transaction.payload {
            Some(function.clone())
        } else {
            None
        };
        EndpointTransaction {
            version: transaction.info.version,
            timestamp: transaction.timestamp,
            function,
            events: found.events,
            resources: found.resources,
            changes: found.changes,
        }
    }
}

/// The report on a transaction: there is one where the transaction is a successful user
/// transaction with anything in it that is asked for.
#[verifier::inline]
pub open spec fn transaction_report(tailer: Tailer, transaction: TransactionView) -> Option<
    EndpointTransactionView,
> {
    batch::transaction_report::<Tailer, EndpointTransaction>(tailer, transaction)
}

/// The reports on a batch of transactions, in the order of the batch.
#[verifier::inline]
pub open spec fn batch_report(tailer: Tailer, batch: Seq<TransactionView>) -> Seq<
    EndpointTransactionView,
> {
    batch::batch_report::<Tailer, EndpointTransaction>(tailer, batch)
}

/// What processing a batch gives: its size and, unless it is empty, the reports on it with its
/// first and its last version.
#[verifier::inline]
pub open spec fn is_outcome_of(
    tailer: Tailer,
    batch: Seq<TransactionView>,
    outcome: (u64, Option<ProcessingResult<EndpointTransaction>>),
) -> bool {
    batch::is_outcome_of(tailer, batch, outcome)
}

impl Tailer {
    /// Sets a tailer up from texts that name the types and handles to report on.
    pub fn new<A: Fn(String) -> Address, I: Fn(String) -> String>(
        events: Vec<String>,
        resources: Vec<String>,
        handles: Vec<String>,
        parse_address: &A,
        parse_identifier: &I,
    ) -> (result: Result<Tailer, chrono::ParseError>)
        requires
            can_parse(*parse_address, *parse_identifier, views(events@)),
            can_parse(*parse_address, *parse_identifier, views(resources@)),
        ensures
            result matches Ok(tailer) && {
                &&& are_parsed_from(
                    *parse_address,
                    *parse_identifier,
                    views(events@),
                    tailer@.events,
                )
                &&& are_parsed_from(
                    *parse_address,
                    *parse_identifier,
                    views(resources@),
                    tailer@.resources,
                )
                &&& tailer@.handles == views(handles@)
            },
    {
        let events = to_type(&events, parse_address, parse_identifier);
        let resources = to_type(&resources, parse_address, parse_identifier);
        Ok(Tailer { events, resources, handles })
    }

    /// Whether a batch can be processed.
    pub fn can_process(&self, raw_transactions: &Vec<Transaction>) -> (ok: bool)
        ensures
            ok == is_processable(*self, views(raw_transactions@)),
    {
        check_processable(self, raw_transactions)
    }

    /// Processes the batch that was fetched last: gives its size and, unless it is empty because
    /// the indexer has caught up, the reports on it.
    pub fn process_next_batch(&self, raw_transactions: &Vec<Transaction>) -> (result: (
        u64,
        Option<ProcessingResult<EndpointTransaction>>,
    ))
        requires
            is_processable(*self, views(raw_transactions@)),
        ensures
            is_outcome_of(*self, views(raw_transactions@), result),
    {
        batch::process_batch(self, raw_transactions)
    }
}

/// Tailers that ask for the same, such as a tailer and its copy, report the same, and can process
/// the same batches.
pub proof fn law_equal_filters_report_alike(
    one: Tailer,
    other: Tailer,
    batch: Seq<TransactionView>,
)
    requires
        one@ == other@,
    ensures
        batch_report(one, batch) == batch_report(other, batch),
        is_processable(one, batch) == is_processable(other, batch),
{
    batch::lemma_same_asked_same_reported::<Tailer, EndpointTransaction>(one, other, batch);
}

/// How transactions are cut into batches makes no difference to what is reported: the reports on
/// the batches, one after another, are the reports on all of the transactions.
pub proof fn law_batches_may_be_cut_anywhere(
    tailer: Tailer,
    batches: Seq<Seq<TransactionView>>,
)
    ensures
        batch_report(tailer, batches.flatten()) == batches.map_values(
            |batch: Seq<TransactionView>| batch_report(tailer, batch),
        ).flatten(),
{
    batch::lemma_batches_may_be_cut_anywhere::<Tailer, EndpointTransaction>(tailer, batches);
}

/// What is reported is what the transactions of the batch give: nothing is made up and nothing
/// is passed over. A report has the version of its transaction, which is a user transaction that
/// succeeded, and something in it that is asked for.
pub proof fn law_reports_are_of_batch(
    tailer: Tailer,
    batch: Seq<TransactionView>,
    report: EndpointTransactionView,
)
    ensures
        batch_report(tailer, batch).contains(report) <==> exists|i: int|
            0 <= i < batch.len() && #[trigger] transaction_report(tailer, batch[i]) == Some(report),
        batch_report(tailer, batch).contains(report) ==> {
            &&& report.events.len() > 0 || report.resources.len() > 0 || report.changes.len() > 0
            &&& exists|i: int|
                0 <= i < batch.len() && (#[trigger] successful(batch[i]) matches Some(user)
                    && user.info.version == report.version)
        },
{
    batch::lemma_reports_are_of_batch::<Tailer, EndpointTransaction>(tailer, batch, report);
}

/// The reports on a batch that is in the order of the ledger are so too: their versions go up,
/// and lie between the first and the last version of the batch.
pub proof fn law_reports_are_in_ledger_order(tailer: Tailer, batch: Seq<TransactionView>)
    requires
        is_in_ledger_order(batch),
    ensures
        forall|i: int, j: int|
            0 <= i < j < batch_report(tailer, batch).len() ==> (#[trigger] batch_report(
                tailer,
                batch,
            )[i]).version < (#[trigger] batch_report(tailer, batch)[j]).version,
        forall|i: int|
            0 <= i < batch_report(tailer, batch).len() ==> batch[0].version->0 <= (
            #[trigger] batch_report(tailer, batch)[i]).version <= batch.last().version->0,
{
    batch::lemma_reports_are_in_ledger_order::<Tailer, EndpointTransaction>(tailer, batch);
}

/// A tailer that was asked for nothing reports nothing, and can process any batch whose first and
/// last transaction have a version.
pub proof fn law_nothing_asked_nothing_reported(tailer: Tailer, batch: Seq<TransactionView>)
    requires
        tailer@.events.len() == 0,
        tailer@.resources.len() == 0,
        tailer@.handles.len() == 0,
    ensures
        batch_report(tailer, batch).len() == 0,
        is_processable(tailer, batch) <==> (batch.len() > 0 ==> batch[0].version is Some
            && batch.last().version is Some),
{
    batch::lemma_nothing_asked_nothing_reported::<Tailer, EndpointTransaction>(tailer, batch);
}

/// A round over transactions of the ledger, in which each task works with a tailer of its own
/// that asks for what `tailer` asks for: whatever the order in which the tasks fetched their
/// batches, the request has the reports on all of the transactions, in the order of the ledger;
/// there is no request just where there is nothing to report; and all transactions are counted.
/// Where each batch was in the order of the ledger too, the round spans the ledger from its first
/// transaction to its last.
pub proof fn law_round_reports_on_ledger(
    tailer: Tailer,
    tailers: Seq<Tailer>,
    fetched: Seq<Seq<TransactionView>>,
    ledger: Seq<TransactionView>,
    batches: Seq<(u64, Option<ProcessingResult<EndpointTransaction>>)>,
    round: Round<EndpointTransaction>,
)
    requires
        fetched.flatten().to_multiset() == ledger.to_multiset(),
        is_in_ledger_order(ledger),
        tailers.len() == batches.len(),
        fetched.len() == batches.len(),
        forall|i: int| 0 <= i < tailers.len() ==> (#[trigger] tailers[i])@ == tailer@,
        forall|i: int|
            0 <= i < batches.len() ==> is_outcome_of(
                tailers[i],
                fetched[i],
                #[trigger] batches[i],
            ),
        is_round_of(batches, round),
    ensures
        match round.request {
            Some(request) => {
                &&& batch_report(tailer, ledger).len() > 0
                &&& views(request.transactions@) == batch_report(tailer, ledger)
            },
            None => batch_report(tailer, ledger).len() == 0,
        },
        round.num_res == ledger.len(),
        ledger.len() > 0 && (forall|i: int|
            0 <= i < fetched.len() ==> is_in_ledger_order(#[trigger] fetched[i])) ==> Some(
            round.batch_start_version,
        ) == ledger[0].version && Some(round.batch_end_version) == ledger.last().version,
{
    batch::lemma_round_reports_on_ledger(tailer, tailers, fetched, ledger, batches, round);
}

} // verus!
