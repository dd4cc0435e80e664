//! Reports on batches of transactions, whatever is asked for and whatever a report holds.

use vstd::prelude::*;

use crate::processing_result::{
    EndpointEventView, EndpointResourceChangeView, EndpointTableChangeView, ProcessingResult,
    Versioned,
};
use crate::round::{
    is_outcome, is_round_of, lemma_round_of_ledger, lemma_round_spans_ledger, reports, results,
    Round,
};
use crate::selection::{
    event_report, events_stand_for, find_matches, is_in_ledger_order, is_processable,
    lemma_events_stand_for, lemma_reports_in_ledger_order, lemma_resources_stand_for,
    lemma_tables_stand_for, matches_of, resource_report, resources_stand_for, successful,
    table_report, tables_stand_for, Matches, MatchesView, Selection,
};
use crate::sequences::{
    go_up, law_views_stand_in_place, lemma_filter_map_contains, lemma_filter_map_flatten,
    lemma_filter_map_none, lemma_filter_map_places, views,
};
use crate::sort::law_sort_keeps_reports;
use crate::transaction::{
    EventView, MoveStructTagView, Transaction, TransactionBody, TransactionView, UserTransaction,
    UserTransactionView, WriteSetChange, WriteSetChangeView,
};

verus! {

/// A report on a user transaction.
pub trait Report: Versioned + View {
    /// The report on a transaction in which something was found.
    spec fn on(transaction: UserTransactionView, found: MatchesView) -> Self::V;

    /// The version that a report is of.
    spec fn version_of(report: Self::V) -> u64;

    /// What a report says was found.
    spec fn matches_in(report: Self::V) -> MatchesView;

    /// A report has the version of its transaction, and says what was found.
    proof fn lemma_on(transaction: UserTransactionView, found: MatchesView)
        ensures
            Self::version_of(Self::on(transaction, found)) == transaction.info.version,
            Self::matches_in(Self::on(transaction, found)) == found,
    ;

    /// A report is placed by the version that it is of.
    proof fn lemma_placed_by_version(report: Self)
        ensures
            Self::version_of(report@) == report.spec_version(),
    ;

    fn report(transaction: &UserTransaction, found: Matches) -> (report: Self)
        ensures
            report@ == Self::on(transaction@, found@),
    ;
}

/// The report on a transaction: there is one where the transaction is a successful user
/// transaction with anything in it that is asked for.
pub open spec fn transaction_report<S: Selection, R: Report>(
    selection: S,
    transaction: TransactionView,
) -> Option<R::V> {
    match successful(transaction) {
        Some(user) => {
            let found = matches_of(selection, user);
            if found.is_empty() {
                None
            } else {
                Some(R::on(user, found))
            }
        },
        None => None,
    }
}

/// The reports on a batch of transactions, in the order of the batch.
pub open spec fn batch_report<S: Selection, R: Report>(
    selection: S,
    batch: Seq<TransactionView>,
) -> Seq<R::V> {
    batch.filter_map(
        |transaction: TransactionView| transaction_report::<S, R>(selection, transaction),
    )
}

/// What processing a batch gives: its size and, unless it is empty, the reports on it with its
/// first and its last version.
pub open spec fn is_outcome_of<S: Selection, R: Report>(
    selection: S,
    batch: Seq<TransactionView>,
    outcome: (u64, Option<ProcessingResult<R>>),
) -> bool {
    is_outcome(
        batch,
        |transaction: TransactionView| transaction_report::<S, R>(selection, transaction),
        outcome,
    )
}

/// Processes a batch.
pub fn process_batch<S: Selection, R: Report>(
    selection: &S,
    raw_transactions: &Vec<Transaction>,
) -> (outcome: (u64, Option<ProcessingResult<R>>))
    requires
        is_processable(*selection, views(raw_transactions@)),
    ensures
        is_outcome_of(*selection, views(raw_transactions@), outcome),
{
    let num_txns = raw_transactions.len() as u64;
    if num_txns == 0 {
        return (0, None);
    }
    let ghost batch = views(raw_transactions@);
    assert(batch[0].version == raw_transactions@[0].version);
    assert(batch.last().version == raw_transactions@.last().version);
    let start_version = raw_transactions[0].version;
    let end_version = raw_transactions[raw_transactions.len() - 1].version;

    let mut transactions: Vec<R> = Vec::new();
    let ghost report = |transaction: TransactionView|
        transaction_report::<S, R>(*selection, transaction);
    assert(views(transactions@) =~= batch.take(0).filter_map(report));
    for i in 0..raw_transactions.len()
        invariant
            batch == views(raw_transactions@),
            is_processable(*selection, batch),
            report == |transaction: TransactionView|
                transaction_report::<S, R>(*selection, transaction),
            views(transactions@) == batch.take(i as int).filter_map(report),
    {
        assert(batch[i as int] == raw_transactions@[i as int]@);
        if let TransactionBody::UserTransaction(transaction) = &raw_transactions[i].body {
            if transaction.info.success {
                assert(successful(batch[i as int]) == Some(transaction@));
                let found = find_matches(selection, transaction);
                if !found.events.is_empty() || !found.resources.is_empty()
                    || !found.changes.is_empty() {
                    let ghost before = transactions@;
                    transactions.push(R::report(transaction, found));
                    assert(views(transactions@) =~= views(before).push(transactions@.last()@));
                }
            }
        }
        proof {
            batch.lemma_filter_map_take_succ(report, i as int);
        }
    }
    assert(batch.take(raw_transactions.len() as int) =~= batch);
    (
        num_txns,
        Some(
            ProcessingResult {
                transactions,
                start_version: start_version.unwrap(),
                end_version: end_version.unwrap(),
            },
        ),
    )
}

/// Two selections ask for the same.
pub open spec fn asks_alike<S: Selection>(one: S, other: S) -> bool {
    &&& forall|event: EventView| #[trigger] one.keeps_event(event) == other.keeps_event(event)
    &&& forall|tag: MoveStructTagView| #[trigger]
        one.keeps_resource(tag) == other.keeps_resource(tag)
    &&& forall|handle: Seq<char>| #[trigger]
        one.keeps_handle(handle) == other.keeps_handle(handle)
}

/// Where the same is asked for, the same is reported, and the same batches can be processed.
pub proof fn lemma_same_asked_same_reported<S: Selection, R: Report>(
    one: S,
    other: S,
    batch: Seq<TransactionView>,
)
    requires
        asks_alike(one, other),
    ensures
        batch_report::<S, R>(one, batch) == batch_report::<S, R>(other, batch),
        is_processable(one, batch) == is_processable(other, batch),
{
    assert((|event: EventView| event_report(one, event)) =~= (|event: EventView|
        event_report(other, event)));
    assert((|change: WriteSetChangeView| resource_report(one, change)) =~= (|
        change: WriteSetChangeView,
    | resource_report(other, change)));
    assert((|change: WriteSetChangeView| table_report(one, change)) =~= (|
        change: WriteSetChangeView,
    | table_report(other, change)));
    assert((|transaction: TransactionView| transaction_report::<S, R>(one, transaction)) =~= (|
        transaction: TransactionView,
    | transaction_report::<S, R>(other, transaction)));
}

/// However transactions are cut into batches, the reports are the same.
pub proof fn lemma_batches_may_be_cut_anywhere<S: Selection, R: Report>(
    selection: S,
    batches: Seq<Seq<TransactionView>>,
)
    ensures
        batch_report::<S, R>(selection, batches.flatten()) == batches.map_values(
            |batch: Seq<TransactionView>| batch_report::<S, R>(selection, batch),
        ).flatten(),
{
    let report = |transaction: TransactionView|
        transaction_report::<S, R>(selection, transaction);
    lemma_filter_map_flatten(batches, report);
    assert(batches.map_values(|batch: Seq<TransactionView>| batch.filter_map(report))
        =~= batches.map_values(
        |batch: Seq<TransactionView>| batch_report::<S, R>(selection, batch),
    ));
}

/// A transaction gives a report that has its version, and that says something was found in it.
proof fn lemma_report_is_of_transaction<S: Selection, R: Report>(
    selection: S,
    transaction: TransactionView,
)
    ensures
        transaction_report::<S, R>(selection, transaction) matches Some(report) ==> {
            &&& successful(transaction) matches Some(user)
            &&& R::version_of(report) == user.info.version
            &&& !R::matches_in(report).is_empty()
        },
{
    if let Some(user) = successful(transaction) {
        R::lemma_on(user, matches_of(selection, user));
    }
}

/// What is reported is what the transactions of the batch give, with their versions and with
/// something found in them.
pub proof fn lemma_reports_are_of_batch<S: Selection, R: Report>(
    selection: S,
    batch: Seq<TransactionView>,
    report: R::V,
)
    ensures
        batch_report::<S, R>(selection, batch).contains(report) <==> exists|i: int|
            0 <= i < batch.len() && #[trigger] transaction_report::<S, R>(selection, batch[i])
                == Some(report),
        batch_report::<S, R>(selection, batch).contains(report) ==> {
            &&& !R::matches_in(report).is_empty()
            &&& exists|i: int|
                0 <= i < batch.len() && (#[trigger] successful(batch[i]) matches Some(user)
                    && user.info.version == R::version_of(report))
        },
{
    let of = |transaction: TransactionView| transaction_report::<S, R>(selection, transaction);
    lemma_filter_map_contains(batch, of, report);
    if exists|i: int|
        0 <= i < batch.len() && #[trigger] transaction_report::<S, R>(selection, batch[i]) == Some(
            report,
        ) {
        let i = choose|i: int|
            0 <= i < batch.len() && #[trigger] transaction_report::<S, R>(selection, batch[i])
                == Some(report);
        assert(of(batch[i]) == Some(report));
    }
    if exists|i: int| 0 <= i < batch.len() && #[trigger] of(batch[i]) == Some(report) {
        let i = choose|i: int| 0 <= i < batch.len() && #[trigger] of(batch[i]) == Some(report);
        assert(transaction_report::<S, R>(selection, batch[i]) == Some(report));
        lemma_report_is_of_transaction::<S, R>(selection, batch[i]);
        assert(successful(batch[i]) is Some);
    }
}

/// Reports on a batch in the order of the ledger are so too, and lie within the batch.
pub proof fn lemma_reports_are_in_ledger_order<S: Selection, R: Report>(
    selection: S,
    batch: Seq<TransactionView>,
)
    requires
        is_in_ledger_order(batch),
    ensures
        forall|i: int, j: int|
            #![trigger batch_report::<S, R>(selection, batch)[i],
                batch_report::<S, R>(selection, batch)[j]]
            0 <= i < j < batch_report::<S, R>(selection, batch).len() ==> R::version_of(
                batch_report::<S, R>(selection, batch)[i],
            ) < R::version_of(batch_report::<S, R>(selection, batch)[j]),
        forall|i: int|
            #![trigger batch_report::<S, R>(selection, batch)[i]]
            0 <= i < batch_report::<S, R>(selection, batch).len() ==> batch[0].version->0
                <= R::version_of(batch_report::<S, R>(selection, batch)[i])
                <= batch.last().version->0,
{
    let report = |transaction: TransactionView|
        transaction_report::<S, R>(selection, transaction);
    let version = |one: R::V| R::version_of(one);
    assert forall|transaction: TransactionView| (#[trigger] report(transaction) matches Some(one)
        ==> (successful(transaction) matches Some(user) && version(one)
        == user.info.version)) by {
        lemma_report_is_of_transaction::<S, R>(selection, transaction);
    }
    lemma_reports_in_ledger_order(batch, report, version);
    let reports = batch_report::<S, R>(selection, batch);
    assert forall|i: int, j: int|
        #![trigger reports[i], reports[j]]
        0 <= i < j < reports.len() implies R::version_of(reports[i]) < R::version_of(
        reports[j],
    ) by {
        assert(version(reports[i]) < version(reports[j]));
    }
    assert forall|i: int|
        #![trigger reports[i]]
        0 <= i < reports.len() implies batch[0].version->0 <= R::version_of(reports[i])
        <= batch.last().version->0 by {
        assert(batch[0].version->0 <= version(reports[i]) <= batch.last().version->0);
    }
}

/// A selection asks for nothing.
pub open spec fn asks_for_nothing<S: Selection>(selection: S) -> bool {
    &&& forall|event: EventView| !#[trigger] selection.keeps_event(event)
    &&& forall|tag: MoveStructTagView| !#[trigger] selection.keeps_resource(tag)
    &&& forall|handle: Seq<char>| !#[trigger] selection.keeps_handle(handle)
}

/// Where nothing is asked for nothing is reported, and nothing needs to be decoded.
pub proof fn lemma_nothing_asked_nothing_reported<S: Selection, R: Report>(
    selection: S,
    batch: Seq<TransactionView>,
)
    requires
        asks_for_nothing(selection),
    ensures
        batch_report::<S, R>(selection, batch).len() == 0,
        is_processable(selection, batch) <==> (batch.len() > 0 ==> batch[0].version is Some
            && batch.last().version is Some),
{
    let report = |transaction: TransactionView|
        transaction_report::<S, R>(selection, transaction);
    assert forall|i: int| 0 <= i < batch.len() implies report(#[trigger] batch[i]) is None by {
        if let Some(user) = successful(batch[i]) {
            lemma_filter_map_none(user.events, |event: EventView| event_report(selection, event));
            lemma_filter_map_none(
                user.info.changes,
                |change: WriteSetChangeView| resource_report(selection, change),
            );
            lemma_filter_map_none(
                user.info.changes,
                |change: WriteSetChangeView| table_report(selection, change),
            );
        }
    }
    lemma_filter_map_none(batch, report);
}

/// A round in which the tasks, each with a selection of its own that asks for the same, went over
/// transactions of the ledger: the request has the reports on all of the transactions, in the
/// order of the ledger, all transactions are counted, and where each batch was in the order of
/// the ledger the round spans the ledger.
pub proof fn lemma_round_reports_on_ledger<S: Selection, R: Report>(
    selection: S,
    selections: Seq<S>,
    fetched: Seq<Seq<TransactionView>>,
    ledger: Seq<TransactionView>,
    batches: Seq<(u64, Option<ProcessingResult<R>>)>,
    round: Round<R>,
)
    requires
        fetched.flatten().to_multiset() == ledger.to_multiset(),
        is_in_ledger_order(ledger),
        selections.len() == batches.len(),
        fetched.len() == batches.len(),
        forall|i: int|
            0 <= i < selections.len() ==> asks_alike(#[trigger] selections[i], selection),
        forall|i: int|
            0 <= i < batches.len() ==> is_outcome_of(
                selections[i],
                fetched[i],
                #[trigger] batches[i],
            ),
        is_round_of(batches, round),
    ensures
        match round.request {
            Some(request) => {
                &&& batch_report::<S, R>(selection, ledger).len() > 0
                &&& views(request.transactions@) == batch_report::<S, R>(selection, ledger)
            },
            None => batch_report::<S, R>(selection, ledger).len() == 0,
        },
        round.num_res == ledger.len(),
        ledger.len() > 0 && (forall|i: int|
            0 <= i < fetched.len() ==> is_in_ledger_order(#[trigger] fetched[i])) ==> Some(
            round.batch_start_version,
        ) == ledger[0].version && Some(round.batch_end_version) == ledger.last().version,
{
    let report = |transaction: TransactionView|
        transaction_report::<S, R>(selection, transaction);
    let version = |one: R::V| R::version_of(one);
    assert forall|i: int| 0 <= i < batches.len() implies is_outcome(
        fetched[i],
        report,
        #[trigger] batches[i],
    ) by {
        lemma_same_asked_same_reported::<S, R>(selections[i], selection, fetched[i]);
        assert(is_outcome_of(selections[i], fetched[i], batches[i]));
    }
    assert forall|transaction: TransactionView| (#[trigger] report(transaction) matches Some(one)
        ==> (successful(transaction) matches Some(user) && version(one)
        == user.info.version)) by {
        lemma_report_is_of_transaction::<S, R>(selection, transaction);
    }
    assert forall|one: R| version(#[trigger] one@) == one.spec_version() by {
        R::lemma_placed_by_version(one);
    }
    lemma_round_of_ledger(fetched, ledger, report, version, batches, round);
    if let Some(request) = round.request {
        law_sort_keeps_reports(reports(results(batches)), request.transactions@);
    }
    if ledger.len() > 0 && (forall|i: int|
        0 <= i < fetched.len() ==> is_in_ledger_order(#[trigger] fetched[i])) {
        lemma_round_spans_ledger(fetched, ledger, report, batches, round);
    }
}

/// Where in a batch that stands which is reported: the places of the transactions and, for each
/// of these, the places among its events and among its changes.
#[verifier::ext_equal]
pub struct Places {
    pub transactions: Seq<int>,
    pub events: Seq<Seq<int>>,
    pub resources: Seq<Seq<int>>,
    pub changes: Seq<Seq<int>>,
}

/// Something in a user transaction is asked for.
pub open spec fn has_match<S: Selection>(selection: S, user: UserTransaction) -> bool {
    ||| exists|j: int|
        0 <= j < user.events@.len() && selection.keeps_event((#[trigger] user.events@[j])@)
    ||| exists|j: int|
        0 <= j < user.info.changes@.len() && match #[trigger] user.info.changes@[j] {
            WriteSetChange::DeleteTableItem { handle, .. } => selection.keeps_handle(handle@),
            WriteSetChange::DeleteResource { resource, .. } => selection.keeps_resource(resource@),
            WriteSetChange::WriteTableItem { handle, .. } => selection.keeps_handle(handle@),
            WriteSetChange::WriteResource { typ, .. } => selection.keeps_resource(typ@),
            WriteSetChange::Other => false,
        }
}

/// Nothing is found in a transaction just where nothing in it is asked for.
proof fn lemma_match_is_found<S: Selection>(selection: S, user: UserTransaction)
    ensures
        matches_of(selection, user@).is_empty() <==> !has_match(selection, user),
{
    let found = matches_of(selection, user@);
    let on_event = |event: EventView| event_report(selection, event);
    let on_resource = |change: WriteSetChangeView| resource_report(selection, change);
    let on_table = |change: WriteSetChangeView| table_report(selection, change);
    let events = lemma_filter_map_places(views(user.events@), on_event);
    let resources = lemma_filter_map_places(views(user.info.changes@), on_resource);
    let changes = lemma_filter_map_places(views(user.info.changes@), on_table);
    law_views_stand_in_place(user.events@);
    law_views_stand_in_place(user.info.changes@);
    if events.len() > 0 {
        let j = events[0];
        assert(on_event(views(user.events@)[j]) is Some);
        assert(selection.keeps_event(user.events@[j]@));
    }
    if resources.len() > 0 {
        let j = resources[0];
        assert(on_resource(views(user.info.changes@)[j]) is Some);
        assert(views(user.info.changes@)[j] == user.info.changes@[j]@);
    }
    if changes.len() > 0 {
        let j = changes[0];
        assert(on_table(views(user.info.changes@)[j]) is Some);
        assert(views(user.info.changes@)[j] == user.info.changes@[j]@);
    }
    if exists|j: int|
        0 <= j < user.events@.len() && selection.keeps_event((#[trigger] user.events@[j])@) {
        let j = choose|j: int|
            0 <= j < user.events@.len() && selection.keeps_event((#[trigger] user.events@[j])@);
        assert(on_event(views(user.events@)[j]) is Some);
        assert(events.contains(j));
    }
    assert forall|j: int| 0 <= j < user.info.changes@.len() && found.is_empty() implies match (
    #[trigger] user.info.changes@[j]) {
        WriteSetChange::DeleteTableItem { handle, .. } => !selection.keeps_handle(handle@),
        WriteSetChange::DeleteResource { resource, .. } => !selection.keeps_resource(resource@),
        WriteSetChange::WriteTableItem { handle, .. } => !selection.keeps_handle(handle@),
        WriteSetChange::WriteResource { typ, .. } => !selection.keeps_resource(typ@),
        WriteSetChange::Other => true,
    } by {
        assert(views(user.info.changes@)[j] == user.info.changes@[j]@);
        assert(!resources.contains(j) && !changes.contains(j));
    }
}

/// What is reported on a batch stands for that in it which is asked for. `found` is what each of
/// the reports says was found.
pub proof fn lemma_reports_stand_for<S: Selection, R: Report>(
    selection: S,
    raw: Seq<Transaction>,
    sent: Seq<R>,
    found: Seq<Matches>,
) -> (at: Places)
    requires
        views(sent) == batch_report::<S, R>(selection, views(raw)),
        found.len() == sent.len(),
        forall|k: int|
            0 <= k < sent.len() ==> (#[trigger] found[k])@ == R::matches_in(sent[k]@),
    ensures
        at.transactions.len() == sent.len(),
        at.events.len() == sent.len(),
        at.resources.len() == sent.len(),
        at.changes.len() == sent.len(),
        go_up(at.transactions, raw.len()),
        forall|k: int|
            #![trigger at.transactions[k]]
            0 <= k < sent.len() ==> match raw[at.transactions[k]].body {
                TransactionBody::UserTransaction(user) => {
                    &&& user.info.success
                    &&& sent[k]@ == R::on(user@, found[k]@)
                    &&& events_stand_for(selection, user.events@, found[k].events@, at.events[k])
                    &&& resources_stand_for(
                        selection,
                        user.info.changes@,
                        found[k].resources@,
                        at.resources[k],
                    )
                    &&& tables_stand_for(
                        selection,
                        user.info.changes@,
                        found[k].changes@,
                        at.changes[k],
                    )
                },
                TransactionBody::Other => false,
            },
        forall|i: int|
            0 <= i < raw.len() ==> (#[trigger] at.transactions.contains(i) <==> match raw[i].body {
                TransactionBody::UserTransaction(user) => user.info.success && has_match(
                    selection,
                    user,
                ),
                TransactionBody::Other => false,
            }),
{
    let report = |transaction: TransactionView|
        transaction_report::<S, R>(selection, transaction);
    let places = lemma_filter_map_places(views(raw), report);
    law_views_stand_in_place(raw);
    law_views_stand_in_place(sent);
    let user_at = |k: int| raw[places[k]].body->UserTransaction_0;
    assert forall|k: int| 0 <= k < sent.len() implies {
        &&& raw[#[trigger] places[k]].body is UserTransaction
        &&& user_at(k).info.success
        &&& sent[k]@ == R::on(user_at(k)@, found[k]@)
        &&& found[k]@ == matches_of(selection, user_at(k)@)
    } by {
        assert(views(raw)[places[k]] == raw[places[k]]@);
        assert(views(sent)[k] == sent[k]@);
        assert(report(views(raw)[places[k]]) == Some(sent[k]@));
        R::lemma_on(user_at(k)@, matches_of(selection, user_at(k)@));
        assert(found[k]@ == R::matches_in(sent[k]@));
    }
    let at = Places {
        transactions: places,
        events: Seq::new(
            sent.len(),
            |k: int|
                choose|spots: Seq<int>| #[trigger]
                    events_stand_for(selection, user_at(k).events@, found[k].events@, spots),
        ),
        resources: Seq::new(
            sent.len(),
            |k: int|
                choose|spots: Seq<int>| #[trigger]
                    resources_stand_for(
                        selection,
                        user_at(k).info.changes@,
                        found[k].resources@,
                        spots,
                    ),
        ),
        changes: Seq::new(
            sent.len(),
            |k: int|
                choose|spots: Seq<int>| #[trigger]
                    tables_stand_for(
                        selection,
                        user_at(k).info.changes@,
                        found[k].changes@,
                        spots,
                    ),
        ),
    };
    assert forall|k: int|
        #![trigger at.transactions[k]]
        0 <= k < sent.len() implies match raw[at.transactions[k]].body {
        TransactionBody::UserTransaction(user) => {
            &&& user.info.success
            &&& sent[k]@ == R::on(user@, found[k]@)
            &&& events_stand_for(selection, user.events@, found[k].events@, at.events[k])
            &&& resources_stand_for(
                selection,
                user.info.changes@,
                found[k].resources@,
                at.resources[k],
            )
            &&& tables_stand_for(selection, user.info.changes@, found[k].changes@, at.changes[k])
        },
        TransactionBody::Other => false,
    } by {
        let user = user_at(k);
        assert(raw[places[k]].body is UserTransaction);
        let one = lemma_events_stand_for(selection, user.events@, found[k].events@);
        let two = lemma_resources_stand_for(selection, user.info.changes@, found[k].resources@);
        let three = lemma_tables_stand_for(selection, user.info.changes@, found[k].changes@);
        assert(events_stand_for(selection, user.events@, found[k].events@, one));
        assert(resources_stand_for(selection, user.info.changes@, found[k].resources@, two));
        assert(tables_stand_for(selection, user.info.changes@, found[k].changes@, three));
    }
    assert forall|i: int| 0 <= i < raw.len() implies (#[trigger] at.transactions.contains(i)
        <==> match raw[i].body {
        TransactionBody::UserTransaction(user) => user.info.success && has_match(selection, user),
        TransactionBody::Other => false,
    }) by {
        assert(views(raw)[i] == raw[i]@);
        if let TransactionBody::UserTransaction(user) = raw[i].body {
            lemma_match_is_found(selection, user);
        }
    }
    at
}

/// A selection asks for all that another asks for, and perhaps for more.
pub open spec fn asks_for_more<S: Selection>(less: S, more: S) -> bool {
    &&& forall|event: EventView| #[trigger] less.keeps_event(event) ==> more.keeps_event(event)
    &&& forall|tag: MoveStructTagView| #[trigger]
        less.keeps_resource(tag) ==> more.keeps_resource(tag)
    &&& forall|handle: Seq<char>| #[trigger] less.keeps_handle(handle) ==> more.keeps_handle(handle)
}

/// Whoever asks for more gets, for each report, a report on the same transaction in which all of
/// the other's is found.
pub proof fn lemma_more_asked_more_reported<S: Selection, R: Report>(
    less: S,
    more: S,
    batch: Seq<TransactionView>,
    k: int,
) -> (found: (int, UserTransactionView, MatchesView, MatchesView))
    requires
        asks_for_more(less, more),
        0 <= k < batch_report::<S, R>(less, batch).len(),
    ensures
        0 <= found.0 < batch_report::<S, R>(more, batch).len(),
        batch_report::<S, R>(less, batch)[k] == R::on(found.1, found.2),
        batch_report::<S, R>(more, batch)[found.0] == R::on(found.1, found.3),
        forall|event: EndpointEventView| #[trigger]
            found.2.events.contains(event) ==> found.3.events.contains(event),
        forall|change: EndpointResourceChangeView| #[trigger]
            found.2.resources.contains(change) ==> found.3.resources.contains(change),
        forall|change: EndpointTableChangeView| #[trigger]
            found.2.changes.contains(change) ==> found.3.changes.contains(change),
{
    let of_less = |transaction: TransactionView| transaction_report::<S, R>(less, transaction);
    let of_more = |transaction: TransactionView| transaction_report::<S, R>(more, transaction);
    let places = lemma_filter_map_places(batch, of_less);
    let others = lemma_filter_map_places(batch, of_more);
    let i = places[k];
    assert(of_less(batch[i]) == Some(batch_report::<S, R>(less, batch)[k]));
    let user = successful(batch[i])->0;
    let one = matches_of(less, user);
    let two = matches_of(more, user);
    assert forall|event: EndpointEventView| #[trigger]
        one.events.contains(event) implies two.events.contains(event) by {
        let by_less = |event: EventView| event_report(less, event);
        let by_more = |event: EventView| event_report(more, event);
        lemma_filter_map_contains(user.events, by_less, event);
        lemma_filter_map_contains(user.events, by_more, event);
        let j = choose|j: int|
            0 <= j < user.events.len() && #[trigger] by_less(user.events[j]) == Some(event);
        assert(less.keeps_event(user.events[j]));
        assert(by_more(user.events[j]) == Some(event));
    }
    assert forall|change: EndpointResourceChangeView| #[trigger]
        one.resources.contains(change) implies two.resources.contains(change) by {
        let by_less = |change: WriteSetChangeView| resource_report(less, change);
        let by_more = |change: WriteSetChangeView| resource_report(more, change);
        lemma_filter_map_contains(user.info.changes, by_less, change);
        lemma_filter_map_contains(user.info.changes, by_more, change);
        let j = choose|j: int|
            0 <= j < user.info.changes.len() && #[trigger] by_less(user.info.changes[j]) == Some(
                change,
            );
        assert(by_more(user.info.changes[j]) == Some(change));
    }
    assert forall|change: EndpointTableChangeView| #[trigger]
        one.changes.contains(change) implies two.changes.contains(change) by {
        let by_less = |change: WriteSetChangeView| table_report(less, change);
        let by_more = |change: WriteSetChangeView| table_report(more, change);
        lemma_filter_map_contains(user.info.changes, by_less, change);
        lemma_filter_map_contains(user.info.changes, by_more, change);
        let j = choose|j: int|
            0 <= j < user.info.changes.len() && #[trigger] by_less(user.info.changes[j]) == Some(
                change,
            );
        assert(by_more(user.info.changes[j]) == Some(change));
    }
    if one.events.len() > 0 {
        assert(one.events.contains(one.events[0]));
        assert(two.events.contains(one.events[0]));
    }
    if one.resources.len() > 0 {
        assert(one.resources.contains(one.resources[0]));
        assert(two.resources.contains(one.resources[0]));
    }
    if one.changes.len() > 0 {
        assert(one.changes.contains(one.changes[0]));
        assert(two.changes.contains(one.changes[0]));
    }
    assert(!two.is_empty());
    assert(of_more(batch[i]) == Some(R::on(user, two)));
    assert(others.contains(i));
    let l = choose|l: int| 0 <= l < others.len() && others[l] == i;
    assert(of_more(batch[others[l]]) == Some(batch_report::<S, R>(more, batch)[l]));
    (l, user, one, two)
}

} // verus!
