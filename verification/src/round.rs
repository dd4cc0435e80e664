//! One round of the indexing loop: what the processor tasks made of their batches is put
//! together into one request.

use vstd::prelude::*;

use crate::processing_result::{EndpointRequest, ProcessingResult, Versioned};
use crate::selection::{is_in_ledger_order, lemma_reports_in_ledger_order, successful};
use crate::sequences::{
    lemma_ascending_unique, lemma_filter_map_add, lemma_filter_map_contains,
    lemma_filter_map_permuted, lemma_views_add, lemma_views_permuted, views,
};
use crate::sort::{
    has_distinct_versions, is_sorted, is_stable_sort, law_sort_forgets_order,
    law_sort_keeps_reports, law_sort_orders_by_version, sort_by_version,
};
use crate::transaction::TransactionView;

verus! {

/// The outcome of a round. There is a request where there is anything to report. The versions
/// are the lowest and the highest of all batches, `u64::MAX` and 0 where all were empty.
#[derive(Debug)]
pub struct Round<T> {
    pub request: Option<EndpointRequest<T>>,
    pub batch_start_version: u64,
    pub batch_end_version: u64,
    pub num_res: u64,
}

/// The size and the result of each batch that was not empty.
pub open spec fn results<T>(batches: Seq<(u64, Option<ProcessingResult<T>>)>) -> Seq<
    (u64, ProcessingResult<T>),
> {
    batches.filter_map(
        |batch: (u64, Option<ProcessingResult<T>>)|
            match batch.1 {
                Some(processed) => Some((batch.0, processed)),
                None => None,
            },
    )
}

/// All reports, batch by batch.
pub open spec fn reports<T>(results: Seq<(u64, ProcessingResult<T>)>) -> Seq<T> {
    results.flat_map(|result: (u64, ProcessingResult<T>)| result.1.transactions@)
}

/// How many transactions there are in all batches together.
pub open spec fn total<T>(results: Seq<(u64, ProcessingResult<T>)>) -> int
    decreases results.len(),
{
    if results.len() == 0 {
        0
    } else {
        total(results.drop_last()) + results.last().0
    }
}

/// The lowest version at which a batch starts, and `u64::MAX` where there is no batch.
pub open spec fn is_lowest_start<T>(results: Seq<(u64, ProcessingResult<T>)>, version: u64) -> bool {
    &&& forall|i: int| 0 <= i < results.len() ==> version <= (#[trigger] results[i]).1.start_version
    &&& version == u64::MAX || exists|i: int|
        0 <= i < results.len() && version == (#[trigger] results[i]).1.start_version
}

/// The highest version at which a batch ends, and 0 where there is no batch.
pub open spec fn is_highest_end<T>(results: Seq<(u64, ProcessingResult<T>)>, version: u64) -> bool {
    &&& forall|i: int| 0 <= i < results.len() ==> (#[trigger] results[i]).1.end_version <= version
    &&& version == 0 || exists|i: int|
        0 <= i < results.len() && version == (#[trigger] results[i]).1.end_version
}

/// A round is the outcome of a list of batches.
pub open spec fn is_round_of<T: Versioned>(
    batches: Seq<(u64, Option<ProcessingResult<T>>)>,
    round: Round<T>,
) -> bool {
    let found = results(batches);
    &&& match round.request {
        Some(request) => {
            &&& reports(found).len() > 0
            &&& is_stable_sort(reports(found), request.transactions@)
        },
        None => reports(found).len() == 0,
    }
    &&& is_lowest_start(found, round.batch_start_version)
    &&& is_highest_end(found, round.batch_end_version)
    &&& round.num_res == total(found)
}

proof fn lemma_results_step<T>(batches: Seq<(u64, Option<ProcessingResult<T>>)>, i: int)
    requires
        0 <= i < batches.len(),
    ensures
        results(batches.take(i + 1)) == match batches[i].1 {
            Some(processed) => results(batches.take(i)).push((batches[i].0, processed)),
            None => results(batches.take(i)),
        },
{
    batches.lemma_filter_map_take_succ(
        |batch: (u64, Option<ProcessingResult<T>>)|
            match batch.1 {
                Some(processed) => Some((batch.0, processed)),
                None => None,
            },
        i,
    );
    assert(results(batches.take(i + 1)) =~= match batches[i].1 {
        Some(processed) => results(batches.take(i)).push((batches[i].0, processed)),
        None => results(batches.take(i)),
    });
}

/// The total only grows with further batches.
proof fn lemma_total_grows<T>(batches: Seq<(u64, Option<ProcessingResult<T>>)>, i: int)
    requires
        0 <= i <= batches.len(),
    ensures
        0 <= total(results(batches.take(i))) <= total(results(batches)),
    decreases batches.len() - i,
{
    if i < batches.len() {
        lemma_total_grows(batches, i + 1);
        lemma_results_step(batches, i);
        if let Some(processed) = batches[i].1 {
            let found = results(batches.take(i));
            assert(found.push((batches[i].0, processed)).drop_last() =~= found);
        }
    } else {
        assert(batches.take(i) =~= batches);
    }
    lemma_total_nonnegative(results(batches.take(i)));
}

proof fn lemma_total_nonnegative<T>(found: Seq<(u64, ProcessingResult<T>)>)
    ensures
        0 <= total(found),
    decreases found.len(),
{
    if found.len() > 0 {
        lemma_total_nonnegative(found.drop_last());
    }
}

/// Puts the outcomes of the processor tasks together.
pub fn gather<T: Versioned>(batches: Vec<(u64, Option<ProcessingResult<T>>)>) -> (round: Round<T>)
    requires
        total(results(batches@)) <= u64::MAX,
    ensures
        is_round_of(batches@, round),
{
    let ghost all = batches@;
    let mut transactions: Vec<T> = Vec::new();
    let mut batch_start_version = u64::MAX;
    let mut batch_end_version: u64 = 0;
    let mut num_res: u64 = 0;
    assert(results(all.take(0)) =~= Seq::empty());
    assert(reports(results(all.take(0))) =~= Seq::empty());
    for batch in it: batches
        invariant
            it.seq() == all,
            total(results(all)) <= u64::MAX,
            transactions@ == reports(results(all.take(it.index() as int))),
            is_lowest_start(results(all.take(it.index() as int)), batch_start_version),
            is_highest_end(results(all.take(it.index() as int)), batch_end_version),
            num_res == total(results(all.take(it.index() as int))),
    {
        let ghost i = it.index() as int;
        let ghost found = results(all.take(i));
        proof {
            lemma_results_step(all, i);
            lemma_total_grows(all, i + 1);
        }
        let (num_txn, res) = batch;
        if let Some(processed_result) = res {
            proof {
                let result = (num_txn, processed_result);
                assert(found.push(result).drop_last() =~= found);
                found.lemma_flat_map_push(
                    |result: (u64, ProcessingResult<T>)| result.1.transactions@,
                    result,
                );
                assert(found.push(result)[found.len() as int] == result);
                assert forall|k: int| 0 <= k < found.len() implies #[trigger] found.push(result)[k]
                    == found[k] by {}
            }
            if processed_result.start_version < batch_start_version {
                batch_start_version = processed_result.start_version;
            }
            if processed_result.end_version > batch_end_version {
                batch_end_version = processed_result.end_version;
            }
            num_res += num_txn;
            let mut more = processed_result.transactions;
            transactions.append(&mut more);
        }
    }
    assert(all.take(all.len() as int) =~= all);
    let request = if transactions.is_empty() {
        None
    } else {
        Some(EndpointRequest { transactions: sort_by_version(transactions) })
    };
    Round { request, batch_start_version, batch_end_version, num_res }
}

/// Whether the number of transactions in all batches together fits the counter.
pub fn check_total<T>(batches: &Vec<(u64, Option<ProcessingResult<T>>)>) -> (fits: bool)
    ensures
        fits == (total(results(batches@)) <= u64::MAX),
{
    let ghost all = batches@;
    let mut num_res: u64 = 0;
    assert(results(all.take(0)) =~= Seq::empty());
    for i in 0..batches.len()
        invariant
            all == batches@,
            num_res == total(results(all.take(i as int))),
    {
        proof {
            lemma_results_step(all, i as int);
            lemma_total_grows(all, i + 1);
        }
        if let Some(processed) = &batches[i].1 {
            proof {
                let found = results(all.take(i as int));
                assert(found.push((all[i as int].0, *processed)).drop_last() =~= found);
            }
            if batches[i].0 > u64::MAX - num_res {
                return false;
            }
            num_res += batches[i].0;
        }
    }
    assert(all.take(all.len() as int) =~= all);
    true
}

/// The request that goes out has its reports in the order of their versions, and holds each
/// report of each batch as often as it was made, and no other.
pub proof fn law_request_is_complete<T: Versioned>(
    batches: Seq<(u64, Option<ProcessingResult<T>>)>,
    round: Round<T>,
)
    requires
        is_round_of(batches, round),
    ensures
        round.request matches Some(request) ==> is_sorted(request.transactions@)
            && request.transactions@.to_multiset() == reports(results(batches)).to_multiset(),
        round.request is None <==> reports(results(batches)).len() == 0,
{
    if let Some(request) = round.request {
        law_sort_keeps_reports(reports(results(batches)), request.transactions@);
    }
}

/// Where no two reports are of one version, the order in which the tasks come to their batches,
/// and how they share the reports among them, makes no difference to the request.
pub proof fn law_request_forgets_task_order<T: Versioned>(
    batches: Seq<(u64, Option<ProcessingResult<T>>)>,
    others: Seq<(u64, Option<ProcessingResult<T>>)>,
    round: Round<T>,
    other_round: Round<T>,
)
    requires
        is_round_of(batches, round),
        is_round_of(others, other_round),
        reports(results(batches)).to_multiset() == reports(results(others)).to_multiset(),
        has_distinct_versions(reports(results(batches))),
    ensures
        match round.request {
            Some(request) => other_round.request matches Some(other)
                && other.transactions@ == request.transactions@,
            None => other_round.request is None,
        },
{
    broadcast use vstd::seq_lib::group_to_multiset_ensures;

    let one = reports(results(batches));
    let two = reports(results(others));
    assert(one.to_multiset().len() == one.len());
    assert(two.to_multiset().len() == two.len());
    if round.request is Some && other_round.request is Some {
        law_sort_forgets_order(
            one,
            two,
            round.request->0.transactions@,
            other_round.request->0.transactions@,
        );
    }
}

/// Where every batch ends no earlier than it starts, and there is a batch at all, the round does
/// the same.
pub proof fn law_round_spans_batches<T: Versioned>(
    batches: Seq<(u64, Option<ProcessingResult<T>>)>,
    round: Round<T>,
)
    requires
        is_round_of(batches, round),
        results(batches).len() > 0,
        forall|i: int|
            0 <= i < results(batches).len() ==> (#[trigger] results(batches)[i]).1.start_version
                <= results(batches)[i].1.end_version,
    ensures
        round.batch_start_version <= round.batch_end_version,
{
    assert(round.batch_start_version <= results(batches)[0].1.start_version);
    assert(results(batches)[0].1.end_version <= round.batch_end_version);
}

/// The size of a batch and, unless it is empty, the reports on it, with its first and its last
/// version.
pub open spec fn is_outcome<T: View>(
    batch: Seq<TransactionView>,
    report: spec_fn(TransactionView) -> Option<T::V>,
    outcome: (u64, Option<ProcessingResult<T>>),
) -> bool {
    &&& outcome.0 == batch.len()
    &&& outcome.1 is None <==> batch.len() == 0
    &&& outcome.1 matches Some(processed) ==> {
        &&& views(processed.transactions@) == batch.filter_map(report)
        &&& Some(processed.start_version) == batch[0].version
        &&& Some(processed.end_version) == batch.last().version
    }
}

/// What the tasks found together is what there is in all of their batches.
proof fn lemma_outcomes_add_up<T: View>(
    fetched: Seq<Seq<TransactionView>>,
    report: spec_fn(TransactionView) -> Option<T::V>,
    batches: Seq<(u64, Option<ProcessingResult<T>>)>,
)
    requires
        fetched.len() == batches.len(),
        forall|i: int|
            0 <= i < batches.len() ==> is_outcome(fetched[i], report, #[trigger] batches[i]),
    ensures
        views(reports(results(batches))) == fetched.flatten().filter_map(report),
        total(results(batches)) == fetched.flatten().len(),
    decreases batches.len(),
{
    if batches.len() == 0 {
        assert(views(reports(results(batches))) =~= fetched.flatten().filter_map(report));
    } else {
        let n = batches.len() - 1;
        let front = batches.drop_last();
        let found = results(front);
        let earlier = fetched.drop_last();
        let last = fetched.last();
        assert forall|i: int| 0 <= i < front.len() implies is_outcome(
            earlier[i],
            report,
            #[trigger] front[i],
        ) by {
            assert(front[i] == batches[i]);
        }
        lemma_outcomes_add_up(earlier, report, front);
        lemma_results_step(batches, n);
        assert(batches.take(n) =~= front && batches.take(n + 1) =~= batches);
        earlier.lemma_flatten_push(last);
        assert(earlier.push(last) =~= fetched);
        lemma_filter_map_add(earlier.flatten(), last, report);
        assert(is_outcome(fetched[n], report, batches[n]));
        if let Some(processed) = batches[n].1 {
            let result = (batches[n].0, processed);
            found.lemma_flat_map_push(
                |result: (u64, ProcessingResult<T>)| result.1.transactions@,
                result,
            );
            assert(found.push(result).drop_last() =~= found);
            lemma_views_add(reports(found), processed.transactions@);
        } else {
            assert(last =~= Seq::empty());
            assert(earlier.flatten() + last =~= earlier.flatten());
        }
    }
}

/// A round over transactions of the ledger: whatever the order in which the tasks fetched their
/// batches, the request has the reports on all transactions in the order of the ledger, and all
/// transactions are counted.
pub proof fn lemma_round_of_ledger<T: Versioned + View>(
    fetched: Seq<Seq<TransactionView>>,
    ledger: Seq<TransactionView>,
    report: spec_fn(TransactionView) -> Option<T::V>,
    version: spec_fn(T::V) -> u64,
    batches: Seq<(u64, Option<ProcessingResult<T>>)>,
    round: Round<T>,
)
    requires
        fetched.flatten().to_multiset() == ledger.to_multiset(),
        is_in_ledger_order(ledger),
        forall|transaction: TransactionView| #[trigger]
            report(transaction) matches Some(one) ==> (successful(transaction) matches Some(user)
                && version(one) == user.info.version),
        forall|one: T| version(#[trigger] one@) == one.spec_version(),
        fetched.len() == batches.len(),
        forall|i: int|
            0 <= i < batches.len() ==> is_outcome(fetched[i], report, #[trigger] batches[i]),
        is_round_of(batches, round),
    ensures
        match round.request {
            Some(request) => views(request.transactions@) == ledger.filter_map(report),
            None => ledger.filter_map(report).len() == 0,
        },
        round.num_res == ledger.len(),
{
    broadcast use vstd::seq_lib::group_to_multiset_ensures;

    let all = reports(results(batches));
    let wanted = ledger.filter_map(report);
    lemma_outcomes_add_up(fetched, report, batches);
    lemma_filter_map_permuted(fetched.flatten(), ledger, report);
    assert(fetched.flatten().to_multiset().len() == fetched.flatten().len());
    assert(ledger.to_multiset().len() == ledger.len());
    assert(views(all).to_multiset().len() == views(all).len());
    assert(wanted.to_multiset().len() == wanted.len());
    if let Some(request) = round.request {
        let sent = request.transactions@;
        law_sort_keeps_reports(all, sent);
        lemma_views_permuted(sent, all);
        lemma_reports_in_ledger_order(ledger, report, version);
        assert forall|i: int, j: int| 0 <= i <= j < views(sent).len() implies version(
            #[trigger] views(sent)[i],
        ) <= version(#[trigger] views(sent)[j]) by {
            assert(views(sent)[i] == sent[i]@ && views(sent)[j] == sent[j]@);
            assert(sent[i].spec_version() <= sent[j].spec_version());
        }
        lemma_ascending_unique(wanted, views(sent), version);
    }
}

/// A round over transactions of the ledger that were fetched in batches in the order of the
/// ledger spans all of them: it starts at the first and ends at the last.
pub proof fn lemma_round_spans_ledger<T: Versioned + View>(
    fetched: Seq<Seq<TransactionView>>,
    ledger: Seq<TransactionView>,
    report: spec_fn(TransactionView) -> Option<T::V>,
    batches: Seq<(u64, Option<ProcessingResult<T>>)>,
    round: Round<T>,
)
    requires
        fetched.flatten().to_multiset() == ledger.to_multiset(),
        is_in_ledger_order(ledger),
        ledger.len() > 0,
        forall|i: int| 0 <= i < fetched.len() ==> is_in_ledger_order(#[trigger] fetched[i]),
        fetched.len() == batches.len(),
        forall|i: int|
            0 <= i < batches.len() ==> is_outcome(fetched[i], report, #[trigger] batches[i]),
        is_round_of(batches, round),
    ensures
        Some(round.batch_start_version) == ledger[0].version,
        Some(round.batch_end_version) == ledger.last().version,
{
    broadcast use vstd::seq_lib::group_to_multiset_ensures;

    let found = results(batches);
    let low = ledger[0].version->0;
    let high = ledger.last().version->0;
    assert(ledger[0].version is Some);
    assert(ledger[ledger.len() - 1].version is Some);
    // Every batch starts and ends within the ledger.
    assert forall|i: int| 0 <= i < found.len() implies low <= (
    #[trigger] found[i]).1.start_version && found[i].1.end_version <= high by {
        lemma_result_is_of_batch(batches, i);
        let k = choose|k: int|
            0 <= k < batches.len() && (#[trigger] batches[k]).1 == Some(found[i].1);
        assert(is_outcome(fetched[k], report, batches[k]));
        lemma_flatten_has(fetched, k, 0);
        lemma_flatten_has(fetched, k, fetched[k].len() - 1);
        lemma_within_ledger(fetched.flatten(), ledger, fetched[k][0]);
        lemma_within_ledger(fetched.flatten(), ledger, fetched[k].last());
    }
    // The first and the last transaction of the ledger are in some batch.
    lemma_in_some_batch(fetched, ledger, ledger[0]);
    let (k, p) = choose|k: int, p: int|
        0 <= k < fetched.len() && 0 <= p < fetched[k].len() && #[trigger] fetched[k][p]
            == ledger[0];
    assert(is_outcome(fetched[k], report, batches[k]));
    lemma_batch_has_result(batches, k);
    let i = choose|i: int| 0 <= i < found.len() && Some((#[trigger] found[i]).1) == batches[k].1;
    assert(is_in_ledger_order(fetched[k]));
    assert(found[i].1.start_version <= low) by {
        if p > 0 {
            assert(fetched[k][0].version->0 < fetched[k][p].version->0);
        }
    }
    assert(round.batch_start_version <= found[i].1.start_version);
    lemma_in_some_batch(fetched, ledger, ledger.last());
    let (l, q) = choose|l: int, q: int|
        0 <= l < fetched.len() && 0 <= q < fetched[l].len() && #[trigger] fetched[l][q]
            == ledger.last();
    assert(is_outcome(fetched[l], report, batches[l]));
    lemma_batch_has_result(batches, l);
    let j = choose|j: int| 0 <= j < found.len() && Some((#[trigger] found[j]).1) == batches[l].1;
    assert(is_in_ledger_order(fetched[l]));
    assert(found[j].1.end_version >= high) by {
        let end = fetched[l].len() - 1;
        assert(fetched[l].last() == fetched[l][end]);
        if q < end {
            assert(fetched[l][q].version->0 < fetched[l][end].version->0);
        }
    }
    assert(found[j].1.end_version <= round.batch_end_version);
}

proof fn lemma_result_is_of_batch<T>(batches: Seq<(u64, Option<ProcessingResult<T>>)>, i: int)
    requires
        0 <= i < results(batches).len(),
    ensures
        exists|k: int|
            0 <= k < batches.len() && (#[trigger] batches[k]).1 == Some(results(batches)[i].1),
{
    let pick = |batch: (u64, Option<ProcessingResult<T>>)|
        match batch.1 {
            Some(processed) => Some((batch.0, processed)),
            None => None,
        };
    let result = results(batches)[i];
    assert(results(batches) == batches.filter_map(pick));
    assert(batches.filter_map(pick).contains(result));
    lemma_filter_map_contains(batches, pick, result);
    let k = choose|k: int| 0 <= k < batches.len() && pick(batches[k]) == Some(result);
    assert(batches[k].1 == Some(result.1));
}

proof fn lemma_batch_has_result<T>(batches: Seq<(u64, Option<ProcessingResult<T>>)>, k: int)
    requires
        0 <= k < batches.len(),
        batches[k].1 is Some,
    ensures
        exists|i: int|
            0 <= i < results(batches).len() && Some((#[trigger] results(batches)[i]).1)
                == batches[k].1,
{
    let pick = |batch: (u64, Option<ProcessingResult<T>>)|
        match batch.1 {
            Some(processed) => Some((batch.0, processed)),
            None => None,
        };
    let result = (batches[k].0, batches[k].1->0);
    assert(results(batches) == batches.filter_map(pick));
    assert(pick(batches[k]) == Some(result));
    lemma_filter_map_contains(batches, pick, result);
    let i = choose|i: int| 0 <= i < results(batches).len() && results(batches)[i] == result;
    assert(Some(results(batches)[i].1) == batches[k].1);
}

proof fn lemma_flatten_has<A>(lists: Seq<Seq<A>>, k: int, p: int)
    requires
        0 <= k < lists.len(),
        0 <= p < lists[k].len(),
    ensures
        lists.flatten().contains(lists[k][p]),
    decreases lists.len(),
{
    let first = lists.first();
    let rest = lists.drop_first().flatten();
    if k == 0 {
        assert((first + rest)[p] == lists[k][p]);
    } else {
        lemma_flatten_has(lists.drop_first(), k - 1, p);
        let i = choose|i: int| 0 <= i < rest.len() && rest[i] == lists[k][p];
        assert((first + rest)[first.len() + i] == lists[k][p]);
    }
}

proof fn lemma_flatten_from<A>(lists: Seq<Seq<A>>, item: A)
    requires
        lists.flatten().contains(item),
    ensures
        exists|k: int, p: int|
            0 <= k < lists.len() && 0 <= p < lists[k].len() && #[trigger] lists[k][p] == item,
    decreases lists.len(),
{
    if lists.len() > 0 {
        let first = lists.first();
        let rest = lists.drop_first();
        let i = choose|i: int| 0 <= i < lists.flatten().len() && lists.flatten()[i] == item;
        if i < first.len() {
            assert(lists[0][i] == item);
        } else {
            assert(rest.flatten()[i - first.len()] == item);
            lemma_flatten_from(rest, item);
            let (k, p) = choose|k: int, p: int|
                0 <= k < rest.len() && 0 <= p < rest[k].len() && #[trigger] rest[k][p] == item;
            assert(lists[k + 1][p] == item);
        }
    }
}

proof fn lemma_in_some_batch(
    fetched: Seq<Seq<TransactionView>>,
    ledger: Seq<TransactionView>,
    transaction: TransactionView,
)
    requires
        fetched.flatten().to_multiset() == ledger.to_multiset(),
        ledger.contains(transaction),
    ensures
        exists|k: int, p: int|
            0 <= k < fetched.len() && 0 <= p < fetched[k].len() && #[trigger] fetched[k][p]
                == transaction,
{
    broadcast use vstd::seq_lib::group_to_multiset_ensures;

    assert(ledger.to_multiset().count(transaction) > 0);
    assert(fetched.flatten().contains(transaction));
    lemma_flatten_from(fetched, transaction);
}

proof fn lemma_within_ledger(
    all: Seq<TransactionView>,
    ledger: Seq<TransactionView>,
    transaction: TransactionView,
)
    requires
        all.to_multiset() == ledger.to_multiset(),
        is_in_ledger_order(ledger),
        all.contains(transaction),
    ensures
        ledger.len() > 0,
        ledger[0].version->0 <= transaction.version->0 <= ledger.last().version->0,
{
    broadcast use vstd::seq_lib::group_to_multiset_ensures;

    assert(all.to_multiset().count(transaction) > 0);
    assert(ledger.contains(transaction));
    let i = choose|i: int| 0 <= i < ledger.len() && ledger[i] == transaction;
    let end = ledger.len() - 1;
    if i > 0 {
        assert(ledger[0].version->0 < ledger[i].version->0);
    }
    if i < end {
        assert(ledger[i].version->0 < ledger[end].version->0);
    }
}

/// What a round of no batches comes to: no request, no transactions, and no versions.
pub proof fn law_round_of_nothing<T: Versioned>(
    batches: Seq<(u64, Option<ProcessingResult<T>>)>,
    round: Round<T>,
)
    requires
        is_round_of(batches, round),
        batches.len() == 0,
    ensures
        round.request is None,
        round.num_res == 0,
        round.batch_start_version == u64::MAX,
        round.batch_end_version == 0,
        total(results(batches)) == 0,
{
    assert(results(batches) =~= Seq::empty());
    assert(reports(results(batches)) =~= Seq::empty());
}

/// What one more batch adds to a round. An empty batch adds nothing. Any other adds its size to
/// the count and widens the span of versions to its own; of each version, the request has what it
/// had and then what the batch has. The versions in the request do not go down, and there is a
/// request just where there is a report.
pub proof fn law_batch_adds_to_round<T: Versioned>(
    batches: Seq<(u64, Option<ProcessingResult<T>>)>,
    batch: (u64, Option<ProcessingResult<T>>),
    before: Round<T>,
    after: Round<T>,
    version: u64,
)
    requires
        is_round_of(batches, before),
        is_round_of(batches.push(batch), after),
    ensures
        after.num_res == before.num_res + match batch.1 {
            Some(_) => batch.0 as int,
            None => 0,
        },
        total(results(batches.push(batch))) == total(results(batches)) + match batch.1 {
            Some(_) => batch.0 as int,
            None => 0,
        },
        after.batch_start_version == match batch.1 {
            Some(processed) => if processed.start_version < before.batch_start_version {
                processed.start_version
            } else {
                before.batch_start_version
            },
            None => before.batch_start_version,
        },
        after.batch_end_version == match batch.1 {
            Some(processed) => if processed.end_version > before.batch_end_version {
                processed.end_version
            } else {
                before.batch_end_version
            },
            None => before.batch_end_version,
        },
        ({
            let had = match before.request {
                Some(request) => request.transactions@,
                None => Seq::empty(),
            };
            let has = match after.request {
                Some(request) => request.transactions@,
                None => Seq::empty(),
            };
            let added = match batch.1 {
                Some(processed) => processed.transactions@,
                None => Seq::empty(),
            };
            &&& after.request is Some <==> has.len() > 0
            &&& has.len() == had.len() + added.len()
            &&& has.filter(|report: T| report.spec_version() == version) == had.filter(
                |report: T| report.spec_version() == version,
            ) + added.filter(|report: T| report.spec_version() == version)
            &&& forall|i: int, j: int|
                0 <= i < j < has.len() ==> (#[trigger] has[i]).spec_version() <= (
                #[trigger] has[j]).spec_version()
        }),
{
    let n = batches.len() as int;
    let all = batches.push(batch);
    let found = results(batches);
    lemma_results_step(all, n);
    assert(all.take(n) =~= batches && all.take(n + 1) =~= all);
    let pick = |report: T| report.spec_version() == version;
    let had = match before.request {
        Some(request) => request.transactions@,
        None => Seq::empty(),
    };
    let has = match after.request {
        Some(request) => request.transactions@,
        None => Seq::empty(),
    };
    assert(before.request is None ==> reports(found) =~= had);
    assert(after.request is None ==> reports(results(all)) =~= has);
    if let Some(request) = before.request {
        law_sort_orders_by_version(reports(found), had, version);
        law_sort_keeps_reports(reports(found), had);
    }
    if let Some(request) = after.request {
        law_sort_orders_by_version(reports(results(all)), has, version);
        law_sort_keeps_reports(reports(results(all)), has);
    }
    assert(had.filter(pick) == reports(found).filter(pick));
    assert(has.filter(pick) == reports(results(all)).filter(pick));
    if let Some(processed) = batch.1 {
        let result = (batch.0, processed);
        let more = found.push(result);
        assert(results(all) == more);
        assert(more.drop_last() =~= found);
        found.lemma_flat_map_push(
            |result: (u64, ProcessingResult<T>)| result.1.transactions@,
            result,
        );
        Seq::filter_distributes_over_add(reports(found), processed.transactions@, pick);
        assert(more[found.len() as int] == result);
        assert forall|i: int| 0 <= i < found.len() implies #[trigger] more[i] == found[i] by {}
        assert(after.batch_start_version <= more[found.len() as int].1.start_version);
        assert(more[found.len() as int].1.end_version <= after.batch_end_version);
        assert forall|i: int| 0 <= i < found.len() implies after.batch_start_version <= (
        #[trigger] found[i]).1.start_version && found[i].1.end_version
            <= after.batch_end_version by {
            assert(more[i] == found[i]);
        }
    } else {
        assert(results(all) == found);
        reveal(Seq::filter);
        assert(Seq::<T>::empty().filter(pick) =~= Seq::empty());
        assert(had.filter(pick) + Seq::<T>::empty() =~= had.filter(pick));
    }
}

/// What goes into a request, and what does not: every report of every batch is in it, and every
/// report in it is one of some batch.
pub proof fn law_request_has_the_reports_of_batches<T: Versioned>(
    batches: Seq<(u64, Option<ProcessingResult<T>>)>,
    round: Round<T>,
    report: T,
)
    requires
        is_round_of(batches, round),
    ensures
        (exists|i: int, j: int|
            0 <= i < batches.len() && (#[trigger] batches[i]).1 is Some && 0 <= j
                < batches[i].1->0.transactions@.len() && #[trigger] batches[i].1->0.transactions@[j]
                == report) <==> (round.request matches Some(request)
            && request.transactions@.contains(report)),
{
    broadcast use vstd::seq_lib::group_to_multiset_ensures;

    let all = reports(results(batches));
    lemma_reports_are_of_batches(batches, report);
    if let Some(request) = round.request {
        law_sort_keeps_reports(all, request.transactions@);
        assert(request.transactions@.contains(report) <==> all.contains(report)) by {
            assert(request.transactions@.to_multiset().count(report) == all.to_multiset().count(
                report,
            ));
        }
    }
}

proof fn lemma_reports_are_of_batches<T>(
    batches: Seq<(u64, Option<ProcessingResult<T>>)>,
    report: T,
)
    ensures
        (exists|i: int, j: int|
            0 <= i < batches.len() && (#[trigger] batches[i]).1 is Some && 0 <= j
                < batches[i].1->0.transactions@.len() && #[trigger] batches[i].1->0.transactions@[j]
                == report) <==> reports(results(batches)).contains(report),
    decreases batches.len(),
{
    if batches.len() == 0 {
        assert(results(batches) =~= Seq::empty());
        assert(reports(results(batches)) =~= Seq::empty());
    } else {
        let n = batches.len() - 1;
        let front = batches.drop_last();
        let last = batches.last();
        let found = results(front);
        lemma_reports_are_of_batches(front, report);
        lemma_results_step(batches, n);
        assert(batches.take(n) =~= front && batches.take(n + 1) =~= batches);
        if let Some(processed) = last.1 {
            let result = (last.0, processed);
            found.lemma_flat_map_push(
                |result: (u64, ProcessingResult<T>)| result.1.transactions@,
                result,
            );
            let all = reports(found) + processed.transactions@;
            assert(reports(results(batches)) == all);
            if all.contains(report) {
                let k = choose|k: int| 0 <= k < all.len() && all[k] == report;
                if k >= reports(found).len() {
                    let j = k - reports(found).len();
                    assert(batches[n].1->0.transactions@[j] == report);
                } else {
                    assert(reports(found)[k] == report);
                    let (i, j) = choose|i: int, j: int|
                        0 <= i < front.len() && (#[trigger] front[i]).1 is Some && 0 <= j
                            < front[i].1->0.transactions@.len()
                            && #[trigger] front[i].1->0.transactions@[j] == report;
                    assert(batches[i] == front[i]);
                    assert(batches[i].1->0.transactions@[j] == report);
                }
            }
            if exists|i: int, j: int|
                0 <= i < batches.len() && (#[trigger] batches[i]).1 is Some && 0 <= j
                    < batches[i].1->0.transactions@.len()
                    && #[trigger] batches[i].1->0.transactions@[j] == report {
                let (i, j) = choose|i: int, j: int|
                    0 <= i < batches.len() && (#[trigger] batches[i]).1 is Some && 0 <= j
                        < batches[i].1->0.transactions@.len()
                        && #[trigger] batches[i].1->0.transactions@[j] == report;
                if i < n {
                    assert(front[i] == batches[i]);
                    assert(front[i].1->0.transactions@[j] == report);
                    let k = choose|k: int|
                        0 <= k < reports(found).len() && reports(found)[k] == report;
                    assert(all[k] == report);
                } else {
                    assert(all[reports(found).len() + j] == report);
                }
            }
        } else {
            assert forall|i: int| 0 <= i < n implies #[trigger] front[i] == batches[i] by {}
            if exists|i: int, j: int|
                0 <= i < batches.len() && (#[trigger] batches[i]).1 is Some && 0 <= j
                    < batches[i].1->0.transactions@.len()
                    && #[trigger] batches[i].1->0.transactions@[j] == report {
                let (i, j) = choose|i: int, j: int|
                    0 <= i < batches.len() && (#[trigger] batches[i]).1 is Some && 0 <= j
                        < batches[i].1->0.transactions@.len()
                        && #[trigger] batches[i].1->0.transactions@[j] == report;
                assert(front[i] == batches[i]);
                assert(front[i].1->0.transactions@[j] == report);
            }
            if reports(found).contains(report) {
                let (i, j) = choose|i: int, j: int|
                    0 <= i < front.len() && (#[trigger] front[i]).1 is Some && 0 <= j
                        < front[i].1->0.transactions@.len()
                        && #[trigger] front[i].1->0.transactions@[j] == report;
                assert(batches[i] == front[i]);
                assert(batches[i].1->0.transactions@[j] == report);
            }
        }
    }
}

} // verus!
