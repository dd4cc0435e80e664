//! What the endpoint gets for what it asked for, told from the transactions and the reports alone.

use vstd::prelude::*;

use crate::batch::{
    lemma_more_asked_more_reported, lemma_reports_stand_for, lemma_same_asked_same_reported, Places,
};
use crate::processing_result::{ProcessingResult, Versioned};
use crate::round::{is_round_of, law_batch_adds_to_round, Round};
use crate::selection::{is_processable, lemma_processable_batches, Matches, Selection};
use crate::sequences::{law_views_stand_in_place, lemma_views_contain, views};
use crate::transaction::{
    Address, Event, MoveStructTag, MoveType, Transaction, TransactionBody, TransactionPayload,
    TransactionView, WriteSetChange,
};
use crate::ws::processing_result::EndpointTransaction;
use crate::ws::tailer::{batch_report, is_outcome_of, Tailer};
use crate::ws::types::{
    are_parsed_from, law_paths_are_read_one_for_one, lemma_types_contain, TypeView,
};

verus! {

/// What is reported on a batch, item by item. Reported are just the user transactions that
/// succeeded and that have an event, a change of a resource or a change of a table item that is
/// asked for, at any place of the lists; they are reported once each and in their order, with
/// their version, their timestamp and the entry function that they called. A report has just those
/// events, resources and items of its transaction that are asked for, once each and in their
/// order, as the transaction has them: a resource or an item that was written with its whole
/// value, one that was deleted without. The result says at which places these stand.
pub proof fn law_reports_answer_what_is_asked(
    tailer: Tailer,
    handles: Seq<String>,
    raw: Seq<Transaction>,
    num_txns: u64,
    processed: ProcessingResult<EndpointTransaction>,
) -> (at: Places)
    requires
        tailer@.handles == views(handles),
        is_outcome_of(tailer, views(raw), (num_txns, Some(processed))),
    ensures
        ({
            let sent = processed.transactions@;
            &&& at.transactions.len() == sent.len()
            &&& forall|k: int|
                0 <= k < sent.len() ==> 0 <= #[trigger] at.transactions[k] < raw.len()
            &&& forall|k: int, l: int|
                0 <= k < l < sent.len() ==> #[trigger] at.transactions[k]
                    < #[trigger] at.transactions[l]
        }),
        forall|i: int|
            0 <= i < raw.len() ==> (#[trigger] at.transactions.contains(i) <==> match raw[i].body {
                TransactionBody::UserTransaction(user) => user.info.success && {
                    ||| exists|j: int|
                        0 <= j < user.events@.len() && {
                            let event = #[trigger] user.events@[j];
                            (event.typ matches MoveType::Struct(tag)
                            && exists|n: int|
                            0 <= n < tailer@.events.len() && (
                            #[trigger] tailer@.events[n]).address == tag.address.0@
                                && tailer@.events[n].module == tag.module@
                                && tailer@.events[n].name == tag.name@)
                        }
                    ||| exists|j: int|
                        0 <= j < user.info.changes@.len() && match (
                        #[trigger] user.info.changes@[j]) {
                            WriteSetChange::DeleteResource { resource, .. } => exists|n: int|
                                0 <= n < tailer@.resources.len() && (
                                #[trigger] tailer@.resources[n]).address == resource.address.0@
                                    && tailer@.resources[n].module == resource.module@
                                    && tailer@.resources[n].name == resource.name@,
                            WriteSetChange::WriteResource { typ, .. } => exists|n: int|
                                0 <= n < tailer@.resources.len() && (
                                #[trigger] tailer@.resources[n]).address == typ.address.0@
                                    && tailer@.resources[n].module == typ.module@
                                    && tailer@.resources[n].name == typ.name@,
                            WriteSetChange::DeleteTableItem { handle, .. } => exists|n: int|
                                0 <= n < handles.len() && (#[trigger] handles[n])@ == handle@,
                            WriteSetChange::WriteTableItem { handle, .. } => exists|n: int|
                                0 <= n < handles.len() && (#[trigger] handles[n])@ == handle@,
                            WriteSetChange::Other => false,
                        }
                },
                TransactionBody::Other => false,
            }),
        ({
            let sent = processed.transactions@;
            forall|k: int|
                #![trigger at.transactions[k]]
                0 <= k < sent.len() ==> match raw[at.transactions[k]].body {
                TransactionBody::UserTransaction(user) => {
                    &&& user.info.success
                    &&& sent[k].version == user.info.version
                    &&& sent[k].timestamp == user.timestamp
                    &&& sent[k].function is Some <==> user.payload is EntryFunctionPayload
                    &&& (user.payload matches TransactionPayload::EntryFunctionPayload {
                        function,
                    } ==> sent[k].function->0@ == function@)
                },
                TransactionBody::Other => false,
            }
        }),
        ({
            let sent = processed.transactions@;
            forall|k: int|
                #![trigger at.events[k]]
                0 <= k < sent.len() ==> match raw[at.transactions[k]].body {
                TransactionBody::UserTransaction(user) => {
                    &&& at.events[k].len() == sent[k].events@.len()
                    &&& forall|m: int|
                        0 <= m < at.events[k].len() ==> 0 <= #[trigger] at.events[k][m]
                            < user.events@.len()
                    &&& forall|l: int, m: int|
                        0 <= l < m < at.events[k].len() ==> #[trigger] at.events[k][l]
                            < #[trigger] at.events[k][m]
                    &&& forall|m: int|
                        0 <= m < sent[k].events@.len() ==> {
                            let event = user.events@[#[trigger] at.events[k][m]];
                            &&& sent[k].events@[m].address@ == event.account_address@
                            &&& sent[k].events@[m].typ@ == event.typ_display@
                            &&& sent[k].events@[m].data == event.data
                        }
                    &&& forall|j: int|
                        0 <= j < user.events@.len() ==> (#[trigger] at.events[k].contains(j) <==> {
                            let event = user.events@[j];
                            (event.typ matches MoveType::Struct(tag)
                            && exists|n: int|
                            0 <= n < tailer@.events.len() && (
                            #[trigger] tailer@.events[n]).address == tag.address.0@
                                && tailer@.events[n].module == tag.module@
                                && tailer@.events[n].name == tag.name@)
                        })
                },
                TransactionBody::Other => false,
            }
        }),
        ({
            let sent = processed.transactions@;
            forall|k: int|
                #![trigger at.resources[k]]
                0 <= k < sent.len() ==> match raw[at.transactions[k]].body {
                TransactionBody::UserTransaction(user) => {
                    &&& at.resources[k].len() == sent[k].resources@.len()
                    &&& forall|m: int|
                        0 <= m < at.resources[k].len() ==> 0 <= #[trigger] at.resources[k][m]
                            < user.info.changes@.len()
                    &&& forall|l: int, m: int|
                        0 <= l < m < at.resources[k].len() ==> #[trigger] at.resources[k][l]
                            < #[trigger] at.resources[k][m]
                    &&& forall|m: int|
                        0 <= m < sent[k].resources@.len()
                            ==> match user.info.changes@[#[trigger] at.resources[k][m]] {
                            WriteSetChange::DeleteResource { address, resource } => {
                                &&& sent[k].resources@[m].address@ == address@
                                &&& sent[k].resources@[m].typ@ == resource.display@
                                &&& sent[k].resources@[m].data is None
                            },
                            WriteSetChange::WriteResource { address, typ, data } => {
                                &&& sent[k].resources@[m].address@ == address@
                                &&& sent[k].resources@[m].typ@ == typ.display@
                                &&& sent[k].resources@[m].data is Some
                                &&& sent[k].resources@[m].data->0.fields@.len()
                                    == data.fields@.len()
                                &&& forall|n: int|
                                    0 <= n < data.fields@.len() ==> (
                                    #[trigger] sent[k].resources@[m].data->0.fields@[n]).0@
                                        == data.fields@[n].0@
                                        && sent[k].resources@[m].data->0.fields@[n].1
                                        == data.fields@[n].1
                            },
                            _ => false,
                        }
                    &&& forall|j: int|
                        0 <= j < user.info.changes@.len() ==> (#[trigger] at.resources[k].contains(
                            j,
                        ) <==> match user.info.changes@[j] {
                            WriteSetChange::DeleteResource { resource, .. } => exists|n: int|
                                0 <= n < tailer@.resources.len() && (
                                #[trigger] tailer@.resources[n]).address == resource.address.0@
                                    && tailer@.resources[n].module == resource.module@
                                    && tailer@.resources[n].name == resource.name@,
                            WriteSetChange::WriteResource { typ, .. } => exists|n: int|
                                0 <= n < tailer@.resources.len() && (
                                #[trigger] tailer@.resources[n]).address == typ.address.0@
                                    && tailer@.resources[n].module == typ.module@
                                    && tailer@.resources[n].name == typ.name@,
                            _ => false,
                        })
                },
                TransactionBody::Other => false,
            }
        }),
        ({
            let sent = processed.transactions@;
            forall|k: int|
                #![trigger at.changes[k]]
                0 <= k < sent.len() ==> match raw[at.transactions[k]].body {
                TransactionBody::UserTransaction(user) => {
                    &&& at.changes[k].len() == sent[k].changes@.len()
                    &&& forall|m: int|
                        0 <= m < at.changes[k].len() ==> 0 <= #[trigger] at.changes[k][m]
                            < user.info.changes@.len()
                    &&& forall|l: int, m: int|
                        0 <= l < m < at.changes[k].len() ==> #[trigger] at.changes[k][l]
                            < #[trigger] at.changes[k][m]
                    &&& forall|m: int|
                        0 <= m < sent[k].changes@.len()
                            ==> match user.info.changes@[#[trigger] at.changes[k][m]] {
                            WriteSetChange::DeleteTableItem { handle, deleted } => {
                                &&& sent[k].changes@[m].handle@ == handle@
                                &&& sent[k].changes@[m].value is None
                                &&& (deleted matches Some(item) ==> sent[k].changes@[m].key
                                    == item.key)
                            },
                            WriteSetChange::WriteTableItem { handle, decoded } => {
                                &&& sent[k].changes@[m].handle@ == handle@
                                &&& (decoded matches Some(item) ==> sent[k].changes@[m].key
                                    == item.key && sent[k].changes@[m].value == Some(item.value))
                            },
                            _ => false,
                        }
                    &&& forall|j: int|
                        0 <= j < user.info.changes@.len() ==> (#[trigger] at.changes[k].contains(j)
                            <==> match user.info.changes@[j] {
                            WriteSetChange::DeleteTableItem { handle, .. } => exists|n: int|
                                0 <= n < handles.len() && (#[trigger] handles[n])@ == handle@,
                            WriteSetChange::WriteTableItem { handle, .. } => exists|n: int|
                                0 <= n < handles.len() && (#[trigger] handles[n])@ == handle@,
                            _ => false,
                        })
                },
                TransactionBody::Other => false,
            }
        }),
{
    let sent = processed.transactions@;
    let found = Seq::new(
        sent.len(),
        |k: int|
            Matches {
                events: sent[k].events,
                resources: sent[k].resources,
                changes: sent[k].changes,
            },
    );
    let at = lemma_reports_stand_for(tailer, raw, sent, found);
    assert forall|x: Seq<char>| (#[trigger] views(handles).contains(x) <==> exists|n: int|
        0 <= n < handles.len() && (#[trigger] handles[n])@ == x) by {
        lemma_views_contain(handles, x);
    }
    assert forall|tag: MoveStructTag| (#[trigger] tailer.keeps_resource(tag@) <==> exists|n: int|
        0 <= n < tailer@.resources.len() && (#[trigger] tailer@.resources[n]).address
            == tag.address.0@ && tailer@.resources[n].module == tag.module@
            && tailer@.resources[n].name == tag.name@) by {
        lemma_types_contain(tailer@.resources, tag);
    }
    assert forall|event: Event| (#[trigger] tailer.keeps_event(event@) <==> (
    event.typ matches MoveType::Struct(tag) && exists|n: int|
        0 <= n < tailer@.events.len() && (#[trigger] tailer@.events[n]).address == tag.address.0@
            && tailer@.events[n].module == tag.module@ && tailer@.events[n].name == tag.name@)) by {
        if let MoveType::Struct(tag) = event.typ {
            lemma_types_contain(tailer@.events, tag);
        }
    }
    assert forall|k: int| 0 <= k < sent.len() implies {
        &&& #[trigger] found[k].events == sent[k].events
        &&& found[k].resources == sent[k].resources
        &&& found[k].changes == sent[k].changes
    } by {}
    at
}

/// What processing a batch counts: the number of its transactions, and the versions of its first
/// and of its last. There is nothing just where the batch is empty.
pub proof fn law_batch_is_counted(
    tailer: Tailer,
    raw: Seq<Transaction>,
    outcome: (u64, Option<ProcessingResult<EndpointTransaction>>),
)
    requires
        is_outcome_of(tailer, views(raw), outcome),
    ensures
        outcome.0 == raw.len(),
        outcome.1 is Some <==> raw.len() > 0,
        outcome.1 matches Some(processed) ==> raw[0].version == Some(processed.start_version)
            && raw[raw.len() - 1].version == Some(processed.end_version),
{
    law_views_stand_in_place(raw);
    if raw.len() > 0 {
        assert(views(raw)[0] == raw[0]@ && views(raw).last() == raw[raw.len() - 1]@);
    }
}

/// A batch can be processed unless its first or its last transaction has no version, or a user
/// transaction in it that succeeded changed an item, which could not be decoded, of a table whose
/// handle is in the list.
pub proof fn law_only_undecoded_items_stop_a_batch(
    tailer: Tailer,
    handles: Seq<String>,
    raw: Seq<Transaction>,
)
    requires
        tailer@.handles == views(handles),
    ensures
        is_processable(tailer, views(raw)) <==> {
            &&& raw.len() > 0 ==> raw[0].version is Some && raw.last().version is Some
            &&& forall|i: int|
                0 <= i < raw.len() ==> match (#[trigger] raw[i]).body {
                    TransactionBody::UserTransaction(user) => user.info.success ==> forall|j: int|
                        0 <= j < user.info.changes@.len() ==> match (
                        #[trigger] user.info.changes@[j]) {
                            WriteSetChange::DeleteTableItem { handle, deleted } => (exists|n: int|
                                0 <= n < handles.len() && (#[trigger] handles[n])@ == handle@)
                                ==> deleted is Some,
                            WriteSetChange::WriteTableItem { handle, decoded } => (exists|n: int|
                                0 <= n < handles.len() && (#[trigger] handles[n])@ == handle@)
                                ==> decoded is Some,
                            _ => true,
                        },
                    TransactionBody::Other => true,
                }
        },
{
    assert forall|x: Seq<char>| (#[trigger] tailer.keeps_handle(x) <==> exists|n: int|
        0 <= n < handles.len() && (#[trigger] handles[n])@ == x) by {
        lemma_views_contain(handles, x);
    }
    lemma_processable_batches(tailer, raw);
}

/// In which order the lists are, and whether an entry is there twice, makes no difference: tailers
/// whose lists have the same entries report the same, and can process the same batches.
pub proof fn law_order_of_lists_does_not_matter(
    one: Tailer,
    other: Tailer,
    batch: Seq<TransactionView>,
)
    requires
        forall|x: TypeView| one@.events.contains(x) <==> #[trigger] other@.events.contains(x),
        forall|x: TypeView|
            one@.resources.contains(x) <==> #[trigger] other@.resources.contains(x),
        forall|x: Seq<char>| one@.handles.contains(x) <==> #[trigger] other@.handles.contains(x),
    ensures
        batch_report(one, batch) == batch_report(other, batch),
        is_processable(one, batch) == is_processable(other, batch),
{
    lemma_same_asked_same_reported::<Tailer, EndpointTransaction>(one, other, batch);
}

/// To ask for more never takes a report away: where the lists of one tailer have all that those of
/// another have, it gives for each of the other's reports one on the same transaction, with all
/// that the other's has in it. The result is the place of that report.
pub proof fn law_more_asked_more_reported(
    less: Tailer,
    more: Tailer,
    raw: Seq<Transaction>,
    num_txns: u64,
    processed_less: ProcessingResult<EndpointTransaction>,
    processed_more: ProcessingResult<EndpointTransaction>,
    k: int,
) -> (l: int)
    requires
        forall|x: TypeView| less@.events.contains(x) ==> #[trigger] more@.events.contains(x),
        forall|x: TypeView| less@.resources.contains(x) ==> #[trigger] more@.resources.contains(x),
        forall|x: Seq<char>| less@.handles.contains(x) ==> #[trigger] more@.handles.contains(x),
        is_outcome_of(less, views(raw), (num_txns, Some(processed_less))),
        is_outcome_of(more, views(raw), (num_txns, Some(processed_more))),
        0 <= k < processed_less.transactions@.len(),
    ensures
        0 <= l < processed_more.transactions@.len(),
        processed_more.transactions@[l].version == processed_less.transactions@[k].version,
        processed_more.transactions@[l].timestamp == processed_less.transactions@[k].timestamp,
        ({
            let sent = processed_less.transactions@[k];
            let other = processed_more.transactions@[l];
            &&& sent.function is Some <==> other.function is Some
            &&& sent.function is Some ==> sent.function->0@ == other.function->0@
        }),
        forall|m: int|
            0 <= m < processed_less.transactions@[k].events@.len() ==> views(
                processed_more.transactions@[l].events@,
            ).contains((#[trigger] processed_less.transactions@[k].events@[m])@),
        forall|m: int|
            0 <= m < processed_less.transactions@[k].resources@.len() ==> views(
                processed_more.transactions@[l].resources@,
            ).contains((#[trigger] processed_less.transactions@[k].resources@[m])@),
        forall|m: int|
            0 <= m < processed_less.transactions@[k].changes@.len() ==> views(
                processed_more.transactions@[l].changes@,
            ).contains((#[trigger] processed_less.transactions@[k].changes@[m])@),
{
    let batch = views(raw);
    law_views_stand_in_place(processed_less.transactions@);
    law_views_stand_in_place(processed_more.transactions@);
    let found = lemma_more_asked_more_reported::<Tailer, EndpointTransaction>(
        less,
        more,
        batch,
        k,
    );
    let sent = processed_less.transactions@[k];
    let other = processed_more.transactions@[found.0];
    assert(sent@ == batch_report(less, batch)[k]);
    assert(other@ == batch_report(more, batch)[found.0]);
    assert forall|m: int| 0 <= m < sent.events@.len() implies views(other.events@).contains(
        (#[trigger] sent.events@[m])@,
    ) by {
        assert(views(sent.events@)[m] == sent.events@[m]@);
        assert(found.2.events.contains(sent.events@[m]@));
    }
    assert forall|m: int| 0 <= m < sent.resources@.len() implies views(other.resources@).contains(
        (#[trigger] sent.resources@[m])@,
    ) by {
        assert(views(sent.resources@)[m] == sent.resources@[m]@);
        assert(found.2.resources.contains(sent.resources@[m]@));
    }
    assert forall|m: int| 0 <= m < sent.changes@.len() implies views(other.changes@).contains(
        (#[trigger] sent.changes@[m])@,
    ) by {
        assert(views(sent.changes@)[m] == sent.changes@[m]@);
        assert(found.2.changes.contains(sent.changes@[m]@));
    }
    found.0
}

/// What the texts of a list say decides on what a tailer that was set up from them asks for: its
/// list, of whatever length, has the address, the module and the name of a tag at some place just
/// where some one of the texts names them.
pub proof fn law_texts_decide_what_is_asked_for<A: Fn(String) -> Address, I: Fn(String) -> String>(
    parse_address: A,
    parse_identifier: I,
    address_of: spec_fn(Seq<char>) -> Seq<u8>,
    texts: Seq<String>,
    paths: Seq<(Seq<char>, Seq<char>, Seq<char>)>,
    types: Seq<TypeView>,
    tag: MoveStructTag,
)
    requires
        are_parsed_from(parse_address, parse_identifier, views(texts), types),
        texts.len() == paths.len(),
        forall|n: int|
            0 <= n < paths.len() ==> {
                &&& !(#[trigger] paths[n]).0.contains(':')
                &&& !paths[n].1.contains(':')
                &&& !paths[n].2.contains(':')
                &&& texts[n]@ == paths[n].0 + seq![':', ':'] + (paths[n].1 + seq![':', ':']
                    + paths[n].2)
            },
        forall|n: int, part: String, address: Address|
            0 <= n < paths.len() && part@ == (#[trigger] paths[n]).0 && #[trigger] call_ensures(
                parse_address,
                (part,),
                address,
            ) ==> address.0@ == address_of(part@),
        forall|n: int, part: String, identifier: String|
            0 <= n < paths.len() && (part@ == (#[trigger] paths[n]).1 || part@ == paths[n].2)
                && #[trigger] call_ensures(parse_identifier, (part,), identifier)
                ==> identifier@ == part@,
    ensures
        (exists|n: int|
            0 <= n < types.len() && (#[trigger] types[n]).address == tag.address.0@
                && types[n].module == tag.module@ && types[n].name == tag.name@) <==> exists|n: int|
            0 <= n < paths.len() && address_of((#[trigger] paths[n]).0) == tag.address.0@
                && paths[n].1 == tag.module@ && paths[n].2 == tag.name@,
{
    law_paths_are_read_one_for_one(
        parse_address,
        parse_identifier,
        address_of,
        texts,
        paths,
        types,
    );
    if exists|n: int|
        0 <= n < types.len() && (#[trigger] types[n]).address == tag.address.0@ && types[n].module
            == tag.module@ && types[n].name == tag.name@ {
        let n = choose|n: int|
            0 <= n < types.len() && (#[trigger] types[n]).address == tag.address.0@
                && types[n].module == tag.module@ && types[n].name == tag.name@;
        assert(address_of(paths[n].0) == tag.address.0@);
    }
    if exists|n: int|
        0 <= n < paths.len() && address_of((#[trigger] paths[n]).0) == tag.address.0@
            && paths[n].1 == tag.module@ && paths[n].2 == tag.name@ {
        let n = choose|n: int|
            0 <= n < paths.len() && address_of((#[trigger] paths[n]).0) == tag.address.0@
                && paths[n].1 == tag.module@ && paths[n].2 == tag.name@;
        assert(types[n].address == tag.address.0@);
    }
}

/// The reports in a request are in the order of the versions of their transactions, those of one
/// version in the order of the batches and, of one batch, in that of the batch.
pub proof fn law_request_is_in_order_of_versions(
    batches: Seq<(u64, Option<ProcessingResult<EndpointTransaction>>)>,
    batch: (u64, Option<ProcessingResult<EndpointTransaction>>),
    before: Round<EndpointTransaction>,
    after: Round<EndpointTransaction>,
    version: u64,
)
    requires
        is_round_of(batches, before),
        is_round_of(batches.push(batch), after),
    ensures
        ({
            let had = match before.request {
                Some(request) => request.transactions@,
                None => Seq::empty(),
            };
            let has = match after.request {
                Some(request) => request.transactions@,
                None => Seq::empty(),
            };
            let added = match batch.1 {
                Some(processed) => processed.transactions@,
                None => Seq::empty(),
            };
            &&& forall|i: int, j: int|
                0 <= i < j < has.len() ==> (#[trigger] has[i]).version <= (
                #[trigger] has[j]).version
            &&& has.filter(|report: EndpointTransaction| report.version == version) == had.filter(
                |report: EndpointTransaction| report.version == version,
            ) + added.filter(|report: EndpointTransaction| report.version == version)
        }),
{
    law_batch_adds_to_round(batches, batch, before, after, version);
    assert((|report: EndpointTransaction| report.version == version) =~= (|
        report: EndpointTransaction,
    | report.spec_version() == version));
}

} // verus!
