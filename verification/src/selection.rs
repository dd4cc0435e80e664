//! What a subscriber asked for, and what of a transaction answers to it.

use vstd::prelude::*;

use crate::processing_result::{
    EndpointEvent, EndpointEventView, EndpointResourceChange, EndpointResourceChangeView,
    EndpointTableChange, EndpointTableChangeView,
};
use crate::sequences::{
    go_up, law_views_stand_in_place, lemma_filter_map_last, lemma_filter_map_places, views,
};
use crate::transaction::{
    Event, EventView, MoveStructTag, MoveStructTagView, Transaction, TransactionBody,
    TransactionBodyView, TransactionView, UserTransaction, UserTransactionView, WriteSetChange,
    WriteSetChangeView,
};

verus! {

/// Which events, which resources and which tables are asked for.
pub trait Selection: Sized {
    spec fn keeps_event(&self, event: EventView) -> bool;

    spec fn keeps_resource(&self, tag: MoveStructTagView) -> bool;

    spec fn keeps_handle(&self, handle: Seq<char>) -> bool;

    fn selects_event(&self, event: &Event) -> (kept: bool)
        ensures
            kept == self.keeps_event(event@),
    ;

    fn selects_resource(&self, tag: &MoveStructTag) -> (kept: bool)
        ensures
            kept == self.keeps_resource(tag@),
    ;

    fn selects_handle(&self, handle: &String) -> (kept: bool)
        ensures
            kept == self.keeps_handle(handle@),
    ;
}

/// The report on an event, if it is asked for.
pub open spec fn event_report<S: Selection>(selection: S, event: EventView) -> Option<
    EndpointEventView,
> {
    if selection.keeps_event(event) {
        Some(
            EndpointEventView {
                address: event.account_address,
                typ: event.typ_display,
                data: event.data,
            },
        )
    } else {
        None
    }
}

/// The report on a change, if it changes a resource that is asked for.
pub open spec fn resource_report<S: Selection>(selection: S, change: WriteSetChangeView) -> Option<
    EndpointResourceChangeView,
> {
    match change {
        WriteSetChangeView::DeleteResource { address, resource } => if selection.keeps_resource(
            resource,
        ) {
            Some(EndpointResourceChangeView { address, typ: resource.display, data: None })
        } else {
            None
        },
        WriteSetChangeView::WriteResource { address, typ, data } => if selection.keeps_resource(
            typ,
        ) {
            Some(EndpointResourceChangeView { address, typ: typ.display, data: Some(data) })
        } else {
            None
        },
        _ => None,
    }
}

/// The report on a change, if it changes an item of a table that is asked for.
pub open spec fn table_report<S: Selection>(selection: S, change: WriteSetChangeView) -> Option<
    EndpointTableChangeView,
> {
    match change {
        WriteSetChangeView::DeleteTableItem { handle, deleted } => if selection.keeps_handle(
            handle,
        ) {
            Some(EndpointTableChangeView { handle, key: deleted.unwrap().key, value: None })
        } else {
            None
        },
        WriteSetChangeView::WriteTableItem { handle, decoded } => if selection.keeps_handle(
            handle,
        ) {
            Some(
                EndpointTableChangeView {
                    handle,
                    key: decoded.unwrap().key,
                    value: Some(decoded.unwrap().value),
                },
            )
        } else {
            None
        },
        _ => None,
    }
}

/// Everything in a transaction that is asked for, in the order in which the transaction has it.
pub struct Matches {
    pub events: Vec<EndpointEvent>,
    pub resources: Vec<EndpointResourceChange>,
    pub changes: Vec<EndpointTableChange>,
}

#[verifier::ext_equal]
pub struct MatchesView {
    pub events: Seq<EndpointEventView>,
    pub resources: Seq<EndpointResourceChangeView>,
    pub changes: Seq<EndpointTableChangeView>,
}

impl MatchesView {
    pub open spec fn is_empty(self) -> bool {
        self.events.len() == 0 && self.resources.len() == 0 && self.changes.len() == 0
    }
}

impl View for Matches {
    type V = MatchesView;

    open spec fn view(&self) -> MatchesView {
        MatchesView {
            events: views(self.events@),
            resources: views(self.resources@),
            changes: views(self.changes@),
        }
    }
}

/// What of a user transaction is asked for.
pub open spec fn matches_of<S: Selection>(
    selection: S,
    transaction: UserTransactionView,
) -> MatchesView {
    MatchesView {
        events: transaction.events.filter_map(|event: EventView| event_report(selection, event)),
        resources: transaction.info.changes.filter_map(
            |change: WriteSetChangeView| resource_report(selection, change),
        ),
        changes: transaction.info.changes.filter_map(
            |change: WriteSetChangeView| table_report(selection, change),
        ),
    }
}

/// A change can be reported on unless it is a change of a table that is asked for which the
/// node could not decode.
pub open spec fn change_is_decoded<S: Selection>(
    selection: S,
    change: WriteSetChangeView,
) -> bool {
    match change {
        WriteSetChangeView::DeleteTableItem { handle, deleted } => selection.keeps_handle(handle)
            ==> deleted is Some,
        WriteSetChangeView::WriteTableItem { handle, decoded } => selection.keeps_handle(handle)
            ==> decoded is Some,
        _ => true,
    }
}

/// All changes of a transaction can be reported on.
pub open spec fn changes_are_decoded<S: Selection>(
    selection: S,
    transaction: UserTransactionView,
) -> bool {
    forall|i: int|
        0 <= i < transaction.info.changes.len() ==> change_is_decoded(
            selection,
            #[trigger] transaction.info.changes[i],
        )
}

/// The user transaction in a transaction, if there is one and it succeeded.
pub open spec fn successful(transaction: TransactionView) -> Option<UserTransactionView> {
    match transaction.body {
        TransactionBodyView::UserTransaction(user) => if user.info.success {
            Some(user)
        } else {
            None
        },
        TransactionBodyView::Other => None,
    }
}

/// A batch can be processed: its first and its last transaction have a version, and whatever a
/// successful user transaction in it did to a table that is asked for could be decoded.
pub open spec fn is_processable<S: Selection>(
    selection: S,
    batch: Seq<TransactionView>,
) -> bool {
    &&& batch.len() > 0 ==> batch[0].version is Some && batch.last().version is Some
    &&& forall|i: int|
        0 <= i < batch.len() ==> (#[trigger] successful(batch[i]) matches Some(user)
            ==> changes_are_decoded(selection, user))
}

fn find_events<S: Selection>(selection: &S, events: &Vec<Event>) -> (found: Vec<EndpointEvent>)
    ensures
        views(found@) == views(events@).filter_map(
            |event: EventView| event_report(*selection, event),
        ),
{
    let mut found: Vec<EndpointEvent> = Vec::new();
    let ghost report = |event: EventView| event_report(*selection, event);
    assert(views(found@) =~= views(events@).take(0).filter_map(report));
    for i in 0..events.len()
        invariant
            report == |event: EventView| event_report(*selection, event),
            views(found@) == views(events@).take(i as int).filter_map(report),
    {
        let event = &events[i];
        let ghost before = found@;
        if selection.selects_event(event) {
            found.push(
                EndpointEvent {
                    address: event.account_address.clone(),
                    typ: event.typ_display.clone(),
                    data: event.data.clone(),
                },
            );
            assert(views(found@) =~= views(before).push(found@.last()@));
        }
        proof {
            views(events@).lemma_filter_map_take_succ(report, i as int);
        }
    }
    assert(views(events@).take(events.len() as int) =~= views(events@));
    found
}

fn find_changes<S: Selection>(selection: &S, writes: &Vec<WriteSetChange>) -> (found: (
    Vec<EndpointResourceChange>,
    Vec<EndpointTableChange>,
))
    requires
        forall|i: int|
            0 <= i < writes@.len() ==> change_is_decoded(*selection, #[trigger] views(writes@)[i]),
    ensures
        views(found.0@) == views(writes@).filter_map(
            |change: WriteSetChangeView| resource_report(*selection, change),
        ),
        views(found.1@) == views(writes@).filter_map(
            |change: WriteSetChangeView| table_report(*selection, change),
        ),
{
    let mut resources: Vec<EndpointResourceChange> = Vec::new();
    let mut changes: Vec<EndpointTableChange> = Vec::new();
    let ghost on_resource = |change: WriteSetChangeView| resource_report(*selection, change);
    let ghost on_table = |change: WriteSetChangeView| table_report(*selection, change);
    assert(views(resources@) =~= views(writes@).take(0).filter_map(on_resource));
    assert(views(changes@) =~= views(writes@).take(0).filter_map(on_table));
    for i in 0..writes.len()
        invariant
            forall|i: int|
                0 <= i < writes@.len() ==> change_is_decoded(
                    *selection,
                    #[trigger] views(writes@)[i],
                ),
            on_resource == |change: WriteSetChangeView| resource_report(*selection, change),
            on_table == |change: WriteSetChangeView| table_report(*selection, change),
            views(resources@) == views(writes@).take(i as int).filter_map(on_resource),
            views(changes@) == views(writes@).take(i as int).filter_map(on_table),
    {
        let write = &writes[i];
        let ghost old_resources = resources@;
        let ghost old_changes = changes@;
        assert(change_is_decoded(*selection, views(writes@)[i as int]));
        match write {
            WriteSetChange::DeleteTableItem { handle, deleted } => {
                if selection.selects_handle(handle) {
                    let data = deleted.as_ref().unwrap();
                    changes.push(
                        EndpointTableChange {
                            handle: handle.clone(),
                            key: data.key.clone(),
                            value: None,
                        },
                    );
                    assert(views(changes@) =~= views(old_changes).push(changes@.last()@));
                }
            },
            WriteSetChange::DeleteResource { address, resource } => {
                if selection.selects_resource(resource) {
                    resources.push(
                        EndpointResourceChange {
                            address: address.clone(),
                            typ: resource.display.clone(),
                            data: None,
                        },
                    );
                    assert(views(resources@) =~= views(old_resources).push(resources@.last()@));
                }
            },
            WriteSetChange::WriteTableItem { handle, decoded } => {
                if selection.selects_handle(handle) {
                    let data = decoded.as_ref().unwrap();
                    changes.push(
                        EndpointTableChange {
                            handle: handle.clone(),
                            key: data.key.clone(),
                            value: Some(data.value.clone()),
                        },
                    );
                    assert(views(changes@) =~= views(old_changes).push(changes@.last()@));
                }
            },
            WriteSetChange::WriteResource { address, typ, data } => {
                if selection.selects_resource(typ) {
                    resources.push(
                        EndpointResourceChange {
                            address: address.clone(),
                            typ: typ.display.clone(),
                            data: Some(data.clone()),
                        },
                    );
                    assert(views(resources@) =~= views(old_resources).push(resources@.last()@));
                }
            },
            WriteSetChange::Other => {},
        }
        proof {
            views(writes@).lemma_filter_map_take_succ(on_resource, i as int);
            views(writes@).lemma_filter_map_take_succ(on_table, i as int);
        }
    }
    assert(views(writes@).take(writes.len() as int) =~= views(writes@));
    (resources, changes)
}

/// Finds what of a user transaction is asked for.
pub fn find_matches<S: Selection>(selection: &S, transaction: &UserTransaction) -> (found: Matches)
    requires
        changes_are_decoded(*selection, transaction@),
    ensures
        found@ == matches_of(*selection, transaction@),
{
    let events = find_events(selection, &transaction.events);
    assert(views(transaction.info.changes@) == transaction@.info.changes);
    assert(forall|i: int|
        0 <= i < transaction.info.changes@.len() ==> change_is_decoded(
            *selection,
            #[trigger] views(transaction.info.changes@)[i],
        ));
    let (resources, changes) = find_changes(selection, &transaction.info.changes);
    Matches { events, resources, changes }
}

/// Whether a batch can be processed.
pub fn check_processable<S: Selection>(selection: &S, batch: &Vec<Transaction>) -> (ok: bool)
    ensures
        ok == is_processable(*selection, views(batch@)),
{
    let ghost seen = views(batch@);
    if batch.len() > 0 {
        let last = batch.len() - 1;
        assert(seen[0].version == batch@[0].version);
        assert(seen.last().version == batch@[last as int].version);
        if batch[0].version.is_none() || batch[last].version.is_none() {
            return false;
        }
    }
    for i in 0..batch.len()
        invariant
            seen == views(batch@),
            forall|j: int|
                0 <= j < i ==> (#[trigger] successful(seen[j]) matches Some(user)
                    ==> changes_are_decoded(*selection, user)),
    {
        assert(seen[i as int] == batch@[i as int]@);
        if let TransactionBody::UserTransaction(transaction) = &batch[i].body {
            assert(transaction.info.success ==> successful(seen[i as int]) == Some(transaction@));
            if transaction.info.success && !check_decoded(selection, transaction) {
                return false;
            }
        }
    }
    true
}

fn check_decoded<S: Selection>(selection: &S, transaction: &UserTransaction) -> (ok: bool)
    ensures
        ok == changes_are_decoded(*selection, transaction@),
{
    let writes = &transaction.info.changes;
    let ghost seen = transaction@.info.changes;
    for i in 0..writes.len()
        invariant
            writes == &transaction.info.changes,
            seen == transaction@.info.changes,
            forall|j: int| 0 <= j < i ==> change_is_decoded(*selection, #[trigger] seen[j]),
    {
        assert(seen[i as int] == writes@[i as int]@);
        let decoded = match &writes[i] {
            WriteSetChange::DeleteTableItem { handle, deleted } => {
                !selection.selects_handle(handle) || deleted.is_some()
            },
            WriteSetChange::WriteTableItem { handle, decoded } => {
                !selection.selects_handle(handle) || decoded.is_some()
            },
            _ => true,
        };
        if !decoded {
            return false;
        }
    }
    true
}

/// A batch in the order of the ledger: every transaction has a version, the versions go up, and
/// a user transaction has the version that the node gives for it.
pub open spec fn is_in_ledger_order(batch: Seq<TransactionView>) -> bool {
    &&& forall|i: int| 0 <= i < batch.len() ==> (#[trigger] batch[i]).version is Some
    &&& forall|i: int, j: int|
        0 <= i < j < batch.len() ==> (#[trigger] batch[i]).version->0 < (
        #[trigger] batch[j]).version->0
    &&& forall|i: int|
        0 <= i < batch.len() ==> (#[trigger] successful(batch[i]) matches Some(user)
            ==> user.info.version == batch[i].version->0)
}

/// Reports on a batch in the order of the ledger have versions that go up, and that lie between
/// those of its first and its last transaction.
pub proof fn lemma_reports_in_ledger_order<R>(
    batch: Seq<TransactionView>,
    report: spec_fn(TransactionView) -> Option<R>,
    version: spec_fn(R) -> u64,
)
    requires
        is_in_ledger_order(batch),
        forall|transaction: TransactionView| #[trigger]
            report(transaction) matches Some(one) ==> (successful(transaction) matches Some(user)
                && version(one) == user.info.version),
    ensures
        forall|i: int, j: int|
            0 <= i < j < batch.filter_map(report).len() ==> version(
                #[trigger] batch.filter_map(report)[i],
            ) < version(#[trigger] batch.filter_map(report)[j]),
        forall|i: int|
            0 <= i < batch.filter_map(report).len() ==> batch[0].version->0 <= version(
                #[trigger] batch.filter_map(report)[i],
            ) <= batch.last().version->0,
    decreases batch.len(),
{
    if batch.len() > 0 {
        let front = batch.drop_last();
        let last = batch.last();
        assert(is_in_ledger_order(front)) by {
            assert forall|i: int| 0 <= i < front.len() implies (
            #[trigger] front[i]).version is Some by {
                assert(front[i] == batch[i]);
            }
            assert forall|i: int, j: int| 0 <= i < j < front.len() implies (
            #[trigger] front[i]).version->0 < (#[trigger] front[j]).version->0 by {
                assert(front[i] == batch[i] && front[j] == batch[j]);
            }
            assert forall|i: int| 0 <= i < front.len() implies (#[trigger] successful(
                front[i],
            ) matches Some(user) ==> user.info.version == front[i].version->0) by {
                assert(front[i] == batch[i]);
                assert(successful(batch[i]) == successful(front[i]));
            }
        }
        lemma_reports_in_ledger_order(front, report, version);
        lemma_filter_map_last(batch, report);
        assert(last == batch[batch.len() - 1]);
        assert(successful(batch[batch.len() - 1]) == successful(last));
        let seen = front.filter_map(report);
        let all = batch.filter_map(report);
        if front.len() > 0 {
            assert(front[0] == batch[0]);
            assert(front.last() == batch[front.len() - 1]);
            assert(front.last().version->0 < last.version->0);
            assert(batch[0].version->0 <= last.version->0);
        } else {
            assert(seen.len() == 0);
        }
        assert forall|i: int| 0 <= i < all.len() implies batch[0].version->0 <= version(
            #[trigger] all[i],
        ) <= last.version->0 by {
            if i < seen.len() {
                assert(all[i] == seen[i]);
            } else {
                assert(report(last) == Some(all[i]));
            }
        }
        assert forall|i: int, j: int| 0 <= i < j < all.len() implies version(#[trigger] all[i])
            < version(#[trigger] all[j]) by {
            assert(all[i] == seen[i]);
            if j < seen.len() {
                assert(all[j] == seen[j]);
            } else {
                assert(report(last) == Some(all[j]));
                assert(version(seen[i]) <= front.last().version->0);
            }
        }
    }
}

/// Reports on the events at some places: each has what its event has, and the places are those of
/// the events that are asked for.
pub open spec fn events_stand_for<S: Selection>(
    selection: S,
    events: Seq<Event>,
    found: Seq<EndpointEvent>,
    places: Seq<int>,
) -> bool {
    &&& places.len() == found.len()
    &&& go_up(places, events.len())
    &&& forall|m: int|
        #![trigger places[m]]
        #![trigger found[m]]
        0 <= m < found.len() ==> {
            &&& found[m].address@ == events[places[m]].account_address@
            &&& found[m].typ@ == events[places[m]].typ_display@
            &&& found[m].data == events[places[m]].data
        }
    &&& forall|j: int|
        0 <= j < events.len() ==> (#[trigger] places.contains(j) <==> selection.keeps_event(
            events[j]@,
        ))
}

/// Reports on the changes at some places: each has the address and the type of the resource that
/// was changed, with its value where it was written and without where it was deleted, and the
/// places are those of the changes of resources that are asked for.
pub open spec fn resources_stand_for<S: Selection>(
    selection: S,
    changes: Seq<WriteSetChange>,
    found: Seq<EndpointResourceChange>,
    places: Seq<int>,
) -> bool {
    &&& places.len() == found.len()
    &&& go_up(places, changes.len())
    &&& forall|m: int|
        #![trigger places[m]]
        #![trigger found[m]]
        0 <= m < found.len() ==> match changes[places[m]] {
            WriteSetChange::DeleteResource { address, resource } => {
                &&& found[m].address@ == address@
                &&& found[m].typ@ == resource.display@
                &&& found[m].data is None
            },
            WriteSetChange::WriteResource { address, typ, data } => {
                &&& found[m].address@ == address@
                &&& found[m].typ@ == typ.display@
                &&& found[m].data is Some
                &&& found[m].data->0.fields@.len() == data.fields@.len()
                &&& forall|n: int|
                    0 <= n < data.fields@.len() ==> (#[trigger] found[m].data->0.fields@[n]).0@
                        == data.fields@[n].0@ && found[m].data->0.fields@[n].1
                        == data.fields@[n].1
            },
            _ => false,
        }
    &&& forall|j: int|
        0 <= j < changes.len() ==> (#[trigger] places.contains(j) <==> match changes[j] {
            WriteSetChange::DeleteResource { resource, .. } => selection.keeps_resource(resource@),
            WriteSetChange::WriteResource { typ, .. } => selection.keeps_resource(typ@),
            _ => false,
        })
}

/// Reports on the changes at some places: each has the handle and the key of the item that was
/// changed, with its value where it was written and without where it was deleted, and the places
/// are those of the changes of tables that are asked for.
pub open spec fn tables_stand_for<S: Selection>(
    selection: S,
    changes: Seq<WriteSetChange>,
    found: Seq<EndpointTableChange>,
    places: Seq<int>,
) -> bool {
    &&& places.len() == found.len()
    &&& go_up(places, changes.len())
    &&& forall|m: int|
        #![trigger places[m]]
        #![trigger found[m]]
        0 <= m < found.len() ==> match changes[places[m]] {
            WriteSetChange::DeleteTableItem { handle, deleted } => {
                &&& found[m].handle@ == handle@
                &&& (deleted matches Some(item) ==> found[m].key == item.key)
                &&& found[m].value is None
            },
            WriteSetChange::WriteTableItem { handle, decoded } => {
                &&& found[m].handle@ == handle@
                &&& decoded matches Some(item) ==> found[m].key == item.key && found[m].value
                    == Some(item.value)
            },
            _ => false,
        }
    &&& forall|j: int|
        0 <= j < changes.len() ==> (#[trigger] places.contains(j) <==> match changes[j] {
            WriteSetChange::DeleteTableItem { handle, .. } => selection.keeps_handle(handle@),
            WriteSetChange::WriteTableItem { handle, .. } => selection.keeps_handle(handle@),
            _ => false,
        })
}

/// What is found of the events stands for those that are asked for.
pub proof fn lemma_events_stand_for<S: Selection>(
    selection: S,
    events: Seq<Event>,
    found: Seq<EndpointEvent>,
) -> (places: Seq<int>)
    requires
        views(found) == views(events).filter_map(|event: EventView| event_report(selection, event)),
    ensures
        events_stand_for(selection, events, found, places),
{
    let report = |event: EventView| event_report(selection, event);
    let places = lemma_filter_map_places(views(events), report);
    law_views_stand_in_place(events);
    law_views_stand_in_place(found);
    assert forall|m: int|
        #![trigger places[m]]
        #![trigger found[m]]
        0 <= m < found.len() implies {
        &&& found[m].address@ == events[places[m]].account_address@
        &&& found[m].typ@ == events[places[m]].typ_display@
        &&& found[m].data == events[places[m]].data
    } by {
        assert(views(found)[m] == found[m]@);
        assert(views(events)[places[m]] == events[places[m]]@);
        assert(report(views(events)[places[m]]) == Some(found[m]@));
    }
    assert forall|j: int| 0 <= j < events.len() implies (#[trigger] places.contains(j)
        <==> selection.keeps_event(events[j]@)) by {
        assert(views(events)[j] == events[j]@);
    }
    places
}

/// What is found of the changes stands for those of resources that are asked for.
pub proof fn lemma_resources_stand_for<S: Selection>(
    selection: S,
    changes: Seq<WriteSetChange>,
    found: Seq<EndpointResourceChange>,
) -> (places: Seq<int>)
    requires
        views(found) == views(changes).filter_map(
            |change: WriteSetChangeView| resource_report(selection, change),
        ),
    ensures
        resources_stand_for(selection, changes, found, places),
{
    let report = |change: WriteSetChangeView| resource_report(selection, change);
    let places = lemma_filter_map_places(views(changes), report);
    law_views_stand_in_place(changes);
    law_views_stand_in_place(found);
    assert forall|m: int|
        #![trigger places[m]]
        #![trigger found[m]]
        0 <= m < found.len() implies match changes[places[m]] {
        WriteSetChange::DeleteResource { address, resource } => {
            &&& found[m].address@ == address@
            &&& found[m].typ@ == resource.display@
            &&& found[m].data is None
        },
        WriteSetChange::WriteResource { address, typ, data } => {
            &&& found[m].address@ == address@
            &&& found[m].typ@ == typ.display@
            &&& found[m].data is Some
            &&& found[m].data->0.fields@.len() == data.fields@.len()
            &&& forall|n: int|
                0 <= n < data.fields@.len() ==> (#[trigger] found[m].data->0.fields@[n]).0@
                    == data.fields@[n].0@ && found[m].data->0.fields@[n].1 == data.fields@[n].1
        },
        _ => false,
    } by {
        assert(views(found)[m] == found[m]@);
        assert(views(changes)[places[m]] == changes[places[m]]@);
        assert(report(views(changes)[places[m]]) == Some(found[m]@));
        if let WriteSetChange::WriteResource { address, typ, data } = changes[places[m]] {
            let copy = found[m].data->0;
            assert(copy@ == data@);
            assert(copy@.len() == copy.fields@.len() && data@.len() == data.fields@.len());
            assert forall|n: int| 0 <= n < data.fields@.len() implies (
            #[trigger] copy.fields@[n]).0@ == data.fields@[n].0@ && copy.fields@[n].1
                == data.fields@[n].1 by {
                assert(copy@[n] == data@[n]);
            }
        }
    }
    assert forall|j: int| 0 <= j < changes.len() implies (#[trigger] places.contains(j)
        <==> match changes[j] {
        WriteSetChange::DeleteResource { resource, .. } => selection.keeps_resource(resource@),
        WriteSetChange::WriteResource { typ, .. } => selection.keeps_resource(typ@),
        _ => false,
    }) by {
        assert(views(changes)[j] == changes[j]@);
    }
    places
}

/// What is found of the changes stands for those of tables that are asked for.
pub proof fn lemma_tables_stand_for<S: Selection>(
    selection: S,
    changes: Seq<WriteSetChange>,
    found: Seq<EndpointTableChange>,
) -> (places: Seq<int>)
    requires
        views(found) == views(changes).filter_map(
            |change: WriteSetChangeView| table_report(selection, change),
        ),
    ensures
        tables_stand_for(selection, changes, found, places),
{
    let report = |change: WriteSetChangeView| table_report(selection, change);
    let places = lemma_filter_map_places(views(changes), report);
    law_views_stand_in_place(changes);
    law_views_stand_in_place(found);
    assert forall|m: int|
        #![trigger places[m]]
        #![trigger found[m]]
        0 <= m < found.len() implies match changes[places[m]] {
        WriteSetChange::DeleteTableItem { handle, deleted } => {
            &&& found[m].handle@ == handle@
            &&& (deleted matches Some(item) ==> found[m].key == item.key)
            &&& found[m].value is None
        },
        WriteSetChange::WriteTableItem { handle, decoded } => {
            &&& found[m].handle@ == handle@
            &&& decoded matches Some(item) ==> found[m].key == item.key && found[m].value == Some(
                item.value,
            )
        },
        _ => false,
    } by {
        assert(views(found)[m] == found[m]@);
        assert(views(changes)[places[m]] == changes[places[m]]@);
        assert(report(views(changes)[places[m]]) == Some(found[m]@));
    }
    assert forall|j: int| 0 <= j < changes.len() implies (#[trigger] places.contains(j)
        <==> match changes[j] {
        WriteSetChange::DeleteTableItem { handle, .. } => selection.keeps_handle(handle@),
        WriteSetChange::WriteTableItem { handle, .. } => selection.keeps_handle(handle@),
        _ => false,
    }) by {
        assert(views(changes)[j] == changes[j]@);
    }
    places
}

/// Which batches can be processed, told from the transactions.
pub proof fn lemma_processable_batches<S: Selection>(selection: S, raw: Seq<Transaction>)
    ensures
        is_processable(selection, views(raw)) <==> {
            &&& raw.len() > 0 ==> raw[0].version is Some && raw.last().version is Some
            &&& forall|i: int|
                0 <= i < raw.len() ==> match (#[trigger] raw[i]).body {
                    TransactionBody::UserTransaction(user) => user.info.success ==> forall|j: int|
                        0 <= j < user.info.changes@.len() ==> match (
                        #[trigger] user.info.changes@[j]) {
                            WriteSetChange::DeleteTableItem { handle, deleted } =>
                                selection.keeps_handle(handle@) ==> deleted is Some,
                            WriteSetChange::WriteTableItem { handle, decoded } =>
                                selection.keeps_handle(handle@) ==> decoded is Some,
                            _ => true,
                        },
                    TransactionBody::Other => true,
                }
        },
{
    law_views_stand_in_place(raw);
    assert forall|i: int| 0 <= i < raw.len() implies (match (#[trigger] raw[i]).body {
        TransactionBody::UserTransaction(user) => user.info.success ==> forall|j: int|
            0 <= j < user.info.changes@.len() ==> match #[trigger] user.info.changes@[j] {
                WriteSetChange::DeleteTableItem { handle, deleted } => selection.keeps_handle(
                    handle@,
                ) ==> deleted is Some,
                WriteSetChange::WriteTableItem { handle, decoded } => selection.keeps_handle(
                    handle@,
                ) ==> decoded is Some,
                _ => true,
            },
        TransactionBody::Other => true,
    } <==> (successful(views(raw)[i]) matches Some(user) ==> changes_are_decoded(
        selection,
        user,
    ))) by {
        assert(views(raw)[i] == raw[i]@);
        if let TransactionBody::UserTransaction(user) = raw[i].body {
            law_views_stand_in_place(user.info.changes@);
            assert(user@.info.changes == views(user.info.changes@));
            assert forall|j: int| 0 <= j < user.info.changes@.len() implies (change_is_decoded(
                selection,
                #[trigger] user@.info.changes[j],
            ) <==> match user.info.changes@[j] {
                WriteSetChange::DeleteTableItem { handle, deleted } => selection.keeps_handle(
                    handle@,
                ) ==> deleted is Some,
                WriteSetChange::WriteTableItem { handle, decoded } => selection.keeps_handle(
                    handle@,
                ) ==> decoded is Some,
                _ => true,
            }) by {
                assert(user@.info.changes[j] == user.info.changes@[j]@);
            }
            if user.info.success && changes_are_decoded(selection, user@) {
                assert forall|j: int| 0 <= j < user.info.changes@.len() implies match (
                #[trigger] user.info.changes@[j]) {
                    WriteSetChange::DeleteTableItem { handle, deleted } => selection.keeps_handle(
                        handle@,
                    ) ==> deleted is Some,
                    WriteSetChange::WriteTableItem { handle, decoded } => selection.keeps_handle(
                        handle@,
                    ) ==> decoded is Some,
                    _ => true,
                } by {
                    assert(change_is_decoded(selection, user@.info.changes[j]));
                }
            }
        }
    }
    assert(raw.len() > 0 ==> views(raw)[0] == raw[0]@ && views(raw).last() == raw.last()@);
    if is_processable(selection, views(raw)) {
        assert forall|i: int| 0 <= i < raw.len() implies match (#[trigger] raw[i]).body {
            TransactionBody::UserTransaction(user) => user.info.success ==> forall|j: int|
                0 <= j < user.info.changes@.len() ==> match #[trigger] user.info.changes@[j] {
                    WriteSetChange::DeleteTableItem { handle, deleted } => selection.keeps_handle(
                        handle@,
                    ) ==> deleted is Some,
                    WriteSetChange::WriteTableItem { handle, decoded } => selection.keeps_handle(
                        handle@,
                    ) ==> decoded is Some,
                    _ => true,
                },
            TransactionBody::Other => true,
        } by {
            assert(successful(views(raw)[i]) matches Some(user) ==> changes_are_decoded(
                selection,
                user,
            ));
        }
    }
}

} // verus!
