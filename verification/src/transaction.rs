//! Transactions as the node's API hands them out, reduced to what the indexer reads.
//!
//! Addresses, table handles, entry function names and Move types also occur in the text form
//! that the node prints them in: they are stored here as that text.

use serde_json::Value;
use vstd::prelude::*;

use crate::sequences::views;

verus! {

/// An account address.
#[derive(Debug, Clone, Copy)]
pub struct Address(pub [u8; 32]);

impl View for Address {
    type V = Seq<u8>;

    open spec fn view(&self) -> Seq<u8> {
        self.0@
    }
}

impl Address {
    /// Whether two addresses are the same.
    pub fn same_as(&self, other: &Address) -> (same: bool)
        ensures
            same == (self@ == other@),
    {
        let mut i: usize = 0;
        while i < 32
            invariant
                i <= 32,
                self@.take(i as int) == other@.take(i as int),
            decreases 32 - i,
        {
            if self.0[i] != other.0[i] {
                return false;
            }
            i += 1;
            assert(self@.take(i as int) =~= self@.take(i - 1).push(self@[i - 1]));
            assert(other@.take(i as int) =~= other@.take(i - 1).push(other@[i - 1]));
        }
        assert(self@.take(32) =~= self@ && other@.take(32) =~= other@);
        true
    }
}

/// The tag of a Move struct type. `display` is the whole type as the node prints it, type
/// arguments included.
#[derive(Debug)]
pub struct MoveStructTag {
    pub address: Address,
    pub module: String,
    pub name: String,
    pub display: String,
}

#[verifier::ext_equal]
pub struct MoveStructTagView {
    pub address: Seq<u8>,
    pub module: Seq<char>,
    pub name: Seq<char>,
    pub display: Seq<char>,
}

impl View for MoveStructTag {
    type V = MoveStructTagView;

    open spec fn view(&self) -> MoveStructTagView {
        MoveStructTagView {
            address: self.address@,
            module: self.module@,
            name: self.name@,
            display: self.display@,
        }
    }
}

/// A Move type: a struct, or any other kind of type.
#[derive(Debug)]
pub enum MoveType {
    Struct(MoveStructTag),
    Other,
}

#[verifier::ext_equal]
pub enum MoveTypeView {
    Struct(MoveStructTagView),
    Other,
}

impl View for MoveType {
    type V = MoveTypeView;

    open spec fn view(&self) -> MoveTypeView {
        match self {
            MoveType::Struct(tag) => MoveTypeView::Struct(tag@),
            MoveType::Other => MoveTypeView::Other,
        }
    }
}

/// An event that a transaction emitted. `typ_display` is its type as the node prints it.
#[derive(Debug)]
pub struct Event {
    pub account_address: String,
    pub typ: MoveType,
    pub typ_display: String,
    pub data: Value,
}

#[verifier::ext_equal]
pub struct EventView {
    pub account_address: Seq<char>,
    pub typ: MoveTypeView,
    pub typ_display: Seq<char>,
    pub data: Value,
}

impl View for Event {
    type V = EventView;

    open spec fn view(&self) -> EventView {
        EventView {
            account_address: self.account_address@,
            typ: self.typ@,
            typ_display: self.typ_display@,
            data: self.data,
        }
    }
}

/// The fields of a Move struct value, in the order in which they are written out.
#[derive(Debug)]
pub struct MoveStructValue {
    pub fields: Vec<(String, Value)>,
}

impl View for MoveStructValue {
    type V = Seq<(Seq<char>, Value)>;

    open spec fn view(&self) -> Seq<(Seq<char>, Value)> {
        self.fields@.map_values(|field: (String, Value)| (field.0@, field.1))
    }
}

impl Clone for MoveStructValue {
    fn clone(&self) -> (copy: Self)
        ensures
            copy@ == self@,
    {
        let mut fields: Vec<(String, Value)> = Vec::new();
        for i in 0..self.fields.len()
            invariant
                fields@ == self.fields@.take(i as int),
        {
            fields.push((self.fields[i].0.clone(), self.fields[i].1.clone()));
            assert(fields@ =~= self.fields@.take(i + 1));
        }
        assert(fields@ =~= self.fields@);
        MoveStructValue { fields }
    }
}

/// The decoded key of a table item that was deleted.
#[derive(Debug)]
pub struct DeletedTableData {
    pub key: Value,
}

/// The decoded key and value of a table item that was written.
#[derive(Debug)]
pub struct DecodedTableData {
    pub key: Value,
    pub value: Value,
}

/// A change in a transaction's write set. A table item comes with its decoded data where the
/// node could decode it.
#[derive(Debug)]
pub enum WriteSetChange {
    DeleteTableItem { handle: String, deleted: Option<DeletedTableData> },
    DeleteResource { address: String, resource: MoveStructTag },
    WriteTableItem { handle: String, decoded: Option<DecodedTableData> },
    WriteResource { address: String, typ: MoveStructTag, data: MoveStructValue },
    Other,
}

#[verifier::ext_equal]
pub enum WriteSetChangeView {
    DeleteTableItem { handle: Seq<char>, deleted: Option<DeletedTableData> },
    DeleteResource { address: Seq<char>, resource: MoveStructTagView },
    WriteTableItem { handle: Seq<char>, decoded: Option<DecodedTableData> },
    WriteResource {
        address: Seq<char>,
        typ: MoveStructTagView,
        data: Seq<(Seq<char>, Value)>,
    },
    Other,
}

impl View for WriteSetChange {
    type V = WriteSetChangeView;

    open spec fn view(&self) -> WriteSetChangeView {
        match self {
            WriteSetChange::DeleteTableItem { handle, deleted } =>
                WriteSetChangeView::DeleteTableItem { handle: handle@, deleted: *deleted },
            WriteSetChange::DeleteResource { address, resource } =>
                WriteSetChangeView::DeleteResource { address: address@, resource: resource@ },
            WriteSetChange::WriteTableItem { handle, decoded } =>
                WriteSetChangeView::WriteTableItem { handle: handle@, decoded: *decoded },
            WriteSetChange::WriteResource { address, typ, data } =>
                WriteSetChangeView::WriteResource { address: address@, typ: typ@, data: data@ },
            WriteSetChange::Other => WriteSetChangeView::Other,
        }
    }
}

/// What a transaction did: its place in the ledger, whether it succeeded, and its write set.
#[derive(Debug)]
pub struct TransactionInfo {
    pub version: u64,
    pub success: bool,
    pub changes: Vec<WriteSetChange>,
}

#[verifier::ext_equal]
pub struct TransactionInfoView {
    pub version: u64,
    pub success: bool,
    pub changes: Seq<WriteSetChangeView>,
}

impl View for TransactionInfo {
    type V = TransactionInfoView;

    open spec fn view(&self) -> TransactionInfoView {
        TransactionInfoView {
            version: self.version,
            success: self.success,
            changes: views(self.changes@),
        }
    }
}

/// What a user transaction asked for: an entry function, by its name, or anything else.
#[derive(Debug)]
pub enum TransactionPayload {
    EntryFunctionPayload { function: String },
    Other,
}

#[verifier::ext_equal]
pub enum TransactionPayloadView {
    EntryFunctionPayload { function: Seq<char> },
    Other,
}

impl View for TransactionPayload {
    type V = TransactionPayloadView;

    open spec fn view(&self) -> TransactionPayloadView {
        match self {
            TransactionPayload::EntryFunctionPayload { function } =>
                TransactionPayloadView::EntryFunctionPayload { function: function@ },
            TransactionPayload::Other => TransactionPayloadView::Other,
        }
    }
}

/// A transaction that a user submitted.
#[derive(Debug)]
pub struct UserTransaction {
    pub info: TransactionInfo,
    pub timestamp: u64,
    pub payload: TransactionPayload,
    pub events: Vec<Event>,
}

#[verifier::ext_equal]
pub struct UserTransactionView {
    pub info: TransactionInfoView,
    pub timestamp: u64,
    pub payload: TransactionPayloadView,
    pub events: Seq<EventView>,
}

impl View for UserTransaction {
    type V = UserTransactionView;

    open spec fn view(&self) -> UserTransactionView {
        UserTransactionView {
            info: self.info@,
            timestamp: self.timestamp,
            payload: self.payload@,
            events: views(self.events@),
        }
    }
}

/// A user transaction, or one of another kind.
#[derive(Debug)]
pub enum TransactionBody {
    UserTransaction(UserTransaction),
    Other,
}

#[verifier::ext_equal]
pub enum TransactionBodyView {
    UserTransaction(UserTransactionView),
    Other,
}

impl View for TransactionBody {
    type V = TransactionBodyView;

    open spec fn view(&self) -> TransactionBodyView {
        match self {
            TransactionBody::UserTransaction(transaction) =>
                TransactionBodyView::UserTransaction(transaction@),
            TransactionBody::Other => TransactionBodyView::Other,
        }
    }
}

/// A transaction of any kind. `version` is its version as the node gives it, which a
/// transaction that is still pending does not have.
#[derive(Debug)]
pub struct Transaction {
    pub version: Option<u64>,
    pub body: TransactionBody,
}

#[verifier::ext_equal]
pub struct TransactionView {
    pub version: Option<u64>,
    pub body: TransactionBodyView,
}

impl View for Transaction {
    type V = TransactionView;

    open spec fn view(&self) -> TransactionView {
        TransactionView { version: self.version, body: self.body@ }
    }
}

} // verus!
