use aptos_indexer::http;
use aptos_indexer::processing_result::{
    EndpointEvent, EndpointResourceChange, EndpointTableChange,
};
use aptos_indexer::round::gather;
use aptos_indexer::strings::split_at_separators;
use aptos_indexer::transaction::{
    Address, DecodedTableData, DeletedTableData, Event, MoveStructTag, MoveStructValue, MoveType,
    Transaction, TransactionBody, TransactionInfo, TransactionPayload, UserTransaction,
    WriteSetChange,
};
use aptos_indexer::ws;
use aptos_indexer::ws::runtime::{websocket_url, WEBSOCKET_ENDPOINT};
use aptos_indexer::ws::types::{check_type_path, to_type, Type, TypeVec};
use serde_json::Value;

fn text(s: &str) -> String {
    s.to_string()
}

fn texts(of: &[&str]) -> Vec<String> {
    of.iter().map(|s| s.to_string()).collect()
}

fn number(n: u64) -> Value {
    Value::from(n)
}

fn address(last: u8) -> Address {
    let mut bytes = [0u8; 32];
    bytes[31] = last;
    Address(bytes)
}

fn tag(at: u8, module: &str, name: &str, arguments: &str) -> MoveStructTag {
    MoveStructTag {
        address: address(at),
        module: text(module),
        name: text(name),
        display: format!("0x{}::{}::{}{}", at, module, name, arguments),
    }
}

fn event(of: MoveStructTag, data: u64) -> Event {
    let typ_display = of.display.clone();
    Event {
        account_address: text("0xa"),
        typ: MoveType::Struct(of),
        typ_display,
        data: number(data),
    }
}

fn user(version: u64, events: Vec<Event>, changes: Vec<WriteSetChange>) -> Transaction {
    Transaction {
        version: Some(version),
        body: TransactionBody::UserTransaction(UserTransaction {
            info: TransactionInfo { version, success: true, changes },
            timestamp: version * 100,
            payload: TransactionPayload::EntryFunctionPayload { function: text("0x1::coin::mint") },
            events,
        }),
    }
}

fn delete_item(handle: &str, key: u64) -> WriteSetChange {
    WriteSetChange::DeleteTableItem {
        handle: text(handle),
        deleted: Some(DeletedTableData { key: number(key) }),
    }
}

fn write_item(handle: &str, key: u64, value: u64) -> WriteSetChange {
    WriteSetChange::WriteTableItem {
        handle: text(handle),
        decoded: Some(DecodedTableData { key: number(key), value: number(value) }),
    }
}

fn delete_resource(resource: MoveStructTag) -> WriteSetChange {
    WriteSetChange::DeleteResource { address: text("0xb"), resource }
}

fn write_resource(typ: MoveStructTag, value: u64) -> WriteSetChange {
    WriteSetChange::WriteResource {
        address: text("0xc"),
        typ,
        data: MoveStructValue { fields: vec![(text("value"), number(value))] },
    }
}

fn changes_of_all_kinds() -> Vec<WriteSetChange> {
    vec![
        write_item("0xt1", 1, 10),
        write_item("0xt2", 2, 20),
        delete_resource(tag(1, "coin", "Store", "<0x1::a::A>")),
        delete_item("0xt1", 3),
        delete_item("0xt2", 4),
        WriteSetChange::Other,
        write_resource(tag(1, "coin", "Store", "<0x1::b::B>"), 5),
        write_resource(tag(1, "coin", "Info", ""), 6),
    ]
}

fn http_tailer(events: &[&str], resources: &[&str], handles: &[&str]) -> http::tailer::Tailer {
    http::tailer::Tailer::new(texts(events), texts(resources), texts(handles)).unwrap()
}

fn parse_address(part: String) -> Address {
    address(part.strip_prefix("0x").unwrap().parse().unwrap())
}

fn parse_identifier(part: String) -> String {
    assert!(part.chars().all(|c| c.is_ascii_alphanumeric() || c == '_'));
    part
}

fn ws_tailer(events: &[&str], resources: &[&str], handles: &[&str]) -> ws::tailer::Tailer {
    assert!(events.iter().chain(resources).all(|path| check_type_path(&text(path))));
    ws::tailer::Tailer::new(
        texts(events),
        texts(resources),
        texts(handles),
        &parse_address,
        &parse_identifier,
    )
    .unwrap()
}

fn event_texts(events: &[EndpointEvent]) -> Vec<(&str, &str, &Value)> {
    events.iter().map(|e| (e.address.as_str(), e.typ.as_str(), &e.data)).collect()
}

fn resource_texts(resources: &[EndpointResourceChange]) -> Vec<(&str, &str, Option<&Value>)> {
    resources
        .iter()
        .map(|r| {
            let data = r.data.as_ref().map(|value| {
                assert_eq!(value.fields.len(), 1);
                assert_eq!(value.fields[0].0, "value");
                &value.fields[0].1
            });
            (r.address.as_str(), r.typ.as_str(), data)
        })
        .collect()
}

fn change_texts(changes: &[EndpointTableChange]) -> Vec<(&str, &Value, Option<&Value>)> {
    changes.iter().map(|c| (c.handle.as_str(), &c.key, c.value.as_ref())).collect()
}

#[test]
fn http_caught_up_is_an_empty_batch() {
    let tailer = http_tailer(&["T"], &[], &[]);
    assert!(tailer.can_process(&vec![]));
    let (num, processed) = tailer.process_next_batch(&vec![]);
    assert_eq!(num, 0);
    assert!(processed.is_none());
}

#[test]
fn http_picks_events_by_printed_type() {
    let tailer = http_tailer(&["0x1::coin::Deposit<0x1::a::A>"], &[], &[]);
    let batch = vec![user(
        7,
        vec![
            event(tag(1, "coin", "Deposit", "<0x1::a::A>"), 1),
            event(tag(1, "coin", "Deposit", "<0x1::b::B>"), 2),
            event(tag(1, "coin", "Deposit", "<0x1::a::A>"), 3),
        ],
        vec![],
    )];
    assert!(tailer.can_process(&batch));
    let (num, processed) = tailer.process_next_batch(&batch);
    let processed = processed.unwrap();
    assert_eq!(num, 1);
    assert_eq!((processed.start_version, processed.end_version), (7, 7));
    assert_eq!(processed.transactions.len(), 1);
    let report = &processed.transactions[0];
    assert_eq!((report.version, report.timestamp), (7, 700));
    let typ = "0x1::coin::Deposit<0x1::a::A>";
    assert_eq!(
        event_texts(&report.events),
        vec![("0xa", typ, &number(1)), ("0xa", typ, &number(3))]
    );
    assert!(report.resources.is_empty());
    assert!(report.changes.is_empty());
}

#[test]
fn http_picks_changes_of_all_kinds() {
    let tailer = http_tailer(&[], &["0x1::coin::Store<0x1::a::A>", "0x1::coin::Info"], &["0xt2"]);
    let batch = vec![user(8, vec![], changes_of_all_kinds())];
    let processed = tailer.process_next_batch(&batch).1.unwrap();
    let report = &processed.transactions[0];
    assert!(report.events.is_empty());
    assert_eq!(
        resource_texts(&report.resources),
        vec![
            ("0xb", "0x1::coin::Store<0x1::a::A>", None),
            ("0xc", "0x1::coin::Info", Some(&number(6))),
        ]
    );
    assert_eq!(
        change_texts(&report.changes),
        vec![("0xt2", &number(2), Some(&number(20))), ("0xt2", &number(4), None)]
    );
}

#[test]
fn http_passes_over_what_is_not_asked_for() {
    let tailer = http_tailer(&["0x1::m::E"], &["0x1::coin::Store"], &["0xt9"]);
    let failed = Transaction {
        version: Some(11),
        body: TransactionBody::UserTransaction(UserTransaction {
            info: TransactionInfo { version: 11, success: false, changes: vec![] },
            timestamp: 0,
            payload: TransactionPayload::Other,
            events: vec![event(tag(1, "m", "E", ""), 1)],
        }),
    };
    let batch = vec![
        Transaction { version: Some(10), body: TransactionBody::Other },
        failed,
        user(12, vec![event(tag(1, "m", "E", ""), 2)], vec![]),
        user(13, vec![event(tag(1, "m", "F", ""), 3)], changes_of_all_kinds()),
        Transaction { version: Some(14), body: TransactionBody::Other },
    ];
    let (num, processed) = tailer.process_next_batch(&batch);
    let processed = processed.unwrap();
    assert_eq!(num, 5);
    assert_eq!((processed.start_version, processed.end_version), (10, 14));
    let versions: Vec<u64> = processed.transactions.iter().map(|t| t.version).collect();
    assert_eq!(versions, vec![12]);
}

#[test]
fn http_asked_for_nothing_reports_nothing() {
    let tailer = http_tailer(&[], &[], &[]);
    let undecoded = WriteSetChange::WriteTableItem { handle: text("0xt1"), decoded: None };
    let batch = vec![user(
        1,
        vec![event(tag(1, "m", "E", ""), 2)],
        vec![undecoded, write_item("0xt1", 1, 2)],
    )];
    assert!(tailer.can_process(&batch));
    let processed = tailer.process_next_batch(&batch).1.unwrap();
    assert!(processed.transactions.is_empty());
}

#[test]
fn batch_without_first_or_last_version_cannot_be_processed() {
    let tailer = http_tailer(&[], &[], &[]);
    let pending = || Transaction { version: None, body: TransactionBody::Other };
    let other = |version| Transaction { version: Some(version), body: TransactionBody::Other };
    assert!(!tailer.can_process(&vec![pending()]));
    assert!(!tailer.can_process(&vec![pending(), other(1)]));
    assert!(!tailer.can_process(&vec![other(1), pending()]));
    assert!(tailer.can_process(&vec![other(1), pending(), other(2)]));
}

#[test]
fn item_that_is_asked_for_must_be_decoded() {
    let undecoded_write = || WriteSetChange::WriteTableItem { handle: text("0xt1"), decoded: None };
    let undecoded_delete =
        || WriteSetChange::DeleteTableItem { handle: text("0xt1"), deleted: None };
    let asking = http_tailer(&[], &[], &["0xt1"]);
    let other = ws_tailer(&[], &[], &["0xt2"]);
    assert!(!asking.can_process(&vec![user(1, vec![], vec![undecoded_write()])]));
    assert!(!asking.can_process(&vec![user(1, vec![], vec![undecoded_delete()])]));
    assert!(other.can_process(&vec![user(1, vec![], vec![undecoded_write()])]));
    assert!(other.can_process(&vec![user(1, vec![], vec![undecoded_delete()])]));
    let mut failed = user(1, vec![], vec![undecoded_write()]);
    if let TransactionBody::UserTransaction(transaction) = &mut failed.body {
        transaction.info.success = false;
    }
    assert!(asking.can_process(&vec![failed]));
}

#[test]
fn ws_picks_types_whatever_their_arguments() {
    let tailer = ws_tailer(&["0x1::coin::Deposit"], &["0x1::coin::Store"], &["0xt1"]);
    let batch = vec![user(
        9,
        vec![
            event(tag(1, "coin", "Deposit", "<0x1::a::A>"), 1),
            event(tag(2, "coin", "Deposit", ""), 2),
            event(tag(1, "coins", "Deposit", ""), 3),
            event(tag(1, "coin", "Deposits", ""), 4),
            event(tag(1, "coin", "Deposit", "<0x1::b::B>"), 5),
            Event {
                account_address: text("0xa"),
                typ: MoveType::Other,
                typ_display: text("0x1::coin::Deposit"),
                data: number(6),
            },
        ],
        changes_of_all_kinds(),
    )];
    assert!(tailer.can_process(&batch));
    let (num, processed) = tailer.process_next_batch(&batch);
    let processed = processed.unwrap();
    assert_eq!(num, 1);
    let report = &processed.transactions[0];
    assert_eq!((report.version, report.timestamp), (9, 900));
    assert_eq!(report.function, Some(text("0x1::coin::mint")));
    assert_eq!(
        event_texts(&report.events),
        vec![
            ("0xa", "0x1::coin::Deposit<0x1::a::A>", &number(1)),
            ("0xa", "0x1::coin::Deposit<0x1::b::B>", &number(5)),
        ]
    );
    assert_eq!(
        resource_texts(&report.resources),
        vec![
            ("0xb", "0x1::coin::Store<0x1::a::A>", None),
            ("0xc", "0x1::coin::Store<0x1::b::B>", Some(&number(5))),
        ]
    );
    assert_eq!(
        change_texts(&report.changes),
        vec![("0xt1", &number(1), Some(&number(10))), ("0xt1", &number(3), None)]
    );
}

#[test]
fn ws_function_is_there_for_entry_functions_only() {
    let tailer = ws_tailer(&["0x1::m::E"], &[], &[]);
    let mut script = user(3, vec![event(tag(1, "m", "E", ""), 1)], vec![]);
    if let TransactionBody::UserTransaction(transaction) = &mut script.body {
        transaction.payload = TransactionPayload::Other;
    }
    let processed = tailer.process_next_batch(&vec![script]).1.unwrap();
    assert_eq!(processed.transactions[0].function, None);
}

#[test]
fn ws_caught_up_is_an_empty_batch() {
    let tailer = ws_tailer(&[], &[], &[]);
    let (num, processed) = tailer.process_next_batch(&vec![]);
    assert_eq!(num, 0);
    assert!(processed.is_none());
}

#[test]
fn ws_asked_for_nothing_reports_nothing() {
    let tailer = ws_tailer(&[], &[], &[]);
    let batch = vec![user(1, vec![event(tag(1, "m", "E", ""), 2)], changes_of_all_kinds())];
    let processed = tailer.process_next_batch(&batch).1.unwrap();
    assert!(processed.transactions.is_empty());
    assert_eq!((processed.start_version, processed.end_version), (1, 1));
}

#[test]
fn cuts_into_batches_make_no_difference() {
    let http_one = http_tailer(&["0x1::m::E"], &[], &[]);
    let ws_one = ws_tailer(&["0x1::m::E"], &[], &[]);
    let transactions = |from: u64, to: u64| -> Vec<Transaction> {
        (from..to)
            .map(|v| user(v, vec![event(tag(1, "m", if v % 3 == 0 { "E" } else { "F" }, ""), v)], vec![]))
            .collect()
    };
    let wanted: Vec<u64> = vec![3, 6, 9, 12, 15, 18];
    for cut in 2..20 {
        // The second part is fetched first.
        let (late, early) = (transactions(cut, 20), transactions(2, cut));
        let round = gather(vec![
            http_one.process_next_batch(&late),
            http_one.process_next_batch(&early),
        ]);
        assert_eq!(round.num_res, 18);
        assert_eq!((round.batch_start_version, round.batch_end_version), (2, 19));
        let sent: Vec<u64> =
            round.request.unwrap().transactions.iter().map(|t| t.version).collect();
        assert_eq!(sent, wanted);
        let round =
            gather(vec![ws_one.process_next_batch(&late), ws_one.process_next_batch(&early)]);
        let sent: Vec<u64> =
            round.request.unwrap().transactions.iter().map(|t| t.version).collect();
        assert_eq!(sent, wanted);
    }
}

#[test]
fn copy_of_a_tailer_asks_for_the_same() {
    let batch = vec![user(4, vec![event(tag(1, "m", "E", ""), 1)], changes_of_all_kinds())];
    let over_http = http_tailer(&["0x1::m::E"], &["0x1::coin::Info"], &["0xt1"]).clone();
    let report = &over_http.process_next_batch(&batch).1.unwrap().transactions[0];
    assert_eq!((report.events.len(), report.resources.len(), report.changes.len()), (1, 1, 2));
    let over_ws = ws_tailer(&["0x1::m::E"], &["0x1::coin::Store"], &["0xt2"]).clone();
    let report = &over_ws.process_next_batch(&batch).1.unwrap().transactions[0];
    assert_eq!((report.events.len(), report.resources.len(), report.changes.len()), (1, 2, 2));
}

#[test]
fn tasks_with_copies_report_what_one_tailer_does() {
    let ledger = || -> Vec<Transaction> {
        (5..11)
            .map(|version| user(version, vec![event(tag(1, "m", "E", ""), version)], vec![]))
            .collect()
    };
    let part = |from: usize, to: usize| -> Vec<Transaction> {
        ledger().into_iter().skip(from).take(to - from).collect()
    };

    let tailer = http_tailer(&["0x1::m::E"], &[], &[]);
    let alone = tailer.process_next_batch(&ledger()).1.unwrap();
    let alone: Vec<u64> = alone.transactions.iter().map(|t| t.version).collect();
    assert_eq!(alone, vec![5, 6, 7, 8, 9, 10]);
    let round = gather(vec![
        tailer.clone().process_next_batch(&part(4, 6)),
        tailer.clone().process_next_batch(&part(0, 2)),
        tailer.clone().process_next_batch(&part(2, 4)),
    ]);
    assert_eq!((round.num_res, round.batch_start_version, round.batch_end_version), (6, 5, 10));
    let sent: Vec<u64> = round.request.unwrap().transactions.iter().map(|t| t.version).collect();
    assert_eq!(sent, alone);

    let tailer = ws_tailer(&["0x1::m::E"], &[], &[]);
    let round = gather(vec![
        tailer.clone().process_next_batch(&part(3, 6)),
        tailer.clone().process_next_batch(&part(0, 3)),
    ]);
    assert_eq!((round.num_res, round.batch_start_version, round.batch_end_version), (6, 5, 10));
    let sent: Vec<u64> = round.request.unwrap().transactions.iter().map(|t| t.version).collect();
    assert_eq!(sent, alone);
}

#[test]
fn copy_can_process_what_its_tailer_can() {
    let undecoded = || WriteSetChange::DeleteTableItem { handle: text("0xt1"), deleted: None };
    let batch = vec![user(4, vec![], vec![undecoded()])];
    let asks = http_tailer(&[], &[], &["0xt1"]);
    assert!(!asks.can_process(&batch));
    assert!(!asks.clone().can_process(&batch));
    let passes = ws_tailer(&[], &[], &["0xt2"]);
    assert!(passes.can_process(&batch));
    assert!(passes.clone().can_process(&batch));
}

#[test]
fn type_is_address_module_and_name() {
    let typ = Type::new(address(1), text("coin"), text("Coin"));
    assert!(typ.eq(&tag(1, "coin", "Coin", "<u8>")));
    assert!(!typ.eq(&tag(2, "coin", "Coin", "")));
    assert!(!typ.eq(&tag(1, "Coin", "Coin", "")));
    assert!(!typ.eq(&tag(1, "coin", "coin", "")));
    let mut far = address(1);
    far.0[0] = 1;
    assert!(!Type::new(far, text("coin"), text("Coin")).eq(&tag(1, "coin", "Coin", "")));
}

#[test]
fn type_list_has_structs_only() {
    let types = TypeVec(vec![
        Type::new(address(1), text("a"), text("A")),
        Type::new(address(2), text("b"), text("B")),
    ]);
    assert!(types.contains(&tag(2, "b", "B", "<u8>")));
    assert!(!types.contains(&tag(1, "b", "B", "")));
    assert!(types.contains_move_type(&MoveType::Struct(tag(1, "a", "A", ""))));
    assert!(!types.contains_move_type(&MoveType::Struct(tag(1, "a", "B", ""))));
    assert!(!types.contains_move_type(&MoveType::Other));
    assert!(!TypeVec(vec![]).contains(&tag(1, "a", "A", "")));
}

#[test]
fn types_are_read_out_of_paths() {
    let paths = texts(&["0x1::coin::CoinStore", "0x7::a_b::C1"]);
    let types = to_type(&paths, &parse_address, &parse_identifier);
    assert_eq!(types.0.len(), 2);
    assert_eq!(types.0[0].address.0, address(1).0);
    assert_eq!(types.0[0].module, "coin");
    assert_eq!(types.0[0].name, "CoinStore");
    assert_eq!(types.0[1].address.0, address(7).0);
    assert_eq!(types.0[1].module, "a_b");
    assert_eq!(types.0[1].name, "C1");
}

#[test]
fn path_names_just_its_type() {
    for path in ["0x1::coin::Coin", "0x01::coin::Coin"] {
        let types = to_type(&texts(&[path]), &parse_address, &parse_identifier);
        assert!(types.contains(&tag(1, "coin", "Coin", "")));
        assert!(types.contains(&tag(1, "coin", "Coin", "<0x1::a::A>")));
        assert!(!types.contains(&tag(2, "coin", "Coin", "")));
        assert!(!types.contains(&tag(1, "Coin", "Coin", "")));
        assert!(!types.contains(&tag(1, "coin", "coin", "")));
        assert!(types.contains_move_type(&MoveType::Struct(tag(1, "coin", "Coin", ""))));
    }
    let types = to_type(
        &texts(&["0x1::a::A", "0x2::b::B", "0x1::a::A"]),
        &parse_address,
        &parse_identifier,
    );
    assert_eq!(types.0.len(), 3);
    assert!(types.contains(&tag(1, "a", "A", "")));
    assert!(types.contains(&tag(2, "b", "B", "")));
    assert!(!types.contains(&tag(2, "a", "A", "")));
    assert!(!types.contains(&tag(1, "a", "B", "")));
}

#[test]
fn path_has_three_parts() {
    assert!(check_type_path(&text("0x1::coin::Coin")));
    assert!(check_type_path(&text("::::")));
    assert!(check_type_path(&text("a:b::c::d")));
    assert!(!check_type_path(&text("")));
    assert!(!check_type_path(&text("0x1::coin")));
    assert!(!check_type_path(&text("0x1::coin::Coin<0x1::a::A>")));
    assert!(!check_type_path(&text("0x1:coin:Coin")));
}

#[test]
fn splitting_agrees_with_std() {
    let cases = [
        "", ":", "::", ":::", "::::", ":::::", "a", "a::b", "a:::b", "a::::b", "::a", "a::",
        "a:b::c:", "0x1::coin::Coin", "\u{e9}::\u{1f600}::z", "x::\u{e9}:",
    ];
    for case in cases {
        let parts = split_at_separators(case);
        let wanted: Vec<&str> = case.split("::").collect();
        assert_eq!(parts, wanted);
        assert_eq!(parts.join("::"), case);
        assert!(parts.iter().all(|part| !part.contains("::")));
    }
}

#[test]
fn websocket_endpoint_is_a_url() {
    assert_eq!(websocket_url(WEBSOCKET_ENDPOINT).unwrap(), "ws://127.0.0.1:34788/sync");
    assert_eq!(websocket_url("WS://LocalHost:34788").unwrap(), "ws://localhost:34788/");
    assert!(websocket_url("127.0.0.1:34788/sync").is_err());
    assert!(websocket_url("").is_err());
}
