use finman::codec::{decode, encode, MonthlyFile};
use finman::filter::TransactionListFilter;
use finman::store::{transaction_file_id, transaction_file_name, App};
use finman::transaction::{Date, Transaction, TransactionType};
use finman::{Config, Error};

fn date(year: i32, month: u32, day: u32) -> Date {
    Date { year, month, day, hour: 0, minute: 0, second: 0, offset_minutes: 0 }
}

fn tx(
    t: TransactionType,
    amount_cents: i64,
    description: &str,
    category: &str,
    d: Date,
) -> Transaction {
    Transaction::new(t, amount_cents, description, category, d)
}

fn fresh_store() -> App {
    App::new(Config::new(String::from("ledger-data")))
}

fn assert_tx_eq(a: &Transaction, b: &Transaction) {
    assert_eq!(a.amount_cents, b.amount_cents);
    assert_eq!(a.description, b.description);
    assert_eq!(a.category, b.category);
    assert_eq!(a.transaction_type, b.transaction_type);
    assert_eq!(a.date, b.date);
}

#[test]
fn file_namer_renders_identifiers() {
    assert_eq!(transaction_file_id(TransactionType::Expense, 2024, 3), "2024-3-expenses");
    assert_eq!(transaction_file_id(TransactionType::Income, 2024, 12), "2024-12-income");
    assert_eq!(transaction_file_id(TransactionType::Income, -5, 3), "-5-3-income");
    assert_eq!(transaction_file_name(TransactionType::Expense, 1999, 1), "1999-1-expenses.json");
}

#[test]
fn encode_renders_exact_text() {
    let txs = vec![tx(TransactionType::Expense, 1250, "Lunch", "Food", date(2024, 3, 15))];
    let blob = encode(1, &txs);
    assert_eq!(
        blob,
        "{\"version\":1,\"transactions\":[{\"amount\":12.50,\"description\":\"Lunch\",\
         \"category\":\"Food\",\"transaction_type\":\"expense\",\
         \"date\":\"2024-03-15T00:00:00Z\"}]}"
    );
    let empty: Vec<Transaction> = Vec::new();
    assert_eq!(encode(1, &empty), "{\"version\":1,\"transactions\":[]}");
}

#[test]
fn round_trip_keeps_records_in_order() {
    let txs = vec![
        tx(TransactionType::Expense, 1250, "Lunch", "Food", date(2024, 3, 15)),
        tx(TransactionType::Income, 200000, "Salary", "Work", date(2024, 3, 20)),
    ];
    let blob = encode(1, &txs);
    let file: MonthlyFile = decode(&blob).expect("an encoded envelope decodes");
    assert_eq!(file.version, 1);
    assert_eq!(file.transactions.len(), 2);
    assert_tx_eq(&file.transactions[0], &txs[0]);
    assert_tx_eq(&file.transactions[1], &txs[1]);
}

#[test]
fn decode_rejects_corrupt_data() {
    assert_eq!(decode("").unwrap_err(), Error::CorruptData);
    assert_eq!(decode("not an envelope").unwrap_err(), Error::CorruptData);
    assert_eq!(decode("{\"version\":x,\"transactions\":[]}").unwrap_err(), Error::CorruptData);
    assert_eq!(decode("{\"version\":1,\"transactions\":[]} ").unwrap_err(), Error::CorruptData);
    assert_eq!(
        decode("{\"version\":1,\"transactions\":[{\"amount\":1.00}]}").unwrap_err(),
        Error::CorruptData
    );
}

#[test]
fn escaped_text_round_trips() {
    let txs = vec![tx(
        TransactionType::Expense,
        1499,
        "John's \"special\" dinner\t\\with wine\n",
        "Food & Drink",
        date(2024, 3, 15),
    )];
    let blob = encode(1, &txs);
    let file = decode(&blob).expect("escaped text decodes");
    assert_eq!(file.transactions.len(), 1);
    assert_tx_eq(&file.transactions[0], &txs[0]);
    assert!(!blob.contains('\t'));
    assert!(!blob.contains('\n'));
}

#[test]
fn decode_accepts_short_and_unicode_escapes() {
    let blob = "{\"version\":1,\"transactions\":[{\"amount\":1.00,\
                \"description\":\"a\\u0009b\\bc\",\"category\":\"x\\/y\",\
                \"transaction_type\":\"expense\",\"date\":\"2024-03-15T00:00:00Z\"}]}"
        .replace(" ", "")
        .replace("\n", "");
    let file = decode(&blob).expect("short and unicode escapes decode");
    assert_eq!(file.transactions[0].description, "a\tb\u{8}c");
    assert_eq!(file.transactions[0].category, "x/y");
}

#[test]
fn decode_accepts_float_style_amounts() {
    let one = |amount: &str| {
        let blob = format!(
            "{{\"version\":1,\"transactions\":[{{\"amount\":{},\"description\":\"d\",\
             \"category\":\"c\",\"transaction_type\":\"income\",\
             \"date\":\"2024-03-15T00:00:00Z\"}}]}}",
            amount
        )
        .replace(" ", "");
        decode(&blob).expect("the amount form decodes").transactions[0].amount_cents
    };
    assert_eq!(one("12.5"), 1250);
    assert_eq!(one("12"), 1200);
    assert_eq!(one("12.50"), 1250);
    assert_eq!(one("-3.25"), -325);
    assert_eq!(one("0.05"), 5);
}

#[test]
fn negative_amounts_round_trip() {
    let txs = vec![tx(TransactionType::Expense, -1250, "Refund", "Food", date(2024, 3, 15))];
    let blob = encode(1, &txs);
    assert!(blob.contains("-12.50"));
    let file = decode(&blob).expect("a signed amount decodes");
    assert_eq!(file.transactions[0].amount_cents, -1250);
}

#[test]
fn zone_offsets_are_carried() {
    let mut d = date(2024, 3, 15);
    d.offset_minutes = 60;
    let txs = vec![tx(TransactionType::Expense, 1250, "Lunch", "Food", d)];
    let blob = encode(1, &txs);
    assert!(blob.contains("2024-03-15T00:00:00+01:00"));
    let file = decode(&blob).expect("an offset timestamp decodes");
    assert_eq!(file.transactions[0].date.offset_minutes, 60);

    let negative = blob.replace("+01:00", "-05:30");
    let file = decode(&negative).expect("a negative offset decodes");
    assert_eq!(file.transactions[0].date.offset_minutes, -330);
}

#[test]
fn decode_accepts_other_versions_unchecked() {
    let file = decode("{\"version\":7,\"transactions\":[]}").expect("version is advisory only");
    assert_eq!(file.version, 7);
    assert!(file.transactions.is_empty());
}

#[test]
fn missing_file_is_an_empty_month() {
    let mut store = fresh_store();
    let request = store.load_request(TransactionType::Expense, 2030, 7);
    assert_eq!(request, Some(String::from("2030-7-expenses.json")));
    store
        .load_transactions(TransactionType::Expense, 2030, 7, None)
        .expect("a missing file is not an error");
    assert!(store.transactions().is_empty());
}

#[test]
fn loading_happens_at_most_once() {
    let mut store = fresh_store();
    assert!(store.load_request(TransactionType::Income, 2024, 2).is_some());
    store.load_transactions(TransactionType::Income, 2024, 2, None).unwrap();
    assert_eq!(store.load_request(TransactionType::Income, 2024, 2), None);
    assert!(store.load_request(TransactionType::Income, 2024, 3).is_some());
}

#[test]
fn corrupt_file_text_is_fatal_and_changes_nothing() {
    let mut store = fresh_store();
    let r = store.load_transactions(TransactionType::Income, 2024, 2, Some("broken"));
    assert_eq!(r.unwrap_err(), Error::CorruptData);
    assert!(store.transactions().is_empty());
    assert!(store.load_request(TransactionType::Income, 2024, 2).is_some());
}

#[test]
fn written_month_reads_back() {
    let mut store = fresh_store();
    store.load_transactions(TransactionType::Expense, 2024, 3, None).unwrap();
    store.add_transaction_with_date(
        TransactionType::Expense,
        1250,
        "Lunch",
        "Food",
        date(2024, 3, 15),
    );
    let plan = store.write_plan();
    assert_eq!(plan.len(), 1);
    assert_eq!(plan[0].0, "2024-3-expenses.json");

    let mut fresh = fresh_store();
    fresh
        .load_transactions(TransactionType::Expense, 2024, 3, Some(&plan[0].1))
        .expect("the written text decodes");
    let held = fresh.transactions();
    assert_eq!(held.len(), 1);
    assert_tx_eq(
        &held[0],
        &tx(TransactionType::Expense, 1250, "Lunch", "Food", date(2024, 3, 15)),
    );
}

#[test]
fn write_plan_on_empty_store_writes_no_file() {
    let store = fresh_store();
    assert!(store.write_plan().is_empty());
}

#[test]
fn add_two_then_list_month_returns_both_in_order() {
    let mut store = fresh_store();
    store.load_transactions(TransactionType::Expense, 2024, 3, None).unwrap();
    store.load_transactions(TransactionType::Income, 2024, 3, None).unwrap();
    store.add_transaction_with_date(
        TransactionType::Expense,
        1250,
        "Lunch",
        "Food",
        date(2024, 3, 15),
    );
    store.add_transaction_with_date(
        TransactionType::Income,
        200000,
        "Salary",
        "Work",
        date(2024, 3, 20),
    );
    let mut plan = store.write_plan();
    plan.sort_by(|a, b| a.0.cmp(&b.0));
    assert_eq!(plan.len(), 2);
    assert_eq!(plan[0].0, "2024-3-expenses.json");
    assert_eq!(plan[1].0, "2024-3-income.json");

    let filter = TransactionListFilter::new(None, None, None, None, None).year(2024).month(3);
    let names: Vec<String> = plan.iter().map(|e| e.0.clone()).collect();
    let selected = filter.select_files(&names);
    assert_eq!(selected, names);
    let compiled = filter.compile().unwrap();
    let blobs: Vec<String> = plan.iter().map(|e| e.1.clone()).collect();
    let listed = compiled.collect_transactions(&blobs).unwrap();
    assert_eq!(listed.len(), 2);
    assert_eq!(listed[0].description, "Lunch");
    assert_eq!(listed[1].description, "Salary");

    let mut income: i64 = 0;
    let mut expenses: i64 = 0;
    for t in &listed {
        match t.transaction_type {
            TransactionType::Income => income += t.amount_cents,
            TransactionType::Expense => expenses += t.amount_cents,
        }
    }
    assert_eq!(income - expenses, 198750);
}

#[test]
fn month_filter_selects_only_that_month() {
    let mut store = fresh_store();
    store.load_transactions(TransactionType::Expense, 2024, 3, None).unwrap();
    store.load_transactions(TransactionType::Expense, 2024, 4, None).unwrap();
    store.add_transaction_with_date(
        TransactionType::Expense,
        500,
        "March bus",
        "Travel",
        date(2024, 3, 2),
    );
    store.add_transaction_with_date(
        TransactionType::Expense,
        700,
        "April bus",
        "Travel",
        date(2024, 4, 2),
    );
    let plan = store.write_plan();
    let names: Vec<String> = plan.iter().map(|e| e.0.clone()).collect();

    let filter = TransactionListFilter::new(None, Some(3), None, None, None);
    let selected = filter.select_files(&names);
    assert_eq!(selected, vec![String::from("2024-3-expenses.json")]);

    let compiled = filter.compile().unwrap();
    let blobs: Vec<String> = plan
        .iter()
        .filter(|e| e.0 == "2024-3-expenses.json")
        .map(|e| e.1.clone())
        .collect();
    let listed = compiled.collect_transactions(&blobs).unwrap();
    assert_eq!(listed.len(), 1);
    assert_eq!(listed[0].description, "March bus");
}

#[test]
fn file_names_outside_the_scheme_are_never_selected() {
    let filter = TransactionListFilter::new(None, None, None, None, None);
    let names = vec![
        String::from("2024-3-expenses.json"),
        String::from("config.toml"),
        String::from("2024-3-expenses.json.bak"),
        String::from("x-3-income.json"),
    ];
    let selected = filter.select_files(&names);
    assert_eq!(selected, vec![String::from("2024-3-expenses.json")]);
}

#[test]
fn content_patterns_keep_a_match_of_either() {
    let filter = TransactionListFilter::new(
        None,
        None,
        None,
        Some(String::from("coffee")),
        Some(String::from("rent")),
    );
    let compiled = filter.compile().unwrap();
    let records = vec![
        tx(TransactionType::Expense, 300, "Morning COFFEE", "Food", date(2024, 1, 1)),
        tx(TransactionType::Expense, 90000, "Flat", "Rent", date(2024, 1, 2)),
        tx(TransactionType::Expense, 250, "Bus ticket", "Travel", date(2024, 1, 3)),
    ];
    let kept = compiled.filter_transactions(&records);
    assert_eq!(kept.len(), 2);
    assert_eq!(kept[0].description, "Morning COFFEE");
    assert_eq!(kept[1].description, "Flat");
}

#[test]
fn one_absent_pattern_contributes_no_match() {
    let filter =
        TransactionListFilter::new(None, None, None, Some(String::from("coffee")), None);
    let compiled = filter.compile().unwrap();
    let records = vec![
        tx(TransactionType::Expense, 300, "Coffee beans", "Food", date(2024, 1, 1)),
        tx(TransactionType::Expense, 90000, "Flat", "Rent", date(2024, 1, 2)),
    ];
    let kept = compiled.filter_transactions(&records);
    assert_eq!(kept.len(), 1);
    assert_eq!(kept[0].description, "Coffee beans");
}

#[test]
fn invalid_pattern_fails_before_any_file_is_touched() {
    let filter =
        TransactionListFilter::new(None, None, None, Some(String::from("[unclosed")), None);
    assert_eq!(filter.compile().unwrap_err(), Error::InvalidPattern);
}

#[test]
fn corrupt_candidate_file_is_fatal_for_a_listing() {
    let filter = TransactionListFilter::new(None, None, None, None, None);
    let compiled = filter.compile().unwrap();
    let good = encode(1, &Vec::new());
    let blobs = vec![good, String::from("broken")];
    assert_eq!(compiled.collect_transactions(&blobs).unwrap_err(), Error::CorruptData);
}
