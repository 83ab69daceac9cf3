use invoice_ledger::date::InvoiceDate;
use invoice_ledger::decimal::Decimal;
use invoice_ledger::summary::gather_invoices;
use invoice_ledger::summary::read_invoice;
use invoice_ledger::summary::summarize;
use invoice_ledger::summary::InvoiceInfo;
use invoice_ledger::summary::SourceText;
use invoice_ledger::summary::SummaryError;

fn as_f64(d: &Decimal) -> f64 {
    d.mantissa() as f64 / 10f64.powi(d.scale() as i32)
}

fn shown(d: &Decimal) -> String {
    d.fixed_text(2)
}

fn invoice(date: (u16, u8, u8), total: (u128, u8), is_paid: bool, client: &str) -> InvoiceInfo {
    InvoiceInfo {
        date: InvoiceDate::new(date.0, date.1, date.2).unwrap(),
        total: Decimal::new(total.0, total.1).unwrap(),
        is_paid,
        client: client.to_string(),
    }
}

#[test]
fn one_paid_and_one_unpaid_in_january() {
    let invoices = vec![
        invoice((2025, 1, 10), (100, 0), true, "Acme"),
        invoice((2025, 1, 20), (50, 0), false, "Bolt"),
    ];
    let summary = summarize(2025, &invoices).unwrap();
    assert_eq!(summary.months.len(), 1);
    let row = &summary.months[0];
    assert_eq!(row.month, 1);
    assert_eq!((shown(&row.paid), shown(&row.unpaid), shown(&row.total)),
        ("100.00".to_string(), "50.00".to_string(), "150.00".to_string()));
    assert_eq!((shown(&summary.paid), shown(&summary.unpaid), shown(&summary.total)),
        ("100.00".to_string(), "50.00".to_string(), "150.00".to_string()));
}

fn year_of_invoices() -> Vec<InvoiceInfo> {
    vec![
        invoice((2025, 3, 1), (10050, 2), true, "Acme"),
        invoice((2025, 3, 9), (2000, 2), false, "Bolt"),
        invoice((2025, 1, 5), (755, 1), true, "Bolt"),
        invoice((2024, 12, 31), (99999, 0), true, "Acme"),
        invoice((2025, 11, 30), (1, 3), false, "Crane"),
        invoice((2025, 1, 6), (25, 0), false, "Acme"),
        invoice((2026, 1, 1), (5, 0), false, "Dune"),
        invoice((2025, 3, 31), (4, 0), true, "Acme"),
    ]
}

#[test]
fn months_stand_latest_first() {
    let summary = summarize(2025, &year_of_invoices()).unwrap();
    let months: Vec<u8> = summary.months.iter().map(|r| r.month).collect();
    assert_eq!(months, vec![11, 3, 1]);
    let march = &summary.months[1];
    assert_eq!(as_f64(&march.paid), 104.50);
    assert_eq!(as_f64(&march.unpaid), 20.00);
    assert_eq!(as_f64(&march.total), 124.50);
    let january = &summary.months[2];
    assert_eq!(as_f64(&january.paid), 75.5);
    assert_eq!(as_f64(&january.unpaid), 25.0);
}

#[test]
fn clients_stand_by_their_combined_sum() {
    let summary = summarize(2025, &year_of_invoices()).unwrap();
    let names: Vec<&str> = summary.clients.iter().map(|r| r.name.as_str()).collect();
    assert_eq!(names, vec!["Acme", "Bolt", "Crane"]);
    let acme = &summary.clients[0];
    assert_eq!(as_f64(&acme.paid), 104.50);
    assert_eq!(as_f64(&acme.unpaid), 25.0);
    assert_eq!(as_f64(&acme.total), 129.50);
    assert_eq!(as_f64(&summary.clients[1].total), 95.5);
    assert_eq!(as_f64(&summary.clients[2].total), 0.001);
}

#[test]
fn clients_with_equal_sums_stand_by_name() {
    let invoices = vec![
        invoice((2025, 1, 1), (10, 0), true, "delta"),
        invoice((2025, 1, 1), (100, 1), false, "Beta"),
        invoice((2025, 1, 1), (5, 0), true, "alpha"),
        invoice((2025, 1, 1), (5, 0), false, "alpha"),
        invoice((2025, 1, 1), (11, 0), false, "zeta"),
    ];
    let summary = summarize(2025, &invoices).unwrap();
    let names: Vec<&str> = summary.clients.iter().map(|r| r.name.as_str()).collect();
    assert_eq!(names, vec!["zeta", "Beta", "alpha", "delta"]);
}

#[test]
fn both_groupings_add_up_to_the_year() {
    let invoices = year_of_invoices();
    let summary = summarize(2025, &invoices).unwrap();
    let scale = 1000.0;
    let units = |d: &Decimal| (as_f64(d) * scale).round() as i64;
    let month_paid: i64 = summary.months.iter().map(|r| units(&r.paid)).sum();
    let month_unpaid: i64 = summary.months.iter().map(|r| units(&r.unpaid)).sum();
    let client_paid: i64 = summary.clients.iter().map(|r| units(&r.paid)).sum();
    let client_unpaid: i64 = summary.clients.iter().map(|r| units(&r.unpaid)).sum();
    assert_eq!(month_paid, client_paid);
    assert_eq!(month_unpaid, client_unpaid);
    assert_eq!(month_paid, units(&summary.paid));
    assert_eq!(month_unpaid, units(&summary.unpaid));
    assert_eq!(month_paid, 180000);
    assert_eq!(month_unpaid, 45001);
    assert_eq!(units(&summary.total), 225001);
}

#[test]
fn a_year_without_invoices_has_an_empty_summary() {
    let summary = summarize(2023, &year_of_invoices()).unwrap();
    assert!(summary.months.is_empty());
    assert!(summary.clients.is_empty());
    assert!(!summary.total.is_positive());
    let summary = summarize(-5, &Vec::new()).unwrap();
    assert_eq!(summary.year, -5);
    assert!(summary.months.is_empty());
}

#[test]
fn a_sum_too_long_to_hold_fails_the_summary() {
    let invoices = vec![
        invoice((2025, 1, 1), (u128::MAX, 0), true, "Acme"),
        invoice((2025, 2, 1), (1, 0), false, "Bolt"),
    ];
    assert_eq!(summarize(2025, &invoices).unwrap_err(), SummaryError::Overflow);
    let invoices = vec![
        invoice((2025, 1, 1), (u128::MAX, 0), true, "Acme"),
        invoice((2024, 2, 1), (1, 0), false, "Bolt"),
    ];
    assert!(summarize(2025, &invoices).is_ok());
    assert!(summarize(2024, &invoices).is_ok());
}

fn source(name: &str, text: Option<&str>) -> SourceText {
    SourceText { file_name: name.to_string(), text: text.map(|t| t.to_string()) }
}

#[test]
fn an_invoice_is_read_from_name_and_text() {
    let info = read_invoice(
        "HI20250301-02_main_PAID.typ",
        "amount: 10, amount: 2.5, tax_rate: 0.1, is_paid: true, client: (name: \"Acme\")",
    )
    .unwrap();
    assert_eq!((info.date.year(), info.date.month(), info.date.day()), (2025, 3, 1));
    assert_eq!(as_f64(&info.total), 13.75);
    assert!(info.is_paid);
    assert_eq!(info.client, "Acme");
}

#[test]
fn a_name_without_a_date_tells_no_invoice() {
    assert!(read_invoice("invoice.typ", "amount: 1").is_none());
    assert!(read_invoice("HI20251301-01_a.typ", "amount: 1").is_none());
}

#[test]
fn one_bad_source_does_not_keep_the_others_out() {
    let long = format!("amount: {}", "9".repeat(40));
    let sources = vec![
        source("HI20250110-01_a_PAID.typ", Some("amount: 100, is_paid: true, client: (name: \"Acme\")")),
        source("HI20250111-01_b.typ", None),
        source("HI20250112-01_c.typ", Some(&long)),
        source("broken-name.typ", Some("amount: 3")),
        source("HI20250120-01_d.typ", Some("amount: 50, is_paid: false, client: (name: \"Bolt\")")),
    ];
    let invoices = gather_invoices(&sources);
    assert_eq!(invoices.len(), 2);
    assert_eq!(invoices[0].client, "Acme");
    assert_eq!(invoices[1].client, "Bolt");
    let summary = summarize(2025, &invoices).unwrap();
    assert_eq!(summary.months.len(), 1);
    assert_eq!(shown(&summary.months[0].paid), "100.00");
    assert_eq!(shown(&summary.months[0].unpaid), "50.00");
    assert_eq!(shown(&summary.months[0].total), "150.00");
    assert_eq!(shown(&summary.total), "150.00");
}

#[test]
fn client_names_are_ordered_as_strings_are() {
    let names = ["Zoe", "Émile", "zoe", "Zo", "", "Zoé", "Ärger", "10", "9"];
    let invoices: Vec<InvoiceInfo> =
        names.iter().map(|n| invoice((2025, 5, 5), (1, 0), false, n)).collect();
    let summary = summarize(2025, &invoices).unwrap();
    let got: Vec<String> = summary.clients.iter().map(|r| r.name.clone()).collect();
    let mut expected: Vec<String> = names.iter().map(|n| n.to_string()).collect();
    expected.sort();
    assert_eq!(got, expected);
}
