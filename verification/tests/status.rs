use invoice_ledger::status::candidates;
use invoice_ledger::status::select_entries;
use invoice_ledger::status::split_file_name;
use invoice_ledger::status::status_of_stem;
use invoice_ledger::status::Action;
use invoice_ledger::status::InvoiceStatus;
use invoice_ledger::status::LedgerEntry;
use invoice_ledger::status::Selection;

fn entry(name: &str, modified: Option<i128>) -> LedgerEntry {
    LedgerEntry { file_name: name.to_string(), modified }
}

#[test]
fn status_goes_by_the_suffix() {
    assert_eq!(status_of_stem("HI20250301-01_a"), InvoiceStatus::Unpaid);
    assert_eq!(status_of_stem("HI20250301-01_a_PAID"), InvoiceStatus::Paid);
    assert_eq!(status_of_stem("HI20250301-01_a_VOID"), InvoiceStatus::Void);
    assert_eq!(status_of_stem("HI20250301-01_a_PAID_VOID"), InvoiceStatus::Void);
    assert_eq!(status_of_stem("HI20250301-01_a_VOID_PAID"), InvoiceStatus::Paid);
    assert_eq!(status_of_stem("HI20250301-01_PAID_a"), InvoiceStatus::Unpaid);
    assert_eq!(status_of_stem("_PAID"), InvoiceStatus::Paid);
    assert_eq!(status_of_stem("PAID"), InvoiceStatus::Unpaid);
    assert_eq!(status_of_stem(""), InvoiceStatus::Unpaid);
}

#[test]
fn file_names_split_at_the_last_point() {
    assert_eq!(split_file_name("a.typ"), ("a".to_string(), Some("typ".to_string())));
    assert_eq!(split_file_name("a.b.pdf"), ("a.b".to_string(), Some("pdf".to_string())));
    assert_eq!(split_file_name("a."), ("a".to_string(), Some(String::new())));
    assert_eq!(split_file_name("a"), ("a".to_string(), None));
    assert_eq!(split_file_name(".hidden"), (".hidden".to_string(), None));
    assert_eq!(split_file_name(".hidden.typ"), (".hidden".to_string(), Some("typ".to_string())));
    assert_eq!(split_file_name(""), (String::new(), None));
}

#[test]
fn file_names_split_as_paths_do() {
    for name in ["a.typ", "a.b.pdf", "a.", "a", ".hidden", ".hidden.typ", "x_PAID.typ", "..a"] {
        let path = std::path::Path::new(name);
        let (stem, ext) = split_file_name(name);
        assert_eq!(Some(stem.as_str()), path.file_stem().and_then(|s| s.to_str()));
        assert_eq!(ext.as_deref(), path.extension().and_then(|s| s.to_str()));
    }
}

fn ledger() -> Vec<LedgerEntry> {
    vec![
        entry("HI20250101-01_a.typ", Some(100)),
        entry("HI20250101-01_a.pdf", Some(101)),
        entry("HI20250102-01_b_PAID.typ", Some(300)),
        entry("HI20250102-01_b_PAID.pdf", Some(301)),
        entry("HI20250103-01_c_VOID.typ", Some(500)),
        entry("HI20250103-01_c_VOID.pdf", Some(501)),
        entry("HI20250104-01_d.typ", Some(400)),
        entry("HI20250104-01_d.pdf", None),
        entry("HI20250105-01_e.typ", None),
        entry("HI20250106-01_f.typ", Some(400)),
        entry("notes.txt", Some(900)),
    ]
}

#[test]
fn pay_offers_the_unpaid_latest_first() {
    assert_eq!(candidates(&ledger(), Action::Pay, false), vec![9, 6, 0, 8]);
}

#[test]
fn unpay_offers_the_paid() {
    assert_eq!(candidates(&ledger(), Action::Unpay, false), vec![2]);
}

#[test]
fn void_offers_the_unpaid_only_by_default() {
    assert_eq!(candidates(&ledger(), Action::Void, false), vec![9, 6, 0, 8]);
}

#[test]
fn void_offers_the_paid_where_asked_to() {
    assert_eq!(candidates(&ledger(), Action::Void, true), vec![9, 6, 2, 0, 8]);
}

#[test]
fn candidates_follow_the_order_of_a_stable_sort_reversed() {
    let entries = ledger();
    let mut expected: Vec<usize> = (0..entries.len())
        .filter(|&i| {
            let name = &entries[i].file_name;
            name.ends_with(".typ") && !name.ends_with("_VOID.typ") && !name.ends_with("_PAID.typ")
        })
        .collect();
    expected.sort_by_key(|&i| entries[i].modified);
    expected.reverse();
    assert_eq!(candidates(&entries, Action::Pay, false), expected);
}

#[test]
fn lists_show_compiled_documents_in_scan_order() {
    let entries = ledger();
    assert_eq!(select_entries(&entries, Selection::Listed { paid: true }), vec![3]);
    assert_eq!(select_entries(&entries, Selection::Listed { paid: false }), vec![1, 7]);
}

#[test]
fn summaries_read_every_rendered_document_that_is_not_void() {
    assert_eq!(select_entries(&ledger(), Selection::Summarized), vec![0, 2, 6, 8, 9]);
}

#[test]
fn nothing_is_selected_from_an_empty_ledger() {
    let none: Vec<LedgerEntry> = Vec::new();
    assert!(candidates(&none, Action::Pay, true).is_empty());
    assert!(select_entries(&none, Selection::Summarized).is_empty());
}
