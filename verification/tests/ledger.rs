use invoice_ledger::commit::file_name;
use invoice_ledger::commit::plan_transition;
use invoice_ledger::date::InvoiceDate;
use invoice_ledger::ident::invoice_id;
use invoice_ledger::ident::invoice_stem;
use invoice_ledger::ident::next_sequence;
use invoice_ledger::ident::prefix_of_day;
use invoice_ledger::status::candidates;
use invoice_ledger::status::select_entries;
use invoice_ledger::status::split_file_name;
use invoice_ledger::status::Action;
use invoice_ledger::status::InvoiceStatus;
use invoice_ledger::status::LedgerEntry;
use invoice_ledger::status::Selection;
use invoice_ledger::summary::gather_invoices;
use invoice_ledger::summary::summarize;
use invoice_ledger::summary::SourceText;
use invoice_ledger::transition::Document;

struct File {
    name: String,
    text: String,
    modified: i128,
}

fn rendered(id: &str, amount: &str, client: &str) -> String {
    format!(
        "#invoice((id: \"{id}\", client: (name: \"{client}\"), items: ((amount: {amount}),), tax_rate: 0.1, is_paid: false, is_void: false))"
    )
}

fn issue(files: &mut Vec<File>, day: (u16, u8, u8), project: &str, amount: &str, client: &str) {
    let date = InvoiceDate::new(day.0, day.1, day.2).unwrap();
    let prefix = prefix_of_day(&date);
    let names: Vec<String> = files.iter().map(|f| f.name.clone()).collect();
    let id = invoice_id(&prefix, next_sequence(&prefix, &names).unwrap());
    let stem = invoice_stem(&id, project);
    let clock = files.len() as i128;
    files.push(File { name: file_name(&stem, "typ"), text: rendered(&id, amount, client), modified: clock });
    files.push(File { name: file_name(&stem, "pdf"), text: String::new(), modified: clock });
}

fn entries(files: &[File]) -> Vec<LedgerEntry> {
    files
        .iter()
        .map(|f| LedgerEntry { file_name: f.name.clone(), modified: Some(f.modified) })
        .collect()
}

fn change(files: &mut Vec<File>, at: usize, target: InvoiceStatus) {
    let (stem, _) = split_file_name(&files[at].name);
    let plan =
        plan_transition(&Document { stem, content: files[at].text.clone() }, target).unwrap();
    let clock = files.len() as i128 + 100;
    files.retain(|f| f.name != plan.old_source && f.name != plan.old_binary);
    files.push(File { name: plan.new_source, text: plan.content, modified: clock });
    files.push(File { name: plan.new_binary, text: String::new(), modified: clock });
}

#[test]
fn a_year_of_the_ledger() {
    let mut files: Vec<File> = Vec::new();
    issue(&mut files, (2025, 3, 1), "main-st", "100", "Acme");
    issue(&mut files, (2025, 3, 1), "elm-rd", "50.50", "Bolt");
    issue(&mut files, (2025, 4, 2), "main-st", "20", "Acme");
    let names: Vec<&str> = files.iter().map(|f| f.name.as_str()).collect();
    assert_eq!(
        names,
        vec![
            "HI20250301-01_main-st.typ",
            "HI20250301-01_main-st.pdf",
            "HI20250301-02_elm-rd.typ",
            "HI20250301-02_elm-rd.pdf",
            "HI20250402-01_main-st.typ",
            "HI20250402-01_main-st.pdf",
        ]
    );

    let offered = candidates(&entries(&files), Action::Pay, false);
    assert_eq!(offered, vec![4, 2, 0]);
    change(&mut files, 0, InvoiceStatus::Paid);
    let at = files.iter().position(|f| f.name == "HI20250402-01_main-st.typ").unwrap();
    change(&mut files, at, InvoiceStatus::Void);

    let all = entries(&files);
    let unpaid: Vec<&str> = candidates(&all, Action::Pay, false)
        .iter()
        .map(|&i| files[i].name.as_str())
        .collect();
    assert_eq!(unpaid, vec!["HI20250301-02_elm-rd.typ"]);
    let paid: Vec<&str> = select_entries(&all, Selection::Listed { paid: true })
        .iter()
        .map(|&i| files[i].name.as_str())
        .collect();
    assert_eq!(paid, vec!["HI20250301-01_main-st_PAID.pdf"]);

    let sources: Vec<SourceText> = select_entries(&all, Selection::Summarized)
        .iter()
        .map(|&i| SourceText { file_name: files[i].name.clone(), text: Some(files[i].text.clone()) })
        .collect();
    assert_eq!(sources.len(), 2);
    let summary = summarize(2025, &gather_invoices(&sources)).unwrap();
    assert_eq!(summary.months.len(), 1);
    assert_eq!(summary.months[0].month, 3);
    assert_eq!((summary.paid.mantissa(), summary.paid.scale()), (1100, 1));
    assert_eq!((summary.unpaid.mantissa(), summary.unpaid.scale()), (55550, 3));
    let clients: Vec<&str> = summary.clients.iter().map(|r| r.name.as_str()).collect();
    assert_eq!(clients, vec!["Acme", "Bolt"]);

    issue(&mut files, (2025, 3, 1), "oak-ave", "1", "Crane");
    assert!(files.iter().any(|f| f.name == "HI20250301-03_oak-ave.typ"));
}
