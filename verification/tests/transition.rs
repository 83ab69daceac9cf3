use invoice_ledger::commit::advance;
use invoice_ledger::commit::file_name;
use invoice_ledger::commit::plan_transition;
use invoice_ledger::commit::Event;
use invoice_ledger::commit::Outcome;
use invoice_ledger::commit::Phase;
use invoice_ledger::commit::Step;
use invoice_ledger::extract::extract_facts;
use invoice_ledger::ident::invoice_id;
use invoice_ledger::ident::invoice_stem;
use invoice_ledger::model::new_project;
use invoice_ledger::model::Address;
use invoice_ledger::status::candidates;
use invoice_ledger::status::select_entries;
use invoice_ledger::status::status_of_stem;
use invoice_ledger::status::Action;
use invoice_ledger::status::InvoiceStatus;
use invoice_ledger::status::LedgerEntry;
use invoice_ledger::status::Selection;
use invoice_ledger::transition::transition;
use invoice_ledger::transition::Document;
use invoice_ledger::transition::TransitionError;

fn doc(stem: &str, content: &str) -> Document {
    Document { stem: stem.to_string(), content: content.to_string() }
}

const UNPAID_TEXT: &str =
    "#invoice((id: \"HI20250301-01\", items: ((amount: 10.5),), is_void: false, is_paid: false))";

#[test]
fn paying_sets_flag_and_suffix() {
    let paid = transition(&doc("HI20250301-01_a", UNPAID_TEXT), InvoiceStatus::Paid).unwrap();
    assert_eq!(paid.stem, "HI20250301-01_a_PAID");
    assert_eq!(
        paid.content,
        "#invoice((id: \"HI20250301-01\", items: ((amount: 10.5),), is_void: false, is_paid: true))"
    );
    assert!(extract_facts(&paid.content).unwrap().is_paid);
}

#[test]
fn pay_then_unpay_restores_the_document() {
    let start = doc("HI20250301-01_a", UNPAID_TEXT);
    let paid = transition(&start, InvoiceStatus::Paid).unwrap();
    let back = transition(&paid, InvoiceStatus::Unpaid).unwrap();
    assert_eq!(back.stem, start.stem);
    assert_eq!(back.content, start.content);
    assert!(!extract_facts(&back.content).unwrap().is_paid);
}

#[test]
fn unpaying_takes_out_every_paid_suffix() {
    let back = transition(
        &doc("HI20250301-01_PAID_a_PAID", "(is_paid: true)"),
        InvoiceStatus::Unpaid,
    )
    .unwrap();
    assert_eq!(back.stem, "HI20250301-01_a");
    assert_eq!(back.content, "(is_paid: false)");
}

#[test]
fn every_flag_of_the_text_is_rewritten() {
    let paid = transition(
        &doc("a", "(is_paid: false, copy: (is_paid: false))"),
        InvoiceStatus::Paid,
    )
    .unwrap();
    assert_eq!(paid.content, "(is_paid: true, copy: (is_paid: true))");
}

#[test]
fn voiding_sets_flag_and_suffix() {
    let void = transition(&doc("HI20250301-01_a", UNPAID_TEXT), InvoiceStatus::Void).unwrap();
    assert_eq!(void.stem, "HI20250301-01_a_VOID");
    assert_eq!(
        void.content,
        "#invoice((id: \"HI20250301-01\", items: ((amount: 10.5),), is_void: true, is_paid: false))"
    );
}

#[test]
fn voiding_a_document_without_the_flag_adds_it() {
    let legacy = doc("HI20240105-01_a", "#invoice((id: \"x\", is_paid: false))\n");
    let void = transition(&legacy, InvoiceStatus::Void).unwrap();
    assert_eq!(void.content, "#invoice((id: \"x\", is_paid: false), is_void: true)\n");
    assert_eq!(void.stem, "HI20240105-01_a_VOID");
    assert_eq!(status_of_stem(&void.stem), InvoiceStatus::Void);
    let entries = vec![
        LedgerEntry { file_name: file_name(&void.stem, "typ"), modified: Some(1) },
        LedgerEntry { file_name: file_name(&void.stem, "pdf"), modified: Some(2) },
    ];
    for action in [Action::Pay, Action::Unpay, Action::Void] {
        assert!(candidates(&entries, action, false).is_empty());
        assert!(candidates(&entries, action, true).is_empty());
    }
    assert!(select_entries(&entries, Selection::Summarized).is_empty());
    assert!(select_entries(&entries, Selection::Listed { paid: true }).is_empty());
    assert!(select_entries(&entries, Selection::Listed { paid: false }).is_empty());
}

#[test]
fn a_flag_that_is_set_already_is_left_alone() {
    let void = transition(&doc("a", "(is_void: true)"), InvoiceStatus::Void).unwrap();
    assert_eq!(void.content, "(is_void: true)");
    assert_eq!(void.stem, "a_VOID");
}

#[test]
fn paying_a_document_without_the_flag_adds_it() {
    let paid = transition(&doc("a", "#invoice((id: 1))"), InvoiceStatus::Paid).unwrap();
    assert_eq!(paid.content, "#invoice((id: 1), is_paid: true)");
    assert!(extract_facts(&paid.content).unwrap().is_paid);
}

#[test]
fn voiding_a_paid_invoice_replaces_the_suffix() {
    let void = transition(
        &doc("HI20250301-01_a_PAID", "(is_paid: true, is_void: false)"),
        InvoiceStatus::Void,
    )
    .unwrap();
    assert_eq!(void.stem, "HI20250301-01_a_VOID");
    assert_eq!(void.content, "(is_paid: true, is_void: true)");
}

#[test]
fn void_is_final() {
    let void = transition(&doc("HI20250301-01_a", UNPAID_TEXT), InvoiceStatus::Void).unwrap();
    for target in [InvoiceStatus::Unpaid, InvoiceStatus::Paid, InvoiceStatus::Void] {
        assert_eq!(transition(&void, target).unwrap_err(), TransitionError::Terminal);
    }
}

#[test]
fn a_transition_to_the_status_at_hand_is_refused() {
    assert_eq!(
        transition(&doc("a", UNPAID_TEXT), InvoiceStatus::Unpaid).unwrap_err(),
        TransitionError::NoChange
    );
    assert_eq!(
        transition(&doc("a_PAID", "(is_paid: true)"), InvoiceStatus::Paid).unwrap_err(),
        TransitionError::NoChange
    );
}

#[test]
fn a_text_that_cannot_take_the_flag_is_refused() {
    assert_eq!(
        transition(&doc("a", "no flag and no delimiter"), InvoiceStatus::Void).unwrap_err(),
        TransitionError::Unwritable
    );
    assert_eq!(
        transition(&doc("a", ""), InvoiceStatus::Paid).unwrap_err(),
        TransitionError::Unwritable
    );
}

#[test]
fn the_flag_is_added_before_the_last_delimiter() {
    let void = transition(&doc("a", "f(a) g(b) tail"), InvoiceStatus::Void).unwrap();
    assert_eq!(void.content, "f(a) g(b, is_void: true) tail");
}

#[test]
fn the_plan_names_old_and_new_files() {
    let plan = plan_transition(&doc("HI20250301-01_a", UNPAID_TEXT), InvoiceStatus::Paid).unwrap();
    assert_eq!(plan.old_source, "HI20250301-01_a.typ");
    assert_eq!(plan.old_binary, "HI20250301-01_a.pdf");
    assert_eq!(plan.new_source, "HI20250301-01_a_PAID.typ");
    assert_eq!(plan.new_binary, "HI20250301-01_a_PAID.pdf");
    assert!(plan.renamed);
    assert!(plan.content.contains("is_paid: true"));
}

#[test]
fn a_refused_transition_has_no_plan() {
    assert_eq!(
        plan_transition(&doc("a_VOID", UNPAID_TEXT), InvoiceStatus::Paid).unwrap_err(),
        TransitionError::Terminal
    );
}

fn run(events: &[Event], renamed: bool) -> (Phase, Vec<Step>) {
    let mut phase = Phase::Planned;
    let mut steps = Vec::new();
    for event in events {
        if let Some((next, step)) = advance(phase, *event, renamed) {
            phase = next;
            steps.push(step);
        }
    }
    (phase, steps)
}

#[test]
fn a_transition_is_carried_out_in_order() {
    let (phase, steps) = run(
        &[Event::Start, Event::Written(true), Event::Removed, Event::Compiled(true)],
        true,
    );
    assert_eq!(phase, Phase::Finished(Outcome::Completed));
    assert_eq!(
        steps,
        vec![Step::WriteNew, Step::RemoveOld, Step::Compile, Step::Report(Outcome::Completed)]
    );
}

#[test]
fn nothing_is_removed_where_the_name_stays() {
    let (phase, steps) = run(&[Event::Start, Event::Written(true), Event::Compiled(true)], false);
    assert_eq!(phase, Phase::Finished(Outcome::Completed));
    assert_eq!(steps, vec![Step::WriteNew, Step::Compile, Step::Report(Outcome::Completed)]);
}

#[test]
fn a_failed_write_ends_the_transition_before_any_removal() {
    let (phase, steps) = run(&[Event::Start, Event::Written(false), Event::Removed], true);
    assert_eq!(phase, Phase::Finished(Outcome::RewriteFailed));
    assert_eq!(steps, vec![Step::WriteNew, Step::Report(Outcome::RewriteFailed)]);
}

#[test]
fn a_failed_compilation_is_told_apart() {
    let (phase, steps) = run(
        &[Event::Start, Event::Written(true), Event::Removed, Event::Compiled(false)],
        true,
    );
    assert_eq!(phase, Phase::Finished(Outcome::RecompileFailed));
    assert_eq!(steps.last(), Some(&Step::Report(Outcome::RecompileFailed)));
}

#[test]
fn events_out_of_place_are_refused() {
    assert_eq!(advance(Phase::Planned, Event::Compiled(true), true), None);
    assert_eq!(advance(Phase::Writing, Event::Removed, true), None);
    assert_eq!(advance(Phase::Removing, Event::Written(true), true), None);
    assert_eq!(advance(Phase::Finished(Outcome::Completed), Event::Start, true), None);
}

#[test]
fn unpaying_agrees_with_taking_out_the_suffix_text() {
    for stem in ["a_PAID", "a_PA_PAIDID_PAID", "_PAID_PAID", "x_PAIDy_PAID", "__PAID", "é_PAIDé_PAID"] {
        let back = transition(&doc(stem, "(is_paid: true)"), InvoiceStatus::Unpaid).unwrap();
        assert_eq!(back.stem, stem.replace("_PAID", ""));
    }
}

#[test]
fn rewriting_agrees_with_replacing_the_flag_text() {
    for text in [
        "(is_paid: false)",
        "is_paid: falseis_paid: false",
        "is_paid: is_paid: false",
        "is_pais_paid: falseid: false",
        "(is_paid:  false, is_paid: false)",
        "é(is_paid: false)é",
    ] {
        let paid = transition(&doc("a", text), InvoiceStatus::Paid).unwrap();
        assert_eq!(paid.content, text.replace("is_paid: false", "is_paid: true"));
    }
}

#[test]
fn issued_stems_keep_identifier_and_project() {
    for street in ["12 PAID Street", "_PAID_VOID", "Void Avenue 5", "Main St"] {
        let address = Address {
            street: street.to_string(),
            city: String::new(),
            state: String::new(),
            zip: String::new(),
        };
        let project = new_project("", address);
        let stem = invoice_stem(&invoice_id("HI20250301", 7), &project.id);
        let start = doc(&stem, UNPAID_TEXT);
        let paid = transition(&start, InvoiceStatus::Paid).unwrap();
        assert_eq!(paid.stem, format!("{stem}_PAID"));
        let back = transition(&paid, InvoiceStatus::Unpaid).unwrap();
        assert_eq!(back.stem, stem);
        assert_eq!(back.content, start.content);
        let void = transition(&paid, InvoiceStatus::Void).unwrap();
        assert_eq!(void.stem, format!("{stem}_VOID"));
    }
}
