use invoice_ledger::model::address_defaults;
use invoice_ledger::model::address_wanted;
use invoice_ledger::model::expand_home;
use invoice_ledger::model::find_project;
use invoice_ledger::model::folder_label;
use invoice_ledger::model::folder_options;
use invoice_ledger::model::is_blank_text;
use invoice_ledger::model::label_street;
use invoice_ledger::model::new_client;
use invoice_ledger::model::new_project;
use invoice_ledger::model::parse_folder_choice;
use invoice_ledger::model::project_label;
use invoice_ledger::model::project_labels;
use invoice_ledger::model::Address;
use invoice_ledger::model::Project;

fn address(street: &str) -> Address {
    Address {
        street: street.to_string(),
        city: "Old Saybrook".to_string(),
        state: "CT".to_string(),
        zip: "06475".to_string(),
    }
}

fn project(name: Option<&str>, street: &str) -> Project {
    Project { id: String::new(), name: name.map(|n| n.to_string()), address: address(street) }
}

#[test]
fn a_company_client_keeps_its_contact() {
    let client = new_client("  Acme & Sons  ", "Jane Doe", " jane@acme.test ", None);
    assert_eq!(client.id, "acme-sons");
    assert_eq!(client.config.name, "Acme & Sons");
    assert_eq!(client.config.attn.as_deref(), Some("Jane Doe"));
    assert_eq!(client.config.email.as_deref(), Some(" jane@acme.test "));
    assert!(client.config.billing_address.is_none());
    assert!(client.config.projects.is_empty());
}

#[test]
fn a_client_without_a_company_is_named_by_the_person() {
    let client = new_client("   ", "Jane Doe", "  ", Some(address("1 Main St")));
    assert_eq!(client.id, "jane-doe");
    assert_eq!(client.config.name, "Attn: Jane Doe");
    assert!(client.config.attn.is_none());
    assert!(client.config.email.is_none());
    assert_eq!(client.config.billing_address.unwrap().street, "1 Main St");
}

#[test]
fn a_project_is_identified_by_its_street() {
    let p = new_project("Kitchen", address("12 Main St, Apt #4"));
    assert_eq!(p.id, "12-main-st-apt-4");
    assert_eq!(p.name.as_deref(), Some("Kitchen"));
    assert_eq!(p.address.street, "12 Main St, Apt #4");
    let p = new_project(" \t", address("5 Elm Rd"));
    assert_eq!(p.id, "5-elm-rd");
    assert!(p.name.is_none());
}

#[test]
fn identifiers_are_slugs() {
    for text in ["  --Hello, World!!  ", "Æúű--cool?", "You & Me", "---", "", "A"] {
        let id = new_client(text, "x", "", None).id;
        assert!(id.chars().all(|c| c.is_ascii_lowercase() || c.is_ascii_digit() || c == '-'));
        assert!(!id.starts_with('-') && !id.ends_with('-') && !id.contains("--"));
        let project_id = new_project("", address(text)).id;
        assert!(!project_id.starts_with('-') && !project_id.ends_with('-'));
    }
    assert_eq!(new_client("Æúű--cool?", "x", "", None).id, "aeuu-cool");
}

#[test]
fn projects_are_offered_by_name_and_street() {
    assert_eq!(project_label(&project(Some("Kitchen"), "12 Main St")), "Kitchen | 12 Main St");
    assert_eq!(project_label(&project(None, "5 Elm Rd")), "Project | 5 Elm Rd");
    let labels = project_labels(&vec![project(Some("A"), "1"), project(None, "2")]);
    assert_eq!(labels, vec!["A | 1".to_string(), "Project | 2".to_string()]);
}

#[test]
fn the_street_is_what_follows_the_last_separator() {
    assert_eq!(label_street("Kitchen | 12 Main St"), "12 Main St");
    assert_eq!(label_street("A | B | C"), "C");
    assert_eq!(label_street("no separator"), "no separator");
    assert_eq!(label_street("ends | "), "");
    assert_eq!(label_street(" | | "), "| ");
    for label in ["A | B", " | | ", "x |  | y", "", " | ", "a | b | "] {
        assert_eq!(label_street(label), label.split(" | ").last().unwrap());
    }
}

#[test]
fn the_first_project_at_the_street_is_found() {
    let projects = vec![
        project(Some("A"), "1 Main St"),
        project(Some("B"), "2 Main St"),
        project(Some("C"), "2 Main St"),
    ];
    assert_eq!(find_project(&projects, "B | 2 Main St"), Some(1));
    assert_eq!(find_project(&projects, "whatever | 1 Main St"), Some(0));
    assert_eq!(find_project(&projects, "A | 3 Main St"), None);
    assert_eq!(find_project(&Vec::new(), "A | 1 Main St"), None);
}

#[test]
fn blank_is_empty_or_white_space() {
    assert!(is_blank_text(""));
    assert!(is_blank_text(" \t\n\u{00a0}"));
    assert!(!is_blank_text(" x "));
}

#[test]
fn an_optional_address_is_skipped_on_a_blank_street() {
    assert!(!address_wanted(true, "  "));
    assert!(address_wanted(true, "1 Main St"));
    assert!(address_wanted(false, "  "));
    assert!(address_wanted(false, "1 Main St"));
}

#[test]
fn a_known_postal_code_proposes_city_and_state() {
    assert_eq!(address_defaults("06475"), ("Old Saybrook".to_string(), "CT".to_string()));
    assert_eq!(address_defaults(" 06475 "), ("Old Saybrook".to_string(), "CT".to_string()));
}

#[test]
fn other_postal_codes_propose_nothing() {
    for zip in ["", "   ", "abc", "123", "00000", "1234\u{00e9}", "\u{0660}6475"] {
        assert_eq!(address_defaults(zip), (String::new(), String::new()));
    }
}

#[test]
fn a_leading_tilde_becomes_the_home_directory() {
    assert_eq!(expand_home("~/Documents/Business", Some("/home/jo")), "/home/jo/Documents/Business");
    assert_eq!(expand_home("~", Some("/home/jo")), "/home/jo");
    assert_eq!(expand_home("/srv/~data", Some("/home/jo")), "/srv/~data");
    assert_eq!(expand_home("~/x", None), "~/x");
    assert_eq!(expand_home("", Some("/home/jo")), "");
    assert_eq!(expand_home("~/a~b", Some("/h")), "/h/a~b");
}

#[test]
fn folders_are_offered_latest_year_first() {
    assert_eq!(folder_label("2025", "acme"), "2025 / acme");
    let labels: Vec<String> =
        ["2024 / bolt", "2025 / acme", "2023 / acme", "2025 / bolt", "2024 / acme"]
            .iter()
            .map(|s| s.to_string())
            .collect();
    let mut expected = labels.clone();
    expected.sort();
    expected.reverse();
    assert_eq!(folder_options(&labels), expected);
    assert_eq!(folder_options(&labels)[0], "2025 / bolt");
    assert!(folder_options(&Vec::new()).is_empty());
}

#[test]
fn a_folder_choice_names_year_and_client() {
    assert_eq!(
        parse_folder_choice("2025 / acme"),
        Some(("2025".to_string(), "acme".to_string()))
    );
    assert_eq!(parse_folder_choice("no separator"), None);
    assert_eq!(parse_folder_choice("a / b / c"), None);
    assert_eq!(parse_folder_choice(" / "), Some((String::new(), String::new())));
    for choice in ["2025 / acme", "x", "a / b / c", " /  / ", " / / "] {
        let parts: Vec<&str> = choice.split(" / ").collect();
        let expected = if parts.len() == 2 {
            Some((parts[0].to_string(), parts[1].to_string()))
        } else {
            None
        };
        assert_eq!(parse_folder_choice(choice), expected);
    }
}
