use invoice_ledger::decimal::Decimal;
use invoice_ledger::extract::client_display_name;
use invoice_ledger::extract::extract_facts;
use invoice_ledger::extract::facts_from_captures;
use invoice_ledger::extract::subtotal;
use invoice_ledger::extract::ExtractError;

fn as_f64(d: &Decimal) -> f64 {
    d.mantissa() as f64 / 10f64.powi(d.scale() as i32)
}

fn texts(list: &[&str]) -> Vec<String> {
    list.iter().map(|s| s.to_string()).collect()
}

#[test]
fn three_items_with_tax_total() {
    let text = "#invoice(\n  items: (\n    (description: \"a\", amount: 10.00),\n    (description: \"b\", amount: 20.00),\n    (description: \"c\", amount: 5.00),\n  ),\n  tax_rate: 0.08,\n  is_paid: false,\n  client: (name: \"Acme Corp\", email: none),\n)";
    let facts = extract_facts(text).unwrap();
    assert_eq!(facts.total.mantissa(), 378000);
    assert_eq!(facts.total.scale(), 4);
    assert_eq!(as_f64(&facts.total), 37.80);
    assert_eq!(format!("{:.2}", as_f64(&facts.total)), "37.80");
    assert_eq!(facts.total.fixed_text(2), "37.80");
    assert!(!facts.is_paid);
    assert_eq!(facts.client, "Acme Corp");
}

#[test]
fn absent_fields_take_their_defaults() {
    let facts = extract_facts("nothing to see").unwrap();
    assert_eq!((facts.total.mantissa(), facts.total.scale()), (0, 0));
    assert!(!facts.is_paid);
    assert_eq!(facts.client, "Unknown Client");
}

#[test]
fn without_a_tax_rate_the_total_is_the_sum() {
    let facts = extract_facts("amount: 12.5, amount:7, is_paid: true").unwrap();
    assert_eq!((facts.total.mantissa(), facts.total.scale()), (195, 1));
    assert!(facts.is_paid);
}

#[test]
fn the_first_flag_and_the_first_rate_count() {
    let facts =
        extract_facts("is_paid:  true, is_paid: false, tax_rate: 0.5, tax_rate: 0.25, amount: 2")
            .unwrap();
    assert!(facts.is_paid);
    assert_eq!((facts.total.mantissa(), facts.total.scale()), (30, 1));
}

#[test]
fn a_contact_client_loses_its_label() {
    let text = "client: ( name: \"Attn: Jane Doe\" )";
    assert_eq!(extract_facts(text).unwrap().client, "Jane Doe");
}

#[test]
fn client_names_are_trimmed_of_any_white_space() {
    assert_eq!(client_display_name(Some("  Acme \t")), "Acme");
    assert_eq!(client_display_name(Some("\u{00a0}Acme\u{2003}\n")), "Acme");
    assert_eq!(client_display_name(Some(" \t ")), "");
    assert_eq!(client_display_name(Some("Attn:")), "");
    assert_eq!(client_display_name(Some("Attn: \u{3000}Jo\u{2028}")), "Jo");
    assert_eq!(client_display_name(None), "Unknown Client");
}

#[test]
fn only_a_leading_label_is_taken_off() {
    assert_eq!(client_display_name(Some("Attn: Jane Doe")), "Jane Doe");
    assert_eq!(client_display_name(Some("Smith Attn: Jones")), "Smith Attn: Jones");
    assert_eq!(client_display_name(Some("Attn:Attn: Jo Attn:")), "Attn: Jo Attn:");
    assert_eq!(client_display_name(Some(" Attn: Jo")), "Attn: Jo");
    assert_eq!(client_display_name(Some("attn: Jo")), "attn: Jo");
    assert_eq!(client_display_name(Some("Attn")), "Attn");
    let text = "client: (name: \"Smith Attn: Jones\"), amount: 1.00";
    let facts = extract_facts(text).unwrap();
    assert_eq!(facts.client, "Smith Attn: Jones");
    assert_eq!((facts.total.mantissa(), facts.total.scale()), (100, 2));
    assert!(!facts.is_paid);
}

#[test]
fn client_names_agree_with_strip_prefix_and_trim() {
    for name in ["Attn: A B", " x ", "AtAttn:tn: y", "\u{3000}z\u{3000}", "", "plain", "x Attn: y"] {
        let expected = name.strip_prefix("Attn:").unwrap_or(name).trim();
        assert_eq!(client_display_name(Some(name)), expected);
    }
}

#[test]
fn white_space_is_what_the_standard_library_trims() {
    for code in 0u32..=0x10ffff {
        if let Some(c) = char::from_u32(code) {
            let padded = format!("{c}x{c}");
            let shown = client_display_name(Some(&padded));
            assert_eq!(shown, padded.trim(), "U+{:04X}", code);
            assert_eq!(shown == "x", c.is_whitespace(), "U+{:04X}", code);
        }
    }
}

#[test]
fn amounts_that_are_no_numerals_are_passed_over() {
    let facts = extract_facts("amount: 1.2.3, amount: 4, amount: ., amount: 0.5").unwrap();
    assert_eq!((facts.total.mantissa(), facts.total.scale()), (45, 1));
    assert_eq!(subtotal(&texts(&["1..", "\u{0663}", "2"])).unwrap().mantissa(), 2);
}

#[test]
fn a_tax_rate_that_is_no_numeral_counts_as_zero() {
    let facts = extract_facts("amount: 4, tax_rate: 0.0.8").unwrap();
    assert_eq!((facts.total.mantissa(), facts.total.scale()), (4, 0));
}

#[test]
fn numerals_too_long_to_hold_fail_the_document() {
    let text = format!("amount: {}", "9".repeat(40));
    assert_eq!(extract_facts(&text).unwrap_err(), ExtractError::NumberOutOfRange);
    let text = format!("amount: 1, tax_rate: 0.{}", "3".repeat(39));
    assert_eq!(extract_facts(&text).unwrap_err(), ExtractError::NumberOutOfRange);
    let text = format!("amount: {m}, amount: {m}", m = "340282366920938463463374607431768211455");
    assert_eq!(extract_facts(&text).unwrap_err(), ExtractError::NumberOutOfRange);
    let text = format!("amount: 0.{}, tax_rate: 0.{}", "1".repeat(20), "1".repeat(20));
    assert_eq!(extract_facts(&text).unwrap_err(), ExtractError::NumberOutOfRange);
}

#[test]
fn sums_agree_with_floating_point_on_ordinary_amounts() {
    let text = "amount: 1234.56, amount: 0.44, amount: 765, tax_rate: 0.08875";
    let facts = extract_facts(text).unwrap();
    let float = (1234.56f64 + 0.44 + 765.0) * (1.0 + 0.08875);
    assert!((as_f64(&facts.total) - float).abs() < 1e-9);
    assert_eq!(format!("{:.2}", as_f64(&facts.total)), format!("{:.2}", float));
}

#[test]
fn facts_follow_from_the_captured_texts() {
    let facts = facts_from_captures(
        &texts(&["10.00", "20.00", "5.00"]),
        &Some("0.08".to_string()),
        &Some("true".to_string()),
        &Some("Attn: Sam".to_string()),
    )
    .unwrap();
    assert_eq!((facts.total.mantissa(), facts.total.scale()), (378000, 4));
    assert!(facts.is_paid);
    assert_eq!(facts.client, "Sam");
    let facts = facts_from_captures(&texts(&[]), &None, &Some("false".to_string()), &None).unwrap();
    assert!(!facts.is_paid);
    let facts = facts_from_captures(&texts(&[]), &None, &Some("truex".to_string()), &None).unwrap();
    assert!(!facts.is_paid);
}
