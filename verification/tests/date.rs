use invoice_ledger::date::InvoiceDate;

#[test]
fn new_accepts_days_of_the_calendar() {
    assert!(InvoiceDate::new(2025, 3, 1).is_some());
    assert!(InvoiceDate::new(2024, 2, 29).is_some());
    assert!(InvoiceDate::new(2000, 2, 29).is_some());
    assert!(InvoiceDate::new(0, 1, 1).is_some());
    assert!(InvoiceDate::new(9999, 12, 31).is_some());
}

#[test]
fn new_refuses_what_the_calendar_lacks() {
    assert!(InvoiceDate::new(2025, 2, 29).is_none());
    assert!(InvoiceDate::new(1900, 2, 29).is_none());
    assert!(InvoiceDate::new(2025, 4, 31).is_none());
    assert!(InvoiceDate::new(2025, 0, 1).is_none());
    assert!(InvoiceDate::new(2025, 13, 1).is_none());
    assert!(InvoiceDate::new(2025, 1, 0).is_none());
    assert!(InvoiceDate::new(10000, 1, 1).is_none());
}

#[test]
fn compact_writes_eight_digits() {
    assert_eq!(InvoiceDate::new(2025, 3, 1).unwrap().compact(), "20250301");
    assert_eq!(InvoiceDate::new(7, 12, 31).unwrap().compact(), "00071231");
    assert_eq!(InvoiceDate::new(0, 1, 1).unwrap().compact(), "00000101");
}

#[test]
fn parse_compact_reads_eight_digits() {
    let date = InvoiceDate::parse_compact("20251214").unwrap();
    assert_eq!((date.year(), date.month(), date.day()), (2025, 12, 14));
    let date = InvoiceDate::parse_compact("00000229").unwrap();
    assert_eq!((date.year(), date.month(), date.day()), (0, 2, 29));
}

#[test]
fn parse_compact_refuses_other_text() {
    assert!(InvoiceDate::parse_compact("20250230").is_none());
    assert!(InvoiceDate::parse_compact("20251301").is_none());
    assert!(InvoiceDate::parse_compact("20250100").is_none());
    assert!(InvoiceDate::parse_compact("2025031").is_none());
    assert!(InvoiceDate::parse_compact("202503011").is_none());
    assert!(InvoiceDate::parse_compact(" 2025031").is_none());
    assert!(InvoiceDate::parse_compact("+2025031").is_none());
    assert!(InvoiceDate::parse_compact("2025\u{0660}301").is_none());
    assert!(InvoiceDate::parse_compact("").is_none());
}

#[test]
fn compact_round_trip() {
    for (y, m, d) in [(2025u16, 3u8, 1u8), (1999, 12, 31), (2024, 2, 29), (1, 1, 1)] {
        let date = InvoiceDate::new(y, m, d).unwrap();
        let back = InvoiceDate::parse_compact(&date.compact()).unwrap();
        assert_eq!((back.year(), back.month(), back.day()), (y, m, d));
    }
}

#[test]
fn reading_agrees_with_the_calendar_on_every_day_number() {
    for year in [0u16, 1, 4, 100, 400, 1582, 1900, 2000, 2023, 2024, 2100, 9999] {
        for month in 0u8..=13 {
            for day in 0u8..=32 {
                let text = format!("{:04}{:02}{:02}", year, month, day);
                let read = InvoiceDate::parse_compact(&text);
                let made = InvoiceDate::new(year, month, day);
                assert_eq!(read.is_some(), made.is_some(), "{}", text);
                if let (Some(a), Some(b)) = (read, made) {
                    assert_eq!((a.year(), a.month(), a.day()), (b.year(), b.month(), b.day()));
                    assert_eq!(b.compact(), text);
                }
            }
        }
    }
}

#[test]
fn digit_pairs_beyond_the_calendar_are_refused() {
    for text in ["00000000", "20259901", "20250199", "99991232", "20250631"] {
        assert!(InvoiceDate::parse_compact(text).is_none(), "{}", text);
    }
    assert!(InvoiceDate::parse_compact("99991231").is_some());
}
