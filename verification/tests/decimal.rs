use invoice_ledger::decimal::Decimal;
use invoice_ledger::decimal::NumberError;

fn dec(mantissa: u128, scale: u8) -> Decimal {
    Decimal::new(mantissa, scale).unwrap()
}

#[test]
fn parse_keeps_digits_and_scale() {
    let d = Decimal::parse("10.00").unwrap();
    assert_eq!((d.mantissa(), d.scale()), (1000, 2));
    let d = Decimal::parse("0.08875").unwrap();
    assert_eq!((d.mantissa(), d.scale()), (8875, 5));
    let d = Decimal::parse("42").unwrap();
    assert_eq!((d.mantissa(), d.scale()), (42, 0));
}

#[test]
fn parse_accepts_a_point_at_either_end() {
    let d = Decimal::parse("5.").unwrap();
    assert_eq!((d.mantissa(), d.scale()), (5, 0));
    let d = Decimal::parse(".5").unwrap();
    assert_eq!((d.mantissa(), d.scale()), (5, 1));
}

#[test]
fn parse_rejects_what_is_no_numeral() {
    assert_eq!(Decimal::parse("").unwrap_err(), NumberError::Malformed);
    assert_eq!(Decimal::parse(".").unwrap_err(), NumberError::Malformed);
    assert_eq!(Decimal::parse("1.2.3").unwrap_err(), NumberError::Malformed);
    assert_eq!(Decimal::parse("12a").unwrap_err(), NumberError::Malformed);
    assert_eq!(Decimal::parse("\u{0663}").unwrap_err(), NumberError::Malformed);
}

#[test]
fn parse_reports_numerals_too_long_to_hold() {
    let long = "9".repeat(40);
    assert_eq!(Decimal::parse(&long).unwrap_err(), NumberError::OutOfRange);
    let fine = format!("0.{}", "1".repeat(39));
    assert_eq!(Decimal::parse(&fine).unwrap_err(), NumberError::OutOfRange);
    let max = "340282366920938463463374607431768211455";
    assert_eq!(Decimal::parse(max).unwrap().mantissa(), u128::MAX);
    let over = "340282366920938463463374607431768211456";
    assert_eq!(Decimal::parse(over).unwrap_err(), NumberError::OutOfRange);
}

#[test]
fn malformed_wins_over_out_of_range() {
    let text = format!("{}..", "9".repeat(40));
    assert_eq!(Decimal::parse(&text).unwrap_err(), NumberError::Malformed);
}

#[test]
fn new_refuses_a_scale_beyond_the_limit() {
    assert!(Decimal::new(1, 38).is_some());
    assert!(Decimal::new(1, 39).is_none());
}

#[test]
fn add_aligns_to_the_finer_scale() {
    let sum = dec(1000, 2).add(&dec(5, 1)).unwrap();
    assert_eq!((sum.mantissa(), sum.scale()), (1050, 2));
    let sum = dec(7, 0).add(&dec(25, 3)).unwrap();
    assert_eq!((sum.mantissa(), sum.scale()), (7025, 3));
}

#[test]
fn add_fails_where_the_sum_does_not_fit() {
    assert!(dec(u128::MAX, 0).add(&dec(1, 0)).is_none());
    assert!(dec(u128::MAX, 0).add(&dec(0, 1)).is_none());
    assert!(dec(u128::MAX, 0).add(&dec(0, 0)).is_some());
}

#[test]
fn with_rate_multiplies_by_one_plus_rate() {
    let total = dec(3500, 2).with_rate(&dec(8, 2)).unwrap();
    assert_eq!((total.mantissa(), total.scale()), (378000, 4));
    let same = dec(3500, 2).with_rate(&Decimal::zero()).unwrap();
    assert_eq!((same.mantissa(), same.scale()), (3500, 2));
}

#[test]
fn with_rate_fails_beyond_the_limits() {
    assert!(dec(1, 20).with_rate(&dec(1, 19)).is_none());
    assert!(dec(1, 19).with_rate(&dec(1, 19)).is_some());
    assert!(dec(u128::MAX, 0).with_rate(&dec(1, 0)).is_none());
    assert!(dec(0, 0).with_rate(&dec(u128::MAX, 0)).is_some());
}

#[test]
fn le_compares_values_not_digits() {
    assert!(dec(10, 1).le(&dec(1, 0)));
    assert!(dec(1, 0).le(&dec(10, 1)));
    assert!(dec(99, 2).le(&dec(1, 0)));
    assert!(!dec(1, 0).le(&dec(99, 2)));
    assert!(!dec(u128::MAX, 0).le(&dec(u128::MAX, 1)));
    assert!(dec(u128::MAX, 1).le(&dec(u128::MAX, 0)));
}

#[test]
fn is_positive_tells_zero_apart() {
    assert!(!Decimal::zero().is_positive());
    assert!(!dec(0, 5).is_positive());
    assert!(dec(1, 38).is_positive());
}

#[test]
fn fixed_text_writes_a_given_number_of_places() {
    assert_eq!(dec(378000, 4).fixed_text(2), "37.80");
    assert_eq!(dec(100, 0).fixed_text(2), "100.00");
    assert_eq!(dec(5, 1).fixed_text(2), "0.50");
    assert_eq!(dec(5, 3).fixed_text(2), "0.00");
    assert_eq!(dec(0, 0).fixed_text(2), "0.00");
    assert_eq!(dec(0, 38).fixed_text(0), "0");
    assert_eq!(dec(123456, 3).fixed_text(0), "123");
    assert_eq!(dec(123456, 3).fixed_text(1), "123.5");
    assert_eq!(dec(123456, 3).fixed_text(3), "123.456");
    assert_eq!(dec(123456, 3).fixed_text(6), "123.456000");
    assert_eq!(dec(1005, 3).fixed_text(2), "1.00");
    assert_eq!(dec(7, 2).fixed_text(40), format!("0.07{}", "0".repeat(38)));
}

#[test]
fn rounding_goes_to_the_nearest_and_ties_to_the_even() {
    assert_eq!(dec(125, 3).fixed_text(2), "0.12");
    assert_eq!(dec(135, 3).fixed_text(2), "0.14");
    assert_eq!(dec(1251, 4).fixed_text(2), "0.13");
    assert_eq!(dec(1249, 4).fixed_text(2), "0.12");
    assert_eq!(dec(25, 1).fixed_text(0), "2");
    assert_eq!(dec(35, 1).fixed_text(0), "4");
    assert_eq!(dec(5, 1).fixed_text(0), "0");
    assert_eq!(dec(15, 1).fixed_text(0), "2");
    assert_eq!(dec(9995, 3).fixed_text(2), "10.00");
    assert_eq!(dec(99999, 3).fixed_text(2), "100.00");
    let r = dec(9995, 3).rounded(2);
    assert_eq!((r.mantissa(), r.scale()), (1000, 2));
    let r = dec(5, 1).rounded(3);
    assert_eq!((r.mantissa(), r.scale()), (5, 1));
}

#[test]
fn the_largest_numbers_are_shown_exactly() {
    assert_eq!(
        dec(u128::MAX, 0).fixed_text(2),
        "340282366920938463463374607431768211455.00"
    );
    assert_eq!(dec(u128::MAX, 38).fixed_text(2), "3.40");
    assert_eq!(dec(u128::MAX, 1).fixed_text(0), "34028236692093846346337460743176821146");
    assert_eq!(
        dec(u128::MAX, 38).fixed_text(38),
        "3.40282366920938463463374607431768211455"
    );
}

#[test]
fn fixed_text_agrees_with_float_formatting_where_floats_are_exact() {
    for eighths in 0u128..=400 {
        let d = dec(eighths * 125, 3);
        let float = eighths as f64 / 8.0;
        assert_eq!(d.fixed_text(2), format!("{:.2}", float));
        assert_eq!(d.fixed_text(1), format!("{:.1}", float));
        assert_eq!(d.fixed_text(0), format!("{:.0}", float));
        assert_eq!(d.fixed_text(5), format!("{:.5}", float));
    }
}
