use woolabels::{package_count, package_size, Decimal, InputData, Price};

fn number(value: &Decimal) -> f64 {
    value.text().parse().unwrap()
}

fn decimal(text: &str) -> Decimal {
    Decimal::parse(text).unwrap()
}

#[test]
fn price_with_comma_is_read_and_kept() {
    let price = Price::parse("57,10").unwrap();
    assert_eq!(number(&price.value) as f32, 57.10f32);
    assert_eq!(price.display, "57,10");
    assert_eq!(price.value.text(), "57.1");
}

#[test]
fn price_without_cents_is_read() {
    let price = Price::parse("40").unwrap();
    assert_eq!(number(&price.value), 40.0);
    assert_eq!(price.display, "40");
}

#[test]
fn price_with_point_is_read_unchanged() {
    let price = Price::parse("3.5").unwrap();
    assert_eq!(number(&price.value), 3.5);
    assert_eq!(price.display, "3.5");
}

#[test]
fn price_texts_that_are_no_number() {
    for bad in [
        "", ",", ".", "+", "-", "abc", "12a", "1,2,3", "1.2.3", "1,2.3", "1.2,3", " 1", "1 ", "1e3",
        "inf", "NaN", "+-1", "--1", "1-", "€5", "5 €", "1_000",
    ] {
        match Price::parse(bad) {
            Err(error) => {
                assert_eq!(error.0, bad);
                assert_eq!(error.message(), format!("Invalid price: {}", bad));
            }
            Ok(price) => panic!("{:?} was read as {}", bad, price.value.text()),
        }
    }
}

#[test]
fn price_grammar_edges() {
    assert_eq!(Price::parse("5,").unwrap().value.text(), "5");
    assert_eq!(Price::parse(",5").unwrap().value.text(), "0.5");
    assert_eq!(Price::parse("+5,25").unwrap().value.text(), "5.25");
    assert_eq!(Price::parse("-5,25").unwrap().value.text(), "-5.25");
    assert_eq!(Price::parse("0005,2500").unwrap().value.text(), "5.25");
    assert_eq!(Price::parse("-0").unwrap().value.text(), "0");
    assert_eq!(Price::parse("-0,000").unwrap().value.text(), "0");
    assert_eq!(Price::parse("0,05").unwrap().value.text(), "0.05");
    assert_eq!(Price::parse("100").unwrap().value.text(), "100");
    assert_eq!(
        Price::parse("123456789012345678901234567890,000000000000000000001").unwrap().value.text(),
        "123456789012345678901234567890.000000000000000000001"
    );
}

#[test]
fn only_the_first_comma_becomes_a_point() {
    assert!(Price::parse("1,5").is_ok());
    assert!(Price::parse("1,5,").is_err());
    assert!(Price::parse(",,").is_err());
}

#[test]
fn decimal_takes_no_comma() {
    assert!(Decimal::parse("1,5").is_none());
    assert_eq!(decimal("1.5").text(), "1.5");
    assert!(Decimal::parse("").is_none());
    assert!(Decimal::parse("1.5.0").is_none());
}

#[test]
fn decimal_zero_and_order() {
    assert!(decimal("0").is_zero());
    assert!(decimal("0.000").is_zero());
    assert!(decimal("-0.0").is_zero());
    assert!(decimal(".0").is_zero());
    assert!(!decimal("0.001").is_zero());
    assert!(!decimal("10").is_zero());
    assert!(decimal("40").le_int(40));
    assert!(decimal("40.000").le_int(40));
    assert!(!decimal("40.001").le_int(40));
    assert!(decimal("39.999").le_int(40));
    assert!(decimal("-100.5").le_int(40));
    assert!(decimal("-100.5").le_int(0));
    assert!(decimal("0").le_int(0));
    assert!(!decimal("0.1").le_int(0));
    assert!(!decimal("41").le_int(40));
    assert!(!decimal("400").le_int(40));
    assert!(!decimal("99999999999999999999999999").le_int(4294967295));
    assert!(decimal("4294967295").le_int(4294967295));
    assert!(!decimal("4294967295.5").le_int(4294967295));
    assert!(!decimal("4294967296").le_int(4294967295));
}

#[test]
fn decimal_clone_is_the_same_number() {
    let value = decimal("-12.50");
    assert_eq!(value.clone().text(), "-12.5");
}

#[test]
fn delivery_of_zero_is_local_pick_up() {
    assert_eq!(InputData::map_shipping_to_delivery(&decimal("0")), "local pick up");
    assert_eq!(InputData::map_shipping_to_delivery(&decimal("0.00")), "local pick up");
    assert_eq!(InputData::map_shipping_to_delivery(&decimal("-0")), "local pick up");
}

#[test]
fn delivery_of_a_cost_names_the_cost() {
    assert_eq!(InputData::map_shipping_to_delivery(&decimal("5")), "5 €");
    assert_eq!(InputData::map_shipping_to_delivery(&decimal("5.50")), "5.5 €");
    assert_eq!(InputData::map_shipping_to_delivery(&decimal("12.25")), "12.25 €");
    assert_eq!(InputData::map_shipping_to_delivery(&decimal("0.5")), "0.5 €");
    assert_eq!(InputData::map_shipping_to_delivery(&decimal("-3")), "-3 €");
}

#[test]
fn package_count_follows_the_total() {
    assert_eq!(package_count(&decimal("0")), 1);
    assert_eq!(package_count(&decimal("39.99")), 1);
    assert_eq!(package_count(&decimal("40")), 1);
    assert_eq!(package_count(&decimal("40.00")), 1);
    assert_eq!(package_count(&decimal("40.01")), 2);
    assert_eq!(package_count(&decimal("57.10")), 2);
    assert_eq!(package_count(&decimal("70")), 2);
    assert_eq!(package_count(&decimal("70.0000001")), 3);
    assert_eq!(package_count(&decimal("93.2")), 3);
    assert_eq!(package_count(&decimal("1000000")), 3);
    assert_eq!(package_count(&decimal("-5")), 1);
}

#[test]
fn package_size_is_the_quotient_rounded_up() {
    assert_eq!(package_size(4, 2), 2);
    assert_eq!(package_size(5, 2), 3);
    assert_eq!(package_size(1, 3), 1);
    assert_eq!(package_size(2, 3), 1);
    assert_eq!(package_size(3, 3), 1);
    assert_eq!(package_size(4, 3), 2);
    assert_eq!(package_size(7, 3), 3);
    assert_eq!(package_size(9, 1), 9);
    assert_eq!(package_size(0, 3), 0);
    assert_eq!(package_size(usize::MAX, 1), usize::MAX);
    assert_eq!(package_size(usize::MAX, 2), usize::MAX / 2 + 1);
}
