use order_matching::numeral::{format_price, parse_price};

#[test]
fn parse_price_scales_by_ten_thousand() {
    assert_eq!(parse_price("12.2"), Some(122_000));
    assert_eq!(parse_price("12.1"), Some(121_000));
    assert_eq!(parse_price("46"), Some(460_000));
    assert_eq!(parse_price("0.3854"), Some(3_854));
    assert_eq!(parse_price("45.9901"), Some(459_901));
    assert_eq!(parse_price("0"), Some(0));
    assert_eq!(parse_price("0.0"), Some(0));
    assert_eq!(parse_price("000"), Some(0));
    assert_eq!(parse_price("1844674407370955.1615"), Some(u64::MAX));
}

#[test]
fn parse_price_is_exact_where_binary_fractions_are_not() {
    assert_eq!(parse_price("0.0003"), Some(3));
    assert_eq!(parse_price("0.0007"), Some(7));
    assert_eq!(parse_price("1.1"), Some(11_000));
    assert_eq!(parse_price("4.35"), Some(43_500));
    assert_eq!(parse_price("9007199254740993"), None);
    assert_eq!(parse_price("900719925474099.3"), Some(9_007_199_254_740_993_000));
}

#[test]
fn parse_price_cuts_after_the_fourth_decimal() {
    assert_eq!(parse_price("0.12345"), Some(1_234));
    assert_eq!(parse_price("0.99999"), Some(9_999));
    assert_eq!(parse_price("2.00009"), Some(20_000));
    assert_eq!(parse_price("1844674407370955.16159999"), Some(u64::MAX));
}

#[test]
fn parse_price_takes_a_sign_and_a_bare_point() {
    assert_eq!(parse_price("+1.5"), Some(15_000));
    assert_eq!(parse_price("1."), Some(10_000));
    assert_eq!(parse_price(".25"), Some(2_500));
    assert_eq!(parse_price("+.5"), Some(5_000));
}

#[test]
fn parse_price_refuses_other_texts() {
    for text in [
        "", "+", ".", "+.", "-1", "--1", "++1", "1+", "1,5", "1.2.3", "1e3", "1E3", "0x10", " 1", "1 ",
        "1_000", "inf", "NaN", "one", "1.5f", "1.23456z", "\u{663}",
    ] {
        assert_eq!(parse_price(text), None);
    }
}

#[test]
fn parse_price_refuses_what_does_not_fit() {
    assert_eq!(parse_price("1844674407370955.1616"), None);
    assert_eq!(parse_price("1844674407370955.162"), None);
    assert_eq!(parse_price("1844674407370956"), None);
    assert_eq!(parse_price("99999999999999999999999999999999"), None);
}

#[test]
fn format_price_drops_trailing_zeros() {
    assert_eq!(format_price(0), "0");
    assert_eq!(format_price(1), "0.0001");
    assert_eq!(format_price(20), "0.002");
    assert_eq!(format_price(300), "0.03");
    assert_eq!(format_price(4_000), "0.4");
    assert_eq!(format_price(50_000), "5");
    assert_eq!(format_price(122_000), "12.2");
    assert_eq!(format_price(142_350), "14.235");
    assert_eq!(format_price(459_901), "45.9901");
    assert_eq!(format_price(4_120_000), "412");
    assert_eq!(format_price(10_000_000), "1000");
    assert_eq!(format_price(10_100_100), "1010.01");
    assert_eq!(format_price(u64::MAX), "1844674407370955.1615");
}

#[test]
fn a_formatted_price_parses_back() {
    let mut cost: u64 = 0;
    while cost < 30_000 {
        assert_eq!(parse_price(&format_price(cost)), Some(cost));
        cost += 1;
    }
    for cost in [u64::MAX, u64::MAX - 1, u64::MAX / 2, 1 << 53, (1 << 53) + 1, 99_999_999] {
        assert_eq!(parse_price(&format_price(cost)), Some(cost));
    }
}
