use order_matching::matching_engine::{Order, Side};
use order_matching::parser::{parse, parse_trade, run, Command};

#[test]
fn insert() {
    let input = vec!["INSERT,1,AAPL,BUY,12.2,5".to_string()];

    let result = run(input);

    assert_eq!(result.len(), 0);
}

#[test]
fn simple_match_sell_is_aggressive() {
    let input = vec![
        "INSERT,1,AAPL,BUY,12.2,5".to_string(),
        "INSERT,2,AAPL,SELL,12.1,8".to_string(),
    ];

    let result = run(input);

    assert_eq!(result.len(), 1);
    assert_eq!(result[0], "AAPL,12.2,5,2,1".to_string());
}

#[test]
fn simple_match_buy_is_aggressive() {
    let input = vec![
        "INSERT,1,AAPL,SELL,12.1,8".to_string(),
        "INSERT,2,AAPL,BUY,12.2,5".to_string(),
    ];

    let result = run(input);

    assert_eq!(result.len(), 1);
    assert_eq!(result[0], "AAPL,12.1,5,2,1".to_string());
}

#[test]
fn multi_insert_and_multi_match() {
    let input = vec![
        "INSERT,8,AAPL,BUY,14.235,5".to_string(),
        "INSERT,6,AAPL,BUY,14.235,6".to_string(),
        "INSERT,7,AAPL,BUY,14.235,12".to_string(),
        "INSERT,2,AAPL,BUY,14.234,5".to_string(),
        "INSERT,1,AAPL,BUY,14.23,3".to_string(),
        "INSERT,5,AAPL,SELL,14.237,8".to_string(),
        "INSERT,3,AAPL,SELL,14.24,9".to_string(),
        "PULL,8".to_string(),
        "INSERT,4,AAPL,SELL,14.234,25".to_string(),
    ];

    let result = run(input);

    assert_eq!(result.len(), 3);
    assert_eq!(result[0], "AAPL,14.235,6,4,6".to_string());
    assert_eq!(result[1], "AAPL,14.235,12,4,7".to_string());
    assert_eq!(result[2], "AAPL,14.234,5,4,2".to_string());
}

#[test]
fn multi_symbol() {
    let input = vec![
        "INSERT,1,WEBB,BUY,0.3854,5".to_string(),
        "INSERT,2,TSLA,BUY,412,31".to_string(),
        "INSERT,3,TSLA,BUY,410.5,27".to_string(),
        "INSERT,4,AAPL,SELL,21,8".to_string(),
        "INSERT,11,WEBB,SELL,0.3854,4".to_string(),
        "INSERT,13,WEBB,SELL,0.3853,6".to_string(),
    ];

    let result = run(input);

    assert_eq!(result.len(), 2);
    assert_eq!(result[0], "WEBB,0.3854,4,11,1".to_string());
    assert_eq!(result[1], "WEBB,0.3854,1,13,1".to_string());
}

#[test]
fn amend() {
    let input = vec![
        "INSERT,1,WEBB,BUY,45.95,5".to_string(),
        "INSERT,2,WEBB,BUY,45.95,6".to_string(),
        "INSERT,3,WEBB,BUY,45.95,12".to_string(),
        "INSERT,4,WEBB,SELL,46,8".to_string(),
        "AMEND,2,46,3".to_string(),
        "INSERT,5,WEBB,SELL,45.95,1".to_string(),
        "AMEND,1,45.95,3".to_string(),
        "INSERT,6,WEBB,SELL,45.95,1".to_string(),
        "AMEND,1,45.95,5".to_string(),
        "INSERT,7,WEBB,SELL,45.95,1".to_string(),
    ];

    let result = run(input);

    assert_eq!(result.len(), 4);
    assert_eq!(result[0], "WEBB,46,3,2,4".to_string());
    assert_eq!(result[1], "WEBB,45.95,1,5,1".to_string());
    assert_eq!(result[2], "WEBB,45.95,1,6,1".to_string());
    assert_eq!(result[3], "WEBB,45.95,1,7,3".to_string());
}

#[test]
fn slam_order_book_bid() {
    let input = vec![
        "INSERT,1,WEBB,BUY,45.95,3".to_string(),
        "INSERT,2,WEBB,BUY,45.95,3".to_string(),
        "INSERT,3,WEBB,BUY,45.95,300".to_string(),
        "INSERT,4,WEBB,BUY,45.96,3".to_string(),
        "INSERT,5,WEBB,BUY,45.96,3".to_string(),
        "INSERT,6,WEBB,BUY,45.96,300".to_string(),
        "INSERT,7,WEBB,BUY,45.97,3".to_string(),
        "INSERT,8,WEBB,BUY,45.97,3".to_string(),
        "INSERT,9,WEBB,BUY,45.97,300".to_string(),
        "INSERT,10,WEBB,BUY,45,300".to_string(),
        "INSERT,11,WEBB,SELL,46,8".to_string(),
        "AMEND,11,46,1000".to_string(),
        "AMEND,11,45.0001,1000".to_string(),
    ];

    let result = run(input);

    assert_eq!(result.len(), 9);
    assert_eq!(result[0], "WEBB,45.97,3,11,7".to_string());
    assert_eq!(result[1], "WEBB,45.97,3,11,8".to_string());
    assert_eq!(result[2], "WEBB,45.97,300,11,9".to_string());
    assert_eq!(result[3], "WEBB,45.96,3,11,4".to_string());
    assert_eq!(result[4], "WEBB,45.96,3,11,5".to_string());
    assert_eq!(result[5], "WEBB,45.96,300,11,6".to_string());
    assert_eq!(result[6], "WEBB,45.95,3,11,1".to_string());
    assert_eq!(result[7], "WEBB,45.95,3,11,2".to_string());
    assert_eq!(result[8], "WEBB,45.95,300,11,3".to_string());
}

#[test]
fn slam_order_book_ask() {
    let input = vec![
        "INSERT,1,WEBB,SELL,45.95,3".to_string(),
        "INSERT,2,WEBB,SELL,45.95,3".to_string(),
        "INSERT,3,WEBB,SELL,45.95,300".to_string(),
        "INSERT,4,WEBB,SELL,45.96,3".to_string(),
        "INSERT,5,WEBB,SELL,45.96,3".to_string(),
        "INSERT,6,WEBB,SELL,45.96,300".to_string(),
        "INSERT,7,WEBB,SELL,45.97,3".to_string(),
        "INSERT,8,WEBB,SELL,45.97,3".to_string(),
        "INSERT,9,WEBB,SELL,45.97,300".to_string(),
        "INSERT,10,WEBB,SELL,45.999,300".to_string(),
        "INSERT,11,WEBB,BUY,45,8".to_string(),
        "AMEND,11,45,1000".to_string(),
        "AMEND,11,45.9901,1000".to_string(),
    ];

    let result = run(input);

    assert_eq!(result.len(), 9);
    assert_eq!(result[0], "WEBB,45.95,3,11,1".to_string());
    assert_eq!(result[1], "WEBB,45.95,3,11,2".to_string());
    assert_eq!(result[2], "WEBB,45.95,300,11,3".to_string());
    assert_eq!(result[3], "WEBB,45.96,3,11,4".to_string());
    assert_eq!(result[4], "WEBB,45.96,3,11,5".to_string());
    assert_eq!(result[5], "WEBB,45.96,300,11,6".to_string());
    assert_eq!(result[6], "WEBB,45.97,3,11,7".to_string());
    assert_eq!(result[7], "WEBB,45.97,3,11,8".to_string());
    assert_eq!(result[8], "WEBB,45.97,300,11,9".to_string());
}

fn decoded(line: &str) -> Option<Command> {
    parse(&line.to_string())
}

fn trade(symbol: &str, side: Side, order_id: u64, price: u64, volume: u64) -> Order {
    Order { symbol: symbol.to_string(), side, order_id, price, volume }
}

#[test]
fn parse_reads_an_insert() {
    assert_eq!(
        decoded("INSERT,1,AAPL,BUY,12.2,5"),
        Some(Command::Insert(trade("AAPL", Side::BID, 1, 122_000, 5)))
    );
    assert_eq!(
        decoded("INSERT,77,TSLA,SELL,410.5,27"),
        Some(Command::Insert(trade("TSLA", Side::ASK, 77, 4_105_000, 27)))
    );
}

#[test]
fn parse_reads_an_amend_and_a_pull() {
    assert_eq!(decoded("AMEND,2,46,3"), Some(Command::Amend(2, 460_000, 3)));
    assert_eq!(decoded("PULL,8"), Some(Command::Cancel(8)));
}

#[test]
fn parse_reads_buy_and_sell_and_no_other_side() {
    assert_eq!(
        decoded("INSERT,1,AAPL,BUY,1,1"),
        Some(Command::Insert(trade("AAPL", Side::BID, 1, 10_000, 1)))
    );
    assert_eq!(
        decoded("INSERT,1,AAPL,SELL,1,1"),
        Some(Command::Insert(trade("AAPL", Side::ASK, 1, 10_000, 1)))
    );
    assert_eq!(decoded("INSERT,1,AAPL,HOLD,12.2,5"), None);
    assert_eq!(decoded("INSERT,1,AAPL,buy,1,1"), None);
    assert_eq!(decoded("INSERT,1,AAPL,sell,1,1"), None);
    assert_eq!(decoded("INSERT,1,AAPL,BID,1,1"), None);
    assert_eq!(decoded("INSERT,1,AAPL,ASK,1,1"), None);
    assert_eq!(decoded("INSERT,1,AAPL,,1,1"), None);
    assert_eq!(decoded("INSERT,1,AAPL,BUY ,1,1"), None);
    assert_eq!(decoded("INSERT,1,AAPL,SELLS,1,1"), None);
}

#[test]
fn parse_ignores_fields_after_the_last() {
    assert_eq!(decoded("PULL,8,and,more"), Some(Command::Cancel(8)));
}

#[test]
fn parse_keeps_the_symbol_as_written() {
    assert_eq!(
        decoded("INSERT,1,BRK.B \u{e9},BUY,1,1"),
        Some(Command::Insert(trade("BRK.B \u{e9}", Side::BID, 1, 10_000, 1)))
    );
    assert_eq!(
        decoded("INSERT,1,,BUY,1,1"),
        Some(Command::Insert(trade("", Side::BID, 1, 10_000, 1)))
    );
}

#[test]
fn parse_scales_prices_by_ten_thousand() {
    assert_eq!(decoded("AMEND,1,0.3854,1"), Some(Command::Amend(1, 3_854, 1)));
    assert_eq!(decoded("AMEND,1,14.235,1"), Some(Command::Amend(1, 142_350, 1)));
    assert_eq!(decoded("AMEND,1,45.0001,1"), Some(Command::Amend(1, 450_001, 1)));
    assert_eq!(decoded("AMEND,1,0.0003,1"), Some(Command::Amend(1, 3, 1)));
    assert_eq!(decoded("AMEND,1,0,1"), Some(Command::Amend(1, 0, 1)));
    assert_eq!(decoded("AMEND,1,007.5,1"), Some(Command::Amend(1, 75_000, 1)));
    assert_eq!(decoded("AMEND,1,12.,1"), Some(Command::Amend(1, 120_000, 1)));
    assert_eq!(decoded("AMEND,1,.5,1"), Some(Command::Amend(1, 5_000, 1)));
    assert_eq!(decoded("AMEND,1,+2.5,1"), Some(Command::Amend(1, 25_000, 1)));
}

#[test]
fn parse_cuts_prices_after_four_decimals() {
    assert_eq!(decoded("AMEND,1,1.23456,1"), Some(Command::Amend(1, 12_345, 1)));
    assert_eq!(decoded("AMEND,1,1.99999999,1"), Some(Command::Amend(1, 19_999, 1)));
    assert_eq!(decoded("AMEND,1,0.00009,1"), Some(Command::Amend(1, 0, 1)));
}

#[test]
fn parse_reads_the_largest_numbers() {
    assert_eq!(
        decoded("AMEND,18446744073709551615,1844674407370955.1615,+18446744073709551615"),
        Some(Command::Amend(u64::MAX, u64::MAX, u64::MAX))
    );
}

#[test]
fn parse_refuses_numbers_that_do_not_fit() {
    assert_eq!(decoded("PULL,18446744073709551616"), None);
    assert_eq!(decoded("AMEND,1,1844674407370955.1616,1"), None);
    assert_eq!(decoded("AMEND,1,1844674407370956,1"), None);
    assert_eq!(decoded("AMEND,1,1,99999999999999999999999"), None);
}

#[test]
fn parse_refuses_an_unknown_command() {
    assert_eq!(decoded(""), None);
    assert_eq!(decoded("CANCEL,8"), None);
    assert_eq!(decoded("insert,1,AAPL,BUY,12.2,5"), None);
    assert_eq!(decoded(" PULL,8"), None);
    assert_eq!(decoded("PULL8"), None);
}

#[test]
fn parse_refuses_a_missing_field() {
    assert_eq!(decoded("PULL"), None);
    assert_eq!(decoded("AMEND,2,46"), None);
    assert_eq!(decoded("INSERT,1,AAPL,BUY,12.2"), None);
}

#[test]
fn parse_refuses_what_is_no_number() {
    assert_eq!(decoded("PULL,"), None);
    assert_eq!(decoded("PULL,+"), None);
    assert_eq!(decoded("PULL,-1"), None);
    assert_eq!(decoded("PULL,1 "), None);
    assert_eq!(decoded("PULL,1.0"), None);
    assert_eq!(decoded("PULL,0x10"), None);
    assert_eq!(decoded("INSERT,one,AAPL,BUY,12.2,5"), None);
    assert_eq!(decoded("INSERT,1,AAPL,BUY,12.2,five"), None);
}

#[test]
fn parse_refuses_what_is_no_price() {
    assert_eq!(decoded("AMEND,1,,1"), None);
    assert_eq!(decoded("AMEND,1,.,1"), None);
    assert_eq!(decoded("AMEND,1,+,1"), None);
    assert_eq!(decoded("AMEND,1,-1,1"), None);
    assert_eq!(decoded("AMEND,1,1.2.3,1"), None);
    assert_eq!(decoded("AMEND,1,1e3,1"), None);
    assert_eq!(decoded("AMEND,1,1.5x,1"), None);
    assert_eq!(decoded("AMEND,1,1.23456x,1"), None);
    assert_eq!(decoded("AMEND,1,12a.5,1"), None);
}

#[test]
fn parse_trade_writes_one_line_per_trade() {
    let trades = vec![
        trade("AAPL", Side::BID, 1, 122_000, 5),
        trade("AAPL", Side::BID, 9, 121_000, 30),
    ];
    let lines = parse_trade(trades, 2);
    assert_eq!(lines, vec!["AAPL,12.2,5,2,1".to_string(), "AAPL,12.1,30,2,9".to_string()]);
    assert_eq!(parse_trade(Vec::new(), 2), Vec::<String>::new());
}

#[test]
fn parse_trade_writes_prices_without_trailing_zeros() {
    let line = |price: u64| parse_trade(vec![trade("X", Side::ASK, 7, price, 1)], 3).remove(0);
    assert_eq!(line(0), "X,0,1,3,7");
    assert_eq!(line(1), "X,0.0001,1,3,7");
    assert_eq!(line(10), "X,0.001,1,3,7");
    assert_eq!(line(100), "X,0.01,1,3,7");
    assert_eq!(line(1_000), "X,0.1,1,3,7");
    assert_eq!(line(10_000), "X,1,1,3,7");
    assert_eq!(line(460_000), "X,46,1,3,7");
    assert_eq!(line(142_350), "X,14.235,1,3,7");
    assert_eq!(line(450_001), "X,45.0001,1,3,7");
    assert_eq!(line(1_020_304), "X,102.0304,1,3,7");
    assert_eq!(line(u64::MAX), "X,1844674407370955.1615,1,3,7");
}

#[test]
fn parse_trade_writes_the_largest_numbers() {
    let lines = parse_trade(vec![trade("", Side::ASK, u64::MAX, 0, u64::MAX)], u64::MAX);
    assert_eq!(
        lines,
        vec![",0,18446744073709551615,18446744073709551615,18446744073709551615".to_string()]
    );
}

#[test]
fn a_written_price_reads_back() {
    for price in [0u64, 1, 9, 10, 99, 100, 1_000, 9_999, 10_000, 10_001, 122_000, 142_350, u64::MAX] {
        let line = parse_trade(vec![trade("X", Side::ASK, 7, price, 1)], 3).remove(0);
        let text = line.split(',').nth(1).map(|field| field.to_string());
        let amend = text.map(|text| format!("AMEND,1,{},1", text));
        assert_eq!(amend.and_then(|line| parse(&line)), Some(Command::Amend(1, price, 1)));
    }
}

#[test]
fn run_reports_nothing_for_no_command() {
    assert_eq!(run(Vec::new()), Vec::<String>::new());
}

#[test]
fn run_starts_from_an_empty_engine_each_time() {
    let first = run(vec!["INSERT,1,AAPL,BUY,12.2,5".to_string()]);
    assert_eq!(first.len(), 0);
    let second = run(vec!["INSERT,2,AAPL,SELL,12.1,8".to_string()]);
    assert_eq!(second.len(), 0);
}

#[test]
fn run_reports_an_amend_under_the_amended_order() {
    let result = run(vec![
        "INSERT,1,AAPL,SELL,12.1,8".to_string(),
        "INSERT,2,AAPL,BUY,12,5".to_string(),
        "AMEND,2,12.5,6".to_string(),
        "PULL,1".to_string(),
        "PULL,2".to_string(),
    ]);
    assert_eq!(result, vec!["AAPL,12.1,6,2,1".to_string()]);
}
