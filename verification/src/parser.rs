//! The text protocol: one command per line in, one line per trade out.
//!
//! ```text
//! INSERT,<order id>,<symbol>,<BUY|SELL>,<price>,<volume>
//! AMEND,<order id>,<price>,<volume>
//! PULL,<order id>
//! ```
//!
//! A price is a plain decimal numeral. The engine gets it as a fixed-point
//! integer, the price times 10,000 with further decimals cut off. A trade
//! is written as
//! `<symbol>,<price>,<volume>,<incoming order id>,<resting order id>`.
use crate::matching_engine::MatchingEngine;
use crate::model::{EngineView, Outcome};
use crate::numeral::{
    chars_of, cut, decimal, find, find_char, number, price, price_text, push_decimal, push_mark,
    push_price, read_number, read_price, same,
};
use crate::order::{views, Order, OrderView, Side};
use vstd::prelude::*;
use vstd::string::StrSliceExecFns;
use vstd::string::StringExecFns;

verus! {

/// A decoded command.
#[derive(Debug, PartialEq)]
pub enum Command {
    Insert(Order),
    /// Order identifier, new price, new volume.
    Amend(u64, u64, u64),
    Cancel(u64),
}

/// Mathematical model of a [`Command`].
pub enum CommandView {
    Insert(OrderView),
    Amend(u64, u64, u64),
    Cancel(u64),
}

impl View for Command {
    type V = CommandView;

    open spec fn view(&self) -> CommandView {
        match self {
            Command::Insert(order) => CommandView::Insert(order@),
            Command::Amend(order_id, price, volume) => CommandView::Amend(
                *order_id,
                *price,
                *volume,
            ),
            Command::Cancel(order_id) => CommandView::Cancel(*order_id),
        }
    }
}

impl Command {
    /// The identifier under which the trades of the command are reported:
    /// that of the order it inserts, amends or cancels.
    pub fn taker(&self) -> (order_id: u64)
        ensures
            order_id == taker(self@),
    {
        match self {
            Command::Insert(order) => order.order_id,
            Command::Amend(order_id, _, _) => *order_id,
            Command::Cancel(order_id) => *order_id,
        }
    }
}

/// The `n`-th field of a line, fields being separated by commas.
pub open spec fn field(line: Seq<char>, n: nat) -> Option<Seq<char>>
    decreases n,
{
    let end = find(line, ',');
    if n == 0 {
        Some(line.take(end))
    } else if end == line.len() {
        None
    } else {
        field(line.skip(end + 1), (n - 1) as nat)
    }
}

/// The side that a text names: `BUY` is a bid, `SELL` an ask, and nothing
/// else names a side.
pub open spec fn side_of(text: Seq<char>) -> Option<Side> {
    if text == "BUY"@ {
        Some(Side::BID)
    } else if text == "SELL"@ {
        Some(Side::ASK)
    } else {
        None
    }
}

/// The insert that a line holds in its fields 1 to 5.
pub open spec fn decode_insert(line: Seq<char>) -> Option<CommandView> {
    match (field(line, 1), field(line, 2), field(line, 3), field(line, 4), field(line, 5)) {
        (Some(order_id), Some(symbol), Some(side), Some(cost), Some(volume)) => match (
            number(order_id),
            side_of(side),
            price(cost),
            number(volume),
        ) {
            (Some(order_id), Some(side), Some(cost), Some(volume)) => Some(
                CommandView::Insert(OrderView { symbol, side, order_id, price: cost, volume }),
            ),
            _ => None,
        },
        _ => None,
    }
}

/// The amend that a line holds in its fields 1 to 3.
pub open spec fn decode_amend(line: Seq<char>) -> Option<CommandView> {
    match (field(line, 1), field(line, 2), field(line, 3)) {
        (Some(order_id), Some(cost), Some(volume)) => match (
            number(order_id),
            price(cost),
            number(volume),
        ) {
            (Some(order_id), Some(cost), Some(volume)) => Some(
                CommandView::Amend(order_id, cost, volume),
            ),
            _ => None,
        },
        _ => None,
    }
}

/// The cancel that a line holds in its field 1.
pub open spec fn decode_pull(line: Seq<char>) -> Option<CommandView> {
    match field(line, 1) {
        Some(order_id) => match number(order_id) {
            Some(order_id) => Some(CommandView::Cancel(order_id)),
            None => None,
        },
        None => None,
    }
}

/// The command that a line holds, if it holds one. The first field names
/// the command; fields after the last one that the command needs are
/// ignored.
pub open spec fn decode(line: Seq<char>) -> Option<CommandView> {
    if field(line, 0) == Some("INSERT"@) {
        decode_insert(line)
    } else if field(line, 0) == Some("AMEND"@) {
        decode_amend(line)
    } else if field(line, 0) == Some("PULL"@) {
        decode_pull(line)
    } else {
        None
    }
}

/// The line that reports a trade: symbol, price, traded volume, incoming
/// order, resting order.
pub open spec fn render(trade: OrderView, taker_order_id: u64) -> Seq<char> {
    trade.symbol + seq![','] + price_text(trade.price) + seq![','] + decimal(trade.volume as nat)
        + seq![','] + decimal(taker_order_id as nat) + seq![','] + decimal(trade.order_id as nat)
}

/// The lines that report a sequence of trades.
pub open spec fn render_all(trades: Seq<OrderView>, taker_order_id: u64) -> Seq<Seq<char>> {
    trades.map_values(|trade: OrderView| render(trade, taker_order_id))
}

/// The texts of a sequence of strings.
pub open spec fn texts(lines: Seq<String>) -> Seq<Seq<char>> {
    lines.map_values(|line: String| line@)
}

/// The identifier under which the trades of a command are reported.
pub open spec fn taker(command: CommandView) -> u64 {
    match command {
        CommandView::Insert(order) => order.order_id,
        CommandView::Amend(order_id, _, _) => order_id,
        CommandView::Cancel(order_id) => order_id,
    }
}

/// What a command does to the engine.
pub open spec fn apply(state: EngineView, command: CommandView) -> Outcome {
    match command {
        CommandView::Insert(order) => state.insert(order),
        CommandView::Amend(order_id, cost, volume) => state.amend(order_id, cost, volume),
        CommandView::Cancel(order_id) => Outcome {
            state: state.cancel(order_id),
            trades: Seq::empty(),
        },
    }
}

/// The lines that an engine in `state` answers to a sequence of command
/// lines: for each command in turn, one line per trade. A line that holds
/// no command ends the sequence.
pub open spec fn transcript(state: EngineView, lines: Seq<Seq<char>>) -> Seq<Seq<char>>
    decreases lines.len(),
{
    if lines.len() == 0 {
        Seq::empty()
    } else {
        match decode(lines[0]) {
            Some(command) => {
                let outcome = apply(state, command);
                render_all(outcome.trades, taker(command)) + transcript(
                    outcome.state,
                    lines.drop_first(),
                )
            },
            None => Seq::empty(),
        }
    }
}

/// Whether every line holds a command.
pub open spec fn well_formed(lines: Seq<Seq<char>>) -> bool {
    forall|i: int| 0 <= i < lines.len() ==> decode(#[trigger] lines[i]) is Some
}

/// Finds the `n`-th field of a line: where it begins and where it ends.
fn nth_field(chars: &Vec<char>, n: usize) -> (bounds: Option<(usize, usize)>)
    ensures
        match bounds {
            Some((from, to)) => from <= to <= chars@.len() && field(chars@, n as nat) == Some(
                chars@.subrange(from as int, to as int),
            ),
            None => field(chars@, n as nat) is None,
        },
{
    let mut from: usize = 0;
    let mut k: usize = 0;
    assert(chars@.skip(0) == chars@);
    loop
        invariant
            from <= chars@.len(),
            k <= n,
            field(chars@, n as nat) == field(chars@.skip(from as int), (n - k) as nat),
        decreases n - k,
    {
        let ghost rest = chars@.skip(from as int);
        let to = find_char(chars, from, ',');
        if k == n {
            assert(rest.take(to - from) == chars@.subrange(from as int, to as int));
            return Some((from, to));
        }
        if to == chars.len() {
            return None;
        }
        assert(rest.skip(to - from + 1) == chars@.skip(to as int + 1));
        from = to + 1;
        k = k + 1;
    }
}

/// Reads the side of an order.
fn read_side(text: &Vec<char>) -> (side: Option<Side>)
    ensures
        side == side_of(text@),
{
    let buy = chars_of("BUY");
    let sell = chars_of("SELL");
    if same(text, &buy) {
        Some(Side::BID)
    } else if same(text, &sell) {
        Some(Side::ASK)
    } else {
        None
    }
}

/// Reads the field `n` of a line as a side.
fn side_field(chars: &Vec<char>, n: usize) -> (read: Option<Side>)
    ensures
        read == match field(chars@, n as nat) {
            Some(text) => side_of(text),
            None => None,
        },
{
    match nth_field(chars, n) {
        Some((from, to)) => {
            let text = cut(chars, from, to);
            read_side(&text)
        },
        None => None,
    }
}

/// Reads the field `n` of a line as an identifier or a volume.
fn number_field(chars: &Vec<char>, n: usize) -> (read: Option<u64>)
    ensures
        read == match field(chars@, n as nat) {
            Some(text) => number(text),
            None => None,
        },
{
    match nth_field(chars, n) {
        Some((from, to)) => {
            let text = cut(chars, from, to);
            read_number(&text)
        },
        None => None,
    }
}

/// Reads the field `n` of a line as a price.
fn price_field(chars: &Vec<char>, n: usize) -> (read: Option<u64>)
    ensures
        read == match field(chars@, n as nat) {
            Some(text) => price(text),
            None => None,
        },
{
    match nth_field(chars, n) {
        Some((from, to)) => {
            let text = cut(chars, from, to);
            read_price(&text)
        },
        None => None,
    }
}

/// Whether the line begins with the field `word`.
fn is_command(chars: &Vec<char>, word: &str) -> (named: bool)
    ensures
        named == (field(chars@, 0) == Some(word@)),
{
    match nth_field(chars, 0) {
        Some((from, to)) => {
            let name = cut(chars, from, to);
            let expected = chars_of(word);
            same(&name, &expected)
        },
        None => false,
    }
}

/// Decodes an insert from the fields of a line.
fn parse_insert(input: &String, chars: &Vec<char>) -> (command: Option<Command>)
    requires
        chars@ == input@,
    ensures
        match command {
            Some(command) => decode_insert(input@) == Some(command@),
            None => decode_insert(input@) is None,
        },
{
    let order_id = number_field(chars, 1);
    let symbol = nth_field(chars, 2);
    let side = side_field(chars, 3);
    let cost = price_field(chars, 4);
    let volume = number_field(chars, 5);
    match (order_id, symbol, side, cost, volume) {
        (Some(order_id), Some((from, to)), Some(side), Some(cost), Some(volume)) => {
            let name = input.as_str().substring_char(from, to);
            let order = Order {
                symbol: String::from_str(name),
                side,
                order_id,
                price: cost,
                volume,
            };
            Some(Command::Insert(order))
        },
        _ => None,
    }
}

/// Decodes an amend from the fields of a line.
fn parse_amend(chars: &Vec<char>) -> (command: Option<Command>)
    ensures
        match command {
            Some(command) => decode_amend(chars@) == Some(command@),
            None => decode_amend(chars@) is None,
        },
{
    let order_id = number_field(chars, 1);
    let cost = price_field(chars, 2);
    let volume = number_field(chars, 3);
    match (order_id, cost, volume) {
        (Some(order_id), Some(cost), Some(volume)) => Some(Command::Amend(order_id, cost, volume)),
        _ => None,
    }
}

/// Decodes a cancel from the fields of a line.
fn parse_pull(chars: &Vec<char>) -> (command: Option<Command>)
    ensures
        match command {
            Some(command) => decode_pull(chars@) == Some(command@),
            None => decode_pull(chars@) is None,
        },
{
    match number_field(chars, 1) {
        Some(order_id) => Some(Command::Cancel(order_id)),
        None => None,
    }
}

/// Decodes one line. Returns `None` if the line holds no command: an
/// unknown first field, a field missing, a side that is neither `BUY` nor
/// `SELL`, or a number or price that cannot be read.
pub fn parse(input: &String) -> (command: Option<Command>)
    ensures
        match command {
            Some(command) => decode(input@) == Some(command@),
            None => decode(input@) is None,
        },
{
    let chars = chars_of(input.as_str());
    if is_command(&chars, "INSERT") {
        parse_insert(input, &chars)
    } else if is_command(&chars, "AMEND") {
        parse_amend(&chars)
    } else if is_command(&chars, "PULL") {
        parse_pull(&chars)
    } else {
        None
    }
}

/// Writes the line that reports one trade.
fn render_trade(trade: &Order, taker_order_id: u64) -> (line: String)
    ensures
        line@ == render(trade@, taker_order_id),
{
    let mut line = trade.symbol.clone();
    push_mark(&mut line, true);
    push_price(&mut line, trade.price);
    push_mark(&mut line, true);
    push_decimal(&mut line, trade.volume);
    push_mark(&mut line, true);
    push_decimal(&mut line, taker_order_id);
    push_mark(&mut line, true);
    push_decimal(&mut line, trade.order_id);
    line
}

/// Writes one line per trade: symbol, price, traded volume, the
/// identifier of the incoming order, the identifier of the resting order.
pub fn parse_trade(trades: Vec<Order>, taker_order_id: u64) -> (lines: Vec<String>)
    ensures
        texts(lines@) == render_all(views(trades@), taker_order_id),
{
    let mut lines: Vec<String> = Vec::new();
    let mut i: usize = 0;
    while i < trades.len()
        invariant
            i <= trades@.len(),
            texts(lines@) == render_all(views(trades@), taker_order_id).take(i as int),
        decreases trades@.len() - i,
    {
        let ghost written = texts(lines@);
        let line = render_trade(&trades[i], taker_order_id);
        let ghost text = line@;
        lines.push(line);
        assert(texts(lines@) == written.push(text));
        assert(texts(lines@) == render_all(views(trades@), taker_order_id).take(i as int + 1));
        i = i + 1;
    }
    assert(texts(lines@) == render_all(views(trades@), taker_order_id));
    lines
}

/// Applies a command to the engine and returns the trades it caused.
pub fn execute(engine: &mut MatchingEngine, command: Command) -> (trades: Vec<Order>)
    requires
        old(engine).wf(),
    ensures
        final(engine).wf(),
        final(engine)@ == apply(old(engine)@, command@).state,
        views(trades@) == apply(old(engine)@, command@).trades,
{
    match command {
        Command::Insert(order) => engine.insert(order),
        Command::Amend(order_id, cost, volume) => engine.amend(order_id, cost, volume),
        Command::Cancel(order_id) => {
            engine.cancel(order_id);
            let trades: Vec<Order> = Vec::new();
            assert(views(trades@) == Seq::<OrderView>::empty());
            trades
        },
    }
}

/// Runs a sequence of command lines through a new engine and returns the
/// lines that report the trades, in the order in which they took place.
pub fn run(input: Vec<String>) -> (output: Vec<String>)
    requires
        well_formed(texts(input@)),
    ensures
        texts(output@) == transcript(EngineView::empty(), texts(input@)),
{
    let mut engine = MatchingEngine::default();
    let mut output: Vec<String> = Vec::new();
    let ghost all = texts(input@);
    let mut i: usize = 0;
    assert(all.skip(0) == all);
    assert(texts(output@) + transcript(engine@, all) == transcript(engine@, all));
    while i < input.len()
        invariant
            i <= input@.len(),
            engine.wf(),
            all == texts(input@),
            well_formed(all),
            transcript(EngineView::empty(), all) == texts(output@) + transcript(
                engine@,
                all.skip(i as int),
            ),
        decreases input@.len() - i,
    {
        let ghost state = engine@;
        let ghost written = texts(output@);
        let ghost rest = all.skip(i as int);
        assert(rest[0] == input@[i as int]@);
        assert(rest.drop_first() == all.skip(i as int + 1));
        assert(decode(all[i as int]) is Some);
        match parse(&input[i]) {
            Some(command) => {
                let taker_order_id = command.taker();
                let trades = execute(&mut engine, command);
                let mut lines = parse_trade(trades, taker_order_id);
                let ghost answer = texts(lines@);
                output.append(&mut lines);
                assert(texts(output@) == written + answer);
                assert(written + (answer + transcript(engine@, rest.drop_first())) == (written
                    + answer) + transcript(engine@, rest.drop_first()));
            },
            None => {
                assert(false);
                return output;
            },
        }
        i = i + 1;
    }
    assert(all.skip(all.len() as int) == Seq::<Seq<char>>::empty());
    assert(texts(output@) + Seq::<Seq<char>>::empty() == texts(output@));
    output
}

} // verus!
