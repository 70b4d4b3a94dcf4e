//! The matching engine: one book per symbol, and the identifier index.
use crate::book::{queue_at, BookView};
pub use crate::book::OrderBook;
use crate::preservation::{lemma_amend_wf, lemma_cancel_wf, lemma_insert_wf};
use crate::model::{settle, settle_one, EngineView};
use crate::order::{views, OrderView};
pub use crate::order::{Order, Side};
use std::collections::HashMap;
use vstd::prelude::*;

verus! {

/// The book of one symbol.
#[derive(Debug)]
struct Market {
    symbol: String,
    book: OrderBook,
}

/// A limit order matching engine.
///
/// Commands are applied one at a time. Each one changes at most one book
/// and returns the trades it caused, in the order they took place.
#[derive(Debug)]
pub struct MatchingEngine {
    /// The books, in the order in which their symbols were first named.
    markets: Vec<Market>,
    /// The identifier index: a copy of every resting order.
    order_map: HashMap<u64, Order>,
}

/// No symbol has two books.
spec fn distinct_symbols(markets: Seq<Market>) -> bool {
    forall|i: int, j: int|
        0 <= i < j < markets.len() ==> (#[trigger] markets[i]).symbol@ != (
        #[trigger] markets[j]).symbol@
}

/// Whether `i` is the slot of the book of `symbol`.
spec fn is_slot(markets: Seq<Market>, symbol: Seq<char>, i: int) -> bool {
    0 <= i < markets.len() && markets[i].symbol@ == symbol
}

/// The slot of the book of `symbol`, if it has one.
spec fn slot_of(markets: Seq<Market>, symbol: Seq<char>) -> int {
    choose|i: int| is_slot(markets, symbol, i)
}

/// The books by symbol.
spec fn books_of(markets: Seq<Market>) -> Map<Seq<char>, BookView> {
    Map::new(
        |symbol: Seq<char>| exists|i: int| is_slot(markets, symbol, i),
        |symbol: Seq<char>| markets[slot_of(markets, symbol)].book@,
    )
}

/// With distinct symbols, slot `i` holds the book of its symbol.
proof fn lemma_slot(markets: Seq<Market>, i: int)
    requires
        distinct_symbols(markets),
        0 <= i < markets.len(),
    ensures
        books_of(markets).contains_key(markets[i].symbol@),
        books_of(markets)[markets[i].symbol@] == markets[i].book@,
{
    let symbol = markets[i].symbol@;
    assert(is_slot(markets, symbol, i));
    let k = slot_of(markets, symbol);
    assert(is_slot(markets, symbol, k));
    assert(k == i);
}

/// Changing the book in slot `i` changes the book of that symbol and
/// nothing else.
proof fn lemma_books_replace(before: Seq<Market>, after: Seq<Market>, i: int)
    requires
        distinct_symbols(before),
        0 <= i < before.len(),
        after.len() == before.len(),
        forall|k: int| 0 <= k < before.len() ==> (#[trigger] after[k]).symbol@ == before[k].symbol@,
        forall|k: int| 0 <= k < before.len() && k != i ==> (#[trigger] after[k]).book@ == before[k].book@,
    ensures
        distinct_symbols(after),
        books_of(after) == books_of(before).insert(before[i].symbol@, after[i].book@),
{
    assert(distinct_symbols(after)) by {
        assert forall|a: int, b: int| 0 <= a < b < after.len() implies (#[trigger] after[a]).symbol@
            != (#[trigger] after[b]).symbol@ by {
            assert(before[a].symbol@ != before[b].symbol@);
        }
    }
    let goal = books_of(before).insert(before[i].symbol@, after[i].book@);
    assert forall|symbol: Seq<char>| books_of(after).contains_key(symbol) implies #[trigger]
        goal.contains_key(symbol) && goal[symbol] == books_of(after)[symbol] by {
        let k = slot_of(after, symbol);
        assert(is_slot(after, symbol, k));
        lemma_slot(after, k);
        assert(is_slot(before, symbol, k));
        lemma_slot(before, k);
    }
    assert forall|symbol: Seq<char>| goal.contains_key(symbol) implies #[trigger] books_of(
        after,
    ).contains_key(symbol) by {
        if symbol == before[i].symbol@ {
            assert(is_slot(after, symbol, i));
        } else {
            let k = slot_of(before, symbol);
            assert(is_slot(before, symbol, k));
            assert(is_slot(after, symbol, k));
        }
    }
    assert(books_of(after) =~= goal);
}

/// A book for a symbol that has none adds that book and nothing else.
proof fn lemma_books_push(before: Seq<Market>, market: Market)
    requires
        distinct_symbols(before),
        forall|k: int| 0 <= k < before.len() ==> (#[trigger] before[k]).symbol@ != market.symbol@,
    ensures
        distinct_symbols(before.push(market)),
        !books_of(before).contains_key(market.symbol@),
        books_of(before.push(market)) == books_of(before).insert(market.symbol@, market.book@),
{
    let after = before.push(market);
    let n = before.len() as int;
    assert(distinct_symbols(after));
    assert(!books_of(before).contains_key(market.symbol@)) by {
        if books_of(before).contains_key(market.symbol@) {
            let k = slot_of(before, market.symbol@);
            assert(is_slot(before, market.symbol@, k));
        }
    }
    let goal = books_of(before).insert(market.symbol@, market.book@);
    assert forall|symbol: Seq<char>| books_of(after).contains_key(symbol) implies #[trigger]
        goal.contains_key(symbol) && goal[symbol] == books_of(after)[symbol] by {
        let k = slot_of(after, symbol);
        assert(is_slot(after, symbol, k));
        lemma_slot(after, k);
        if k < n {
            assert(is_slot(before, symbol, k));
            lemma_slot(before, k);
        }
    }
    assert forall|symbol: Seq<char>| goal.contains_key(symbol) implies #[trigger] books_of(
        after,
    ).contains_key(symbol) by {
        if symbol == market.symbol@ {
            assert(is_slot(after, symbol, n));
        } else {
            let k = slot_of(before, symbol);
            assert(is_slot(before, symbol, k));
            assert(is_slot(after, symbol, k));
        }
    }
    assert(books_of(after) =~= goal);
}

/// The model of the identifier index.
spec fn records(index: Map<u64, Order>) -> Map<u64, OrderView> {
    Map::new(|order_id: u64| index.contains_key(order_id), |order_id: u64| index[order_id]@)
}

impl View for MatchingEngine {
    type V = EngineView;

    closed spec fn view(&self) -> EngineView {
        EngineView { books: books_of(self.markets@), index: records(self.order_map@) }
    }
}

impl Default for MatchingEngine {
    fn default() -> (engine: Self)
        ensures
            engine.wf(),
            engine@ == EngineView::empty(),
    {
        let engine = MatchingEngine { markets: Vec::new(), order_map: HashMap::new() };
        assert(engine@.books =~= Map::empty());
        assert(engine@.index =~= Map::empty());
        engine
    }
}

/// Settles the index for `trades`, one after the other.
fn settle_trades(index: &mut HashMap<u64, Order>, trades: &Vec<Order>)
    ensures
        records(final(index)@) == settle(records(old(index)@), views(trades@)),
{
    let ghost all = views(trades@);
    let mut i: usize = 0;
    assert(all.skip(0) == all);
    while i < trades.len()
        invariant
            i <= trades@.len(),
            all == views(trades@),
            settle(records(old(index)@), all) == settle(records(index@), all.skip(i as int)),
        decreases trades@.len() - i,
    {
        let ghost before = records(index@);
        let trade = &trades[i];
        match index.remove(&trade.order_id) {
            Some(entry) => {
                if entry.volume > trade.volume {
                    let mut entry = entry;
                    entry.volume = entry.volume - trade.volume;
                    index.insert(trade.order_id, entry);
                }
            },
            None => {},
        }
        proof {
            assert(all[i as int] == trade@);
            assert(records(index@) =~= settle_one(before, trade@));
            assert(all.skip(i as int).drop_first() == all.skip(i as int + 1));
        }
        i = i + 1;
    }
}

impl MatchingEngine {
    /// The representation is sound: no symbol has two books.
    pub closed spec fn inv(&self) -> bool {
        distinct_symbols(self.markets@)
    }

    /// The engine is well formed: its representation is sound and its
    /// state is well formed.
    pub open spec fn wf(&self) -> bool {
        self.inv() && self@.wf()
    }

    /// Finds the book of `symbol`.
    fn find_book(&self, symbol: &String) -> (found: Option<usize>)
        requires
            self.inv(),
        ensures
            match found {
                Some(slot) => slot < self.markets@.len() && self.markets@[slot as int].symbol@
                    == symbol@,
                None => !self@.books.contains_key(symbol@),
            },
    {
        let mut i: usize = 0;
        while i < self.markets.len()
            invariant
                i <= self.markets@.len(),
                forall|k: int| 0 <= k < i ==> (#[trigger] self.markets@[k]).symbol@ != symbol@,
            decreases self.markets@.len() - i,
        {
            if self.markets[i].symbol == *symbol {
                return Some(i);
            }
            i = i + 1;
        }
        proof {
            if self@.books.contains_key(symbol@) {
                let k = slot_of(self.markets@, symbol@);
                assert(is_slot(self.markets@, symbol@, k));
            }
        }
        None
    }

    /// Finds the book of `symbol`, opening an empty one if the symbol has
    /// none yet.
    fn book_slot(&mut self, symbol: &String) -> (slot: usize)
        requires
            old(self).inv(),
        ensures
            final(self).inv(),
            slot < final(self).markets@.len(),
            final(self).markets@[slot as int].symbol@ == symbol@,
            final(self).markets@[slot as int].book@ == old(self)@.book(symbol@),
            final(self)@.books == old(self)@.books.insert(symbol@, old(self)@.book(symbol@)),
            final(self)@.index == old(self)@.index,
    {
        match self.find_book(symbol) {
            Some(slot) => {
                proof {
                    lemma_slot(self.markets@, slot as int);
                    assert(self@.books =~= self@.books.insert(symbol@, self@.book(symbol@)));
                }
                slot
            },
            None => {
                let ghost before = self.markets@;
                let market = Market { symbol: symbol.clone(), book: OrderBook::default() };
                proof {
                    assert forall|k: int| 0 <= k < before.len() implies (#[trigger] before[k]).symbol@
                        != market.symbol@ by {
                        if before[k].symbol@ == symbol@ {
                            lemma_slot(before, k);
                        }
                    }
                    lemma_books_push(before, market);
                }
                self.markets.push(market);
                self.markets.len() - 1
            },
        }
    }

    /// Matches `order` against the opposite side of its symbol's book and
    /// rests what is left of it.
    ///
    /// Returns one trade record per resting order hit, best price first
    /// and, within a price, oldest first: a copy of the resting order with
    /// the traded quantity as its volume. An order whose identifier is
    /// already resting is turned away without any effect; [`Self::order`]
    /// tells beforehand whether an identifier is resting.
    pub fn insert(&mut self, order: Order) -> (trades: Vec<Order>)
        requires
            old(self).wf(),
        ensures
            final(self).wf(),
            final(self)@ == old(self)@.insert(order@).state,
            views(trades@) == old(self)@.insert(order@).trades,
    {
        let ghost state = self@;
        let mut order = order;
        let ghost incoming = order@;
        let mut trades: Vec<Order> = Vec::new();
        assert(views(trades@) == Seq::<OrderView>::empty());
        if self.order_map.contains_key(&order.order_id) {
            return trades;
        }
        let slot = self.book_slot(&order.symbol);
        let ghost opened = self.markets@;
        self.markets[slot].book.match_order(&mut order, &mut trades);
        let ghost matched = self.markets@;
        settle_trades(&mut self.order_map, &trades);
        let ghost left = order.volume;
        if order.volume > 0 {
            let ghost settled = records(self.order_map@);
            self.markets[slot].book.place(order.clone());
            self.order_map.insert(order.order_id, order);
            assert(records(self.order_map@) =~= settled.insert(order.order_id, order@));
        }
        proof {
            lemma_books_replace(opened, matched, slot as int);
            if left > 0 {
                lemma_books_replace(matched, self.markets@, slot as int);
            }
            assert(Seq::<OrderView>::empty() + state.insert(incoming).trades == state.insert(
                incoming,
            ).trades);
            assert(self@.books =~= state.insert(incoming).state.books);
            lemma_insert_wf(state, incoming);
        }
        trades
    }

    /// Amends the resting order `order_id` to `new_price` and `new_volume`.
    ///
    /// At the same price and with a volume no larger than the current one
    /// the order keeps its place in the queue and nothing trades. Any other
    /// amend cancels the order and inserts it anew with its new price and
    /// volume, so that it may trade at once. An identifier that is not
    /// resting is ignored.
    pub fn amend(&mut self, order_id: u64, new_price: u64, new_volume: u64) -> (trades: Vec<Order>)
        requires
            old(self).wf(),
        ensures
            final(self).wf(),
            final(self)@ == old(self)@.amend(order_id, new_price, new_volume).state,
            views(trades@) == old(self)@.amend(order_id, new_price, new_volume).trades,
    {
        let ghost state = self@;
        let order = match self.order_map.get(&order_id) {
            Some(order) => order.clone(),
            None => {
                let trades: Vec<Order> = Vec::new();
                assert(views(trades@) == Seq::<OrderView>::empty());
                return trades;
            },
        };
        if new_price == order.price && new_volume <= order.volume {
            match self.find_book(&order.symbol) {
                Some(slot) => {
                    let ghost before = self.markets@;
                    self.markets[slot].book.resize(&order, new_volume);
                    let ghost index = records(self.order_map@);
                    let mut amended = order;
                    amended.volume = new_volume;
                    self.order_map.insert(order_id, amended);
                    proof {
                        assert(records(self.order_map@) =~= index.insert(order_id, amended@));
                        lemma_slot(before, slot as int);
                        lemma_books_replace(before, self.markets@, slot as int);
                        lemma_amend_wf(state, order_id, new_price, new_volume);
                    }
                },
                None => {},
            }
            let trades: Vec<Order> = Vec::new();
            assert(views(trades@) == Seq::<OrderView>::empty());
            trades
        } else {
            let mut reissued = order;
            reissued.price = new_price;
            reissued.volume = new_volume;
            self.cancel(order_id);
            self.insert(reissued)
        }
    }

    /// Cancels the resting order `order_id`. An identifier that is not
    /// resting is ignored.
    pub fn cancel(&mut self, order_id: u64)
        requires
            old(self).wf(),
        ensures
            final(self).wf(),
            final(self)@ == old(self)@.cancel(order_id),
    {
        let ghost state = self@;
        let ghost index = records(self.order_map@);
        match self.order_map.remove(&order_id) {
            Some(order) => {
                assert(records(self.order_map@) =~= index.remove(order_id));
                match self.find_book(&order.symbol) {
                    Some(slot) => {
                        let ghost before = self.markets@;
                        self.markets[slot].book.remove(&order);
                        proof {
                            lemma_slot(before, slot as int);
                            lemma_books_replace(before, self.markets@, slot as int);
                            lemma_cancel_wf(state, order_id);
                        }
                    },
                    None => {},
                }
            },
            None => {
                assert(records(self.order_map@) =~= index);
            },
        }
    }
    /// The resting order indexed under `order_id`, if there is one.
    pub fn order(&self, order_id: u64) -> (found: Option<Order>)
        ensures
            match found {
                Some(order) => self@.index.contains_key(order_id) && order@ == self@.index[order_id],
                None => !self@.index.contains_key(order_id),
            },
    {
        match self.order_map.get(&order_id) {
            Some(order) => Some(order.clone()),
            None => None,
        }
    }

    /// The highest price bid for `symbol`, if there is a bid.
    pub fn best_bid(&self, symbol: &String) -> (price: Option<u64>)
        requires
            self.wf(),
        ensures
            price == self@.book(symbol@).best_bid(),
    {
        match self.find_book(symbol) {
            Some(slot) => {
                proof {
                    lemma_slot(self.markets@, slot as int);
                }
                self.markets[slot].book.best_bid()
            },
            None => None,
        }
    }

    /// The lowest price asked for `symbol`, if there is an ask.
    pub fn best_ask(&self, symbol: &String) -> (price: Option<u64>)
        requires
            self.wf(),
        ensures
            price == self@.book(symbol@).best_ask(),
    {
        match self.find_book(symbol) {
            Some(slot) => {
                proof {
                    lemma_slot(self.markets@, slot as int);
                }
                self.markets[slot].book.best_ask()
            },
            None => None,
        }
    }

    /// The orders of `symbol` that rest at `price` on one side, oldest
    /// first.
    pub fn queue(&self, symbol: &String, side: Side, price: u64) -> (orders: Vec<Order>)
        requires
            self.wf(),
        ensures
            views(orders@) == queue_at(self@.book(symbol@).side(side), price),
    {
        match self.find_book(symbol) {
            Some(slot) => {
                proof {
                    lemma_slot(self.markets@, slot as int);
                }
                self.markets[slot].book.queue(side, price)
            },
            None => {
                let orders: Vec<Order> = Vec::new();
                assert(views(orders@) == Seq::<OrderView>::empty());
                orders
            },
        }
    }
}

} // verus!
