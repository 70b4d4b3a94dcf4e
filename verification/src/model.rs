//! The mathematical model of the engine: its state, the three operations
//! as functions on that state, and what makes a state well formed.
use crate::book::{opposite, reduce, rest, sweep, without, BookView};
use crate::level::LevelView;
use crate::order::{OrderView, Side};
use vstd::prelude::*;

verus! {

/// Whether `(l, j)` is the place of an order in the side: level `l`,
/// `j`-th in its queue.
pub open spec fn in_side(levels: Seq<LevelView>, l: int, j: int) -> bool {
    0 <= l < levels.len() && 0 <= j < levels[l].orders.len()
}

/// Whether `order` rests somewhere in the side.
pub open spec fn rests_in(levels: Seq<LevelView>, order: OrderView) -> bool {
    exists|l: int, j: int| in_side(levels, l, j) && #[trigger] levels[l].orders[j] == order
}

/// Whether some order of the side has identifier `order_id`.
pub open spec fn has_id(levels: Seq<LevelView>, order_id: u64) -> bool {
    exists|l: int, j: int|
        in_side(levels, l, j) && (#[trigger] levels[l].orders[j]).order_id == order_id
}

/// A side of the book of `symbol` is well formed: prices strictly
/// ascending, no level without orders, every order under its own symbol,
/// side and price, and no identifier twice in one queue.
pub open spec fn side_wf(levels: Seq<LevelView>, symbol: Seq<char>, side: Side) -> bool {
    &&& forall|a: int, b: int|
        0 <= a < b < levels.len() ==> (#[trigger] levels[a]).price < (#[trigger] levels[b]).price
    &&& forall|l: int| 0 <= l < levels.len() ==> (#[trigger] levels[l]).orders.len() > 0
    &&& forall|l: int, j: int|
        in_side(levels, l, j) ==> {
            let order = #[trigger] levels[l].orders[j];
            &&& order.symbol == symbol
            &&& order.side == side
            &&& order.price == levels[l].price
        }
    &&& forall|l: int, i: int, j: int|
        in_side(levels, l, i) && in_side(levels, l, j) && i != j ==> (
        #[trigger] levels[l].orders[i]).order_id != (#[trigger] levels[l].orders[j]).order_id
}

/// Every order of the side is indexed under its identifier, as an exact
/// copy.
pub open spec fn side_indexed(levels: Seq<LevelView>, index: Map<u64, OrderView>) -> bool {
    forall|l: int, j: int|
        in_side(levels, l, j) ==> {
            let order = #[trigger] levels[l].orders[j];
            index.contains_key(order.order_id) && index[order.order_id] == order
        }
}

/// The index after one trade: the resting order that was hit leaves the
/// index if the trade used it up, else its volume goes down by the traded
/// volume.
pub open spec fn settle_one(index: Map<u64, OrderView>, trade: OrderView) -> Map<u64, OrderView> {
    if index.contains_key(trade.order_id) {
        let entry = index[trade.order_id];
        if entry.volume <= trade.volume {
            index.remove(trade.order_id)
        } else {
            index.insert(
                trade.order_id,
                entry.with_volume((entry.volume - trade.volume) as u64),
            )
        }
    } else {
        index
    }
}

/// The index after a sequence of trades.
pub open spec fn settle(index: Map<u64, OrderView>, trades: Seq<OrderView>) -> Map<u64, OrderView>
    decreases trades.len(),
{
    if trades.len() == 0 {
        index
    } else {
        settle(settle_one(index, trades[0]), trades.drop_first())
    }
}

/// The state of a matching engine.
pub struct EngineView {
    /// The book of every symbol that an insert has named so far.
    pub books: Map<Seq<char>, BookView>,
    /// The identifier index: every resting order under its identifier.
    pub index: Map<u64, OrderView>,
}

/// A state together with the trades that led to it.
pub struct Outcome {
    pub state: EngineView,
    pub trades: Seq<OrderView>,
}

impl EngineView {
    /// The engine before any command.
    pub open spec fn empty() -> EngineView {
        EngineView { books: Map::empty(), index: Map::empty() }
    }

    /// The book of `symbol`; the empty book if no insert has named it.
    pub open spec fn book(self, symbol: Seq<char>) -> BookView {
        if self.books.contains_key(symbol) {
            self.books[symbol]
        } else {
            BookView::empty()
        }
    }

    /// Inserting `order`.
    ///
    /// An order whose identifier is resting is turned away: nothing changes.
    /// Otherwise the order sweeps the opposite side of its symbol's book,
    /// the index is settled trade by trade, and what is left of the order,
    /// if anything, comes to rest on its own side and enters the index.
    pub open spec fn insert(self, order: OrderView) -> Outcome {
        if self.index.contains_key(order.order_id) {
            Outcome { state: self, trades: Seq::empty() }
        } else {
            let book = self.book(order.symbol);
            let swept = sweep(
                book.side(opposite(order.side)),
                order.side,
                order.price,
                order.volume,
            );
            let rested = order.with_volume(swept.left);
            let index = settle(self.index, swept.trades);
            let matched = book.with_side(opposite(order.side), swept.levels);
            if swept.left > 0 {
                Outcome {
                    state: EngineView {
                        books: self.books.insert(
                            order.symbol,
                            matched.with_side(order.side, rest(book.side(order.side), rested)),
                        ),
                        index: index.insert(order.order_id, rested),
                    },
                    trades: swept.trades,
                }
            } else {
                Outcome {
                    state: EngineView { books: self.books.insert(order.symbol, matched), index },
                    trades: swept.trades,
                }
            }
        }
    }

    /// Cancelling `order_id`: the indexed order leaves its queue and the
    /// index. An identifier that is not resting changes nothing.
    pub open spec fn cancel(self, order_id: u64) -> EngineView {
        if self.index.contains_key(order_id) {
            let order = self.index[order_id];
            let book = self.books[order.symbol];
            EngineView {
                books: self.books.insert(
                    order.symbol,
                    book.with_side(
                        order.side,
                        without(book.side(order.side), order.price, order_id),
                    ),
                ),
                index: self.index.remove(order_id),
            }
        } else {
            self
        }
    }

    /// Amending `order_id` to `price` and `volume`.
    ///
    /// An identifier that is not resting changes nothing. At the same price
    /// and with a volume no larger than the current one, the order keeps its
    /// place and only its volume changes, in its queue and in the index.
    /// Any other amend is a cancel followed by the insert of the order
    /// with its new price and volume.
    pub open spec fn amend(self, order_id: u64, price: u64, volume: u64) -> Outcome {
        if !self.index.contains_key(order_id) {
            Outcome { state: self, trades: Seq::empty() }
        } else {
            let order = self.index[order_id];
            if price == order.price && volume <= order.volume {
                let book = self.books[order.symbol];
                Outcome {
                    state: EngineView {
                        books: self.books.insert(
                            order.symbol,
                            book.with_side(
                                order.side,
                                reduce(book.side(order.side), price, order_id, volume),
                            ),
                        ),
                        index: self.index.insert(order_id, order.with_volume(volume)),
                    },
                    trades: Seq::empty(),
                }
            } else {
                self.cancel(order_id).insert(order.reissued(price, volume))
            }
        }
    }

    /// The state is well formed: every book is, and the index holds
    /// exactly the resting orders. Each resting order is indexed under its
    /// identifier as an exact copy, and each indexed order rests in the
    /// book of its symbol, on its side.
    pub open spec fn wf(self) -> bool {
        &&& forall|symbol: Seq<char>, side: Side|
            self.books.contains_key(symbol) ==> {
                &&& side_wf(#[trigger] self.books[symbol].side(side), symbol, side)
                &&& side_indexed(self.books[symbol].side(side), self.index)
            }
        &&& forall|order_id: u64| #[trigger]
            self.index.contains_key(order_id) ==> {
                let order = self.index[order_id];
                &&& order.order_id == order_id
                &&& self.books.contains_key(order.symbol)
                &&& rests_in(self.books[order.symbol].side(order.side), order)
            }
    }
}

} // verus!
