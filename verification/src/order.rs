//! Orders and the side of the book they belong to.
use vstd::prelude::*;

verus! {

/// Side of the book: `BID` buys, `ASK` sells.
#[derive(Debug, PartialEq, Eq, Clone, Copy, Structural)]
pub enum Side {
    BID,
    ASK,
}

/// A limit order, or a trade record.
///
/// As a resting order, `volume` is the quantity still unfilled. As a trade
/// record it is a snapshot of the resting order that was hit, with `volume`
/// set to the quantity traded.
#[derive(Debug, PartialEq)]
pub struct Order {
    pub symbol: String,
    pub side: Side,
    pub order_id: u64,
    /// Fixed-point price: the real price times 10,000.
    pub price: u64,
    pub volume: u64,
}

/// Mathematical model of an [`Order`]: the same record, with the symbol as
/// its sequence of characters.
pub struct OrderView {
    pub symbol: Seq<char>,
    pub side: Side,
    pub order_id: u64,
    pub price: u64,
    pub volume: u64,
}

impl OrderView {
    /// The same order with another volume.
    pub open spec fn with_volume(self, volume: u64) -> OrderView {
        OrderView { volume, ..self }
    }

    /// The same order with another price and volume.
    pub open spec fn reissued(self, price: u64, volume: u64) -> OrderView {
        OrderView { price, volume, ..self }
    }
}

impl View for Order {
    type V = OrderView;

    open spec fn view(&self) -> OrderView {
        OrderView {
            symbol: self.symbol@,
            side: self.side,
            order_id: self.order_id,
            price: self.price,
            volume: self.volume,
        }
    }
}

/// The models of a sequence of orders.
pub open spec fn views(orders: Seq<Order>) -> Seq<OrderView> {
    orders.map_values(|order: Order| order@)
}

impl Clone for Order {
    fn clone(&self) -> (copy: Self)
        ensures
            copy@ == self@,
    {
        Order {
            symbol: self.symbol.clone(),
            side: self.side,
            order_id: self.order_id,
            price: self.price,
            volume: self.volume,
        }
    }
}

/// Whether an incoming order of side `taker` with limit price `limit` may
/// trade against a resting order priced `resting`: a bid crosses asks at or
/// below its limit, an ask crosses bids at or above its limit.
pub open spec fn crosses(taker: Side, limit: u64, resting: u64) -> bool {
    match taker {
        Side::BID => limit >= resting,
        Side::ASK => limit <= resting,
    }
}

} // verus!
