//! The two sides of one symbol's book, and the operations on a side.
//!
//! A side is a list of price levels in ascending order of price. The best
//! ask is the first level of the ask side, the best bid the last level of
//! the bid side.
use crate::level::{fill_queue, match_order_queue, LevelView, PriceLevel};
use crate::order::{crosses, views, Order, OrderView, Side};
use std::collections::VecDeque;
use vstd::prelude::*;

verus! {

/// The resting orders of one symbol.
#[derive(Debug)]
pub struct OrderBook {
    pub(crate) ask_side: Vec<PriceLevel>,
    pub(crate) bid_side: Vec<PriceLevel>,
}

/// Mathematical model of an [`OrderBook`]: each side as its price levels in
/// ascending order of price.
pub struct BookView {
    pub asks: Seq<LevelView>,
    pub bids: Seq<LevelView>,
}

impl BookView {
    /// The book without any order.
    pub open spec fn empty() -> BookView {
        BookView { asks: Seq::empty(), bids: Seq::empty() }
    }

    /// The levels of one side.
    pub open spec fn side(self, side: Side) -> Seq<LevelView> {
        match side {
            Side::BID => self.bids,
            Side::ASK => self.asks,
        }
    }

    /// The highest price bid, if there is a bid.
    pub open spec fn best_bid(self) -> Option<u64> {
        if self.bids.len() == 0 {
            None
        } else {
            Some(self.bids.last().price)
        }
    }

    /// The lowest price asked, if there is an ask.
    pub open spec fn best_ask(self) -> Option<u64> {
        if self.asks.len() == 0 {
            None
        } else {
            Some(self.asks.first().price)
        }
    }

    /// The book with one side replaced.
    pub open spec fn with_side(self, side: Side, levels: Seq<LevelView>) -> BookView {
        match side {
            Side::BID => BookView { bids: levels, ..self },
            Side::ASK => BookView { asks: levels, ..self },
        }
    }
}

/// The side an incoming order of side `side` trades against.
pub open spec fn opposite(side: Side) -> Side {
    match side {
        Side::BID => Side::ASK,
        Side::ASK => Side::BID,
    }
}

/// The model of a list of price levels.
pub open spec fn levels_view(levels: Seq<PriceLevel>) -> Seq<LevelView> {
    levels.map_values(|level: PriceLevel| level@)
}

impl View for OrderBook {
    type V = BookView;

    closed spec fn view(&self) -> BookView {
        BookView { asks: levels_view(self.ask_side@), bids: levels_view(self.bid_side@) }
    }
}

impl Default for OrderBook {
    fn default() -> (book: Self)
        ensures
            book@ == BookView::empty(),
    {
        let book = OrderBook { ask_side: Vec::new(), bid_side: Vec::new() };
        assert(levels_view(book.ask_side@) =~= Seq::empty());
        assert(levels_view(book.bid_side@) =~= Seq::empty());
        book
    }
}

/// Outcome of sweeping one side with an incoming order.
pub struct Sweep {
    /// One record per resting order hit, in the order they were hit.
    pub trades: Seq<OrderView>,
    /// The side afterwards.
    pub levels: Seq<LevelView>,
    /// Incoming quantity still unfilled.
    pub left: u64,
}

/// Where the best level stands in the side that faces a `taker` order:
/// a bid faces the asks, whose lowest price comes first; an ask faces the
/// bids, whose highest price comes last.
pub open spec fn best(taker: Side, levels: Seq<LevelView>) -> int {
    match taker {
        Side::BID => 0,
        Side::ASK => levels.len() - 1,
    }
}

/// Sweeps `levels` with an incoming order of side `taker`, limit price
/// `limit` and quantity `left`.
///
/// The best level is filled first. The sweep stops when nothing is left
/// to fill, when no level is left, or when the best level no longer
/// crosses the limit. A level whose queue is used up is dropped and the
/// sweep goes on with the next best.
pub open spec fn sweep(levels: Seq<LevelView>, taker: Side, limit: u64, left: u64) -> Sweep
    decreases levels.len(),
{
    if levels.len() == 0 || left == 0 || !crosses(
        taker,
        limit,
        levels[best(taker, levels)].price,
    ) {
        Sweep { trades: Seq::empty(), levels, left }
    } else {
        let b = best(taker, levels);
        let fill = fill_queue(levels[b].orders, left);
        if fill.queue.len() > 0 {
            Sweep {
                trades: fill.trades,
                levels: levels.update(b, LevelView { price: levels[b].price, orders: fill.queue }),
                left: fill.left,
            }
        } else {
            let rest = sweep(levels.remove(b), taker, limit, fill.left);
            Sweep { trades: fill.trades + rest.trades, levels: rest.levels, left: rest.left }
        }
    }
}

/// Number of leading levels priced below `price`. In an ascending side this
/// is where the level of that price stands, or where it belongs.
pub open spec fn rank(levels: Seq<LevelView>, price: u64) -> int
    decreases levels.len(),
{
    if levels.len() == 0 || levels[0].price >= price {
        0
    } else {
        1 + rank(levels.drop_first(), price)
    }
}

/// Whether the side has a level at `price`.
pub open spec fn has_level(levels: Seq<LevelView>, price: u64) -> bool {
    rank(levels, price) < levels.len() && levels[rank(levels, price)].price == price
}

/// Index of the first order of the queue with identifier `order_id`, or the
/// length of the queue if there is none.
pub open spec fn position(queue: Seq<OrderView>, order_id: u64) -> int
    decreases queue.len(),
{
    if queue.len() == 0 || queue[0].order_id == order_id {
        0
    } else {
        1 + position(queue.drop_first(), order_id)
    }
}

/// The queue that rests at `price`; empty if the side has no such level.
pub open spec fn queue_at(levels: Seq<LevelView>, price: u64) -> Seq<OrderView> {
    if has_level(levels, price) {
        levels[rank(levels, price)].orders
    } else {
        Seq::empty()
    }
}

/// The side after `order` came to rest: at the tail of the queue of its
/// price, in a new level if there was none.
pub open spec fn rest(levels: Seq<LevelView>, order: OrderView) -> Seq<LevelView> {
    let k = rank(levels, order.price);
    if has_level(levels, order.price) {
        levels.update(k, LevelView { price: order.price, orders: levels[k].orders.push(order) })
    } else {
        levels.insert(k, LevelView { price: order.price, orders: seq![order] })
    }
}

/// The side without the order `order_id` that rests at `price`. A level
/// left without orders is dropped.
pub open spec fn without(levels: Seq<LevelView>, price: u64, order_id: u64) -> Seq<LevelView> {
    let k = rank(levels, price);
    if has_level(levels, price) {
        let queue = levels[k].orders;
        let j = position(queue, order_id);
        let shorter = if j < queue.len() {
            queue.remove(j)
        } else {
            queue
        };
        if shorter.len() == 0 {
            levels.remove(k)
        } else {
            levels.update(k, LevelView { price, orders: shorter })
        }
    } else {
        levels
    }
}

/// The side after the order `order_id` that rests at `price` had its volume
/// set to `volume`, in place.
pub open spec fn reduce(levels: Seq<LevelView>, price: u64, order_id: u64, volume: u64) -> Seq<
    LevelView,
> {
    let k = rank(levels, price);
    if has_level(levels, price) && position(levels[k].orders, order_id) < levels[k].orders.len() {
        let queue = levels[k].orders;
        let j = position(queue, order_id);
        levels.update(k, LevelView { price, orders: queue.update(j, queue[j].with_volume(volume)) })
    } else {
        levels
    }
}

/// Sweeps `levels`, the side that faces `order`, appending the trades.
pub fn sweep_side(levels: &mut Vec<PriceLevel>, order: &mut Order, trades: &mut Vec<Order>)
    ensures
        levels_view(final(levels)@) == sweep(
            levels_view(old(levels)@),
            old(order).side,
            old(order).price,
            old(order).volume,
        ).levels,
        views(final(trades)@) == views(old(trades)@) + sweep(
            levels_view(old(levels)@),
            old(order).side,
            old(order).price,
            old(order).volume,
        ).trades,
        final(order)@ == old(order)@.with_volume(
            sweep(
                levels_view(old(levels)@),
                old(order).side,
                old(order).price,
                old(order).volume,
            ).left,
        ),
{
    let ghost goal = sweep(levels_view(levels@), order.side, order.price, order.volume);
    let ghost mut done: Seq<OrderView> = Seq::empty();
    proof {
        assert(done + goal.trades == goal.trades);
        assert(views(trades@) + done == views(trades@));
    }
    loop
        invariant_except_break
            order@ == old(order)@.with_volume(order.volume),
            views(trades@) == views(old(trades)@) + done,
            goal.trades == done + sweep(
                levels_view(levels@),
                order.side,
                order.price,
                order.volume,
            ).trades,
            goal.levels == sweep(levels_view(levels@), order.side, order.price, order.volume).levels,
            goal.left == sweep(levels_view(levels@), order.side, order.price, order.volume).left,
        ensures
            order@ == old(order)@.with_volume(goal.left),
            views(trades@) == views(old(trades)@) + goal.trades,
            levels_view(levels@) == goal.levels,
        decreases levels@.len(),
    {
        let ghost before = levels_view(levels@);
        let ghost left = order.volume;
        if levels.len() == 0 || order.volume == 0 {
            proof {
                assert(done + Seq::<OrderView>::empty() == done);
            }
            break ;
        }
        let b: usize = match order.side {
            Side::BID => 0,
            Side::ASK => levels.len() - 1,
        };
        assert(b == best(order.side, before));
        let price: u64 = levels[b].price;
        let crossing = match order.side {
            Side::BID => order.price >= price,
            Side::ASK => order.price <= price,
        };
        if !crossing {
            proof {
                assert(done + Seq::<OrderView>::empty() == done);
            }
            break ;
        }
        let ghost fill = fill_queue(before[b as int].orders, left);
        match_order_queue(order, &mut levels[b].orders, trades);
        proof {
            assert(views(trades@) == views(old(trades)@) + (done + fill.trades));
        }
        if levels[b].orders.len() == 0 {
            assert(fill.queue.len() == 0);
            levels.remove(b);
            proof {
                assert(levels_view(levels@) == before.remove(b as int));
                done = done + fill.trades;
                let rest = sweep(before.remove(b as int), order.side, order.price, fill.left);
                assert(goal.trades == done + rest.trades);
            }
        } else {
            proof {
                assert(fill.queue.len() > 0);
                assert(levels_view(levels@) == before.update(
                    b as int,
                    LevelView { price, orders: fill.queue },
                ));
            }
            break ;
        }
    }
}

/// Finds where the level of `price` stands in an ascending side, or where
/// it belongs.
pub fn find_level(levels: &Vec<PriceLevel>, price: u64) -> (k: usize)
    ensures
        k == rank(levels_view(levels@), price),
        k <= levels@.len(),
{
    let ghost view = levels_view(levels@);
    let mut k: usize = 0;
    assert(view.skip(0) == view);
    while k < levels.len() && levels[k].price < price
        invariant
            k <= levels@.len(),
            view == levels_view(levels@),
            rank(view, price) == k + rank(view.skip(k as int), price),
        decreases levels@.len() - k,
    {
        proof {
            assert(view.skip(k as int).drop_first() == view.skip(k as int + 1));
        }
        k = k + 1;
    }
    k
}

/// Finds the first order with identifier `order_id` in a queue; the length
/// of the queue if there is none.
pub fn find_order(queue: &VecDeque<Order>, order_id: u64) -> (j: usize)
    ensures
        j == position(views(queue@), order_id),
        j <= queue@.len(),
{
    let ghost all = views(queue@);
    let mut j: usize = 0;
    assert(all.skip(0) == all);
    while j < queue.len() && queue[j].order_id != order_id
        invariant
            j <= queue@.len(),
            all == views(queue@),
            position(all, order_id) == j + position(all.skip(j as int), order_id),
        decreases queue@.len() - j,
    {
        proof {
            assert(all.skip(j as int).drop_first() == all.skip(j as int + 1));
        }
        j = j + 1;
    }
    j
}

/// Copies the queue that rests at `price`, oldest order first.
pub fn copy_queue(levels: &Vec<PriceLevel>, price: u64) -> (orders: Vec<Order>)
    ensures
        views(orders@) == queue_at(levels_view(levels@), price),
{
    let mut orders: Vec<Order> = Vec::new();
    let k = find_level(levels, price);
    if k < levels.len() && levels[k].price == price {
        let queue = &levels[k].orders;
        let mut j: usize = 0;
        while j < queue.len()
            invariant
                j <= queue@.len(),
                views(orders@) == views(queue@).take(j as int),
            decreases queue@.len() - j,
        {
            let ghost copied = views(orders@);
            let order = queue[j].clone();
            let ghost record = order@;
            orders.push(order);
            assert(views(orders@) == copied.push(record));
            assert(views(queue@).take(j as int).push(views(queue@)[j as int]) == views(
                queue@,
            ).take(j as int + 1));
            j = j + 1;
        }
        assert(views(queue@).take(queue@.len() as int) == views(queue@));
    } else {
        assert(views(orders@) == Seq::<OrderView>::empty());
    }
    orders
}

/// Puts `order` to rest at the tail of the queue of its price, opening the
/// level if the side has none at that price.
pub fn rest_order(levels: &mut Vec<PriceLevel>, order: Order)
    ensures
        levels_view(final(levels)@) == rest(levels_view(old(levels)@), order@),
{
    let ghost before = levels_view(levels@);
    let ghost record = order@;
    let k = find_level(levels, order.price);
    if k < levels.len() && levels[k].price == order.price {
        levels[k].orders.push_back(order);
        assert(views(levels@[k as int].orders@) == before[k as int].orders.push(record));
        assert(levels_view(levels@) == before.update(
            k as int,
            LevelView { price: record.price, orders: before[k as int].orders.push(record) },
        ));
    } else {
        let price = order.price;
        let mut orders = VecDeque::new();
        orders.push_back(order);
        assert(views(orders@) == seq![record]);
        levels.insert(k, PriceLevel { price, orders });
        assert(levels_view(levels@) == before.insert(
            k as int,
            LevelView { price, orders: seq![record] },
        ));
    }
}

/// Takes `order` out of the queue of its price; a level left without
/// orders is dropped.
pub fn cancel_order(levels: &mut Vec<PriceLevel>, order: &Order)
    ensures
        levels_view(final(levels)@) == without(
            levels_view(old(levels)@),
            order.price,
            order.order_id,
        ),
{
    let ghost before = levels_view(levels@);
    let k = find_level(levels, order.price);
    if k < levels.len() && levels[k].price == order.price {
        let j = find_order(&levels[k].orders, order.order_id);
        if j < levels[k].orders.len() {
            let _ = levels[k].orders.remove(j);
        }
        let ghost shorter = views(levels@[k as int].orders@);
        assert(shorter == if j < before[k as int].orders.len() {
            before[k as int].orders.remove(j as int)
        } else {
            before[k as int].orders
        });
        if levels[k].orders.len() == 0 {
            levels.remove(k);
            assert(levels_view(levels@) == before.remove(k as int));
        } else {
            assert(levels_view(levels@) == before.update(
                k as int,
                LevelView { price: order.price, orders: shorter },
            ));
        }
    }
}

/// Sets the volume of the order `order_id` that rests at `price`, leaving
/// it where it stands in its queue.
pub fn reduce_order(levels: &mut Vec<PriceLevel>, price: u64, order_id: u64, volume: u64)
    ensures
        levels_view(final(levels)@) == reduce(levels_view(old(levels)@), price, order_id, volume),
{
    let ghost before = levels_view(levels@);
    let k = find_level(levels, price);
    if k < levels.len() && levels[k].price == price {
        let j = find_order(&levels[k].orders, order_id);
        if j < levels[k].orders.len() {
            let ghost queue = views(levels@[k as int].orders@);
            let mut order = levels[k].orders.remove(j).unwrap();
            order.volume = volume;
            levels[k].orders.insert(j, order);
            assert(views(levels@[k as int].orders@) == queue.update(
                j as int,
                queue[j as int].with_volume(volume),
            ));
            assert(levels_view(levels@) == before.update(
                k as int,
                LevelView {
                    price,
                    orders: queue.update(j as int, queue[j as int].with_volume(volume)),
                },
            ));
        }
    }
}

impl OrderBook {
    /// Matches `order` against the side that faces it, appending the trades.
    pub fn match_order(&mut self, order: &mut Order, trades: &mut Vec<Order>)
        ensures
            final(self)@ == old(self)@.with_side(
                opposite(old(order).side),
                sweep(
                    old(self)@.side(opposite(old(order).side)),
                    old(order).side,
                    old(order).price,
                    old(order).volume,
                ).levels,
            ),
            views(final(trades)@) == views(old(trades)@) + sweep(
                old(self)@.side(opposite(old(order).side)),
                old(order).side,
                old(order).price,
                old(order).volume,
            ).trades,
            final(order)@ == old(order)@.with_volume(
                sweep(
                    old(self)@.side(opposite(old(order).side)),
                    old(order).side,
                    old(order).price,
                    old(order).volume,
                ).left,
            ),
    {
        match order.side {
            Side::BID => sweep_side(&mut self.ask_side, order, trades),
            Side::ASK => sweep_side(&mut self.bid_side, order, trades),
        }
    }

    /// Puts `order` to rest on its side.
    pub fn place(&mut self, order: Order)
        ensures
            final(self)@ == old(self)@.with_side(order.side, rest(old(self)@.side(order.side), order@)),
    {
        match order.side {
            Side::BID => rest_order(&mut self.bid_side, order),
            Side::ASK => rest_order(&mut self.ask_side, order),
        }
    }

    /// Takes the resting `order` out of its side.
    pub fn remove(&mut self, order: &Order)
        ensures
            final(self)@ == old(self)@.with_side(
                order.side,
                without(old(self)@.side(order.side), order.price, order.order_id),
            ),
    {
        match order.side {
            Side::BID => cancel_order(&mut self.bid_side, order),
            Side::ASK => cancel_order(&mut self.ask_side, order),
        }
    }

    /// Sets the volume of the resting `order` to `volume`, in place.
    pub fn resize(&mut self, order: &Order, volume: u64)
        ensures
            final(self)@ == old(self)@.with_side(
                order.side,
                reduce(old(self)@.side(order.side), order.price, order.order_id, volume),
            ),
    {
        match order.side {
            Side::BID => reduce_order(&mut self.bid_side, order.price, order.order_id, volume),
            Side::ASK => reduce_order(&mut self.ask_side, order.price, order.order_id, volume),
        }
    }
    /// The highest price bid, if there is a bid.
    pub fn best_bid(&self) -> (price: Option<u64>)
        ensures
            price == self@.best_bid(),
    {
        if self.bid_side.len() == 0 {
            None
        } else {
            Some(self.bid_side[self.bid_side.len() - 1].price)
        }
    }

    /// The lowest price asked, if there is an ask.
    pub fn best_ask(&self) -> (price: Option<u64>)
        ensures
            price == self@.best_ask(),
    {
        if self.ask_side.len() == 0 {
            None
        } else {
            Some(self.ask_side[0].price)
        }
    }

    /// The orders that rest at `price` on one side, oldest first.
    pub fn queue(&self, side: Side, price: u64) -> (orders: Vec<Order>)
        ensures
            views(orders@) == queue_at(self@.side(side), price),
    {
        match side {
            Side::BID => copy_queue(&self.bid_side, price),
            Side::ASK => copy_queue(&self.ask_side, price),
        }
    }
}

} // verus!
