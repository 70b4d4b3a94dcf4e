//! A price level: the FIFO queue of the orders that rest at one price.
use crate::order::{views, Order, OrderView};
use std::collections::VecDeque;
use vstd::prelude::*;

verus! {

/// The orders resting at one price, oldest first.
#[derive(Debug)]
pub struct PriceLevel {
    pub price: u64,
    pub orders: VecDeque<Order>,
}

/// Mathematical model of a [`PriceLevel`].
pub struct LevelView {
    pub price: u64,
    pub orders: Seq<OrderView>,
}

impl View for PriceLevel {
    type V = LevelView;

    open spec fn view(&self) -> LevelView {
        LevelView { price: self.price, orders: views(self.orders@) }
    }
}

/// Outcome of filling an incoming quantity against one queue.
pub struct Fill {
    /// One record per resting order hit, in the order they were hit.
    pub trades: Seq<OrderView>,
    /// The queue afterwards.
    pub queue: Seq<OrderView>,
    /// Incoming quantity still unfilled.
    pub left: u64,
}

/// Fills `left` units against `queue`, head first.
///
/// The head trades `min(left, head.volume)`. A head that is used up leaves
/// the queue and the next one is hit with what remains; a head that is not
/// stays in place with its volume reduced, and nothing remains.
pub open spec fn fill_queue(queue: Seq<OrderView>, left: u64) -> Fill
    decreases queue.len(),
{
    if queue.len() == 0 || left == 0 {
        Fill { trades: Seq::empty(), queue, left }
    } else {
        let maker = queue[0];
        if left < maker.volume {
            Fill {
                trades: seq![maker.with_volume(left)],
                queue: queue.update(0, maker.with_volume((maker.volume - left) as u64)),
                left: 0,
            }
        } else {
            let rest = fill_queue(queue.drop_first(), (left - maker.volume) as u64);
            Fill { trades: seq![maker] + rest.trades, queue: rest.queue, left: rest.left }
        }
    }
}

/// Matches `order` against `order_queue`, oldest resting order first,
/// appending one trade record per resting order hit.
pub fn match_order_queue(
    order: &mut Order,
    order_queue: &mut VecDeque<Order>,
    trades: &mut Vec<Order>,
)
    ensures
        views(final(order_queue)@) == fill_queue(views(old(order_queue)@), old(order).volume).queue,
        views(final(trades)@) == views(old(trades)@) + fill_queue(
            views(old(order_queue)@),
            old(order).volume,
        ).trades,
        final(order)@ == old(order)@.with_volume(
            fill_queue(views(old(order_queue)@), old(order).volume).left,
        ),
{
    let ghost goal = fill_queue(views(order_queue@), order.volume);
    let ghost mut done: Seq<OrderView> = Seq::empty();
    assert(views(trades@) + done == views(trades@));
    while order.volume > 0 && order_queue.len() > 0
        invariant
            order@ == old(order)@.with_volume(order.volume),
            views(trades@) == views(old(trades)@) + done,
            goal.trades == done + fill_queue(views(order_queue@), order.volume).trades,
            goal.queue == fill_queue(views(order_queue@), order.volume).queue,
            goal.left == fill_queue(views(order_queue@), order.volume).left,
        decreases order.volume + order_queue@.len(),
    {
        let ghost before = views(order_queue@);
        let ghost left = order.volume;
        let ghost recorded = views(trades@);
        let mut maker = order_queue.pop_front().unwrap();
        assert(views(order_queue@) == before.drop_first());
        assert(maker@ == before[0]);
        let match_size: u64 = if order.volume < maker.volume {
            order.volume
        } else {
            maker.volume
        };
        let mut trade = maker.clone();
        trade.volume = match_size;
        let ghost record = trade@;
        trades.push(trade);
        assert(views(trades@) == recorded.push(record));
        order.volume = order.volume - match_size;
        if match_size < maker.volume {
            maker.volume = maker.volume - match_size;
            order_queue.push_front(maker);
            assert(views(order_queue@) == before.update(
                0,
                before[0].with_volume((before[0].volume - left) as u64),
            ));
        }
        proof {
            done = done + seq![record];
            assert(goal.trades == done + fill_queue(views(order_queue@), order.volume).trades);
        }
    }
    proof {
        assert(done + Seq::<OrderView>::empty() == done);
    }
}

} // verus!
