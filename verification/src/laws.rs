//! What holds of every sweep, every insert and every amend: price-time
//! priority, conservation of volume, and the amend rule.
use crate::book::{best, has_level, opposite, queue_at, rank, rest, sweep};
use crate::level::{fill_queue, LevelView};
use crate::model::{in_side, rests_in, side_wf, EngineView};
use crate::order::{crosses, OrderView, Side};
use crate::preservation::{lemma_locate, lemma_rank_sorted, lemma_remove_level};
use vstd::prelude::*;

verus! {

/// The volume traded by a sequence of trades.
pub open spec fn total(trades: Seq<OrderView>) -> nat
    decreases trades.len(),
{
    if trades.len() == 0 {
        0
    } else {
        trades[0].volume as nat + total(trades.drop_first())
    }
}

/// The orders of the side that faces a `taker` order, in the order in
/// which they are to be hit: best level first, and each queue from its
/// head.
pub open spec fn priority_order(levels: Seq<LevelView>, taker: Side) -> Seq<OrderView>
    decreases levels.len(),
{
    if levels.len() == 0 {
        Seq::empty()
    } else {
        let b = best(taker, levels);
        levels[b].orders + priority_order(levels.remove(b), taker)
    }
}

/// Whether the resting price `first` is at least as good for a `taker`
/// order as the resting price `second`: lower for a bid, higher for an ask.
pub open spec fn no_worse(taker: Side, first: u64, second: u64) -> bool {
    match taker {
        Side::BID => first <= second,
        Side::ASK => first >= second,
    }
}

/// The volume of a single trade.
pub proof fn lemma_total_single(trade: OrderView)
    ensures
        total(seq![trade]) == trade.volume,
{
    let one = seq![trade];
    assert(one[0] == trade);
    assert(one.drop_first() == Seq::<OrderView>::empty());
    assert(total(Seq::<OrderView>::empty()) == 0);
}

/// The volume of a concatenation is the sum of the volumes.
pub proof fn lemma_total_concat(first: Seq<OrderView>, second: Seq<OrderView>)
    ensures
        total(first + second) == total(first) + total(second),
    decreases first.len(),
{
    if first.len() == 0 {
        assert(first + second == second);
    } else {
        assert((first + second)[0] == first[0]);
        assert((first + second).drop_first() == first.drop_first() + second);
        lemma_total_concat(first.drop_first(), second);
    }
}

/// The volume traded up to and including any one trade is at most the
/// volume of all of them.
pub proof fn lemma_total_prefix(trades: Seq<OrderView>, i: int)
    requires
        0 <= i < trades.len(),
    ensures
        total(trades.take(i)) + trades[i].volume <= total(trades),
{
    let head = trades.take(i);
    let one = seq![trades[i]];
    let tail = trades.skip(i + 1);
    assert(trades == head + (one + tail));
    lemma_total_concat(head, one + tail);
    lemma_total_concat(one, tail);
    lemma_total_single(trades[i]);
}

/// Time priority and conservation within one queue.
///
/// A fill hits the orders of the queue from its head, one trade per
/// order and in queue order. Every trade is a copy of the order it hit,
/// for no more than that order's volume, and only the last trade may leave
/// its order partly unfilled. What was traded and what is left add up to
/// the incoming quantity, and the fill stops only when nothing is left or
/// the queue is used up.
pub proof fn fill_hits_queue_in_order(queue: Seq<OrderView>, left: u64)
    ensures
        ({
            let fill = fill_queue(queue, left);
            let n = fill.trades.len();
            &&& n <= queue.len()
            &&& forall|i: int|
                0 <= i < n ==> (#[trigger] fill.trades[i]) == queue[i].with_volume(
                    fill.trades[i].volume,
                ) && fill.trades[i].volume <= queue[i].volume
            &&& forall|i: int| 0 <= i < n - 1 ==> (#[trigger] fill.trades[i]).volume == queue[i].volume
            &&& total(fill.trades) + fill.left == left
            &&& fill.left == 0 || fill.queue.len() == 0
            &&& fill.queue.len() == 0 ==> fill.trades == queue
            &&& fill.queue.len() > 0 ==> fill.queue.len() + n <= queue.len() + 1
        }),
    decreases queue.len(),
{
    let fill = fill_queue(queue, left);
    if queue.len() == 0 || left == 0 {
        assert(fill.queue.len() == 0 ==> fill.trades == queue);
    } else {
        let maker = queue[0];
        if left < maker.volume {
            lemma_total_single(maker.with_volume(left));
        } else {
            let tail = queue.drop_first();
            let rest = fill_queue(tail, (left - maker.volume) as u64);
            fill_hits_queue_in_order(tail, (left - maker.volume) as u64);
            assert(fill.trades == seq![maker] + rest.trades);
            lemma_total_concat(seq![maker], rest.trades);
            lemma_total_single(maker);
            assert forall|i: int| 0 <= i < fill.trades.len() implies (#[trigger] fill.trades[i])
                == queue[i].with_volume(fill.trades[i].volume) && fill.trades[i].volume
                <= queue[i].volume by {
                if i > 0 {
                    assert(fill.trades[i] == rest.trades[i - 1]);
                    assert(queue[i] == tail[i - 1]);
                }
            }
            assert forall|i: int| 0 <= i < fill.trades.len() - 1 implies (
            #[trigger] fill.trades[i]).volume == queue[i].volume by {
                if i > 0 {
                    assert(fill.trades[i] == rest.trades[i - 1]);
                    assert(queue[i] == tail[i - 1]);
                }
            }
            if fill.queue.len() == 0 {
                assert(rest.trades == tail);
                assert(fill.trades == queue);
            }
        }
    }
}

/// Price-time priority.
///
/// The trades of a sweep hit the orders of the side in priority order,
/// best level first and each queue from its head, without passing over
/// any: the `i`-th trade is a copy of the `i`-th order in that order, for
/// no more than its volume, and only the last trade may leave its order
/// partly unfilled.
pub proof fn sweep_hits_in_priority_order(
    levels: Seq<LevelView>,
    taker: Side,
    limit: u64,
    left: u64,
)
    ensures
        ({
            let swept = sweep(levels, taker, limit, left);
            let list = priority_order(levels, taker);
            let n = swept.trades.len();
            &&& n <= list.len()
            &&& forall|i: int|
                0 <= i < n ==> (#[trigger] swept.trades[i]) == list[i].with_volume(
                    swept.trades[i].volume,
                ) && swept.trades[i].volume <= list[i].volume
            &&& forall|i: int| 0 <= i < n - 1 ==> (#[trigger] swept.trades[i]).volume == list[i].volume
        }),
    decreases levels.len(),
{
    let swept = sweep(levels, taker, limit, left);
    let list = priority_order(levels, taker);
    if levels.len() == 0 || left == 0 || !crosses(taker, limit, levels[best(taker, levels)].price) {
    } else {
        let b = best(taker, levels);
        let queue = levels[b].orders;
        let fill = fill_queue(queue, left);
        let beyond = priority_order(levels.remove(b), taker);
        assert(list == queue + beyond);
        fill_hits_queue_in_order(queue, left);
        if fill.queue.len() > 0 {
            assert forall|i: int| 0 <= i < swept.trades.len() implies (#[trigger] swept.trades[i])
                == list[i].with_volume(swept.trades[i].volume) && swept.trades[i].volume
                <= list[i].volume by {
                assert(list[i] == queue[i]);
            }
            assert forall|i: int| 0 <= i < swept.trades.len() - 1 implies (
            #[trigger] swept.trades[i]).volume == list[i].volume by {
                assert(list[i] == queue[i]);
            }
        } else {
            let rest = sweep(levels.remove(b), taker, limit, fill.left);
            sweep_hits_in_priority_order(levels.remove(b), taker, limit, fill.left);
            assert(swept.trades == queue + rest.trades);
            assert forall|i: int| 0 <= i < swept.trades.len() implies (#[trigger] swept.trades[i])
                == list[i].with_volume(swept.trades[i].volume) && swept.trades[i].volume
                <= list[i].volume by {
                if i < queue.len() {
                    assert(swept.trades[i] == queue[i]);
                    assert(list[i] == queue[i]);
                } else {
                    assert(swept.trades[i] == rest.trades[i - queue.len()]);
                    assert(list[i] == beyond[i - queue.len()]);
                }
            }
            assert forall|i: int| 0 <= i < swept.trades.len() - 1 implies (
            #[trigger] swept.trades[i]).volume == list[i].volume by {
                if i < queue.len() {
                    assert(swept.trades[i] == queue[i]);
                    assert(list[i] == queue[i]);
                } else {
                    assert(swept.trades[i] == rest.trades[i - queue.len()]);
                    assert(list[i] == beyond[i - queue.len()]);
                }
            }
        }
    }
}

/// The priority order lists orders of the side, and all of them.
pub proof fn priority_order_lists_the_side(levels: Seq<LevelView>, taker: Side)
    ensures
        forall|i: int|
            0 <= i < priority_order(levels, taker).len() ==> rests_in(
                levels,
                #[trigger] priority_order(levels, taker)[i],
            ),
        forall|order: OrderView| #[trigger]
            rests_in(levels, order) ==> priority_order(levels, taker).contains(order),
    decreases levels.len(),
{
    let list = priority_order(levels, taker);
    if levels.len() > 0 {
        let b = best(taker, levels);
        let queue = levels[b].orders;
        let fewer = levels.remove(b);
        let beyond = priority_order(fewer, taker);
        priority_order_lists_the_side(fewer, taker);
        assert forall|i: int| 0 <= i < list.len() implies rests_in(levels, #[trigger] list[i]) by {
            if i < queue.len() {
                assert(in_side(levels, b, i) && levels[b].orders[i] == list[i]);
            } else {
                let order = beyond[i - queue.len()];
                assert(rests_in(fewer, order));
                let (l, j) = choose|l: int, j: int|
                    in_side(fewer, l, j) && #[trigger] fewer[l].orders[j] == order;
                let m = if l < b {
                    l
                } else {
                    l + 1
                };
                assert(in_side(levels, m, j) && levels[m].orders[j] == order);
            }
        }
        assert forall|order: OrderView| #[trigger] rests_in(levels, order) implies list.contains(
            order,
        ) by {
            let (l, j) = choose|l: int, j: int|
                in_side(levels, l, j) && #[trigger] levels[l].orders[j] == order;
            if l == b {
                assert(list[j] == order);
            } else {
                let m = if l < b {
                    l
                } else {
                    l - 1
                };
                assert(in_side(fewer, m, j) && fewer[m].orders[j] == order);
                assert(rests_in(fewer, order));
                let i = choose|i: int| 0 <= i < beyond.len() && beyond[i] == order;
                assert(list[queue.len() + i] == order);
            }
        }
    }
}

/// In a well-formed side the priority order goes from the best price to
/// the worst: from the lowest ask up for a bid, from the highest bid down
/// for an ask.
pub proof fn priority_order_is_by_price(
    levels: Seq<LevelView>,
    symbol: Seq<char>,
    side: Side,
    taker: Side,
)
    requires
        side_wf(levels, symbol, side),
    ensures
        forall|i: int, j: int|
            0 <= i < j < priority_order(levels, taker).len() ==> no_worse(
                taker,
                (#[trigger] priority_order(levels, taker)[i]).price,
                (#[trigger] priority_order(levels, taker)[j]).price,
            ),
    decreases levels.len(),
{
    let list = priority_order(levels, taker);
    if levels.len() > 0 {
        let b = best(taker, levels);
        let queue = levels[b].orders;
        let fewer = levels.remove(b);
        let beyond = priority_order(fewer, taker);
        lemma_remove_level(levels, symbol, side, b);
        priority_order_is_by_price(fewer, symbol, side, taker);
        priority_order_lists_the_side(fewer, taker);
        assert forall|i: int, j: int| 0 <= i < j < list.len() implies no_worse(
            taker,
            (#[trigger] list[i]).price,
            (#[trigger] list[j]).price,
        ) by {
            if j < queue.len() {
                assert(in_side(levels, b, i) && in_side(levels, b, j));
                assert(levels[b].orders[i].price == levels[b].price);
                assert(levels[b].orders[j].price == levels[b].price);
            } else if i >= queue.len() {
                assert(list[i] == beyond[i - queue.len()]);
                assert(list[j] == beyond[j - queue.len()]);
            } else {
                assert(in_side(levels, b, i));
                assert(levels[b].orders[i].price == levels[b].price);
                let order = beyond[j - queue.len()];
                assert(rests_in(fewer, order));
                let (l, k) = choose|l: int, k: int|
                    in_side(fewer, l, k) && #[trigger] fewer[l].orders[k] == order;
                let m = if l < b {
                    l
                } else {
                    l + 1
                };
                assert(in_side(levels, m, k) && levels[m].orders[k] == order);
                assert(order.price == levels[m].price);
                if b < m {
                    assert(levels[b].price < levels[m].price);
                } else {
                    assert(levels[m].price < levels[b].price);
                }
            }
        }
    }
}

/// Crossing and conservation over a sweep.
///
/// Every trade is at a price that crosses the limit. What was traded and
/// what is left add up to the incoming quantity. The sweep stops only
/// when nothing is left, when the side is used up, or when its best
/// price no longer crosses the limit.
pub proof fn sweep_crosses_and_conserves(
    levels: Seq<LevelView>,
    symbol: Seq<char>,
    side: Side,
    taker: Side,
    limit: u64,
    left: u64,
)
    requires
        side_wf(levels, symbol, side),
    ensures
        ({
            let swept = sweep(levels, taker, limit, left);
            &&& forall|i: int|
                0 <= i < swept.trades.len() ==> crosses(
                    taker,
                    limit,
                    (#[trigger] swept.trades[i]).price,
                )
            &&& total(swept.trades) + swept.left == left
            &&& swept.left == 0 || swept.levels.len() == 0 || !crosses(
                taker,
                limit,
                swept.levels[best(taker, swept.levels)].price,
            )
        }),
    decreases levels.len(),
{
    let swept = sweep(levels, taker, limit, left);
    if levels.len() == 0 || left == 0 || !crosses(taker, limit, levels[best(taker, levels)].price) {
    } else {
        let b = best(taker, levels);
        let queue = levels[b].orders;
        let fill = fill_queue(queue, left);
        fill_hits_queue_in_order(queue, left);
        assert forall|i: int| 0 <= i < fill.trades.len() implies (#[trigger] fill.trades[i]).price
            == levels[b].price by {
            assert(in_side(levels, b, i));
            assert(levels[b].orders[i].price == levels[b].price);
        }
        if fill.queue.len() == 0 {
            let rest = sweep(levels.remove(b), taker, limit, fill.left);
            lemma_remove_level(levels, symbol, side, b);
            sweep_crosses_and_conserves(levels.remove(b), symbol, side, taker, limit, fill.left);
            lemma_total_concat(fill.trades, rest.trades);
            assert forall|i: int| 0 <= i < swept.trades.len() implies crosses(
                taker,
                limit,
                (#[trigger] swept.trades[i]).price,
            ) by {
                if i < fill.trades.len() {
                    assert(swept.trades[i] == fill.trades[i]);
                } else {
                    assert(swept.trades[i] == rest.trades[i - fill.trades.len()]);
                }
            }
        }
    }
}

/// No trade is for more than the incoming quantity still unfilled when it
/// takes place.
pub proof fn trade_within_what_is_left(
    levels: Seq<LevelView>,
    symbol: Seq<char>,
    side: Side,
    taker: Side,
    limit: u64,
    left: u64,
    i: int,
)
    requires
        side_wf(levels, symbol, side),
        0 <= i < sweep(levels, taker, limit, left).trades.len(),
    ensures
        total(sweep(levels, taker, limit, left).trades.take(i)) + sweep(
            levels,
            taker,
            limit,
            left,
        ).trades[i].volume <= left,
{
    sweep_crosses_and_conserves(levels, symbol, side, taker, limit, left);
    lemma_total_prefix(sweep(levels, taker, limit, left).trades, i);
}

/// The trades of an insert never add up to more than the volume of the
/// incoming order.
pub proof fn insert_conserves_volume(state: EngineView, order: OrderView)
    requires
        state.wf(),
    ensures
        total(state.insert(order).trades) <= order.volume,
{
    if !state.index.contains_key(order.order_id) {
        let symbol = order.symbol;
        let facing = opposite(order.side);
        if state.books.contains_key(symbol) {
            assert(side_wf(state.books[symbol].side(facing), symbol, facing));
        }
        sweep_crosses_and_conserves(
            state.book(symbol).side(facing),
            symbol,
            facing,
            order.side,
            order.price,
            order.volume,
        );
    }
}

/// The trades of an amend never add up to more than the new volume.
pub proof fn amend_conserves_volume(state: EngineView, order_id: u64, price: u64, volume: u64)
    requires
        state.wf(),
    ensures
        total(state.amend(order_id, price, volume).trades) <= volume,
{
    if state.index.contains_key(order_id) {
        let order = state.index[order_id];
        if !(price == order.price && volume <= order.volume) {
            crate::preservation::lemma_cancel_wf(state, order_id);
            insert_conserves_volume(state.cancel(order_id), order.reissued(price, volume));
        }
    }
}

/// In an ascending side, the level that splits the prices below `price`
/// from the others is where `rank` points.
proof fn lemma_rank_is(levels: Seq<LevelView>, price: u64, k: int)
    requires
        forall|a: int, b: int|
            0 <= a < b < levels.len() ==> (#[trigger] levels[a]).price < (#[trigger] levels[b]).price,
        0 <= k <= levels.len(),
        forall|l: int| 0 <= l < k ==> (#[trigger] levels[l]).price < price,
        forall|l: int| k <= l < levels.len() ==> (#[trigger] levels[l]).price >= price,
    ensures
        rank(levels, price) == k,
{
    lemma_rank_sorted(levels, price);
    let r = rank(levels, price);
    if r < k {
        assert(levels[r].price < price);
    }
    if k < r {
        assert(levels[k].price < price);
    }
}

/// The volume that an order with limit price `limit` can take from the
/// side that faces it: the volume of the levels, from the best on, as long
/// as their price crosses the limit.
pub open spec fn crossing_volume(levels: Seq<LevelView>, taker: Side, limit: u64) -> nat
    decreases levels.len(),
{
    if levels.len() == 0 || !crosses(taker, limit, levels[best(taker, levels)].price) {
        0
    } else {
        total(levels[best(taker, levels)].orders) + crossing_volume(
            levels.remove(best(taker, levels)),
            taker,
            limit,
        )
    }
}

/// The trades that took place at `price`, in the order they took place.
pub open spec fn trades_at(trades: Seq<OrderView>, price: u64) -> Seq<OrderView>
    decreases trades.len(),
{
    if trades.len() == 0 {
        Seq::empty()
    } else if trades[0].price == price {
        seq![trades[0]] + trades_at(trades.drop_first(), price)
    } else {
        trades_at(trades.drop_first(), price)
    }
}

/// A fill trades no more than the queue holds.
proof fn lemma_fill_within_queue(queue: Seq<OrderView>, left: u64)
    ensures
        total(fill_queue(queue, left).trades) <= total(queue),
    decreases queue.len(),
{
    if queue.len() > 0 && left > 0 {
        let maker = queue[0];
        if left < maker.volume {
            lemma_total_single(maker.with_volume(left));
        } else {
            let tail = queue.drop_first();
            let rest = fill_queue(tail, (left - maker.volume) as u64);
            lemma_fill_within_queue(tail, (left - maker.volume) as u64);
            lemma_total_single(maker);
            lemma_total_concat(seq![maker], rest.trades);
        }
    }
}

/// A sweep takes all it can.
///
/// The traded volume is the incoming quantity or the volume that rests at
/// crossing prices, whichever is smaller.
pub proof fn sweep_takes_what_it_can(levels: Seq<LevelView>, taker: Side, limit: u64, left: u64)
    ensures
        total(sweep(levels, taker, limit, left).trades) == if left <= crossing_volume(
            levels,
            taker,
            limit,
        ) {
            left as nat
        } else {
            crossing_volume(levels, taker, limit)
        },
    decreases levels.len(),
{
    if levels.len() == 0 || left == 0 || !crosses(taker, limit, levels[best(taker, levels)].price) {
    } else {
        let b = best(taker, levels);
        let queue = levels[b].orders;
        let fill = fill_queue(queue, left);
        fill_hits_queue_in_order(queue, left);
        lemma_fill_within_queue(queue, left);
        if fill.queue.len() == 0 {
            let rest = sweep(levels.remove(b), taker, limit, fill.left);
            sweep_takes_what_it_can(levels.remove(b), taker, limit, fill.left);
            lemma_total_concat(fill.trades, rest.trades);
        }
    }
}

/// The trades at a price of a concatenation are those of its parts.
proof fn lemma_trades_at_concat(first: Seq<OrderView>, second: Seq<OrderView>, price: u64)
    ensures
        trades_at(first + second, price) == trades_at(first, price) + trades_at(second, price),
    decreases first.len(),
{
    if first.len() == 0 {
        assert(first + second == second);
    } else {
        assert((first + second)[0] == first[0]);
        assert((first + second).drop_first() == first.drop_first() + second);
        lemma_trades_at_concat(first.drop_first(), second, price);
    }
}

/// Trades that are all at one price are the trades at that price, and
/// none of them is at another.
proof fn lemma_trades_at_one_price(trades: Seq<OrderView>, at: u64, price: u64)
    requires
        forall|i: int| 0 <= i < trades.len() ==> (#[trigger] trades[i]).price == at,
    ensures
        price == at ==> trades_at(trades, price) == trades,
        price != at ==> trades_at(trades, price) == Seq::<OrderView>::empty(),
    decreases trades.len(),
{
    if trades.len() > 0 {
        let others = trades.drop_first();
        assert(trades[0].price == at);
        assert forall|i: int| 0 <= i < others.len() implies (#[trigger] others[i]).price == at by {
            assert(others[i] == trades[i + 1]);
        }
        lemma_trades_at_one_price(others, at, price);
        if price == at {
            assert(seq![trades[0]] + others == trades);
        }
    }
}

/// Trades none of which is at `price` leave no trade at that price.
proof fn lemma_no_trades_at(trades: Seq<OrderView>, price: u64)
    requires
        forall|i: int| 0 <= i < trades.len() ==> (#[trigger] trades[i]).price != price,
    ensures
        trades_at(trades, price) == Seq::<OrderView>::empty(),
    decreases trades.len(),
{
    if trades.len() > 0 {
        let others = trades.drop_first();
        assert(trades[0].price != price);
        assert forall|i: int| 0 <= i < others.len() implies (#[trigger] others[i]).price
            != price by {
            assert(others[i] == trades[i + 1]);
        }
        lemma_no_trades_at(others, price);
    }
}

/// Every trade of a sweep is at the price of a level of the side.
proof fn lemma_trade_prices(
    levels: Seq<LevelView>,
    symbol: Seq<char>,
    side: Side,
    taker: Side,
    limit: u64,
    left: u64,
)
    requires
        side_wf(levels, symbol, side),
    ensures
        forall|i: int|
            0 <= i < sweep(levels, taker, limit, left).trades.len() ==> exists|l: int|
                0 <= l < levels.len() && (#[trigger] levels[l]).price == (#[trigger] sweep(
                    levels,
                    taker,
                    limit,
                    left,
                ).trades[i]).price,
{
    let trades = sweep(levels, taker, limit, left).trades;
    let list = priority_order(levels, taker);
    sweep_hits_in_priority_order(levels, taker, limit, left);
    priority_order_lists_the_side(levels, taker);
    assert forall|i: int| 0 <= i < trades.len() implies exists|l: int|
        0 <= l < levels.len() && (#[trigger] levels[l]).price == (#[trigger] trades[i]).price by {
        assert(trades[i].price == list[i].price);
        assert(rests_in(levels, list[i]));
        let (l, j) = choose|l: int, j: int|
            in_side(levels, l, j) && #[trigger] levels[l].orders[j] == list[i];
        assert(levels[l].orders[j].price == levels[l].price);
        assert(0 <= l < levels.len() && levels[l].price == trades[i].price);
    }
}

/// In a well-formed side, the queue at the price of a level is the queue
/// of that level.
proof fn lemma_queue_at_level(levels: Seq<LevelView>, symbol: Seq<char>, side: Side, b: int)
    requires
        side_wf(levels, symbol, side),
        0 <= b < levels.len(),
    ensures
        queue_at(levels, levels[b].price) == levels[b].orders,
{
    assert forall|l: int| 0 <= l < b implies (#[trigger] levels[l]).price < levels[b].price by {}
    assert forall|l: int| b <= l < levels.len() implies (#[trigger] levels[l]).price
        >= levels[b].price by {
        if b < l {
            assert(levels[b].price < levels[l].price);
        }
    }
    lemma_rank_is(levels, levels[b].price, b);
}

/// Dropping a level leaves the queues at the other prices as they were.
proof fn lemma_queue_at_remove(
    levels: Seq<LevelView>,
    symbol: Seq<char>,
    side: Side,
    b: int,
    price: u64,
)
    requires
        side_wf(levels, symbol, side),
        0 <= b < levels.len(),
        price != levels[b].price,
    ensures
        queue_at(levels.remove(b), price) == queue_at(levels, price),
{
    let fewer = levels.remove(b);
    let r = rank(levels, price);
    lemma_rank_sorted(levels, price);
    lemma_remove_level(levels, symbol, side, b);
    let k = if b < r {
        r - 1
    } else {
        r
    };
    assert forall|l: int| 0 <= l < k implies (#[trigger] fewer[l]).price < price by {
        let m = if l < b {
            l
        } else {
            l + 1
        };
        assert(fewer[l] == levels[m]);
        assert(levels[m].price < price);
    }
    assert forall|l: int| k <= l < fewer.len() implies (#[trigger] fewer[l]).price >= price by {
        let m = if l < b {
            l
        } else {
            l + 1
        };
        assert(fewer[l] == levels[m]);
        assert(levels[m].price >= price);
    }
    lemma_rank_is(fewer, price, k);
    if r < levels.len() && r != b {
        assert(fewer[k] == levels[r]);
    }
    if r == b {
        assert(levels[b].price > price);
        if k < fewer.len() {
            assert(fewer[k] == levels[b + 1]);
            assert(levels[b].price < levels[b + 1].price);
        }
    }
}

/// Time priority, price by price.
///
/// The trades of a sweep at any one price hit the queue that rested at
/// that price from its head, one trade per order and in queue order: the
/// `i`-th trade at the price is a copy of the `i`-th order of the queue,
/// for no more than its volume.
pub proof fn trades_at_a_price_hit_its_queue_in_order(
    levels: Seq<LevelView>,
    symbol: Seq<char>,
    side: Side,
    taker: Side,
    limit: u64,
    left: u64,
    price: u64,
)
    requires
        side_wf(levels, symbol, side),
    ensures
        ({
            let hits = trades_at(sweep(levels, taker, limit, left).trades, price);
            let queue = queue_at(levels, price);
            &&& hits.len() <= queue.len()
            &&& forall|i: int|
                0 <= i < hits.len() ==> (#[trigger] hits[i]) == queue[i].with_volume(hits[i].volume)
                    && hits[i].volume <= queue[i].volume
        }),
    decreases levels.len(),
{
    let swept = sweep(levels, taker, limit, left);
    if levels.len() == 0 || left == 0 || !crosses(taker, limit, levels[best(taker, levels)].price) {
    } else {
        let b = best(taker, levels);
        let at = levels[b].price;
        let queue = levels[b].orders;
        let fill = fill_queue(queue, left);
        let fewer = levels.remove(b);
        fill_hits_queue_in_order(queue, left);
        assert forall|i: int| 0 <= i < fill.trades.len() implies (#[trigger] fill.trades[i]).price
            == at by {
            assert(in_side(levels, b, i));
            assert(levels[b].orders[i].price == levels[b].price);
        }
        lemma_trades_at_one_price(fill.trades, at, price);
        lemma_queue_at_level(levels, symbol, side, b);
        if fill.queue.len() > 0 {
            assert(swept.trades == fill.trades);
        } else {
            let rest = sweep(fewer, taker, limit, fill.left);
            lemma_remove_level(levels, symbol, side, b);
            lemma_trades_at_concat(fill.trades, rest.trades, price);
            if price == at {
                lemma_trade_prices(fewer, symbol, side, taker, limit, fill.left);
                assert forall|i: int| 0 <= i < rest.trades.len() implies (
                #[trigger] rest.trades[i]).price != price by {
                    let l = choose|l: int|
                        0 <= l < fewer.len() && (#[trigger] fewer[l]).price
                            == rest.trades[i].price;
                    let m = if l < b {
                        l
                    } else {
                        l + 1
                    };
                    assert(fewer[l] == levels[m]);
                    if m < b {
                        assert(levels[m].price < levels[b].price);
                    } else {
                        assert(levels[b].price < levels[m].price);
                    }
                }
                lemma_no_trades_at(rest.trades, price);
                assert(fill.trades + Seq::<OrderView>::empty() == fill.trades);
            } else {
                trades_at_a_price_hit_its_queue_in_order(
                    fewer,
                    symbol,
                    side,
                    taker,
                    limit,
                    fill.left,
                    price,
                );
                lemma_queue_at_remove(levels, symbol, side, b, price);
                assert(Seq::<OrderView>::empty() + trades_at(rest.trades, price) == trades_at(
                    rest.trades,
                    price,
                ));
            }
        }
    }
}

/// Time priority on arrival.
///
/// An order that comes to rest joins the tail of the queue of its price:
/// the orders that were there stay ahead of it, in the order they had.
/// The queues of the other prices are left as they were.
pub proof fn rest_joins_the_tail(
    levels: Seq<LevelView>,
    symbol: Seq<char>,
    side: Side,
    order: OrderView,
    price: u64,
)
    requires
        side_wf(levels, symbol, side),
    ensures
        price == order.price ==> queue_at(rest(levels, order), price) == queue_at(
            levels,
            price,
        ).push(order),
        price != order.price ==> queue_at(rest(levels, order), price) == queue_at(levels, price),
{
    let k = rank(levels, order.price);
    let r = rank(levels, price);
    let after = rest(levels, order);
    lemma_rank_sorted(levels, order.price);
    lemma_rank_sorted(levels, price);
    if has_level(levels, order.price) {
        assert forall|a: int, b: int| 0 <= a < b < after.len() implies (#[trigger] after[a]).price
            < (#[trigger] after[b]).price by {
            assert(levels[a].price < levels[b].price);
        }
        assert forall|l: int| 0 <= l < r implies (#[trigger] after[l]).price < price by {
            assert(levels[l].price < price);
        }
        assert forall|l: int| r <= l < after.len() implies (#[trigger] after[l]).price >= price by {
            assert(levels[l].price >= price);
        }
        lemma_rank_is(after, price, r);
        if price != order.price && r == k {
            assert(levels[r].price != price);
        }
    } else {
        assert(after == levels.insert(k, LevelView { price: order.price, orders: seq![order] }));
        assert(k < levels.len() ==> levels[k].price > order.price);
        assert forall|a: int, b: int| 0 <= a < b < after.len() implies (#[trigger] after[a]).price
            < (#[trigger] after[b]).price by {
            let a0 = if a < k {
                a
            } else {
                a - 1
            };
            let b0 = if b < k {
                b
            } else {
                b - 1
            };
            if a != k && b != k {
                assert(levels[a0].price < levels[b0].price);
            } else if a == k {
                assert(levels[b0].price >= order.price);
                if b0 > k {
                    assert(levels[k].price < levels[b0].price);
                }
            } else {
                assert(levels[a0].price < order.price);
            }
        }
        let r2 = if price <= order.price {
            r
        } else {
            r + 1
        };
        assert(price <= order.price ==> r <= k) by {
            if price <= order.price && r > k {
                assert(levels[k].price < price);
            }
        }
        assert(price > order.price ==> r >= k) by {
            if price > order.price && r < k {
                assert(levels[r].price < order.price);
            }
        }
        assert forall|l: int| 0 <= l < r2 implies (#[trigger] after[l]).price < price by {
            if l < k {
                assert(levels[l].price < order.price);
                if l < r {
                    assert(levels[l].price < price);
                }
            } else if l > k {
                assert(levels[l - 1].price < price);
            }
        }
        assert forall|l: int| r2 <= l < after.len() implies (#[trigger] after[l]).price
            >= price by {
            if l < k {
                assert(levels[l].price >= price);
            } else if l > k {
                assert(levels[l - 1].price >= price);
            }
        }
        lemma_rank_is(after, price, r2);
        if price == order.price {
            assert(r2 == k);
            assert(queue_at(levels, price) == Seq::<OrderView>::empty());
            assert(seq![order] == Seq::<OrderView>::empty().push(order));
        } else if price < order.price {
            if r < levels.len() && r < k {
                assert(after[r] == levels[r]);
            }
            if r == k {
                assert(!has_level(levels, price));
            }
        } else {
            if r < levels.len() {
                assert(after[r + 1] == levels[r]);
            }
        }
    }
}

/// The amend rule, in place.
///
/// An amend to the same price, with a volume no larger than the current
/// one, causes no trade and moves no order: the side keeps its levels
/// and its queues, order for order, and only the volume of the amended
/// order changes.
pub proof fn amend_in_place_keeps_queue_position(state: EngineView, order_id: u64, volume: u64)
    requires
        state.wf(),
        state.index.contains_key(order_id),
        volume <= state.index[order_id].volume,
    ensures
        ({
            let order = state.index[order_id];
            let amended = state.amend(order_id, order.price, volume);
            let before = state.books[order.symbol].side(order.side);
            let after = amended.state.books[order.symbol].side(order.side);
            &&& amended.trades == Seq::<OrderView>::empty()
            &&& after.len() == before.len()
            &&& forall|l: int|
                0 <= l < before.len() ==> (#[trigger] after[l]).price == before[l].price
                    && after[l].orders.len() == before[l].orders.len()
            &&& forall|l: int, j: int|
                in_side(before, l, j) ==> (#[trigger] after[l].orders[j]) == if before[l].orders[j].order_id
                    == order_id {
                    order.with_volume(volume)
                } else {
                    before[l].orders[j]
                }
        }),
{
    let order = state.index[order_id];
    let before = state.books[order.symbol].side(order.side);
    assert(side_wf(state.books[order.symbol].side(order.side), order.symbol, order.side));
    lemma_locate(before, order.symbol, order.side, order, state.index);
}

/// The amend rule, otherwise.
///
/// Any amend of a resting order that changes its price or raises its
/// volume is a cancel followed by the insert of the order with its new
/// price and volume.
pub proof fn amend_otherwise_is_cancel_then_insert(
    state: EngineView,
    order_id: u64,
    price: u64,
    volume: u64,
)
    requires
        state.index.contains_key(order_id),
        price != state.index[order_id].price || volume > state.index[order_id].volume,
    ensures
        state.amend(order_id, price, volume) == state.cancel(order_id).insert(
            state.index[order_id].reissued(price, volume),
        ),
{
}

/// A cancel or an amend of an identifier that is not resting changes
/// nothing and causes no trade.
pub proof fn unknown_identifier_changes_nothing(
    state: EngineView,
    order_id: u64,
    price: u64,
    volume: u64,
)
    requires
        !state.index.contains_key(order_id),
    ensures
        state.cancel(order_id) == state,
        state.amend(order_id, price, volume).state == state,
        state.amend(order_id, price, volume).trades == Seq::<OrderView>::empty(),
{
}

/// The engine before any command is well formed.
pub proof fn empty_is_well_formed()
    ensures
        EngineView::empty().wf(),
{
}

/// In a well-formed state an identifier rests in one place only: two
/// resting orders with one identifier are in the same book, on the same
/// side, at the same level and in the same place of its queue.
pub proof fn identifier_rests_once(
    state: EngineView,
    symbol: Seq<char>,
    side: Side,
    l: int,
    j: int,
    other_symbol: Seq<char>,
    other_side: Side,
    m: int,
    i: int,
)
    requires
        state.wf(),
        state.books.contains_key(symbol),
        state.books.contains_key(other_symbol),
        in_side(state.books[symbol].side(side), l, j),
        in_side(state.books[other_symbol].side(other_side), m, i),
        state.books[symbol].side(side)[l].orders[j].order_id
            == state.books[other_symbol].side(other_side)[m].orders[i].order_id,
    ensures
        symbol == other_symbol,
        side == other_side,
        l == m,
        j == i,
{
    let here = state.books[symbol].side(side);
    let there = state.books[other_symbol].side(other_side);
    assert(side_wf(here, symbol, side) && side_wf(there, other_symbol, other_side));
    assert(here[l].orders[j] == there[m].orders[i]);
    crate::preservation::lemma_side_unique(here, symbol, side, state.index);
}

/// The index holds exactly the resting orders: an identifier is indexed
/// if and only if an order with that identifier rests in some book, and
/// the indexed order is then that resting order.
pub proof fn index_holds_the_resting_orders(state: EngineView, order_id: u64)
    requires
        state.wf(),
    ensures
        state.index.contains_key(order_id) <==> exists|symbol: Seq<char>, side: Side, l: int, j: int|
            state.books.contains_key(symbol) && in_side(state.books[symbol].side(side), l, j) && (
            #[trigger] state.books[symbol].side(side)[l].orders[j]).order_id == order_id,
        forall|symbol: Seq<char>, side: Side, l: int, j: int|
            state.books.contains_key(symbol) && in_side(state.books[symbol].side(side), l, j) && (
            #[trigger] state.books[symbol].side(side)[l].orders[j]).order_id == order_id
                ==> state.index[order_id] == state.books[symbol].side(side)[l].orders[j],
{
    if state.index.contains_key(order_id) {
        let order = state.index[order_id];
        let levels = state.books[order.symbol].side(order.side);
        let (l, j) = choose|l: int, j: int|
            in_side(levels, l, j) && #[trigger] levels[l].orders[j] == order;
        assert(state.books.contains_key(order.symbol) && in_side(
            state.books[order.symbol].side(order.side),
            l,
            j,
        ) && state.books[order.symbol].side(order.side)[l].orders[j].order_id == order_id);
    }
    assert forall|symbol: Seq<char>, side: Side, l: int, j: int|
        state.books.contains_key(symbol) && in_side(state.books[symbol].side(side), l, j) && (
        #[trigger] state.books[symbol].side(side)[l].orders[j]).order_id == order_id implies state.index.contains_key(
        order_id,
    ) && state.index[order_id] == state.books[symbol].side(side)[l].orders[j] by {
        assert(side_wf(state.books[symbol].side(side), symbol, side));
    }
}

} // verus!
