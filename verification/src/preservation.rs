//! Every operation keeps the state well formed.
use crate::book::{best, has_level, opposite, position, rank, reduce, rest, sweep, without};
use crate::level::{fill_queue, LevelView};
use crate::model::{
    has_id, in_side, rests_in, settle, settle_one, side_indexed, side_wf, EngineView,
};
use crate::order::{OrderView, Side};
use vstd::prelude::*;

verus! {

/// Every order of the queue is indexed under its identifier, as an exact
/// copy.
pub open spec fn queue_indexed(queue: Seq<OrderView>, index: Map<u64, OrderView>) -> bool {
    forall|j: int|
        0 <= j < queue.len() ==> index.contains_key((#[trigger] queue[j]).order_id)
            && index[queue[j].order_id] == queue[j]
}

/// Whether some order of the queue has identifier `order_id`.
pub open spec fn queue_has(queue: Seq<OrderView>, order_id: u64) -> bool {
    exists|j: int| 0 <= j < queue.len() && (#[trigger] queue[j]).order_id == order_id
}

/// No identifier occurs twice in the queue.
pub open spec fn distinct_ids(queue: Seq<OrderView>) -> bool {
    forall|i: int, j: int|
        0 <= i < j < queue.len() ==> (#[trigger] queue[i]).order_id != (
        #[trigger] queue[j]).order_id
}

/// `after` is what is left of `before` once orders have gone from its
/// head: the same orders in the same sequence, none with more volume.
pub open spec fn is_tail(after: Seq<OrderView>, before: Seq<OrderView>) -> bool {
    &&& after.len() <= before.len()
    &&& forall|i: int|
        0 <= i < after.len() ==> {
            let was = before[before.len() - after.len() + i];
            (#[trigger] after[i]) == was.with_volume(after[i].volume) && after[i].volume
                <= was.volume
        }
}

/// No identifier occurs twice in the side.
pub open spec fn side_unique(levels: Seq<LevelView>) -> bool {
    forall|l: int, i: int, m: int, j: int|
        in_side(levels, l, i) && in_side(levels, m, j) && (#[trigger] levels[l].orders[i]).order_id
            == (#[trigger] levels[m].orders[j]).order_id ==> l == m && i == j
}

/// How a queue and the index stand after a fill, `queue` and `index`
/// before, `after` and `settled` afterwards: the queue is a tail of what
/// it was and is indexed, identifiers that were not in the queue are left
/// alone in the index, and an identifier of the queue stays in the index
/// only if it stays in the queue.
pub open spec fn queue_settled(
    queue: Seq<OrderView>,
    after: Seq<OrderView>,
    index: Map<u64, OrderView>,
    settled: Map<u64, OrderView>,
) -> bool {
    &&& is_tail(after, queue)
    &&& queue_indexed(after, settled)
    &&& forall|id: u64|
        !queue_has(queue, id) && #[trigger] index.contains_key(id) ==> settled.contains_key(id)
            && settled[id] == index[id]
    &&& forall|id: u64| #[trigger] settled.contains_key(id) ==> index.contains_key(id)
    &&& forall|id: u64|
        queue_has(queue, id) && #[trigger] settled.contains_key(id) ==> queue_has(after, id)
}

/// How a side and the index stand after a sweep, `levels` and `index`
/// before, `after` and `settled` afterwards: the side is well formed and
/// indexed, identifiers that were not on the side are left alone in the
/// index, an identifier of the side stays in the index only if it stays
/// on the side, and no identifier is new to the side.
pub open spec fn side_settled(
    levels: Seq<LevelView>,
    after: Seq<LevelView>,
    index: Map<u64, OrderView>,
    settled: Map<u64, OrderView>,
    symbol: Seq<char>,
    side: Side,
) -> bool {
    &&& side_wf(after, symbol, side)
    &&& side_indexed(after, settled)
    &&& forall|id: u64|
        !has_id(levels, id) && #[trigger] index.contains_key(id) ==> settled.contains_key(id)
            && settled[id] == index[id]
    &&& forall|id: u64| #[trigger] settled.contains_key(id) ==> index.contains_key(id)
    &&& forall|id: u64|
        has_id(levels, id) && #[trigger] settled.contains_key(id) ==> has_id(after, id)
    &&& forall|id: u64| #[trigger] has_id(after, id) ==> has_id(levels, id)
}

/// Settling two runs of trades one after the other is settling their
/// concatenation.
pub proof fn lemma_settle_concat(index: Map<u64, OrderView>, first: Seq<OrderView>, second: Seq<OrderView>)
    ensures
        settle(index, first + second) == settle(settle(index, first), second),
    decreases first.len(),
{
    if first.len() == 0 {
        assert(first + second == second);
    } else {
        assert((first + second)[0] == first[0]);
        assert((first + second).drop_first() == first.drop_first() + second);
        lemma_settle_concat(settle_one(index, first[0]), first.drop_first(), second);
    }
}

/// Settling a single trade.
pub proof fn lemma_settle_single(index: Map<u64, OrderView>, trade: OrderView)
    ensures
        settle(index, seq![trade]) == settle_one(index, trade),
{
    let trades = seq![trade];
    assert(trades[0] == trade);
    assert(trades.drop_first() == Seq::<OrderView>::empty());
    assert(settle(settle_one(index, trade), Seq::<OrderView>::empty()) == settle_one(index, trade));
}

/// Settling a trade followed by others.
pub proof fn lemma_settle_first(index: Map<u64, OrderView>, trade: OrderView, others: Seq<OrderView>)
    ensures
        settle(index, seq![trade] + others) == settle(settle_one(index, trade), others),
{
    let trades = seq![trade] + others;
    assert(trades[0] == trade);
    assert(trades.drop_first() == others);
}

/// The head of the queue is hit for part of its volume: it stays in place,
/// in the queue and in the index, with what is left of it.
proof fn lemma_fill_partial(queue: Seq<OrderView>, left: u64, index: Map<u64, OrderView>)
    requires
        distinct_ids(queue),
        queue_indexed(queue, index),
        queue.len() > 0,
        0 < left < queue[0].volume,
    ensures
        ({
            let reduced = queue[0].with_volume((queue[0].volume - left) as u64);
            let fill = fill_queue(queue, left);
            &&& fill.queue == queue.update(0, reduced)
            &&& settle(index, fill.trades) == index.insert(queue[0].order_id, reduced)
        }),
{
    let maker = queue[0];
    lemma_settle_single(index, maker.with_volume(left));
}

/// The head of the queue is used up: it leaves the queue and the index,
/// and the fill goes on with the rest.
proof fn lemma_fill_full(queue: Seq<OrderView>, left: u64, index: Map<u64, OrderView>)
    requires
        distinct_ids(queue),
        queue_indexed(queue, index),
        queue.len() > 0,
        left >= queue[0].volume,
        left > 0,
    ensures
        ({
            let less = (left - queue[0].volume) as u64;
            let removed = index.remove(queue[0].order_id);
            let fill = fill_queue(queue, left);
            &&& fill.queue == fill_queue(queue.drop_first(), less).queue
            &&& settle(index, fill.trades) == settle(
                removed,
                fill_queue(queue.drop_first(), less).trades,
            )
            &&& distinct_ids(queue.drop_first())
            &&& queue_indexed(queue.drop_first(), removed)
        }),
{
    let maker = queue[0];
    let tail = queue.drop_first();
    let less = (left - maker.volume) as u64;
    let removed = index.remove(maker.order_id);
    lemma_settle_first(index, maker, fill_queue(tail, less).trades);
    assert(settle_one(index, maker) == removed);
    assert forall|i: int, j: int| 0 <= i < j < tail.len() implies (#[trigger] tail[i]).order_id != (
    #[trigger] tail[j]).order_id by {
        assert(queue[i + 1].order_id != queue[j + 1].order_id);
    }
    assert forall|j: int| 0 <= j < tail.len() implies removed.contains_key(
        (#[trigger] tail[j]).order_id,
    ) && removed[tail[j].order_id] == tail[j] by {
        assert(tail[j] == queue[j + 1]);
        assert(queue[0].order_id != queue[j + 1].order_id);
    }
}

/// A head hit for part of its volume settles the queue.
proof fn lemma_head_reduced(queue: Seq<OrderView>, volume: u64, index: Map<u64, OrderView>)
    requires
        distinct_ids(queue),
        queue_indexed(queue, index),
        queue.len() > 0,
        volume <= queue[0].volume,
    ensures
        queue_settled(
            queue,
            queue.update(0, queue[0].with_volume(volume)),
            index,
            index.insert(queue[0].order_id, queue[0].with_volume(volume)),
        ),
{
    let reduced = queue[0].with_volume(volume);
    let after = queue.update(0, reduced);
    let settled = index.insert(queue[0].order_id, reduced);
    assert(is_tail(after, queue)) by {
        assert forall|i: int| 0 <= i < after.len() implies {
            let was = queue[queue.len() - after.len() + i];
            (#[trigger] after[i]) == was.with_volume(after[i].volume) && after[i].volume
                <= was.volume
        } by {
            if i > 0 {
                assert(after[i] == queue[i]);
            }
        }
    }
    assert(queue_indexed(after, settled)) by {
        assert forall|j: int| 0 <= j < after.len() implies settled.contains_key(
            (#[trigger] after[j]).order_id,
        ) && settled[after[j].order_id] == after[j] by {
            if j > 0 {
                assert(after[j] == queue[j]);
                assert(queue[0].order_id != queue[j].order_id);
            }
        }
    }
    assert forall|id: u64| !queue_has(queue, id) && #[trigger] index.contains_key(
        id,
    ) implies settled.contains_key(id) && settled[id] == index[id] by {
        assert(queue[0].order_id != id);
    }
    assert forall|id: u64| #[trigger] settled.contains_key(id) implies index.contains_key(id) by {
        assert(index.contains_key(queue[0].order_id));
    }
    assert forall|id: u64| queue_has(queue, id) && #[trigger] settled.contains_key(
        id,
    ) implies queue_has(after, id) by {
        let j = choose|j: int| 0 <= j < queue.len() && (#[trigger] queue[j]).order_id == id;
        assert(after[j].order_id == id);
    }
}

/// A settled rest of the queue, once the head has left queue and index,
/// is a settled queue.
proof fn lemma_head_gone(
    queue: Seq<OrderView>,
    after: Seq<OrderView>,
    index: Map<u64, OrderView>,
    settled: Map<u64, OrderView>,
)
    requires
        distinct_ids(queue),
        queue_indexed(queue, index),
        queue.len() > 0,
        queue_settled(queue.drop_first(), after, index.remove(queue[0].order_id), settled),
    ensures
        queue_settled(queue, after, index, settled),
{
    let tail = queue.drop_first();
    let removed = index.remove(queue[0].order_id);
    assert(is_tail(after, queue)) by {
        assert forall|i: int| 0 <= i < after.len() implies {
            let was = queue[queue.len() - after.len() + i];
            (#[trigger] after[i]) == was.with_volume(after[i].volume) && after[i].volume
                <= was.volume
        } by {
            assert(tail[tail.len() - after.len() + i] == queue[queue.len() - after.len() + i]);
        }
    }
    assert forall|id: u64| !queue_has(queue, id) && #[trigger] index.contains_key(
        id,
    ) implies settled.contains_key(id) && settled[id] == index[id] by {
        if queue_has(tail, id) {
            let j = choose|j: int| 0 <= j < tail.len() && (#[trigger] tail[j]).order_id == id;
            assert(queue[j + 1].order_id == id);
        }
        assert(queue[0].order_id != id);
        assert(removed.contains_key(id));
    }
    assert forall|id: u64| #[trigger] settled.contains_key(id) implies index.contains_key(id) by {
        assert(removed.contains_key(id));
    }
    assert forall|id: u64| queue_has(queue, id) && #[trigger] settled.contains_key(
        id,
    ) implies queue_has(after, id) by {
        let j = choose|j: int| 0 <= j < queue.len() && (#[trigger] queue[j]).order_id == id;
        assert(removed.contains_key(id));
        assert(j > 0);
        assert(tail[j - 1].order_id == id);
    }
}

/// Filling a queue and settling the trades in the index keeps the queue
/// and the index in step.
pub proof fn lemma_fill(queue: Seq<OrderView>, left: u64, index: Map<u64, OrderView>)
    requires
        distinct_ids(queue),
        queue_indexed(queue, index),
    ensures
        queue_settled(
            queue,
            fill_queue(queue, left).queue,
            index,
            settle(index, fill_queue(queue, left).trades),
        ),
    decreases queue.len(),
{
    if queue.len() == 0 || left == 0 {
        assert(is_tail(queue, queue));
    } else if left < queue[0].volume {
        lemma_fill_partial(queue, left, index);
        lemma_head_reduced(queue, (queue[0].volume - left) as u64, index);
    } else {
        let less = (left - queue[0].volume) as u64;
        lemma_fill_full(queue, left, index);
        lemma_fill(queue.drop_first(), less, index.remove(queue[0].order_id));
        lemma_head_gone(
            queue,
            fill_queue(queue, left).queue,
            index,
            settle(index, fill_queue(queue, left).trades),
        );
    }
}

/// In a well-formed side whose orders are all indexed, no identifier
/// occurs twice: two orders with one identifier would both equal the
/// indexed copy, so share a price, so a level, so a place.
pub proof fn lemma_side_unique(
    levels: Seq<LevelView>,
    symbol: Seq<char>,
    side: Side,
    index: Map<u64, OrderView>,
)
    requires
        side_wf(levels, symbol, side),
        side_indexed(levels, index),
    ensures
        side_unique(levels),
{
    assert forall|l: int, i: int, m: int, j: int|
        in_side(levels, l, i) && in_side(levels, m, j) && (#[trigger] levels[l].orders[i]).order_id
            == (#[trigger] levels[m].orders[j]).order_id implies l == m && i == j by {
        assert(levels[l].orders[i] == levels[m].orders[j]);
        assert(levels[l].price == levels[m].price);
        if l < m {
            assert(levels[l].price < levels[m].price);
        }
        if m < l {
            assert(levels[m].price < levels[l].price);
        }
    }
}

/// In an ascending side, `rank` splits the levels into those priced below
/// `price` and those priced at or above it.
pub proof fn lemma_rank_sorted(levels: Seq<LevelView>, price: u64)
    requires
        forall|a: int, b: int|
            0 <= a < b < levels.len() ==> (#[trigger] levels[a]).price < (#[trigger] levels[b]).price,
    ensures
        0 <= rank(levels, price) <= levels.len(),
        forall|l: int| 0 <= l < rank(levels, price) ==> (#[trigger] levels[l]).price < price,
        forall|l: int|
            rank(levels, price) <= l < levels.len() ==> (#[trigger] levels[l]).price >= price,
    decreases levels.len(),
{
    if levels.len() == 0 {
    } else if levels[0].price >= price {
        assert forall|l: int| 0 <= l < levels.len() implies (#[trigger] levels[l]).price
            >= price by {
            if l > 0 {
                assert(levels[0].price < levels[l].price);
            }
        }
    } else {
        let tail = levels.drop_first();
        assert forall|a: int, b: int| 0 <= a < b < tail.len() implies (#[trigger] tail[a]).price < (
        #[trigger] tail[b]).price by {
            assert(levels[a + 1].price < levels[b + 1].price);
        }
        lemma_rank_sorted(tail, price);
        assert forall|l: int| 0 <= l < rank(levels, price) implies (#[trigger] levels[l]).price
            < price by {
            if l > 0 {
                assert(tail[l - 1].price < price);
            }
        }
        assert forall|l: int| rank(levels, price) <= l < levels.len() implies (
        #[trigger] levels[l]).price >= price by {
            assert(tail[l - 1].price >= price);
        }
    }
}

/// `position` is the first place of the identifier in the queue.
pub proof fn lemma_position_first(queue: Seq<OrderView>, order_id: u64)
    ensures
        0 <= position(queue, order_id) <= queue.len(),
        position(queue, order_id) < queue.len() ==> queue[position(queue, order_id)].order_id
            == order_id,
        forall|j: int|
            0 <= j < position(queue, order_id) ==> (#[trigger] queue[j]).order_id != order_id,
    decreases queue.len(),
{
    if queue.len() > 0 && queue[0].order_id != order_id {
        let tail = queue.drop_first();
        lemma_position_first(tail, order_id);
        assert forall|j: int| 0 <= j < position(queue, order_id) implies (
        #[trigger] queue[j]).order_id != order_id by {
            if j > 0 {
                assert(tail[j - 1].order_id != order_id);
            }
        }
    }
}

/// One settled sweep after another is a settled sweep.
pub proof fn lemma_side_settled_twice(
    levels: Seq<LevelView>,
    between: Seq<LevelView>,
    after: Seq<LevelView>,
    index: Map<u64, OrderView>,
    partly: Map<u64, OrderView>,
    settled: Map<u64, OrderView>,
    symbol: Seq<char>,
    side: Side,
)
    requires
        side_settled(levels, between, index, partly, symbol, side),
        side_settled(between, after, partly, settled, symbol, side),
    ensures
        side_settled(levels, after, index, settled, symbol, side),
{
    assert forall|id: u64| !has_id(levels, id) && #[trigger] index.contains_key(
        id,
    ) implies settled.contains_key(id) && settled[id] == index[id] by {
        assert(!has_id(between, id));
        assert(partly.contains_key(id));
    }
    assert forall|id: u64| #[trigger] settled.contains_key(id) implies index.contains_key(id) by {
        assert(partly.contains_key(id));
    }
    assert forall|id: u64| has_id(levels, id) && #[trigger] settled.contains_key(
        id,
    ) implies has_id(after, id) by {
        assert(partly.contains_key(id));
        assert(has_id(between, id));
    }
    assert forall|id: u64| #[trigger] has_id(after, id) implies has_id(levels, id) by {
        assert(has_id(between, id));
    }
}

/// The queue of level `b` and its orders in the index, seen from the side.
proof fn lemma_level_queue(
    levels: Seq<LevelView>,
    symbol: Seq<char>,
    side: Side,
    b: int,
    index: Map<u64, OrderView>,
)
    requires
        side_wf(levels, symbol, side),
        side_indexed(levels, index),
        0 <= b < levels.len(),
    ensures
        distinct_ids(levels[b].orders),
        queue_indexed(levels[b].orders, index),
        forall|id: u64| #[trigger] queue_has(levels[b].orders, id) ==> has_id(levels, id),
        forall|l: int, j: int|
            in_side(levels, l, j) && l != b ==> !queue_has(
                levels[b].orders,
                (#[trigger] levels[l].orders[j]).order_id,
            ),
{
    let queue = levels[b].orders;
    lemma_side_unique(levels, symbol, side, index);
    assert forall|i: int, j: int| 0 <= i < j < queue.len() implies (#[trigger] queue[i]).order_id
        != (#[trigger] queue[j]).order_id by {
        assert(in_side(levels, b, i) && in_side(levels, b, j));
        assert(levels[b].orders[i].order_id != levels[b].orders[j].order_id);
    }
    assert forall|j: int| 0 <= j < queue.len() implies index.contains_key(
        (#[trigger] queue[j]).order_id,
    ) && index[queue[j].order_id] == queue[j] by {
        assert(in_side(levels, b, j));
        assert(levels[b].orders[j] == queue[j]);
    }
    assert forall|id: u64| #[trigger] queue_has(queue, id) implies has_id(levels, id) by {
        let i = choose|i: int| 0 <= i < queue.len() && (#[trigger] queue[i]).order_id == id;
        assert(in_side(levels, b, i) && levels[b].orders[i].order_id == id);
    }
    assert forall|l: int, j: int| in_side(levels, l, j) && l != b implies !queue_has(
        queue,
        (#[trigger] levels[l].orders[j]).order_id,
    ) by {
        let id = levels[l].orders[j].order_id;
        if queue_has(queue, id) {
            let i = choose|i: int| 0 <= i < queue.len() && (#[trigger] queue[i]).order_id == id;
            assert(in_side(levels, b, i));
            assert(levels[b].orders[i].order_id == id);
        }
    }
}

/// A fill that leaves orders in the queue of level `b` settles the side.
proof fn lemma_level_settled(
    levels: Seq<LevelView>,
    symbol: Seq<char>,
    side: Side,
    b: int,
    queue: Seq<OrderView>,
    index: Map<u64, OrderView>,
    settled: Map<u64, OrderView>,
)
    requires
        side_wf(levels, symbol, side),
        side_indexed(levels, index),
        0 <= b < levels.len(),
        queue.len() > 0,
        queue_settled(levels[b].orders, queue, index, settled),
    ensures
        side_settled(
            levels,
            levels.update(b, LevelView { price: levels[b].price, orders: queue }),
            index,
            settled,
            symbol,
            side,
        ),
{
    let was = levels[b].orders;
    let after = levels.update(b, LevelView { price: levels[b].price, orders: queue });
    let shift = was.len() - queue.len();
    lemma_level_queue(levels, symbol, side, b, index);
    assert(side_wf(after, symbol, side)) by {
        assert forall|a: int, c: int| 0 <= a < c < after.len() implies (#[trigger] after[a]).price
            < (#[trigger] after[c]).price by {
            assert(levels[a].price < levels[c].price);
        }
        assert forall|l: int| 0 <= l < after.len() implies (#[trigger] after[l]).orders.len()
            > 0 by {
            assert(levels[l].orders.len() > 0);
        }
        assert forall|l: int, j: int| in_side(after, l, j) implies {
            let order = #[trigger] after[l].orders[j];
            &&& order.symbol == symbol
            &&& order.side == side
            &&& order.price == after[l].price
        } by {
            if l == b {
                assert(in_side(levels, b, shift + j));
                assert(queue[j] == was[shift + j].with_volume(queue[j].volume));
                assert(levels[b].orders[shift + j] == was[shift + j]);
            } else {
                assert(in_side(levels, l, j));
                assert(after[l].orders[j] == levels[l].orders[j]);
            }
        }
        assert forall|l: int, i: int, j: int|
            in_side(after, l, i) && in_side(after, l, j) && i != j implies (
        #[trigger] after[l].orders[i]).order_id != (#[trigger] after[l].orders[j]).order_id by {
            if l == b {
                assert(in_side(levels, b, shift + i) && in_side(levels, b, shift + j));
                assert(queue[i].order_id == was[shift + i].order_id);
                assert(queue[j].order_id == was[shift + j].order_id);
                assert(levels[b].orders[shift + i].order_id != levels[b].orders[shift
                    + j].order_id);
            } else {
                assert(in_side(levels, l, i) && in_side(levels, l, j));
                assert(levels[l].orders[i].order_id != levels[l].orders[j].order_id);
            }
        }
    }
    assert(side_indexed(after, settled)) by {
        assert forall|l: int, j: int| in_side(after, l, j) implies {
            let order = #[trigger] after[l].orders[j];
            settled.contains_key(order.order_id) && settled[order.order_id] == order
        } by {
            if l == b {
                assert(after[b].orders[j] == queue[j]);
            } else {
                assert(in_side(levels, l, j));
                assert(after[l].orders[j] == levels[l].orders[j]);
                assert(!queue_has(was, levels[l].orders[j].order_id));
                assert(index.contains_key(levels[l].orders[j].order_id));
            }
        }
    }
    assert forall|id: u64| !has_id(levels, id) && #[trigger] index.contains_key(
        id,
    ) implies settled.contains_key(id) && settled[id] == index[id] by {
        assert(!queue_has(was, id));
    }
    assert forall|id: u64| has_id(levels, id) && #[trigger] settled.contains_key(
        id,
    ) implies has_id(after, id) by {
        let (l, j) = choose|l: int, j: int|
            in_side(levels, l, j) && (#[trigger] levels[l].orders[j]).order_id == id;
        if l == b {
            assert(was[j].order_id == id);
            assert(queue_has(was, id));
            let i = choose|i: int| 0 <= i < queue.len() && (#[trigger] queue[i]).order_id == id;
            assert(in_side(after, b, i) && after[b].orders[i].order_id == id);
        } else {
            assert(in_side(after, l, j) && after[l].orders[j].order_id == id);
        }
    }
    assert forall|id: u64| #[trigger] has_id(after, id) implies has_id(levels, id) by {
        let (l, j) = choose|l: int, j: int|
            in_side(after, l, j) && (#[trigger] after[l].orders[j]).order_id == id;
        if l == b {
            assert(queue[j].order_id == was[shift + j].order_id);
            assert(in_side(levels, b, shift + j) && levels[b].orders[shift + j].order_id == id);
        } else {
            assert(in_side(levels, l, j) && levels[l].orders[j].order_id == id);
        }
    }
}

/// A fill that uses up the queue of level `b`, which is then dropped,
/// settles the side.
proof fn lemma_level_emptied(
    levels: Seq<LevelView>,
    symbol: Seq<char>,
    side: Side,
    b: int,
    index: Map<u64, OrderView>,
    settled: Map<u64, OrderView>,
)
    requires
        side_wf(levels, symbol, side),
        side_indexed(levels, index),
        0 <= b < levels.len(),
        queue_settled(levels[b].orders, Seq::empty(), index, settled),
    ensures
        side_settled(levels, levels.remove(b), index, settled, symbol, side),
{
    let was = levels[b].orders;
    let fewer = levels.remove(b);
    lemma_level_queue(levels, symbol, side, b, index);
    lemma_remove_level(levels, symbol, side, b);
    assert(side_indexed(fewer, settled)) by {
        assert forall|l: int, j: int| in_side(fewer, l, j) implies {
            let order = #[trigger] fewer[l].orders[j];
            settled.contains_key(order.order_id) && settled[order.order_id] == order
        } by {
            let m = if l < b {
                l
            } else {
                l + 1
            };
            assert(in_side(levels, m, j));
            assert(fewer[l].orders[j] == levels[m].orders[j]);
            assert(!queue_has(was, levels[m].orders[j].order_id));
            assert(index.contains_key(levels[m].orders[j].order_id));
        }
    }
    assert forall|id: u64| !has_id(levels, id) && #[trigger] index.contains_key(
        id,
    ) implies settled.contains_key(id) && settled[id] == index[id] by {
        assert(!queue_has(was, id));
    }
    assert forall|id: u64| has_id(levels, id) && #[trigger] settled.contains_key(
        id,
    ) implies has_id(fewer, id) by {
        if !has_id(fewer, id) {
            assert(queue_has(was, id));
            assert(queue_has(Seq::<OrderView>::empty(), id));
        }
    }
}

/// Sweeping a side and settling the trades in the index keeps the side
/// and the index in step.
pub proof fn lemma_sweep(
    levels: Seq<LevelView>,
    symbol: Seq<char>,
    side: Side,
    taker: Side,
    limit: u64,
    left: u64,
    index: Map<u64, OrderView>,
)
    requires
        side_wf(levels, symbol, side),
        side_indexed(levels, index),
    ensures
        side_settled(
            levels,
            sweep(levels, taker, limit, left).levels,
            index,
            settle(index, sweep(levels, taker, limit, left).trades),
            symbol,
            side,
        ),
    decreases levels.len(),
{
    let swept = sweep(levels, taker, limit, left);
    if levels.len() == 0 || left == 0 || !crate::order::crosses(
        taker,
        limit,
        levels[best(taker, levels)].price,
    ) {
    } else {
        let b = best(taker, levels);
        let queue = levels[b].orders;
        let fill = fill_queue(queue, left);
        let filled = settle(index, fill.trades);
        lemma_level_queue(levels, symbol, side, b, index);
        lemma_fill(queue, left, index);
        if fill.queue.len() > 0 {
            lemma_level_settled(levels, symbol, side, b, fill.queue, index, filled);
        } else {
            let fewer = levels.remove(b);
            let rest = sweep(fewer, taker, limit, fill.left);
            assert(fill.queue == Seq::<OrderView>::empty());
            lemma_level_emptied(levels, symbol, side, b, index, filled);
            lemma_sweep(fewer, symbol, side, taker, limit, fill.left, filled);
            lemma_settle_concat(index, fill.trades, rest.trades);
            lemma_side_settled_twice(
                levels,
                fewer,
                rest.levels,
                index,
                filled,
                settle(filled, rest.trades),
                symbol,
                side,
            );
        }
    }
}

/// Dropping a level keeps the side well formed, and the identifiers of the
/// side are then those of the dropped queue and those that stay.
pub proof fn lemma_remove_level(levels: Seq<LevelView>, symbol: Seq<char>, side: Side, b: int)
    requires
        side_wf(levels, symbol, side),
        0 <= b < levels.len(),
    ensures
        side_wf(levels.remove(b), symbol, side),
        forall|id: u64| #[trigger] has_id(levels.remove(b), id) ==> has_id(levels, id),
        forall|id: u64| #[trigger]
            has_id(levels, id) ==> has_id(levels.remove(b), id) || queue_has(levels[b].orders, id),
        forall|order: OrderView| #[trigger]
            rests_in(levels.remove(b), order) ==> rests_in(levels, order),
        forall|order: OrderView| #[trigger]
            rests_in(levels, order) ==> rests_in(levels.remove(b), order) || levels[b].orders.contains(order),
{
    let fewer = levels.remove(b);
    assert forall|a: int, c: int| 0 <= a < c < fewer.len() implies (#[trigger] fewer[a]).price < (
    #[trigger] fewer[c]).price by {
        let a2 = if a < b { a } else { a + 1 };
        let c2 = if c < b { c } else { c + 1 };
        assert(levels[a2].price < levels[c2].price);
    }
    assert forall|l: int| 0 <= l < fewer.len() implies (#[trigger] fewer[l]).orders.len() > 0 by {
        let m = if l < b { l } else { l + 1 };
        assert(levels[m].orders.len() > 0);
    }
    assert forall|l: int, j: int| in_side(fewer, l, j) implies {
        let order = #[trigger] fewer[l].orders[j];
        &&& order.symbol == symbol
        &&& order.side == side
        &&& order.price == fewer[l].price
    } by {
        let m = if l < b { l } else { l + 1 };
        assert(in_side(levels, m, j));
        assert(fewer[l].orders[j] == levels[m].orders[j]);
    }
    assert forall|l: int, i: int, j: int|
        in_side(fewer, l, i) && in_side(fewer, l, j) && i != j implies (
    #[trigger] fewer[l].orders[i]).order_id != (#[trigger] fewer[l].orders[j]).order_id by {
        let m = if l < b { l } else { l + 1 };
        assert(in_side(levels, m, i) && in_side(levels, m, j));
        assert(levels[m].orders[i].order_id != levels[m].orders[j].order_id);
    }
    assert forall|id: u64| #[trigger] has_id(fewer, id) implies has_id(levels, id) by {
        let (l, j) = choose|l: int, j: int|
            in_side(fewer, l, j) && (#[trigger] fewer[l].orders[j]).order_id == id;
        let m = if l < b { l } else { l + 1 };
        assert(in_side(levels, m, j) && levels[m].orders[j].order_id == id);
    }
    assert forall|id: u64| #[trigger] has_id(levels, id) implies has_id(fewer, id) || queue_has(
        levels[b].orders,
        id,
    ) by {
        let (l, j) = choose|l: int, j: int|
            in_side(levels, l, j) && (#[trigger] levels[l].orders[j]).order_id == id;
        if l == b {
            assert(levels[b].orders[j].order_id == id);
        } else {
            let m = if l < b { l } else { l - 1 };
            assert(in_side(fewer, m, j) && fewer[m].orders[j].order_id == id);
        }
    }
    assert forall|order: OrderView| #[trigger] rests_in(fewer, order) implies rests_in(
        levels,
        order,
    ) by {
        let (l, j) = choose|l: int, j: int|
            in_side(fewer, l, j) && #[trigger] fewer[l].orders[j] == order;
        let m = if l < b { l } else { l + 1 };
        assert(in_side(levels, m, j) && levels[m].orders[j] == order);
    }
    assert forall|order: OrderView| #[trigger] rests_in(levels, order) implies rests_in(fewer, order)
        || levels[b].orders.contains(order) by {
        let (l, j) = choose|l: int, j: int|
            in_side(levels, l, j) && #[trigger] levels[l].orders[j] == order;
        if l == b {
            assert(levels[b].orders[j] == order);
        } else {
            let m = if l < b { l } else { l - 1 };
            assert(in_side(fewer, m, j) && fewer[m].orders[j] == order);
        }
    }
}

/// Where a resting order stands: `rank` finds its level and `position`
/// its place in the queue, and its identifier stands nowhere else.
pub proof fn lemma_locate(
    levels: Seq<LevelView>,
    symbol: Seq<char>,
    side: Side,
    target: OrderView,
    index: Map<u64, OrderView>,
)
    requires
        side_wf(levels, symbol, side),
        side_indexed(levels, index),
        rests_in(levels, target),
    ensures
        ({
            let k = rank(levels, target.price);
            let j = position(levels[k].orders, target.order_id);
            &&& has_level(levels, target.price)
            &&& in_side(levels, k, j)
            &&& levels[k].orders[j] == target
            &&& forall|l: int, i: int|
                in_side(levels, l, i) && (#[trigger] levels[l].orders[i]).order_id
                    == target.order_id ==> l == k && i == j
        }),
{
    let (l0, j0) = choose|l: int, j: int|
        in_side(levels, l, j) && #[trigger] levels[l].orders[j] == target;
    let k = rank(levels, target.price);
    lemma_side_unique(levels, symbol, side, index);
    lemma_rank_sorted(levels, target.price);
    assert(levels[l0].orders[j0].price == levels[l0].price);
    assert(k == l0) by {
        if k < l0 {
            assert(levels[k].price < levels[l0].price);
        }
    }
    let queue = levels[k].orders;
    let j = position(queue, target.order_id);
    lemma_position_first(queue, target.order_id);
    assert(j == j0) by {
        if j < j0 {
            assert(in_side(levels, k, j) && in_side(levels, k, j0));
            assert(levels[k].orders[j].order_id == levels[k].orders[j0].order_id);
        }
        if j > j0 {
            assert(queue[j0].order_id != target.order_id);
        }
    }
    assert forall|l: int, i: int|
        in_side(levels, l, i) && (#[trigger] levels[l].orders[i]).order_id
            == target.order_id implies l == k && i == j by {
        assert(levels[l].orders[i].order_id == levels[k].orders[j].order_id);
    }
}

/// Changing the queue of one level without touching identifiers, symbols,
/// sides or prices keeps the side well formed.
proof fn lemma_requeue(
    levels: Seq<LevelView>,
    symbol: Seq<char>,
    side: Side,
    k: int,
    queue: Seq<OrderView>,
)
    requires
        side_wf(levels, symbol, side),
        0 <= k < levels.len(),
        queue.len() > 0,
        distinct_ids(queue),
        forall|j: int|
            0 <= j < queue.len() ==> {
                let order = #[trigger] queue[j];
                &&& order.symbol == symbol
                &&& order.side == side
                &&& order.price == levels[k].price
            },
    ensures
        side_wf(levels.update(k, LevelView { price: levels[k].price, orders: queue }), symbol, side),
{
    let after = levels.update(k, LevelView { price: levels[k].price, orders: queue });
    assert forall|a: int, c: int| 0 <= a < c < after.len() implies (#[trigger] after[a]).price < (
    #[trigger] after[c]).price by {
        assert(levels[a].price < levels[c].price);
    }
    assert forall|l: int| 0 <= l < after.len() implies (#[trigger] after[l]).orders.len() > 0 by {
        assert(levels[l].orders.len() > 0);
    }
    assert forall|l: int, j: int| in_side(after, l, j) implies {
        let order = #[trigger] after[l].orders[j];
        &&& order.symbol == symbol
        &&& order.side == side
        &&& order.price == after[l].price
    } by {
        if l == k {
            assert(after[k].orders[j] == queue[j]);
        } else {
            assert(in_side(levels, l, j));
            assert(after[l].orders[j] == levels[l].orders[j]);
        }
    }
    assert forall|l: int, i: int, j: int|
        in_side(after, l, i) && in_side(after, l, j) && i != j implies (
    #[trigger] after[l].orders[i]).order_id != (#[trigger] after[l].orders[j]).order_id by {
        if l == k {
            if i < j {
                assert(queue[i].order_id != queue[j].order_id);
            } else {
                assert(queue[j].order_id != queue[i].order_id);
            }
        } else {
            assert(in_side(levels, l, i) && in_side(levels, l, j));
            assert(levels[l].orders[i].order_id != levels[l].orders[j].order_id);
        }
    }
}

/// An order that comes to rest on a side where its identifier is new
/// keeps the side well formed, stands on it, and moves no other order off
/// it.
pub proof fn lemma_rest(levels: Seq<LevelView>, symbol: Seq<char>, side: Side, order: OrderView)
    requires
        side_wf(levels, symbol, side),
        order.symbol == symbol,
        order.side == side,
        !has_id(levels, order.order_id),
    ensures
        side_wf(rest(levels, order), symbol, side),
        rests_in(rest(levels, order), order),
        forall|other: OrderView| #[trigger]
            rests_in(levels, other) ==> rests_in(rest(levels, order), other),
        forall|l: int, j: int|
            in_side(rest(levels, order), l, j) ==> (#[trigger] rest(levels, order)[l].orders[j])
                == order || rests_in(levels, rest(levels, order)[l].orders[j]),
{
    let k = rank(levels, order.price);
    let after = rest(levels, order);
    lemma_rank_sorted(levels, order.price);
    if has_level(levels, order.price) {
        let was = levels[k].orders;
        let queue = was.push(order);
        assert(distinct_ids(queue)) by {
            assert forall|i: int, j: int| 0 <= i < j < queue.len() implies (
            #[trigger] queue[i]).order_id != (#[trigger] queue[j]).order_id by {
                assert(in_side(levels, k, i));
                if j < was.len() {
                    assert(in_side(levels, k, j));
                    assert(levels[k].orders[i].order_id != levels[k].orders[j].order_id);
                } else {
                    assert(levels[k].orders[i].order_id != order.order_id);
                }
            }
        }
        assert forall|j: int| 0 <= j < queue.len() implies {
            let o = #[trigger] queue[j];
            &&& o.symbol == symbol
            &&& o.side == side
            &&& o.price == levels[k].price
        } by {
            if j < was.len() {
                assert(in_side(levels, k, j));
                assert(queue[j] == levels[k].orders[j]);
            }
        }
        lemma_requeue(levels, symbol, side, k, queue);
        assert(in_side(after, k, was.len() as int) && after[k].orders[was.len() as int] == order);
        assert forall|other: OrderView| #[trigger] rests_in(levels, other) implies rests_in(
            after,
            other,
        ) by {
            let (l, j) = choose|l: int, j: int|
                in_side(levels, l, j) && #[trigger] levels[l].orders[j] == other;
            assert(in_side(after, l, j) && after[l].orders[j] == other);
        }
        assert forall|l: int, j: int| in_side(after, l, j) implies (#[trigger] after[l].orders[j])
            == order || rests_in(levels, after[l].orders[j]) by {
            if l == k && j == was.len() {
            } else {
                assert(in_side(levels, l, j) && levels[l].orders[j] == after[l].orders[j]);
            }
        }
    } else {
        let level = LevelView { price: order.price, orders: seq![order] };
        assert(after == levels.insert(k, level));
        assert forall|a: int, c: int| 0 <= a < c < after.len() implies (#[trigger] after[a]).price
            < (#[trigger] after[c]).price by {
            let a0 = if a < k { a } else { a - 1 };
            let c0 = if c < k { c } else { c - 1 };
            if a != k && c != k {
                assert(levels[a0].price < levels[c0].price);
            } else if a == k {
                assert(levels[c0].price >= order.price);
                if c0 > k {
                    assert(levels[k].price < levels[c0].price);
                }
            } else {
                assert(levels[a0].price < order.price);
            }
        }
        assert forall|l: int| 0 <= l < after.len() implies (#[trigger] after[l]).orders.len()
            > 0 by {
            if l != k {
                let l0 = if l < k { l } else { l - 1 };
                assert(levels[l0].orders.len() > 0);
            }
        }
        assert forall|l: int, j: int| in_side(after, l, j) implies {
            let o = #[trigger] after[l].orders[j];
            &&& o.symbol == symbol
            &&& o.side == side
            &&& o.price == after[l].price
        } by {
            if l != k {
                let l0 = if l < k { l } else { l - 1 };
                assert(in_side(levels, l0, j));
                assert(after[l].orders[j] == levels[l0].orders[j]);
            }
        }
        assert forall|l: int, i: int, j: int|
            in_side(after, l, i) && in_side(after, l, j) && i != j implies (
        #[trigger] after[l].orders[i]).order_id != (#[trigger] after[l].orders[j]).order_id by {
            if l != k {
                let l0 = if l < k { l } else { l - 1 };
                assert(in_side(levels, l0, i) && in_side(levels, l0, j));
                assert(levels[l0].orders[i].order_id != levels[l0].orders[j].order_id);
            }
        }
        assert(in_side(after, k, 0) && after[k].orders[0] == order);
        assert forall|other: OrderView| #[trigger] rests_in(levels, other) implies rests_in(
            after,
            other,
        ) by {
            let (l, j) = choose|l: int, j: int|
                in_side(levels, l, j) && #[trigger] levels[l].orders[j] == other;
            let l1 = if l < k { l } else { l + 1 };
            assert(in_side(after, l1, j) && after[l1].orders[j] == other);
        }
        assert forall|l: int, j: int| in_side(after, l, j) implies (#[trigger] after[l].orders[j])
            == order || rests_in(levels, after[l].orders[j]) by {
            if l != k {
                let l0 = if l < k { l } else { l - 1 };
                assert(in_side(levels, l0, j) && levels[l0].orders[j] == after[l].orders[j]);
            }
        }
    }
}

/// Taking a resting order off its side keeps the side well formed, leaves
/// every other order on it, and leaves no order with its identifier.
pub proof fn lemma_without(
    levels: Seq<LevelView>,
    symbol: Seq<char>,
    side: Side,
    target: OrderView,
    index: Map<u64, OrderView>,
)
    requires
        side_wf(levels, symbol, side),
        side_indexed(levels, index),
        rests_in(levels, target),
    ensures
        side_wf(without(levels, target.price, target.order_id), symbol, side),
        !has_id(without(levels, target.price, target.order_id), target.order_id),
        forall|other: OrderView| #[trigger]
            rests_in(without(levels, target.price, target.order_id), other) ==> rests_in(
                levels,
                other,
            ),
        forall|other: OrderView|
            #[trigger] rests_in(levels, other) && other.order_id != target.order_id ==> rests_in(
                without(levels, target.price, target.order_id),
                other,
            ),
{
    let k = rank(levels, target.price);
    let was = levels[k].orders;
    let j0 = position(was, target.order_id);
    let after = without(levels, target.price, target.order_id);
    lemma_locate(levels, symbol, side, target, index);
    let queue = was.remove(j0);
    if queue.len() == 0 {
        assert(after == levels.remove(k));
        lemma_remove_level(levels, symbol, side, k);
        assert(!has_id(after, target.order_id)) by {
            if has_id(after, target.order_id) {
                let (l, j) = choose|l: int, j: int|
                    in_side(after, l, j) && (#[trigger] after[l].orders[j]).order_id
                        == target.order_id;
                let l0 = if l < k { l } else { l + 1 };
                assert(in_side(levels, l0, j) && levels[l0].orders[j] == after[l].orders[j]);
            }
        }
        assert forall|other: OrderView|
            #[trigger] rests_in(levels, other) && other.order_id
                != target.order_id implies rests_in(after, other) by {
            if was.contains(other) {
                let i = choose|i: int| 0 <= i < was.len() && was[i] == other;
                assert(i == 0);
            }
        }
    } else {
        assert(after == levels.update(k, LevelView { price: target.price, orders: queue }));
        assert(distinct_ids(queue)) by {
            assert forall|i: int, j: int| 0 <= i < j < queue.len() implies (
            #[trigger] queue[i]).order_id != (#[trigger] queue[j]).order_id by {
                let i0 = if i < j0 { i } else { i + 1 };
                let j1 = if j < j0 { j } else { j + 1 };
                assert(in_side(levels, k, i0) && in_side(levels, k, j1));
                assert(levels[k].orders[i0].order_id != levels[k].orders[j1].order_id);
            }
        }
        assert forall|j: int| 0 <= j < queue.len() implies {
            let o = #[trigger] queue[j];
            &&& o.symbol == symbol
            &&& o.side == side
            &&& o.price == levels[k].price
        } by {
            let j1 = if j < j0 { j } else { j + 1 };
            assert(in_side(levels, k, j1));
            assert(queue[j] == levels[k].orders[j1]);
        }
        lemma_requeue(levels, symbol, side, k, queue);
        assert(!has_id(after, target.order_id)) by {
            if has_id(after, target.order_id) {
                let (l, j) = choose|l: int, j: int|
                    in_side(after, l, j) && (#[trigger] after[l].orders[j]).order_id
                        == target.order_id;
                if l == k {
                    let j1 = if j < j0 { j } else { j + 1 };
                    assert(in_side(levels, k, j1) && levels[k].orders[j1] == after[l].orders[j]);
                } else {
                    assert(in_side(levels, l, j) && levels[l].orders[j] == after[l].orders[j]);
                }
            }
        }
        assert forall|other: OrderView| #[trigger] rests_in(after, other) implies rests_in(
            levels,
            other,
        ) by {
            let (l, j) = choose|l: int, j: int|
                in_side(after, l, j) && #[trigger] after[l].orders[j] == other;
            if l == k {
                let j1 = if j < j0 { j } else { j + 1 };
                assert(in_side(levels, k, j1) && levels[k].orders[j1] == other);
            } else {
                assert(in_side(levels, l, j) && levels[l].orders[j] == other);
            }
        }
        assert forall|other: OrderView|
            #[trigger] rests_in(levels, other) && other.order_id
                != target.order_id implies rests_in(after, other) by {
            let (l, j) = choose|l: int, j: int|
                in_side(levels, l, j) && #[trigger] levels[l].orders[j] == other;
            if l == k {
                let j1 = if j < j0 { j } else { j - 1 };
                assert(in_side(after, k, j1) && after[k].orders[j1] == other);
            } else {
                assert(in_side(after, l, j) && after[l].orders[j] == other);
            }
        }
    }
}

/// Setting the volume of a resting order in place keeps the side well
/// formed and leaves every other order as it is.
pub proof fn lemma_reduce(
    levels: Seq<LevelView>,
    symbol: Seq<char>,
    side: Side,
    target: OrderView,
    volume: u64,
    index: Map<u64, OrderView>,
)
    requires
        side_wf(levels, symbol, side),
        side_indexed(levels, index),
        rests_in(levels, target),
    ensures
        side_wf(reduce(levels, target.price, target.order_id, volume), symbol, side),
        rests_in(
            reduce(levels, target.price, target.order_id, volume),
            target.with_volume(volume),
        ),
        forall|l: int, j: int|
            in_side(reduce(levels, target.price, target.order_id, volume), l, j) ==> {
                let other = #[trigger] reduce(
                    levels,
                    target.price,
                    target.order_id,
                    volume,
                )[l].orders[j];
                other == target.with_volume(volume) || (other.order_id != target.order_id
                    && rests_in(levels, other))
            },
        forall|other: OrderView|
            #[trigger] rests_in(levels, other) && other.order_id != target.order_id ==> rests_in(
                reduce(levels, target.price, target.order_id, volume),
                other,
            ),
{
    let k = rank(levels, target.price);
    let was = levels[k].orders;
    let j0 = position(was, target.order_id);
    let after = reduce(levels, target.price, target.order_id, volume);
    lemma_locate(levels, symbol, side, target, index);
    let queue = was.update(j0, target.with_volume(volume));
    assert(after == levels.update(k, LevelView { price: target.price, orders: queue }));
    assert(distinct_ids(queue)) by {
        assert forall|i: int, j: int| 0 <= i < j < queue.len() implies (
        #[trigger] queue[i]).order_id != (#[trigger] queue[j]).order_id by {
            assert(in_side(levels, k, i) && in_side(levels, k, j));
            assert(levels[k].orders[i].order_id != levels[k].orders[j].order_id);
        }
    }
    assert forall|j: int| 0 <= j < queue.len() implies {
        let o = #[trigger] queue[j];
        &&& o.symbol == symbol
        &&& o.side == side
        &&& o.price == levels[k].price
    } by {
        assert(in_side(levels, k, j));
        assert(levels[k].orders[j].price == levels[k].price);
    }
    lemma_requeue(levels, symbol, side, k, queue);
    assert(in_side(after, k, j0) && after[k].orders[j0] == target.with_volume(volume));
    assert forall|l: int, j: int| in_side(after, l, j) implies {
        let other = #[trigger] after[l].orders[j];
        other == target.with_volume(volume) || (other.order_id != target.order_id && rests_in(
            levels,
            other,
        ))
    } by {
        if l == k && j == j0 {
        } else {
            assert(in_side(levels, l, j) && levels[l].orders[j] == after[l].orders[j]);
        }
    }
    assert forall|other: OrderView|
        #[trigger] rests_in(levels, other) && other.order_id != target.order_id implies rests_in(
        after,
        other,
    ) by {
        let (l, j) = choose|l: int, j: int|
            in_side(levels, l, j) && #[trigger] levels[l].orders[j] == other;
        assert(in_side(after, l, j) && after[l].orders[j] == other);
    }
}

/// Orders of two different sides, both indexed, never share an
/// identifier.
proof fn lemma_sides_apart(
    levels: Seq<LevelView>,
    symbol: Seq<char>,
    side: Side,
    other: Seq<LevelView>,
    other_symbol: Seq<char>,
    other_side: Side,
    index: Map<u64, OrderView>,
)
    requires
        side_wf(levels, symbol, side),
        side_indexed(levels, index),
        side_wf(other, other_symbol, other_side),
        side_indexed(other, index),
        symbol != other_symbol || side != other_side,
    ensures
        forall|l: int, j: int|
            in_side(other, l, j) ==> !has_id(levels, (#[trigger] other[l].orders[j]).order_id),
{
    assert forall|l: int, j: int| in_side(other, l, j) implies !has_id(
        levels,
        (#[trigger] other[l].orders[j]).order_id,
    ) by {
        let id = other[l].orders[j].order_id;
        if has_id(levels, id) {
            let (m, i) = choose|m: int, i: int|
                in_side(levels, m, i) && (#[trigger] levels[m].orders[i]).order_id == id;
            assert(levels[m].orders[i] == other[l].orders[j]);
        }
    }
}

/// An order that rests on a side has its identifier on that side.
proof fn lemma_rests_has_id(levels: Seq<LevelView>, order: OrderView)
    requires
        rests_in(levels, order),
    ensures
        has_id(levels, order.order_id),
{
    let (l, j) = choose|l: int, j: int|
        in_side(levels, l, j) && #[trigger] levels[l].orders[j] == order;
    assert(in_side(levels, l, j) && levels[l].orders[j].order_id == order.order_id);
}

/// On an indexed side, the order indexed under an identifier of the side
/// rests on the side.
proof fn lemma_indexed_rests(levels: Seq<LevelView>, index: Map<u64, OrderView>, order_id: u64)
    requires
        side_indexed(levels, index),
        has_id(levels, order_id),
    ensures
        index.contains_key(order_id),
        rests_in(levels, index[order_id]),
{
    let (l, j) = choose|l: int, j: int|
        in_side(levels, l, j) && (#[trigger] levels[l].orders[j]).order_id == order_id;
    assert(in_side(levels, l, j) && levels[l].orders[j] == index[order_id]);
}

/// A side stays indexed under an index that agrees with the old one on
/// the identifiers of the side.
proof fn lemma_indexed_still(
    levels: Seq<LevelView>,
    index: Map<u64, OrderView>,
    later: Map<u64, OrderView>,
)
    requires
        side_indexed(levels, index),
        forall|id: u64|
            has_id(levels, id) && #[trigger] index.contains_key(id) ==> later.contains_key(id)
                && later[id] == index[id],
    ensures
        side_indexed(levels, later),
{
    assert forall|l: int, j: int| in_side(levels, l, j) implies {
        let order = #[trigger] levels[l].orders[j];
        later.contains_key(order.order_id) && later[order.order_id] == order
    } by {
        let id = levels[l].orders[j].order_id;
        assert(has_id(levels, id));
        assert(index.contains_key(id));
    }
}

/// Cancelling an order keeps the state well formed.
pub proof fn lemma_cancel_wf(state: EngineView, order_id: u64)
    requires
        state.wf(),
    ensures
        state.cancel(order_id).wf(),
{
    if state.index.contains_key(order_id) {
        let target = state.index[order_id];
        let symbol = target.symbol;
        let book = state.books[symbol];
        let levels = book.side(target.side);
        let fewer = without(levels, target.price, order_id);
        let after = state.cancel(order_id);
        assert(side_wf(state.books[symbol].side(target.side), symbol, target.side));
        lemma_without(levels, symbol, target.side, target, state.index);
        lemma_rests_has_id(levels, target);
        assert forall|s: Seq<char>, sd: Side| after.books.contains_key(s) implies {
            &&& side_wf(#[trigger] after.books[s].side(sd), s, sd)
            &&& side_indexed(after.books[s].side(sd), after.index)
        } by {
            assert(state.books.contains_key(s));
            let was = state.books[s].side(sd);
            assert(side_wf(was, s, sd) && side_indexed(was, state.index));
            if s == symbol && sd == target.side {
                assert(after.books[s].side(sd) == fewer);
                assert forall|l: int, j: int| in_side(fewer, l, j) implies {
                    let order = #[trigger] fewer[l].orders[j];
                    after.index.contains_key(order.order_id) && after.index[order.order_id]
                        == order
                } by {
                    let order = fewer[l].orders[j];
                    assert(rests_in(fewer, order));
                    lemma_rests_has_id(fewer, order);
                    lemma_rests_has_id(levels, order);
                    lemma_indexed_rests(levels, state.index, order.order_id);
                    let (m, i) = choose|m: int, i: int|
                        in_side(levels, m, i) && #[trigger] levels[m].orders[i] == order;
                    assert(state.index[levels[m].orders[i].order_id] == levels[m].orders[i]);
                }
            } else {
                assert(after.books[s].side(sd) == was);
                lemma_sides_apart(levels, symbol, target.side, was, s, sd, state.index);
                assert forall|id: u64|
                    has_id(was, id) && #[trigger] state.index.contains_key(
                        id,
                    ) implies after.index.contains_key(id) && after.index[id]
                    == state.index[id] by {
                    let (l, j) = choose|l: int, j: int|
                        in_side(was, l, j) && (#[trigger] was[l].orders[j]).order_id == id;
                    assert(!has_id(levels, was[l].orders[j].order_id));
                }
                lemma_indexed_still(was, state.index, after.index);
            }
        }
        assert forall|id: u64| #[trigger] after.index.contains_key(id) implies {
            let order = after.index[id];
            &&& order.order_id == id
            &&& after.books.contains_key(order.symbol)
            &&& rests_in(after.books[order.symbol].side(order.side), order)
        } by {
            assert(state.index.contains_key(id));
            let order = state.index[id];
            if order.symbol == symbol && order.side == target.side {
                assert(after.books[order.symbol].side(order.side) == fewer);
            } else {
                assert(after.books[order.symbol].side(order.side)
                    == state.books[order.symbol].side(order.side));
            }
        }
    }
}

/// Setting the volume of a resting order in place, in its queue and in the
/// index, keeps the state well formed.
proof fn lemma_amend_in_place_wf(state: EngineView, order_id: u64, volume: u64)
    requires
        state.wf(),
        state.index.contains_key(order_id),
    ensures
        state.amend(order_id, state.index[order_id].price, volume).state.wf() || volume
            > state.index[order_id].volume,
{
    let target = state.index[order_id];
    if volume <= target.volume {
        let amended = target.with_volume(volume);
        let symbol = target.symbol;
        let book = state.books[symbol];
        let levels = book.side(target.side);
        let resized = reduce(levels, target.price, order_id, volume);
        let after = state.amend(order_id, target.price, volume).state;
        assert(side_wf(state.books[symbol].side(target.side), symbol, target.side));
        lemma_reduce(levels, symbol, target.side, target, volume, state.index);
        lemma_rests_has_id(levels, target);
        assert forall|s: Seq<char>, sd: Side| after.books.contains_key(s) implies {
            &&& side_wf(#[trigger] after.books[s].side(sd), s, sd)
            &&& side_indexed(after.books[s].side(sd), after.index)
        } by {
            assert(state.books.contains_key(s));
            let was = state.books[s].side(sd);
            assert(side_wf(was, s, sd) && side_indexed(was, state.index));
            if s == symbol && sd == target.side {
                assert(after.books[s].side(sd) == resized);
                assert forall|l: int, j: int| in_side(resized, l, j) implies {
                    let order = #[trigger] resized[l].orders[j];
                    after.index.contains_key(order.order_id) && after.index[order.order_id]
                        == order
                } by {
                    let order = resized[l].orders[j];
                    if order != amended {
                        lemma_rests_has_id(levels, order);
                        lemma_indexed_rests(levels, state.index, order.order_id);
                        let (m, i) = choose|m: int, i: int|
                            in_side(levels, m, i) && #[trigger] levels[m].orders[i] == order;
                        assert(state.index[levels[m].orders[i].order_id] == levels[m].orders[i]);
                    }
                }
            } else {
                assert(after.books[s].side(sd) == was);
                lemma_sides_apart(levels, symbol, target.side, was, s, sd, state.index);
                assert forall|id: u64|
                    has_id(was, id) && #[trigger] state.index.contains_key(
                        id,
                    ) implies after.index.contains_key(id) && after.index[id]
                    == state.index[id] by {
                    let (l, j) = choose|l: int, j: int|
                        in_side(was, l, j) && (#[trigger] was[l].orders[j]).order_id == id;
                    assert(!has_id(levels, was[l].orders[j].order_id));
                }
                lemma_indexed_still(was, state.index, after.index);
            }
        }
        assert forall|id: u64| #[trigger] after.index.contains_key(id) implies {
            let order = after.index[id];
            &&& order.order_id == id
            &&& after.books.contains_key(order.symbol)
            &&& rests_in(after.books[order.symbol].side(order.side), order)
        } by {
            assert(state.index.contains_key(id));
            if id == order_id {
                assert(after.books[symbol].side(target.side) == resized);
            } else {
                let order = state.index[id];
                if order.symbol == symbol && order.side == target.side {
                    assert(after.books[order.symbol].side(order.side) == resized);
                } else {
                    assert(after.books[order.symbol].side(order.side)
                        == state.books[order.symbol].side(order.side));
                }
            }
        }
    }
}

/// Amending an order keeps the state well formed.
pub proof fn lemma_amend_wf(state: EngineView, order_id: u64, price: u64, volume: u64)
    requires
        state.wf(),
    ensures
        state.amend(order_id, price, volume).state.wf(),
{
    if state.index.contains_key(order_id) {
        let order = state.index[order_id];
        if price == order.price && volume <= order.volume {
            lemma_amend_in_place_wf(state, order_id, volume);
        } else {
            lemma_cancel_wf(state, order_id);
            lemma_insert_wf(state.cancel(order_id), order.reissued(price, volume));
        }
    }
}

/// The book of a symbol, present or not, has well-formed and indexed
/// sides.
proof fn lemma_book_sides(state: EngineView, symbol: Seq<char>, side: Side)
    requires
        state.wf(),
    ensures
        side_wf(state.book(symbol).side(side), symbol, side),
        side_indexed(state.book(symbol).side(side), state.index),
{
    if state.books.contains_key(symbol) {
        assert(side_wf(state.books[symbol].side(side), symbol, side));
    }
}

/// Inserting an order keeps the state well formed.
pub proof fn lemma_insert_wf(state: EngineView, order: OrderView)
    requires
        state.wf(),
    ensures
        state.insert(order).state.wf(),
{
    if !state.index.contains_key(order.order_id) {
        let symbol = order.symbol;
        let facing = opposite(order.side);
        let book = state.book(symbol);
        let levels = book.side(facing);
        let own = book.side(order.side);
        let swept = sweep(levels, order.side, order.price, order.volume);
        let settled = settle(state.index, swept.trades);
        let rested = order.with_volume(swept.left);
        let resting = if swept.left > 0 {
            rest(own, rested)
        } else {
            own
        };
        let after = state.insert(order).state;
        lemma_book_sides(state, symbol, facing);
        lemma_book_sides(state, symbol, order.side);
        lemma_sweep(levels, symbol, facing, order.side, order.price, order.volume, state.index);
        assert(!has_id(own, order.order_id)) by {
            if has_id(own, order.order_id) {
                lemma_indexed_rests(own, state.index, order.order_id);
            }
        }
        if swept.left > 0 {
            lemma_rest(own, symbol, order.side, rested);
        }
        assert(after.books[symbol].side(facing) == swept.levels);
        assert(after.books[symbol].side(order.side) == resting);
        assert(!settled.contains_key(order.order_id));
        assert forall|id: u64| #[trigger] settled.contains_key(id) implies after.index.contains_key(
            id,
        ) && after.index[id] == settled[id] by {}
        assert forall|s: Seq<char>, sd: Side| after.books.contains_key(s) implies {
            &&& side_wf(#[trigger] after.books[s].side(sd), s, sd)
            &&& side_indexed(after.books[s].side(sd), after.index)
        } by {
            if s == symbol && sd == facing {
                assert forall|id: u64|
                    has_id(swept.levels, id) && #[trigger] settled.contains_key(
                        id,
                    ) implies after.index.contains_key(id) && after.index[id] == settled[id] by {}
                lemma_indexed_still(swept.levels, settled, after.index);
            } else {
                let was = state.book(s).side(sd);
                lemma_book_sides(state, s, sd);
                lemma_sides_apart(levels, symbol, facing, was, s, sd, state.index);
                assert forall|id: u64|
                    has_id(was, id) && #[trigger] state.index.contains_key(
                        id,
                    ) implies after.index.contains_key(id) && after.index[id]
                    == state.index[id] by {
                    let (l, j) = choose|l: int, j: int|
                        in_side(was, l, j) && (#[trigger] was[l].orders[j]).order_id == id;
                    assert(!has_id(levels, was[l].orders[j].order_id));
                    assert(settled.contains_key(id));
                }
                lemma_indexed_still(was, state.index, after.index);
                if s == symbol {
                    assert(sd == order.side);
                    assert(after.books[s].side(sd) == resting);
                    assert forall|l: int, j: int| in_side(resting, l, j) implies {
                        let o = #[trigger] resting[l].orders[j];
                        after.index.contains_key(o.order_id) && after.index[o.order_id] == o
                    } by {
                        let o = resting[l].orders[j];
                        if swept.left > 0 && o == rested {
                        } else {
                            assert(rests_in(own, o)) by {
                                if swept.left == 0 {
                                    assert(in_side(own, l, j) && own[l].orders[j] == o);
                                }
                            }
                            let (m, i) = choose|m: int, i: int|
                                in_side(own, m, i) && #[trigger] own[m].orders[i] == o;
                            assert(after.index[own[m].orders[i].order_id] == own[m].orders[i]);
                        }
                    }
                } else {
                    assert(state.books.contains_key(s));
                    assert(after.books[s].side(sd) == was);
                }
            }
        }
        assert forall|id: u64| #[trigger] after.index.contains_key(id) implies {
            let o = after.index[id];
            &&& o.order_id == id
            &&& after.books.contains_key(o.symbol)
            &&& rests_in(after.books[o.symbol].side(o.side), o)
        } by {
            if swept.left > 0 && id == order.order_id {
            } else {
                assert(settled.contains_key(id));
                assert(state.index.contains_key(id));
                if has_id(levels, id) {
                    assert(has_id(swept.levels, id));
                    lemma_indexed_rests(swept.levels, settled, id);
                    let (l, j) = choose|l: int, j: int|
                        in_side(swept.levels, l, j) && #[trigger] swept.levels[l].orders[j]
                            == settled[id];
                    assert(swept.levels[l].orders[j].symbol == symbol);
                } else {
                    let o = state.index[id];
                    assert(settled[id] == o);
                    if o.symbol == symbol {
                        if o.side == facing {
                            lemma_rests_has_id(levels, o);
                        } else {
                            assert(rests_in(own, o));
                        }
                    } else {
                        assert(after.books[o.symbol] == state.books[o.symbol]);
                    }
                }
            }
        }
    }
}

} // verus!
