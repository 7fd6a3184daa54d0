//! The mathematical model of the order book and of one matching step.
use vstd::prelude::*;

use crate::allocation::{
    executable, lemma_lots_positive, lemma_share_bounds, lemma_shares_fill_all, lots, shares,
};
use crate::model::{Event, Order, Policy, Side};

verus! {

/// One price level: its price and its orders in arrival order.
pub struct LevelView {
    pub price: u64,
    pub orders: Seq<Order>,
}

/// Where each resting order can be found: its side and its price.
pub type Index = Map<u64, (Side, u64)>;

pub open spec fn opposite(side: Side) -> Side {
    match side {
        Side::Buy => Side::Sell,
        Side::Sell => Side::Buy,
    }
}

/// For orders resting on `side`, price `a` has priority over price `b`.
pub open spec fn better(side: Side, a: u64, b: u64) -> bool {
    match side {
        Side::Buy => a > b,
        Side::Sell => a < b,
    }
}

/// A taker crosses a resting price when it is willing to trade there.
pub open spec fn crosses(taker: Order, price: u64) -> bool {
    match taker.side {
        Side::Buy => taker.price >= price,
        Side::Sell => taker.price <= price,
    }
}

/// The orders of a level are all on `side` at the level's price, have lots, and have distinct IDs.
pub open spec fn level_ok(level: LevelView, side: Side) -> bool {
    &&& level.orders.len() > 0
    &&& forall|j: int|
        0 <= j < level.orders.len() ==> {
            &&& (#[trigger] level.orders[j]).side == side
            &&& level.orders[j].price == level.price
            &&& level.orders[j].quantity > 0
        }
    &&& forall|a: int, b: int|
        0 <= a < level.orders.len() && 0 <= b < level.orders.len() && a != b
            ==> #[trigger] level.orders[a].id != #[trigger] level.orders[b].id
}

/// One side of the book, stored from its worst price to its best (the best level is last).
pub open spec fn side_ok(levels: Seq<LevelView>, side: Side) -> bool {
    &&& forall|i: int, j: int|
        0 <= i < j < levels.len() ==> better(side, #[trigger] levels[j].price, #[trigger] levels[i].price)
    &&& forall|k: int| 0 <= k < levels.len() ==> level_ok(#[trigger] levels[k], side)
}

/// The order at level `k`, position `j`, exists.
pub open spec fn at(levels: Seq<LevelView>, k: int, j: int) -> bool {
    0 <= k < levels.len() && 0 <= j < levels[k].orders.len()
}

/// An order with this ID rests at the level with this price.
pub open spec fn listed(levels: Seq<LevelView>, id: u64, price: u64) -> bool {
    exists|k: int, j: int|
        at(levels, k, j) && #[trigger] levels[k].orders[j].id == id && levels[k].price == price
}

/// The index names every order of this side, and every order the index places on this side rests there.
pub open spec fn side_indexed(levels: Seq<LevelView>, side: Side, index: Index) -> bool {
    &&& forall|k: int, j: int|
        at(levels, k, j) ==> {
            &&& index.contains_key(#[trigger] levels[k].orders[j].id)
            &&& index[levels[k].orders[j].id] == (side, levels[k].price)
        }
    &&& forall|id: u64|
        #[trigger] index.contains_key(id) && index[id].0 == side ==> listed(levels, id, index[id].1)
}

// ---------------------------------------------------------------- filling a level

/// The orders of a level after each has traded its share.
pub open spec fn after_fill(orders: Seq<Order>, s: Seq<u64>) -> Seq<Order> {
    Seq::new(
        orders.len(),
        |i: int|
            Order {
                id: orders[i].id,
                side: orders[i].side,
                price: orders[i].price,
                quantity: (orders[i].quantity - s[i]) as u64,
            },
    )
}

/// The orders that still have lots, in their order.
pub open spec fn resting(orders: Seq<Order>) -> Seq<Order>
    decreases orders.len(),
{
    if orders.len() == 0 {
        Seq::empty()
    } else {
        let before = resting(orders.drop_last());
        if orders.last().quantity > 0 {
            before.push(orders.last())
        } else {
            before
        }
    }
}

/// IDs of the orders that have no lots left.
pub open spec fn filled_ids(orders: Seq<Order>) -> Set<u64> {
    Set::new(
        |id: u64|
            exists|j: int|
                0 <= j < orders.len() && #[trigger] orders[j].id == id && orders[j].quantity == 0,
    )
}

/// The trades of one level: one per order with a positive share, in the order of its orders.
pub open spec fn fill_events(orders: Seq<Order>, s: Seq<u64>, taker: u64, price: u64) -> Seq<Event>
    decreases s.len(),
{
    if s.len() == 0 {
        Seq::empty()
    } else {
        let before = fill_events(orders, s.drop_last(), taker, price);
        if s.last() > 0 {
            before.push(
                Event::Trade { maker: orders[s.len() - 1].id, taker, price, quantity: s.last() },
            )
        } else {
            before
        }
    }
}

/// What one matching pass leaves: the opposite side, the taker, the trades and the index.
pub struct Matched {
    pub levels: Seq<LevelView>,
    pub taker: Order,
    pub events: Seq<Event>,
    pub index: Index,
}

/// Match a taker against one side, best level first, until it is filled or no longer crosses.
pub open spec fn match_levels(policy: Policy, levels: Seq<LevelView>, taker: Order, index: Index) -> Matched
    decreases levels.len(),
{
    if taker.quantity == 0 || levels.len() == 0 || !crosses(taker, levels.last().price) {
        Matched { levels, taker, events: Seq::empty(), index }
    } else {
        let best = levels.last();
        let s = shares(policy, best.orders, taker.quantity as int);
        let filled = after_fill(best.orders, s);
        let left = resting(filled);
        let taker2 = Order {
            id: taker.id,
            side: taker.side,
            price: taker.price,
            quantity: (taker.quantity - executable(best.orders, taker.quantity as int)) as u64,
        };
        let index2 = index.remove_keys(filled_ids(filled));
        let trades = fill_events(best.orders, s, taker.id, best.price);
        if left.len() == 0 {
            let rest = match_levels(policy, levels.drop_last(), taker2, index2);
            Matched {
                levels: rest.levels,
                taker: rest.taker,
                events: trades + rest.events,
                index: rest.index,
            }
        } else {
            Matched {
                levels: levels.drop_last().push(LevelView { price: best.price, orders: left }),
                taker: taker2,
                events: trades,
                index: index2,
            }
        }
    }
}

// ---------------------------------------------------------------- resting a new order

/// How many levels of the side have a worse price than `price`.
pub open spec fn worse_count(levels: Seq<LevelView>, side: Side, price: u64) -> int
    decreases levels.len(),
{
    if levels.len() == 0 {
        0
    } else {
        worse_count(levels.drop_last(), side, price) + if better(side, price, levels.last().price) {
            1int
        } else {
            0int
        }
    }
}

/// Rest an order at its own price: at the back of its level, or in a new level in price order.
pub open spec fn rest_at(levels: Seq<LevelView>, side: Side, order: Order) -> Seq<LevelView> {
    let i = worse_count(levels, side, order.price);
    if i < levels.len() && levels[i].price == order.price {
        levels.update(i, LevelView { price: order.price, orders: levels[i].orders.push(order) })
    } else {
        levels.insert(i, LevelView { price: order.price, orders: seq![order] })
    }
}

// ---------------------------------------------------------------- cancelling

/// The index of the level with this price.
pub open spec fn level_of(levels: Seq<LevelView>, price: u64) -> int {
    choose|k: int| 0 <= k < levels.len() && levels[k].price == price
}

/// The position of the order with this ID.
pub open spec fn position_of(orders: Seq<Order>, id: u64) -> int {
    choose|j: int| 0 <= j < orders.len() && orders[j].id == id
}

/// Take the order with this ID out of the level with this price; drop the level if it empties.
pub open spec fn cancel_at(levels: Seq<LevelView>, price: u64, id: u64) -> Seq<LevelView> {
    let k = level_of(levels, price);
    let orders = levels[k].orders.remove(position_of(levels[k].orders, id));
    if orders.len() == 0 {
        levels.remove(k)
    } else {
        levels.update(k, LevelView { price: levels[k].price, orders })
    }
}

// ---------------------------------------------------------------- lemmas on filling a level

/// No two orders share an ID.
pub open spec fn distinct_ids(orders: Seq<Order>) -> bool {
    forall|a: int, b: int|
        0 <= a < orders.len() && 0 <= b < orders.len() && a != b ==> #[trigger] orders[a].id
            != #[trigger] orders[b].id
}

pub proof fn lemma_resting(orders: Seq<Order>)
    ensures
        resting(orders).len() <= orders.len(),
        forall|i: int|
            0 <= i < resting(orders).len() ==> (#[trigger] resting(orders)[i]).quantity > 0
                && orders.contains(resting(orders)[i]),
        forall|j: int|
            0 <= j < orders.len() && (#[trigger] orders[j]).quantity > 0 ==> resting(
                orders,
            ).contains(orders[j]),
        distinct_ids(orders) ==> distinct_ids(resting(orders)),
    decreases orders.len(),
{
    if orders.len() > 0 {
        let init = orders.drop_last();
        lemma_resting(init);
        let r = resting(init);
        assert forall|i: int| 0 <= i < r.len() implies orders.contains(#[trigger] r[i]) by {
            let j = choose|j: int| 0 <= j < init.len() && init[j] == r[i];
            assert(orders[j] == r[i]);
        }
        assert forall|j: int|
            0 <= j < orders.len() && (#[trigger] orders[j]).quantity > 0 implies resting(
                orders,
            ).contains(orders[j]) by {
            if j < orders.len() - 1 {
                assert(init[j] == orders[j]);
                let i = choose|i: int| 0 <= i < r.len() && r[i] == init[j];
                if orders.last().quantity > 0 {
                    assert(resting(orders)[i] == orders[j]);
                }
            } else {
                assert(resting(orders)[r.len() as int] == orders[j]);
            }
        }
        if distinct_ids(orders) && orders.last().quantity > 0 {
            assert forall|a: int, b: int|
                0 <= a < resting(orders).len() && 0 <= b < resting(orders).len() && a != b
                    implies #[trigger] resting(orders)[a].id != #[trigger] resting(orders)[b].id by {
                if a < r.len() && b < r.len() {
                } else if a < r.len() {
                    let j = choose|j: int| 0 <= j < init.len() && init[j] == r[a];
                    assert(orders[j] == r[a]);
                } else {
                    let j = choose|j: int| 0 <= j < init.len() && init[j] == r[b];
                    assert(orders[j] == r[b]);
                }
            }
        }
    }
}

/// When the orders without lots are exactly the first `k`, dropping them drops a prefix.
pub proof fn lemma_resting_prefix(orders: Seq<Order>, k: int)
    requires
        0 <= k <= orders.len(),
        forall|j: int| 0 <= j < k ==> (#[trigger] orders[j]).quantity == 0,
        forall|j: int| k <= j < orders.len() ==> (#[trigger] orders[j]).quantity > 0,
    ensures
        resting(orders) == orders.subrange(k, orders.len() as int),
    decreases orders.len(),
{
    if orders.len() == k {
        if k > 0 {
            lemma_resting_prefix(orders.drop_last(), k - 1);
            assert(orders.drop_last().subrange(k - 1, k - 1) =~= Seq::<Order>::empty());
        }
        assert(orders.subrange(k, k) =~= Seq::<Order>::empty());
    } else {
        lemma_resting_prefix(orders.drop_last(), k);
        assert(orders.drop_last().subrange(k, orders.len() - 1).push(orders.last()) =~= orders.subrange(
            k,
            orders.len() as int,
        ));
    }
}

/// Dropping the orders without lots keeps the others in their order.
pub proof fn lemma_resting_order(orders: Seq<Order>)
    ensures
        forall|a: int, b: int|
            0 <= a < b < resting(orders).len() ==> exists|a2: int, b2: int|
                0 <= a2 < b2 < orders.len() && orders[a2] == #[trigger] resting(orders)[a]
                    && orders[b2] == #[trigger] resting(orders)[b],
    decreases orders.len(),
{
    if orders.len() > 0 {
        let init = orders.drop_last();
        lemma_resting_order(init);
        lemma_resting(init);
        let r = resting(init);
        let full = resting(orders);
        assert forall|a: int, b: int| 0 <= a < b < full.len() implies exists|a2: int, b2: int|
            0 <= a2 < b2 < orders.len() && orders[a2] == #[trigger] full[a] && orders[b2]
                == #[trigger] full[b] by {
            if b < r.len() {
                let (a2, b2) = choose|a2: int, b2: int|
                    0 <= a2 < b2 < init.len() && init[a2] == #[trigger] r[a] && init[b2] == #[trigger] r[b];
                assert(orders[a2] == full[a] && orders[b2] == full[b]);
            } else {
                let a2 = choose|a2: int| 0 <= a2 < init.len() && init[a2] == r[a];
                assert(orders[a2] == full[a]);
                assert(orders[orders.len() - 1] == full[b]);
            }
        }
    }
}

/// Filling a level with valid shares keeps its IDs, sides and prices, and lowers each order's lots.
pub proof fn lemma_after_fill(policy: Policy, level: LevelView, side: Side, requested: int)
    requires
        level_ok(level, side),
        requested >= 0,
    ensures
        lots(level.orders) > 0,
        ({
            let s = shares(policy, level.orders, requested);
            let filled = after_fill(level.orders, s);
            &&& filled.len() == level.orders.len()
            &&& distinct_ids(filled)
            &&& forall|j: int|
                0 <= j < filled.len() ==> {
                    &&& (#[trigger] filled[j]).id == level.orders[j].id
                    &&& filled[j].side == side
                    &&& filled[j].price == level.price
                    &&& filled[j].quantity == level.orders[j].quantity - s[j]
                    &&& s[j] <= level.orders[j].quantity
                }
            &&& resting(filled).len() > 0 ==> level_ok(
                LevelView { price: level.price, orders: resting(filled) },
                side,
            ) && requested < lots(level.orders)
        }),
{
    let s = shares(policy, level.orders, requested);
    let filled = after_fill(level.orders, s);
    lemma_lots_positive(level.orders);
    assert forall|j: int| 0 <= j < filled.len() implies s[j] <= level.orders[j].quantity by {
        lemma_share_bounds(policy, level.orders, requested, j);
    }
    lemma_resting(filled);
    let left = resting(filled);
    if left.len() > 0 {
        assert forall|j: int| 0 <= j < left.len() implies {
            &&& (#[trigger] left[j]).side == side
            &&& left[j].price == level.price
            &&& left[j].quantity > 0
        } by {
            let i = choose|i: int| 0 <= i < filled.len() && filled[i] == left[j];
        }
        if requested >= lots(level.orders) {
            let i = choose|i: int| 0 <= i < filled.len() && filled[i] == left[0];
            lemma_shares_fill_all(policy, level.orders, requested, i);
        }
    }
}

/// Replacing an order that has lots adds its ID to the filled IDs exactly when the replacement has none.
pub proof fn lemma_filled_ids_update(orders: Seq<Order>, t: int, order: Order)
    requires
        0 <= t < orders.len(),
        orders[t].quantity > 0,
    ensures
        filled_ids(orders.update(t, order)) == if order.quantity == 0 {
            filled_ids(orders).insert(order.id)
        } else {
            filled_ids(orders)
        },
{
    let next = orders.update(t, order);
    let expected = if order.quantity == 0 {
        filled_ids(orders).insert(order.id)
    } else {
        filled_ids(orders)
    };
    assert forall|x: u64| filled_ids(next).contains(x) <==> expected.contains(x) by {
        if filled_ids(next).contains(x) {
            let j = choose|j: int| 0 <= j < next.len() && #[trigger] next[j].id == x && next[j].quantity == 0;
            if j != t {
                assert(orders[j].id == x);
            }
        }
        if filled_ids(orders).contains(x) {
            let j = choose|j: int| 0 <= j < orders.len() && #[trigger] orders[j].id == x && orders[j].quantity == 0;
            assert(next[j].id == x);
        }
        if order.quantity == 0 && x == order.id {
            assert(next[t].id == x);
        }
    }
    assert(filled_ids(next) =~= expected);
}

/// A matching pass keeps the taker's ID, side and price, and never adds lots to it.
pub proof fn lemma_match_taker(policy: Policy, levels: Seq<LevelView>, taker: Order, index: Index)
    ensures
        ({
            let m = match_levels(policy, levels, taker, index);
            &&& m.taker.id == taker.id && m.taker.side == taker.side && m.taker.price == taker.price
            &&& m.taker.quantity <= taker.quantity
        }),
    decreases levels.len(),
{
    if !(taker.quantity == 0 || levels.len() == 0 || !crosses(taker, levels.last().price)) {
        let best = levels.last();
        let q = taker.quantity as int;
        let s = shares(policy, best.orders, q);
        let filled = after_fill(best.orders, s);
        crate::allocation::lemma_executable_bounds(best.orders, q);
        let taker2 = Order {
            id: taker.id,
            side: taker.side,
            price: taker.price,
            quantity: (taker.quantity - executable(best.orders, q)) as u64,
        };
        lemma_match_taker(policy, levels.drop_last(), taker2, index.remove_keys(filled_ids(filled)));
    }
}

/// Dropping the best level of a sorted side leaves it sorted.
pub proof fn lemma_side_ok_drop_last(levels: Seq<LevelView>, side: Side)
    requires
        side_ok(levels, side),
        levels.len() > 0,
    ensures
        side_ok(levels.drop_last(), side),
{
    let init = levels.drop_last();
    assert forall|k: int| 0 <= k < init.len() implies level_ok(#[trigger] init[k], side) by {
        assert(init[k] == levels[k]);
    }
    assert forall|i: int, j: int| 0 <= i < j < init.len() implies better(
        side,
        #[trigger] init[j].price,
        #[trigger] init[i].price,
    ) by {
        assert(init[i] == levels[i] && init[j] == levels[j]);
    }
}

/// One more share adds at most one trade to the trades of a prefix.
pub proof fn lemma_fill_events_take_step(orders: Seq<Order>, s: Seq<u64>, taker: u64, price: u64, n: int)
    requires
        0 <= n < s.len(),
    ensures
        fill_events(orders, s.take(n + 1), taker, price) == if s[n] > 0 {
            fill_events(orders, s.take(n), taker, price).push(
                Event::Trade { maker: orders[n].id, taker, price, quantity: s[n] },
            )
        } else {
            fill_events(orders, s.take(n), taker, price)
        },
{
    assert(s.take(n + 1).drop_last() =~= s.take(n));
}

/// Zero shares at the end add no trade.
pub proof fn lemma_fill_events_zero_tail(orders: Seq<Order>, s: Seq<u64>, taker: u64, price: u64, n: int)
    requires
        0 <= n <= s.len(),
        forall|j: int| n <= j < s.len() ==> #[trigger] s[j] == 0,
    ensures
        fill_events(orders, s, taker, price) == fill_events(orders, s.take(n), taker, price),
    decreases s.len(),
{
    if s.len() == n {
        assert(s.take(n) =~= s);
    } else {
        lemma_fill_events_zero_tail(orders, s.drop_last(), taker, price, n);
        assert(s.drop_last().take(n) =~= s.take(n));
    }
}

/// Each trade of a level is with one of its orders, for that order's positive share.
pub proof fn lemma_fill_events_elements(orders: Seq<Order>, s: Seq<u64>, taker: u64, price: u64)
    ensures
        forall|t: int|
            0 <= t < fill_events(orders, s, taker, price).len() ==> exists|i: int|
                0 <= i < s.len() && s[i] > 0 && #[trigger] fill_events(orders, s, taker, price)[t]
                    == (Event::Trade { maker: orders[i].id, taker, price, quantity: s[i] }),
    decreases s.len(),
{
    if s.len() > 0 {
        let init = s.drop_last();
        lemma_fill_events_elements(orders, init, taker, price);
        let e = fill_events(orders, s, taker, price);
        let before = fill_events(orders, init, taker, price);
        assert forall|t: int| 0 <= t < e.len() implies exists|i: int|
            0 <= i < s.len() && s[i] > 0 && #[trigger] e[t] == (Event::Trade {
                maker: orders[i].id,
                taker,
                price,
                quantity: s[i],
            }) by {
            if t < before.len() {
                assert(e[t] == before[t]);
                let i = choose|i: int|
                    0 <= i < init.len() && init[i] > 0 && #[trigger] before[t] == (Event::Trade {
                        maker: orders[i].id,
                        taker,
                        price,
                        quantity: init[i],
                    });
                assert(s[i] == init[i]);
            } else {
                assert(e[t] == Event::Trade { maker: orders[s.len() - 1].id, taker, price, quantity: s[s.len() - 1] });
            }
        }
    }
}

// ---------------------------------------------------------------- lemmas on an indexed side

/// Two positions of an indexed side that hold the same ID are the same position.
pub proof fn lemma_unique_position(
    levels: Seq<LevelView>,
    side: Side,
    index: Index,
    k1: int,
    j1: int,
    k2: int,
    j2: int,
)
    requires
        side_ok(levels, side),
        side_indexed(levels, side, index),
        at(levels, k1, j1),
        at(levels, k2, j2),
        levels[k1].orders[j1].id == levels[k2].orders[j2].id,
    ensures
        k1 == k2,
        j1 == j2,
{
    assert(index[levels[k1].orders[j1].id] == (side, levels[k1].price));
    assert(index[levels[k2].orders[j2].id] == (side, levels[k2].price));
    if k1 < k2 {
        assert(better(side, levels[k2].price, levels[k1].price));
    } else if k2 < k1 {
        assert(better(side, levels[k1].price, levels[k2].price));
    }
    assert(level_ok(levels[k1], side));
}

/// One matching step against the best level keeps the side sorted and indexed.
pub proof fn lemma_match_step(
    policy: Policy,
    levels: Seq<LevelView>,
    taker: Order,
    index: Index,
    side: Side,
)
    requires
        side_ok(levels, side),
        side_indexed(levels, side, index),
        levels.len() > 0,
    ensures
        ({
            let best = levels.last();
            let s = shares(policy, best.orders, taker.quantity as int);
            let filled = after_fill(best.orders, s);
            let left = resting(filled);
            let index2 = index.remove_keys(filled_ids(filled));
            &&& forall|id: u64|
                #[trigger] index2.contains_key(id) ==> index.contains_key(id) && index2[id]
                    == index[id]
            &&& forall|id: u64|
                #[trigger] index.contains_key(id) && index[id].0 != side ==> index2.contains_key(id)
            &&& left.len() == 0 ==> side_ok(levels.drop_last(), side) && side_indexed(
                levels.drop_last(),
                side,
                index2,
            )
            &&& left.len() > 0 ==> {
                let next = levels.drop_last().push(LevelView { price: best.price, orders: left });
                &&& executable(best.orders, taker.quantity as int) == taker.quantity
                &&& side_ok(next, side)
                &&& side_indexed(next, side, index2)
            }
        }),
{
    let n = levels.len() - 1;
    let best = levels.last();
    let s = shares(policy, best.orders, taker.quantity as int);
    let filled = after_fill(best.orders, s);
    let left = resting(filled);
    let gone = filled_ids(filled);
    let index2 = index.remove_keys(gone);
    assert(level_ok(levels[n], side));
    lemma_after_fill(policy, best, side, taker.quantity as int);
    lemma_resting(filled);
    assert forall|id: u64| #[trigger] index.contains_key(id) && index[id].0 != side implies index2.contains_key(id) by {
        if gone.contains(id) {
            let j = choose|j: int| 0 <= j < filled.len() && #[trigger] filled[j].id == id && filled[j].quantity == 0;
            assert(levels[n].orders[j].id == id);
        }
    }
    // An order of a lower level is not one of the best level's orders.
    assert forall|k: int, j: int| at(levels, k, j) && k < n implies !gone.contains(
        #[trigger] levels[k].orders[j].id,
    ) by {
        if gone.contains(levels[k].orders[j].id) {
            let j2 = choose|j2: int| 0 <= j2 < filled.len() && #[trigger] filled[j2].id == levels[k].orders[j].id && filled[j2].quantity == 0;
            assert(levels[n].orders[j2].id == levels[k].orders[j].id);
            lemma_unique_position(levels, side, index, k, j, n, j2);
        }
    }
    let init = levels.drop_last();
    if left.len() == 0 {
        assert forall|j: int| 0 <= j < filled.len() implies (#[trigger] filled[j]).quantity == 0 by {
            if filled[j].quantity > 0 {
                assert(left.contains(filled[j]));
            }
        }
        assert forall|k: int, j: int| at(init, k, j) implies {
            &&& index2.contains_key(#[trigger] init[k].orders[j].id)
            &&& index2[init[k].orders[j].id] == (side, init[k].price)
        } by {
            assert(init[k] == levels[k]);
            assert(at(levels, k, j));
        }
        assert forall|id: u64| #[trigger] index2.contains_key(id) && index2[id].0 == side implies listed(
            init,
            id,
            index2[id].1,
        ) by {
            let (k, j) = choose|k: int, j: int|
                at(levels, k, j) && #[trigger] levels[k].orders[j].id == id && levels[k].price == index[id].1;
            if k == n {
                assert(filled[j].id == id);
                assert(gone.contains(id));
            }
            assert(init[k].orders[j].id == id);
        }
    } else {
        let next = init.push(LevelView { price: best.price, orders: left });
        assert forall|k: int| 0 <= k < next.len() implies next[k].price == levels[k].price by {}
        assert forall|k: int| 0 <= k < next.len() implies level_ok(#[trigger] next[k], side) by {
            if k < n {
                assert(next[k] == levels[k]);
            }
        }
        assert forall|k: int, j: int| at(next, k, j) implies {
            &&& index2.contains_key(#[trigger] next[k].orders[j].id)
            &&& index2[next[k].orders[j].id] == (side, next[k].price)
        } by {
            if k < n {
                assert(next[k] == levels[k]);
                assert(at(levels, k, j));
            } else {
                let i = choose|i: int| 0 <= i < filled.len() && filled[i] == left[j];
                assert(at(levels, n, i));
                assert(levels[n].orders[i].id == left[j].id);
                if gone.contains(left[j].id) {
                    let i2 = choose|i2: int| 0 <= i2 < filled.len() && #[trigger] filled[i2].id == left[j].id && filled[i2].quantity == 0;
                }
            }
        }
        assert forall|id: u64| #[trigger] index2.contains_key(id) && index2[id].0 == side implies listed(
            next,
            id,
            index2[id].1,
        ) by {
            let (k, j) = choose|k: int, j: int|
                at(levels, k, j) && #[trigger] levels[k].orders[j].id == id && levels[k].price == index[id].1;
            if k == n {
                assert(filled[j].id == id);
                if filled[j].quantity == 0 {
                    assert(gone.contains(id));
                }
                assert(left.contains(filled[j]));
                let j2 = choose|j2: int| 0 <= j2 < left.len() && left[j2] == filled[j];
                assert(next[n].orders[j2].id == id);
            } else {
                assert(next[k].orders[j].id == id);
            }
        }
    }
}

/// A whole matching pass keeps the side sorted and indexed, only trims its best end,
/// and leaves the taker either filled or no longer crossing.
pub proof fn lemma_match_levels(
    policy: Policy,
    levels: Seq<LevelView>,
    taker: Order,
    index: Index,
    side: Side,
)
    requires
        side_ok(levels, side),
        side_indexed(levels, side, index),
    ensures
        ({
            let m = match_levels(policy, levels, taker, index);
            &&& side_ok(m.levels, side)
            &&& side_indexed(m.levels, side, m.index)
            &&& forall|id: u64|
                #[trigger] m.index.contains_key(id) ==> index.contains_key(id) && m.index[id]
                    == index[id]
            &&& forall|id: u64|
                #[trigger] index.contains_key(id) && index[id].0 != side ==> m.index.contains_key(
                    id,
                )
            &&& m.levels.len() <= levels.len()
            &&& forall|k: int| 0 <= k < m.levels.len() ==> #[trigger] m.levels[k].price == levels[k].price
            &&& m.taker.id == taker.id && m.taker.side == taker.side && m.taker.price == taker.price
            &&& m.taker.quantity <= taker.quantity
            &&& m.taker.quantity > 0 ==> m.levels.len() == 0 || !crosses(taker, m.levels.last().price)
        }),
    decreases levels.len(),
{
    if taker.quantity == 0 || levels.len() == 0 || !crosses(taker, levels.last().price) {
    } else {
        let best = levels.last();
        let q = taker.quantity as int;
        let s = shares(policy, best.orders, q);
        let filled = after_fill(best.orders, s);
        let left = resting(filled);
        let index2 = index.remove_keys(filled_ids(filled));
        lemma_match_step(policy, levels, taker, index, side);
        assert(level_ok(levels[levels.len() - 1], side));
        lemma_after_fill(policy, best, side, q);
        crate::allocation::lemma_executable_bounds(best.orders, q);
        let taker2 = Order {
            id: taker.id,
            side: taker.side,
            price: taker.price,
            quantity: (taker.quantity - executable(best.orders, q)) as u64,
        };
        if left.len() == 0 {
            lemma_match_levels(policy, levels.drop_last(), taker2, index2, side);
        }
    }
}

// ---------------------------------------------------------------- lemmas on resting and cancelling

/// On a sorted side, the levels worse than `price` are exactly the first `worse_count` ones.
pub proof fn lemma_worse_count(levels: Seq<LevelView>, side: Side, price: u64)
    requires
        side_ok(levels, side),
    ensures
        0 <= worse_count(levels, side, price) <= levels.len(),
        forall|k: int|
            0 <= k < levels.len() ==> (better(side, price, #[trigger] levels[k].price) <==> k
                < worse_count(levels, side, price)),
    decreases levels.len(),
{
    if levels.len() > 0 {
        let init = levels.drop_last();
        assert forall|k: int| 0 <= k < init.len() implies level_ok(#[trigger] init[k], side) by {
            assert(init[k] == levels[k]);
        }
        assert forall|i: int, j: int| 0 <= i < j < init.len() implies better(
            side,
            #[trigger] init[j].price,
            #[trigger] init[i].price,
        ) by {
            assert(init[i] == levels[i] && init[j] == levels[j]);
        }
        lemma_worse_count(init, side, price);
        let n = levels.len() - 1;
        assert forall|k: int| 0 <= k < levels.len() implies (better(
            side,
            price,
            #[trigger] levels[k].price,
        ) <==> k < worse_count(levels, side, price)) by {
            if k < n {
                assert(init[k] == levels[k]);
                assert(better(side, levels[n].price, levels[k].price));
                if better(side, price, levels[n].price) {
                    assert(better(side, price, init[k].price));
                }
            }
        }
    }
}

/// Resting a fresh order keeps the side sorted and indexed, with the order's ID added to the index.
pub proof fn lemma_rest_at(levels: Seq<LevelView>, side: Side, index: Index, order: Order)
    requires
        side_ok(levels, side),
        side_indexed(levels, side, index),
        !index.contains_key(order.id),
        order.side == side,
        order.quantity > 0,
    ensures
        ({
            let next = rest_at(levels, side, order);
            let index2 = index.insert(order.id, (side, order.price));
            &&& side_ok(next, side)
            &&& side_indexed(next, side, index2)
            &&& next.len() > 0
            &&& next.last().price == order.price || (levels.len() > 0 && next.last().price
                == levels.last().price)
        }),
{
    let i = worse_count(levels, side, order.price);
    let p = order.price;
    let index2 = index.insert(order.id, (side, p));
    lemma_worse_count(levels, side, p);
    let next = rest_at(levels, side, order);
    // No order of the side has the fresh ID.
    assert forall|k: int, j: int| at(levels, k, j) implies #[trigger] levels[k].orders[j].id != order.id by {}
    if i < levels.len() && levels[i].price == p {
        let old_level = levels[i];
        let level = LevelView { price: p, orders: old_level.orders.push(order) };
        assert(level_ok(old_level, side));
        assert forall|a: int, b: int|
            0 <= a < level.orders.len() && 0 <= b < level.orders.len() && a != b
                implies #[trigger] level.orders[a].id != #[trigger] level.orders[b].id by {
            if a < old_level.orders.len() && b < old_level.orders.len() {
            } else if a < old_level.orders.len() {
                assert(at(levels, i, a));
            } else {
                assert(at(levels, i, b));
            }
        }
        assert(level_ok(level, side));
        assert forall|k: int| 0 <= k < next.len() implies level_ok(#[trigger] next[k], side) by {}
        assert forall|k: int, j: int| at(next, k, j) implies {
            &&& index2.contains_key(#[trigger] next[k].orders[j].id)
            &&& index2[next[k].orders[j].id] == (side, next[k].price)
        } by {
            if k != i || j < old_level.orders.len() {
                assert(next[k].orders[j] == levels[k].orders[j]);
                assert(at(levels, k, j));
            }
        }
        assert forall|id: u64| #[trigger] index2.contains_key(id) && index2[id].0 == side implies listed(
            next,
            id,
            index2[id].1,
        ) by {
            if id == order.id {
                assert(next[i].orders[old_level.orders.len() as int].id == id);
            } else {
                let (k, j) = choose|k: int, j: int|
                    at(levels, k, j) && #[trigger] levels[k].orders[j].id == id && levels[k].price == index[id].1;
                assert(next[k].orders[j] == levels[k].orders[j]);
            }
        }
    } else {
        let level = LevelView { price: p, orders: seq![order] };
        assert(level_ok(level, side));
        assert forall|k: int| 0 <= k < next.len() implies level_ok(#[trigger] next[k], side) by {
            if k < i {
                assert(next[k] == levels[k]);
            } else if k > i {
                assert(next[k] == levels[k - 1]);
            }
        }
        assert forall|a: int, b: int| 0 <= a < b < next.len() implies better(
            side,
            #[trigger] next[b].price,
            #[trigger] next[a].price,
        ) by {
            if b < i {
                assert(next[a] == levels[a] && next[b] == levels[b]);
            } else if b == i {
                assert(next[a] == levels[a]);
            } else if a < i {
                assert(next[a] == levels[a] && next[b] == levels[b - 1]);
                assert(!better(side, p, levels[b - 1].price));
            } else if a == i {
                assert(next[b] == levels[b - 1]);
                assert(!better(side, p, levels[i].price));
                if b - 1 > i {
                    assert(better(side, levels[b - 1].price, levels[i].price));
                }
            } else {
                assert(next[a] == levels[a - 1] && next[b] == levels[b - 1]);
            }
        }
        assert forall|k: int, j: int| at(next, k, j) implies {
            &&& index2.contains_key(#[trigger] next[k].orders[j].id)
            &&& index2[next[k].orders[j].id] == (side, next[k].price)
        } by {
            if k < i {
                assert(next[k] == levels[k]);
                assert(at(levels, k, j));
            } else if k > i {
                assert(next[k] == levels[k - 1]);
                assert(at(levels, k - 1, j));
            }
        }
        assert forall|id: u64| #[trigger] index2.contains_key(id) && index2[id].0 == side implies listed(
            next,
            id,
            index2[id].1,
        ) by {
            if id == order.id {
                assert(next[i].orders[0].id == id);
            } else {
                let (k, j) = choose|k: int, j: int|
                    at(levels, k, j) && #[trigger] levels[k].orders[j].id == id && levels[k].price == index[id].1;
                if k < i {
                    assert(next[k] == levels[k]);
                    assert(next[k].orders[j].id == id);
                } else {
                    assert(next[k + 1] == levels[k]);
                    assert(next[k + 1].orders[j].id == id);
                }
            }
        }
    }
}

/// Cancelling an indexed order keeps the side sorted and indexed, without that ID,
/// and never improves the side's best price.
pub proof fn lemma_cancel_at(levels: Seq<LevelView>, side: Side, index: Index, id: u64)
    requires
        side_ok(levels, side),
        side_indexed(levels, side, index),
        index.contains_key(id),
        index[id].0 == side,
    ensures
        ({
            let price = index[id].1;
            let k = level_of(levels, price);
            let j = position_of(levels[k].orders, id);
            let next = cancel_at(levels, price, id);
            &&& at(levels, k, j)
            &&& levels[k].price == price
            &&& levels[k].orders[j].id == id
            &&& forall|k2: int| 0 <= k2 < levels.len() && #[trigger] levels[k2].price == price ==> k2 == k
            &&& forall|j2: int| 0 <= j2 < levels[k].orders.len() && #[trigger] levels[k].orders[j2].id == id ==> j2 == j
            &&& side_ok(next, side)
            &&& side_indexed(next, side, index.remove(id))
            &&& next.len() > 0 ==> next.last().price == levels.last().price || better(
                side,
                levels.last().price,
                next.last().price,
            )
        }),
{
    let price = index[id].1;
    let (k0, j0) = choose|k: int, j: int|
        at(levels, k, j) && #[trigger] levels[k].orders[j].id == id && levels[k].price == price;
    let k = level_of(levels, price);
    assert(0 <= k < levels.len() && levels[k].price == price);
    assert forall|k2: int| 0 <= k2 < levels.len() && #[trigger] levels[k2].price == price implies k2 == k by {
        if k2 < k {
            assert(better(side, levels[k].price, levels[k2].price));
        } else if k < k2 {
            assert(better(side, levels[k2].price, levels[k].price));
        }
    }
    assert(k0 == k);
    let j = position_of(levels[k].orders, id);
    assert(0 <= j < levels[k].orders.len() && levels[k].orders[j].id == id);
    assert(level_ok(levels[k], side));
    let old_level = levels[k];
    let orders = old_level.orders.remove(j);
    let index2 = index.remove(id);
    let next = cancel_at(levels, price, id);
    assert forall|k2: int, j2: int| at(levels, k2, j2) && (k2 != k || j2 != j) implies #[trigger] levels[k2].orders[j2].id != id by {
        if levels[k2].orders[j2].id == id {
            lemma_unique_position(levels, side, index, k2, j2, k, j);
        }
    }
    if orders.len() == 0 {
        assert forall|k2: int| 0 <= k2 < next.len() implies level_ok(#[trigger] next[k2], side) by {
            if k2 < k {
                assert(next[k2] == levels[k2]);
            } else {
                assert(next[k2] == levels[k2 + 1]);
            }
        }
        assert forall|a: int, b: int| 0 <= a < b < next.len() implies better(
            side,
            #[trigger] next[b].price,
            #[trigger] next[a].price,
        ) by {
            let a2 = if a < k { a } else { a + 1 };
            let b2 = if b < k { b } else { b + 1 };
            assert(next[a] == levels[a2] && next[b] == levels[b2]);
        }
        assert forall|k2: int, j2: int| at(next, k2, j2) implies {
            &&& index2.contains_key(#[trigger] next[k2].orders[j2].id)
            &&& index2[next[k2].orders[j2].id] == (side, next[k2].price)
        } by {
            let k3 = if k2 < k { k2 } else { k2 + 1 };
            assert(next[k2] == levels[k3]);
            assert(at(levels, k3, j2));
        }
        assert forall|id2: u64| #[trigger] index2.contains_key(id2) && index2[id2].0 == side implies listed(
            next,
            id2,
            index2[id2].1,
        ) by {
            let (k2, j2) = choose|k2: int, j2: int|
                at(levels, k2, j2) && #[trigger] levels[k2].orders[j2].id == id2 && levels[k2].price == index[id2].1;
            if k2 == k {
                assert(old_level.orders.len() == 1);
            }
            let k3 = if k2 < k { k2 } else { k2 - 1 };
            assert(next[k3] == levels[k2]);
            assert(next[k3].orders[j2].id == id2);
        }
        if next.len() > 0 {
            if k == levels.len() - 1 {
                assert(next.last() == levels[k - 1]);
            } else {
                assert(next.last() == levels.last());
            }
        }
    } else {
        let level = LevelView { price: old_level.price, orders };
        assert forall|a: int| 0 <= a < orders.len() implies #[trigger] orders[a] == old_level.orders[
            if a < j { a } else { a + 1 }
        ] by {}
        assert forall|a: int, b: int|
            0 <= a < orders.len() && 0 <= b < orders.len() && a != b implies #[trigger] orders[a].id
                != #[trigger] orders[b].id by {
            let a2 = if a < j { a } else { a + 1 };
            let b2 = if b < j { b } else { b + 1 };
            assert(orders[a] == old_level.orders[a2] && orders[b] == old_level.orders[b2]);
        }
        assert forall|a: int| 0 <= a < orders.len() implies {
            &&& (#[trigger] orders[a]).side == side
            &&& orders[a].price == old_level.price
            &&& orders[a].quantity > 0
        } by {
            let a2 = if a < j { a } else { a + 1 };
            assert(orders[a] == old_level.orders[a2]);
        }
        assert(level_ok(level, side));
        assert forall|k2: int| 0 <= k2 < next.len() implies level_ok(#[trigger] next[k2], side) by {}
        assert forall|k2: int, j2: int| at(next, k2, j2) implies {
            &&& index2.contains_key(#[trigger] next[k2].orders[j2].id)
            &&& index2[next[k2].orders[j2].id] == (side, next[k2].price)
        } by {
            if k2 != k {
                assert(at(levels, k2, j2));
            } else {
                let j3 = if j2 < j { j2 } else { j2 + 1 };
                assert(next[k2].orders[j2] == levels[k].orders[j3]);
                assert(at(levels, k, j3));
            }
        }
        assert forall|id2: u64| #[trigger] index2.contains_key(id2) && index2[id2].0 == side implies listed(
            next,
            id2,
            index2[id2].1,
        ) by {
            let (k2, j2) = choose|k2: int, j2: int|
                at(levels, k2, j2) && #[trigger] levels[k2].orders[j2].id == id2 && levels[k2].price == index[id2].1;
            if k2 != k {
                assert(next[k2].orders[j2].id == id2);
            } else {
                let j3 = if j2 < j { j2 } else { j2 - 1 };
                assert(next[k2].orders[j3].id == id2);
            }
        }
    }
}

} // verus!
