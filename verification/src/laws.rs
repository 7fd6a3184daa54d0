//! What holds of the matcher on every input and across commands.
use vstd::prelude::*;

use crate::allocation::{
    eligible, eligible_before, executable, floor_share, lemma_lots_take_mono, lemma_lots_take_step,
    lemma_share_bounds, lemma_shares_sum, lots, shares, sum,
};
use crate::book::{
    after_fill, at, better, crosses, fill_events, lemma_after_fill, lemma_match_levels,
    lemma_side_ok_drop_last, lemma_worse_count, level_of, level_ok, listed, match_levels, opposite,
    position_of, rest_at, resting, side_ok, worse_count, Index, LevelView,
};
use crate::market::{
    apply_spec, cancel_spec, initial, lemma_apply_valid, lemma_place_valid, place_match, place_spec,
    reject_not_positive, reject_not_resting, reject_used, shows, side_levels, valid, with_levels,
    EngineView,
};
use crate::model::{Command, Event, LevelSnapshot, Order, Policy, Side};

verus! {

/// The lots traded by the trades among some events.
pub open spec fn traded(events: Seq<Event>) -> int
    decreases events.len(),
{
    if events.len() == 0 {
        0
    } else {
        traded(events.drop_last()) + match events.last() {
            Event::Trade { quantity, .. } => quantity as int,
            _ => 0int,
        }
    }
}

/// The price of a trade.
pub open spec fn trade_price(e: Event) -> u64 {
    match e {
        Event::Trade { price, .. } => price,
        _ => 0,
    }
}

/// A trade of the taker, for some lots, with an order that rested at a price the taker crosses,
/// and at that price.
pub open spec fn trade_against(e: Event, taker: Order, levels: Seq<LevelView>) -> bool {
    match e {
        Event::Trade { maker, taker: t, price, quantity } => {
            &&& t == taker.id
            &&& quantity > 0
            &&& crosses(taker, price)
            &&& listed(levels, maker, price)
        },
        _ => false,
    }
}

/// The state after a sequence of commands.
pub open spec fn run(v: EngineView, commands: Seq<Command>) -> EngineView
    decreases commands.len(),
{
    if commands.len() == 0 {
        v
    } else {
        run(apply_spec(v, commands[0]).0, commands.drop_first())
    }
}

/// The orders resting at a price on one side, in arrival order.
pub open spec fn orders_at(levels: Seq<LevelView>, price: u64) -> Seq<Order> {
    if exists|k: int| 0 <= k < levels.len() && levels[k].price == price {
        levels[level_of(levels, price)].orders
    } else {
        Seq::empty()
    }
}

/// `x` was accepted before `y`.
pub open spec fn accepted_before(accepted: Seq<u64>, x: u64, y: u64) -> bool {
    exists|i: int, j: int| 0 <= i < j < accepted.len() && accepted[i] == x && accepted[j] == y
}

/// Every order of the side was accepted, and within each level older orders come first.
pub open spec fn side_in_acceptance_order(levels: Seq<LevelView>, accepted: Seq<u64>) -> bool {
    &&& forall|k: int, j: int|
        at(levels, k, j) ==> accepted.contains(#[trigger] levels[k].orders[j].id)
    &&& forall|k: int, a: int, b: int|
        0 <= k < levels.len() && 0 <= a < b < levels[k].orders.len() ==> accepted_before(
            accepted,
            #[trigger] levels[k].orders[a].id,
            #[trigger] levels[k].orders[b].id,
        )
}

pub open spec fn in_acceptance_order(v: EngineView, accepted: Seq<u64>) -> bool {
    side_in_acceptance_order(v.bids, accepted) && side_in_acceptance_order(v.asks, accepted)
}

/// The ID a command gets accepted, if it is an order that is accepted.
pub open spec fn newly_accepted(v: EngineView, command: Command) -> Seq<u64> {
    match command {
        Command::Place(order) => if order.quantity > 0 && order.price > 0 && !v.seen.contains(
            order.id,
        ) {
            seq![order.id]
        } else {
            Seq::empty()
        },
        Command::Cancel(_) => Seq::empty(),
    }
}

/// The IDs of the orders accepted along a sequence of commands, in order.
pub open spec fn accepted(v: EngineView, commands: Seq<Command>) -> Seq<u64>
    decreases commands.len(),
{
    if commands.len() == 0 {
        Seq::empty()
    } else {
        newly_accepted(v, commands[0]) + accepted(apply_spec(v, commands[0]).0, commands.drop_first())
    }
}

// ---------------------------------------------------------------- helpers

pub proof fn lemma_traded_concat(a: Seq<Event>, b: Seq<Event>)
    ensures
        traded(a + b) == traded(a) + traded(b),
    decreases b.len(),
{
    if b.len() == 0 {
        assert(a + b =~= a);
    } else {
        lemma_traded_concat(a, b.drop_last());
        assert((a + b).drop_last() =~= a + b.drop_last());
    }
}

pub proof fn lemma_traded_fill_events(orders: Seq<Order>, s: Seq<u64>, taker: u64, price: u64)
    ensures
        traded(fill_events(orders, s, taker, price)) == sum(s),
    decreases s.len(),
{
    if s.len() > 0 {
        lemma_traded_fill_events(orders, s.drop_last(), taker, price);
        let before = fill_events(orders, s.drop_last(), taker, price);
        let e = Event::Trade { maker: orders[s.len() - 1].id, taker, price, quantity: s.last() };
        assert(before.push(e).drop_last() =~= before);
    }
}

/// A matching pass trades exactly the lots the taker loses, each trade with an order resting
/// at a price the taker crosses, best prices first.
pub proof fn lemma_match_trades(
    policy: Policy,
    levels: Seq<LevelView>,
    taker: Order,
    index: Index,
    side: Side,
)
    requires
        side_ok(levels, side),
    ensures
        ({
            let m = match_levels(policy, levels, taker, index);
            &&& taker.quantity == traded(m.events) + m.taker.quantity
            &&& forall|i: int|
                0 <= i < m.events.len() ==> trade_against(#[trigger] m.events[i], taker, levels)
            &&& forall|i: int, j: int|
                0 <= i < j < m.events.len() ==> !better(
                    side,
                    trade_price(#[trigger] m.events[j]),
                    trade_price(#[trigger] m.events[i]),
                )
        }),
    decreases levels.len(),
{
    if !(taker.quantity == 0 || levels.len() == 0 || !crosses(taker, levels.last().price)) {
        let n = levels.len() - 1;
        let best = levels.last();
        let q = taker.quantity as int;
        let s = shares(policy, best.orders, q);
        let filled = after_fill(best.orders, s);
        let left = resting(filled);
        let index2 = index.remove_keys(crate::book::filled_ids(filled));
        let trades = fill_events(best.orders, s, taker.id, best.price);
        assert(level_ok(levels[n], side));
        lemma_after_fill(policy, best, side, q);
        lemma_shares_sum(policy, best.orders, q);
        crate::allocation::lemma_executable_bounds(best.orders, q);
        lemma_traded_fill_events(best.orders, s, taker.id, best.price);
        crate::book::lemma_fill_events_elements(best.orders, s, taker.id, best.price);
        assert forall|i: int| 0 <= i < trades.len() implies trade_against(#[trigger] trades[i], taker, levels)
            && trade_price(trades[i]) == best.price by {
            let j = choose|j: int|
                0 <= j < s.len() && s[j] > 0 && #[trigger] trades[i] == (Event::Trade {
                    maker: best.orders[j].id,
                    taker: taker.id,
                    price: best.price,
                    quantity: s[j],
                });
            assert(levels[n].orders[j].id == best.orders[j].id);
            assert(at(levels, n, j));
        }
        let taker2 = Order {
            id: taker.id,
            side: taker.side,
            price: taker.price,
            quantity: (taker.quantity - executable(best.orders, q)) as u64,
        };
        if left.len() == 0 {
            lemma_side_ok_drop_last(levels, side);
            let init = levels.drop_last();
            lemma_match_trades(policy, init, taker2, index2, side);
            let rest = match_levels(policy, init, taker2, index2);
            let events = trades + rest.events;
            lemma_traded_concat(trades, rest.events);
            assert forall|i: int| 0 <= i < rest.events.len() implies trade_against(
                #[trigger] rest.events[i],
                taker,
                levels,
            ) && better(side, best.price, trade_price(rest.events[i])) by {
                assert(trade_against(rest.events[i], taker2, init));
                let maker = match rest.events[i] {
                    Event::Trade { maker, .. } => maker,
                    _ => 0,
                };
                let p = trade_price(rest.events[i]);
                let (k, j) = choose|k: int, j: int|
                    at(init, k, j) && #[trigger] init[k].orders[j].id == maker && init[k].price == p;
                assert(levels[k].orders[j].id == maker);
                assert(better(side, levels[n].price, levels[k].price));
            }
            assert forall|i: int| 0 <= i < events.len() implies trade_against(
                #[trigger] events[i],
                taker,
                levels,
            ) by {
                if i < trades.len() {
                    assert(events[i] == trades[i]);
                } else {
                    assert(events[i] == rest.events[i - trades.len()]);
                }
            }
            assert forall|i: int, j: int| 0 <= i < j < events.len() implies !better(
                side,
                trade_price(#[trigger] events[j]),
                trade_price(#[trigger] events[i]),
            ) by {
                if j < trades.len() {
                    assert(events[i] == trades[i] && events[j] == trades[j]);
                } else if i < trades.len() {
                    assert(events[i] == trades[i] && events[j] == rest.events[j - trades.len()]);
                } else {
                    assert(events[i] == rest.events[i - trades.len()]);
                    assert(events[j] == rest.events[j - trades.len()]);
                }
            }
        } else {
            assert forall|i: int, j: int| 0 <= i < j < trades.len() implies !better(
                side,
                trade_price(#[trigger] trades[j]),
                trade_price(#[trigger] trades[i]),
            ) by {
                assert(trade_against(trades[i], taker, levels) && trade_against(trades[j], taker, levels));
            }
        }
    }
}

/// A matching pass that trades nothing leaves the side, the taker and the index as they were.
pub proof fn lemma_match_no_trade(
    policy: Policy,
    levels: Seq<LevelView>,
    taker: Order,
    index: Index,
    side: Side,
)
    requires
        side_ok(levels, side),
    ensures
        ({
            let m = match_levels(policy, levels, taker, index);
            m.events.len() == 0 ==> m.levels == levels && m.taker == taker && m.index == index
        }),
{
    if !(taker.quantity == 0 || levels.len() == 0 || !crosses(taker, levels.last().price)) {
        let n = levels.len() - 1;
        let best = levels.last();
        let q = taker.quantity as int;
        let s = shares(policy, best.orders, q);
        let trades = fill_events(best.orders, s, taker.id, best.price);
        assert(level_ok(levels[n], side));
        lemma_after_fill(policy, best, side, q);
        lemma_shares_sum(policy, best.orders, q);
        lemma_traded_fill_events(best.orders, s, taker.id, best.price);
        assert(trades.len() > 0);
    }
}

// ---------------------------------------------------------------- laws of the engine

/// Every command keeps the engine consistent: both sides sorted best-last with no empty level,
/// no order without lots, no ID resting twice, the index naming exactly the resting orders,
/// and the best bid below the best ask.
pub proof fn law_commands_keep_engine_consistent(v: EngineView, commands: Seq<Command>)
    requires
        valid(v),
    ensures
        valid(run(v, commands)),
    decreases commands.len(),
{
    if commands.len() > 0 {
        lemma_apply_valid(v, commands[0]);
        law_commands_keep_engine_consistent(apply_spec(v, commands[0]).0, commands.drop_first());
    }
}

/// In a consistent engine no ID rests twice: two resting orders with the same ID are the
/// same order, on the same side.
pub proof fn law_ids_rest_once(v: EngineView, side1: Side, k1: int, j1: int, side2: Side, k2: int, j2: int)
    requires
        valid(v),
        at(side_levels(v, side1), k1, j1),
        at(side_levels(v, side2), k2, j2),
        side_levels(v, side1)[k1].orders[j1].id == side_levels(v, side2)[k2].orders[j2].id,
    ensures
        side1 == side2,
        k1 == k2,
        j1 == j2,
{
    let l1 = side_levels(v, side1);
    let l2 = side_levels(v, side2);
    assert(v.resting[l1[k1].orders[j1].id] == (side1, l1[k1].price));
    assert(v.resting[l2[k2].orders[j2].id] == (side2, l2[k2].price));
    crate::book::lemma_unique_position(l1, side1, v.resting, k1, j1, k2, j2);
}

/// An accepted order's lots are all accounted for: its trades, best prices first, each with an
/// order that rested at a price it crosses and at that resting price, and then, if lots remain,
/// one `Rested` event for them, after which no opposite level crosses it.
pub proof fn law_place(v: EngineView, order: Order)
    requires
        valid(v),
        order.quantity > 0,
        order.price > 0,
        !v.seen.contains(order.id),
    ensures
        ({
            let m = place_match(v, order);
            let (next, events) = place_spec(v, order);
            let opposite_side = opposite(order.side);
            &&& order.quantity == traded(m.events) + m.taker.quantity
            &&& events == if m.taker.quantity > 0 {
                m.events.push(Event::Rested { id: order.id, remaining: m.taker.quantity })
            } else {
                m.events
            }
            &&& forall|i: int|
                0 <= i < m.events.len() ==> trade_against(
                    #[trigger] m.events[i],
                    order,
                    side_levels(v, opposite_side),
                )
            &&& forall|i: int, j: int|
                0 <= i < j < m.events.len() ==> !better(
                    opposite_side,
                    trade_price(#[trigger] m.events[j]),
                    trade_price(#[trigger] m.events[i]),
                )
            &&& m.taker.quantity > 0 ==> side_levels(next, opposite_side).len() == 0 || !crosses(
                order,
                side_levels(next, opposite_side).last().price,
            )
            &&& next.seen == v.seen.insert(order.id)
        }),
{
    let other = opposite(order.side);
    lemma_match_trades(v.policy, side_levels(v, other), order, v.resting, other);
    lemma_match_levels(v.policy, side_levels(v, other), order, v.resting, other);
}

/// A rejected command changes nothing and answers with the rejection alone.
pub proof fn law_rejection_changes_nothing(v: EngineView, command: Command)
    requires
        valid(v),
    ensures
        ({
            let (next, events) = apply_spec(v, command);
            (exists|i: int| 0 <= i < events.len() && #[trigger] events[i] is Rejected) ==> next == v
                && events.len() == 1
        }),
{
    let (next, events) = apply_spec(v, command);
    match command {
        Command::Place(order) => {
            if !(order.quantity == 0 || order.price == 0 || v.seen.contains(order.id)) {
                law_place(v, order);
                let m = place_match(v, order);
                assert forall|i: int| 0 <= i < events.len() implies !(#[trigger] events[i] is Rejected) by {
                    if i < m.events.len() {
                        assert(events[i] == m.events[i]);
                        assert(trade_against(m.events[i], order, side_levels(v, opposite(order.side))));
                    }
                }
            }
        },
        Command::Cancel(id) => {
            if v.resting.contains_key(id) {
                assert(events[0] is Cancelled);
            }
        },
    }
}

/// Accepted IDs stay accepted.
pub proof fn law_seen_only_grows(v: EngineView, commands: Seq<Command>)
    ensures
        v.seen.subset_of(run(v, commands).seen),
    decreases commands.len(),
{
    if commands.len() > 0 {
        let next = apply_spec(v, commands[0]).0;
        law_seen_only_grows(next, commands.drop_first());
    }
}

/// Once an order is accepted, its ID can never be used again, whatever comes after.
pub proof fn law_ids_are_not_reused(v: EngineView, order: Order, commands: Seq<Command>, again: Order)
    requires
        order.quantity > 0,
        order.price > 0,
        !v.seen.contains(order.id),
        again.id == order.id,
        again.quantity > 0,
        again.price > 0,
    ensures
        ({
            let later = run(place_spec(v, order).0, commands);
            place_spec(later, again) == (later, seq![reject_used(order.id)])
        }),
{
    law_seen_only_grows(place_spec(v, order).0, commands);
}

/// A resting order can be cancelled once: it leaves the book and the index, and a second
/// cancellation is rejected.
pub proof fn law_cancel_removes(v: EngineView, id: u64)
    requires
        valid(v),
        v.resting.contains_key(id),
    ensures
        ({
            let (next, events) = cancel_spec(v, id);
            &&& events == seq![Event::Cancelled { id }]
            &&& !next.resting.contains_key(id)
            &&& forall|k: int, j: int|
                at(next.bids, k, j) ==> #[trigger] next.bids[k].orders[j].id != id
            &&& forall|k: int, j: int|
                at(next.asks, k, j) ==> #[trigger] next.asks[k].orders[j].id != id
            &&& cancel_spec(next, id) == (next, seq![reject_not_resting(id)])
        }),
{
    crate::market::lemma_cancel_valid(v, id);
}

/// An order that is rejected as invalid changes nothing, so its ID stays free.
pub proof fn law_invalid_order_keeps_id_free(v: EngineView, order: Order)
    requires
        order.quantity == 0 || order.price == 0,
    ensures
        place_spec(v, order) == (v, seq![reject_not_positive(order.id)]),
{
}

/// Cancelling an order that rested without trading gives back the book and the index as they
/// were before it was placed; only its ID stays used.
pub proof fn law_cancel_restores_book(v: EngineView, order: Order)
    requires
        valid(v),
        order.quantity > 0,
        order.price > 0,
        !v.seen.contains(order.id),
        place_spec(v, order).1 == seq![Event::Rested { id: order.id, remaining: order.quantity }],
    ensures
        cancel_spec(place_spec(v, order).0, order.id) == (
            EngineView { seen: v.seen.insert(order.id), ..v },
            seq![Event::Cancelled { id: order.id }],
        ),
{
    let side = order.side;
    let other = opposite(side);
    let m = place_match(v, order);
    law_place(v, order);
    if m.taker.quantity == 0 {
        assert(m.events[0] == place_spec(v, order).1[0]);
        assert(trade_against(m.events[0], order, side_levels(v, other)));
    }
    assert(m.events.len() == 0) by {
        assert(m.events.push(Event::Rested { id: order.id, remaining: m.taker.quantity }).len() == 1);
    }
    lemma_match_no_trade(v.policy, side_levels(v, other), order, v.resting, other);
    let next = place_spec(v, order).0;
    lemma_place_valid(v, order);
    let own = side_levels(v, side);
    let levels = side_levels(next, side);
    assert(levels == rest_at(own, side, order));
    assert(next.resting == v.resting.insert(order.id, (side, order.price)));
    crate::book::lemma_cancel_at(levels, side, next.resting, order.id);
    let p = order.price;
    let k = level_of(levels, p);
    let j = position_of(levels[k].orders, order.id);
    lemma_worse_count(own, side, p);
    let i = worse_count(own, side, p);
    if i < own.len() && own[i].price == p {
        assert(levels[i].price == p);
        assert(k == i);
        let last = own[i].orders.len() as int;
        assert(levels[i].orders[last].id == order.id);
        assert(j == last);
        assert(level_ok(own[i], side));
        assert(levels[i].orders.remove(j) =~= own[i].orders);
        assert(crate::book::cancel_at(levels, p, order.id) =~= own);
    } else {
        assert(levels[i].price == p);
        assert(k == i);
        assert(levels[i].orders[0].id == order.id);
        assert(j == 0);
        assert(crate::book::cancel_at(levels, p, order.id) =~= own);
    }
    assert(!v.resting.contains_key(order.id));
    assert(next.resting.remove(order.id) =~= v.resting);
    let after = cancel_spec(next, order.id).0;
    assert(after =~= EngineView { seen: v.seen.insert(order.id), ..v });
}

/// What is left of an accepted order rests at its own price, behind the orders already there.
pub proof fn law_rests_behind_earlier_orders(v: EngineView, order: Order)
    requires
        valid(v),
        order.quantity > 0,
        order.price > 0,
        !v.seen.contains(order.id),
        place_match(v, order).taker.quantity > 0,
    ensures
        ({
            let next = place_spec(v, order).0;
            let levels = side_levels(next, order.side);
            let rested = place_match(v, order).taker;
            exists|k: int|
                0 <= k < levels.len() && #[trigger] levels[k].price == order.price
                    && levels[k].orders == orders_at(side_levels(v, order.side), order.price).push(
                    rested,
                )
        }),
{
    let own = side_levels(v, order.side);
    let p = order.price;
    let rested = place_match(v, order).taker;
    crate::book::lemma_match_taker(
        v.policy,
        side_levels(v, opposite(order.side)),
        order,
        v.resting,
    );
    lemma_worse_count(own, order.side, p);
    let i = worse_count(own, order.side, p);
    let levels = side_levels(place_spec(v, order).0, order.side);
    if i < own.len() && own[i].price == p {
        let k = level_of(own, p);
        if k < i {
            assert(better(order.side, own[i].price, own[k].price));
        } else if i < k {
            assert(better(order.side, own[k].price, own[i].price));
        }
        assert(levels[i].price == p);
    } else {
        assert forall|k: int| 0 <= k < own.len() implies own[k].price != p by {
            if k > i {
                assert(better(order.side, own[k].price, own[i].price));
            }
        }
        assert(orders_at(own, p) =~= Seq::<Order>::empty());
        assert(levels[i].price == p);
        assert(levels[i].orders =~= orders_at(own, p).push(rested));
    }
}

/// A snapshot lists bids from the highest price down and asks from the lowest price up,
/// never crossed, with no empty level and no order without lots.
pub proof fn law_snapshot_best_first(v: EngineView, bids: Seq<LevelSnapshot>, asks: Seq<LevelSnapshot>)
    requires
        valid(v),
        shows(bids, v.bids),
        shows(asks, v.asks),
    ensures
        forall|i: int, j: int| 0 <= i < j < bids.len() ==> #[trigger] bids[i].price > #[trigger] bids[j].price,
        forall|i: int, j: int| 0 <= i < j < asks.len() ==> #[trigger] asks[i].price < #[trigger] asks[j].price,
        bids.len() > 0 && asks.len() > 0 ==> bids[0].price < asks[0].price,
        forall|i: int| 0 <= i < bids.len() ==> (#[trigger] bids[i]).orders@.len() > 0,
        forall|i: int| 0 <= i < asks.len() ==> (#[trigger] asks[i]).orders@.len() > 0,
        forall|i: int, j: int|
            0 <= i < bids.len() && 0 <= j < bids[i].orders@.len() ==> #[trigger] bids[i].orders@[j].1 > 0,
        forall|i: int, j: int|
            0 <= i < asks.len() && 0 <= j < asks[i].orders@.len() ==> #[trigger] asks[i].orders@[j].1 > 0,
{
    let nb = v.bids.len();
    let na = v.asks.len();
    assert forall|i: int, j: int| 0 <= i < j < bids.len() implies #[trigger] bids[i].price > #[trigger] bids[j].price by {
        assert(better(Side::Buy, v.bids[nb - 1 - i].price, v.bids[nb - 1 - j].price));
    }
    assert forall|i: int, j: int| 0 <= i < j < asks.len() implies #[trigger] asks[i].price < #[trigger] asks[j].price by {
        assert(better(Side::Sell, v.asks[na - 1 - i].price, v.asks[na - 1 - j].price));
    }
    assert forall|i: int| 0 <= i < bids.len() implies (#[trigger] bids[i]).orders@.len() > 0 by {
        assert(level_ok(v.bids[nb - 1 - i], Side::Buy));
    }
    assert forall|i: int| 0 <= i < asks.len() implies (#[trigger] asks[i]).orders@.len() > 0 by {
        assert(level_ok(v.asks[na - 1 - i], Side::Sell));
    }
    assert forall|i: int, j: int|
        0 <= i < bids.len() && 0 <= j < bids[i].orders@.len() implies #[trigger] bids[i].orders@[j].1 > 0 by {
        assert(level_ok(v.bids[nb - 1 - i], Side::Buy));
        assert(v.bids[nb - 1 - i].orders[j].quantity > 0);
    }
    assert forall|i: int, j: int|
        0 <= i < asks.len() && 0 <= j < asks[i].orders@.len() implies #[trigger] asks[i].orders@[j].1 > 0 by {
        assert(level_ok(v.asks[na - 1 - i], Side::Sell));
        assert(v.asks[na - 1 - i].orders[j].quantity > 0);
    }
}

// ---------------------------------------------------------------- cancelling and snapshots, by price

/// Two levels of a sorted side never share a price.
pub proof fn lemma_prices_distinct(levels: Seq<LevelView>, side: Side, a: int, b: int)
    requires
        side_ok(levels, side),
        0 <= a < levels.len(),
        0 <= b < levels.len(),
        levels[a].price == levels[b].price,
    ensures
        a == b,
{
    if a < b {
        assert(better(side, levels[b].price, levels[a].price));
    } else if b < a {
        assert(better(side, levels[a].price, levels[b].price));
    }
}

/// The orders at a level's price are that level's orders.
pub proof fn lemma_orders_at(levels: Seq<LevelView>, side: Side, k: int)
    requires
        side_ok(levels, side),
        0 <= k < levels.len(),
    ensures
        orders_at(levels, levels[k].price) == levels[k].orders,
{
    let p = levels[k].price;
    assert(exists|k2: int| 0 <= k2 < levels.len() && levels[k2].price == p);
    lemma_prices_distinct(levels, side, k, level_of(levels, p));
}

/// Cancelling a resting order takes exactly that order out of the level at its price: the
/// orders before and after it keep their places, IDs and remaining lots; every other level of
/// its side holds what it held, the other side is untouched, and only that ID leaves the index.
pub proof fn law_cancel_keeps_other_orders(v: EngineView, id: u64)
    requires
        valid(v),
        v.resting.contains_key(id),
    ensures
        ({
            let (side, price) = v.resting[id];
            let before = side_levels(v, side);
            let next = cancel_spec(v, id).0;
            let after = side_levels(next, side);
            &&& exists|j: int|
                #![trigger orders_at(before, price)[j]]
                0 <= j < orders_at(before, price).len() && orders_at(before, price)[j].id == id
                    && orders_at(after, price) == orders_at(before, price).remove(j)
            &&& forall|p: u64| p != price ==> #[trigger] orders_at(after, p) == orders_at(before, p)
            &&& side_levels(next, opposite(side)) == side_levels(v, opposite(side))
            &&& next.resting == v.resting.remove(id)
            &&& next.policy == v.policy
            &&& next.seen == v.seen
        }),
{
    let (side, price) = v.resting[id];
    let levels = side_levels(v, side);
    crate::book::lemma_cancel_at(levels, side, v.resting, id);
    let k = level_of(levels, price);
    let j = position_of(levels[k].orders, id);
    let nl = crate::book::cancel_at(levels, price, id);
    let next = cancel_spec(v, id).0;
    assert(side_levels(next, side) == nl);
    assert(side_levels(next, opposite(side)) == side_levels(v, opposite(side)));
    lemma_orders_at(levels, side, k);
    let rem = levels[k].orders.remove(j);
    if rem.len() == 0 {
        assert(nl == levels.remove(k));
        assert forall|k2: int| 0 <= k2 < nl.len() implies #[trigger] nl[k2].price != price by {
            let k3 = if k2 < k { k2 } else { k2 + 1 };
            assert(nl[k2] == levels[k3]);
            if levels[k3].price == price {
                lemma_prices_distinct(levels, side, k3, k);
            }
        }
        assert(orders_at(nl, price) =~= rem);
        assert forall|p: u64| p != price implies #[trigger] orders_at(nl, p) == orders_at(levels, p) by {
            if exists|k2: int| 0 <= k2 < levels.len() && levels[k2].price == p {
                let k2 = choose|k2: int| 0 <= k2 < levels.len() && levels[k2].price == p;
                let k3 = if k2 < k { k2 } else { k2 - 1 };
                assert(nl[k3] == levels[k2]);
                lemma_orders_at(levels, side, k2);
                lemma_orders_at(nl, side, k3);
            } else {
                assert forall|k3: int| 0 <= k3 < nl.len() implies #[trigger] nl[k3].price != p by {
                    let k4 = if k3 < k { k3 } else { k3 + 1 };
                    assert(nl[k3] == levels[k4]);
                }
            }
        }
    } else {
        assert(nl == levels.update(k, LevelView { price: levels[k].price, orders: rem }));
        lemma_orders_at(nl, side, k);
        assert forall|p: u64| p != price implies #[trigger] orders_at(nl, p) == orders_at(levels, p) by {
            if exists|k2: int| 0 <= k2 < levels.len() && levels[k2].price == p {
                let k2 = choose|k2: int| 0 <= k2 < levels.len() && levels[k2].price == p;
                assert(nl[k2] == levels[k2]);
                lemma_orders_at(levels, side, k2);
                lemma_orders_at(nl, side, k2);
            } else {
                assert forall|k3: int| 0 <= k3 < nl.len() implies #[trigger] nl[k3].price != p by {
                    if k3 != k {
                        assert(nl[k3] == levels[k3]);
                    }
                }
            }
        }
    }
    assert(orders_at(levels, price)[j].id == id);
}

/// A snapshot of one side shows that whole side and nothing else: as many levels as the side
/// has, each with exactly the orders resting at its price as (ID, remaining lots) in arrival
/// order, and every resting order of the side in the level with its price, at its place there.
pub open spec fn shows_whole_side(snapshot: Seq<LevelSnapshot>, levels: Seq<LevelView>) -> bool {
    &&& snapshot.len() == levels.len()
    &&& forall|i: int|
        0 <= i < snapshot.len() ==> (#[trigger] snapshot[i]).orders@.len() == orders_at(
            levels,
            snapshot[i].price,
        ).len()
    &&& forall|i: int, j: int|
        0 <= i < snapshot.len() && 0 <= j < snapshot[i].orders@.len() ==> #[trigger] snapshot[i].orders@[j]
            == (orders_at(levels, snapshot[i].price)[j].id, orders_at(levels, snapshot[i].price)[j].quantity)
    &&& forall|k: int, j: int|
        #![trigger levels[k].orders[j]]
        at(levels, k, j) ==> exists|i: int|
            #![trigger snapshot[i]]
            0 <= i < snapshot.len() && snapshot[i].price == levels[k].price && j < snapshot[i].orders@.len()
                && snapshot[i].orders@[j] == (levels[k].orders[j].id, levels[k].orders[j].quantity)
}

proof fn lemma_shows_whole_side(snapshot: Seq<LevelSnapshot>, levels: Seq<LevelView>, side: Side)
    requires
        side_ok(levels, side),
        shows(snapshot, levels),
    ensures
        shows_whole_side(snapshot, levels),
{
    let n = levels.len();
    assert forall|i: int| 0 <= i < snapshot.len() implies {
        &&& (#[trigger] snapshot[i]).orders@.len() == orders_at(levels, snapshot[i].price).len()
        &&& forall|j: int|
            0 <= j < snapshot[i].orders@.len() ==> #[trigger] snapshot[i].orders@[j] == (
                orders_at(levels, snapshot[i].price)[j].id,
                orders_at(levels, snapshot[i].price)[j].quantity,
            )
    } by {
        lemma_orders_at(levels, side, n - 1 - i);
    }
    assert forall|k: int, j: int| #![trigger levels[k].orders[j]] at(levels, k, j) implies exists|i: int|
        #![trigger snapshot[i]]
        0 <= i < snapshot.len() && snapshot[i].price == levels[k].price && j < snapshot[i].orders@.len()
            && snapshot[i].orders@[j] == (levels[k].orders[j].id, levels[k].orders[j].quantity) by {
        let i = n - 1 - k;
        assert(snapshot[i].price == levels[k].price);
    }
}

/// A snapshot shows the whole book: one level per price level of each side, each with exactly
/// the orders resting there, so no resting order is left out and none is shown that does not
/// rest; every ID the engine holds as resting appears at its side and price.
pub proof fn law_snapshot_complete(v: EngineView, bids: Seq<LevelSnapshot>, asks: Seq<LevelSnapshot>)
    requires
        valid(v),
        shows(bids, v.bids),
        shows(asks, v.asks),
    ensures
        bids.len() == v.bids.len(),
        asks.len() == v.asks.len(),
        shows_whole_side(bids, v.bids),
        shows_whole_side(asks, v.asks),
        forall|id: u64|
            #[trigger] v.resting.contains_key(id) && v.resting[id].0 == Side::Buy ==> exists|i: int, j: int|
                0 <= i < bids.len() && 0 <= j < bids[i].orders@.len() && bids[i].price == v.resting[id].1
                    && #[trigger] bids[i].orders@[j].0 == id,
        forall|id: u64|
            #[trigger] v.resting.contains_key(id) && v.resting[id].0 == Side::Sell ==> exists|i: int, j: int|
                0 <= i < asks.len() && 0 <= j < asks[i].orders@.len() && asks[i].price == v.resting[id].1
                    && #[trigger] asks[i].orders@[j].0 == id,
{
    lemma_shows_whole_side(bids, v.bids, Side::Buy);
    lemma_shows_whole_side(asks, v.asks, Side::Sell);
    assert forall|id: u64| #[trigger] v.resting.contains_key(id) && v.resting[id].0 == Side::Buy implies exists|i: int, j: int|
        0 <= i < bids.len() && 0 <= j < bids[i].orders@.len() && bids[i].price == v.resting[id].1
            && #[trigger] bids[i].orders@[j].0 == id by {
        assert(listed(v.bids, id, v.resting[id].1));
        let (k, j) = choose|k: int, j: int|
            at(v.bids, k, j) && #[trigger] v.bids[k].orders[j].id == id && v.bids[k].price == v.resting[id].1;
        let i = v.bids.len() - 1 - k;
        assert(bids[i].orders@ == crate::market::entries(v.bids[k]));
        assert(0 <= j < bids[i].orders@.len() && bids[i].orders@[j].0 == id);
    }
    assert forall|id: u64| #[trigger] v.resting.contains_key(id) && v.resting[id].0 == Side::Sell implies exists|i: int, j: int|
        0 <= i < asks.len() && 0 <= j < asks[i].orders@.len() && asks[i].price == v.resting[id].1
            && #[trigger] asks[i].orders@[j].0 == id by {
        assert(listed(v.asks, id, v.resting[id].1));
        let (k, j) = choose|k: int, j: int|
            at(v.asks, k, j) && #[trigger] v.asks[k].orders[j].id == id && v.asks[k].price == v.resting[id].1;
        let i = v.asks.len() - 1 - k;
        assert(asks[i].orders@ == crate::market::entries(v.asks[k]));
        assert(0 <= j < asks[i].orders@.len() && asks[i].orders@[j].0 == id);
    }
}

/// Placing an order changes its own side only at its own price, and there only by resting
/// what is left of it behind the orders already there: every other level of that side holds
/// what it held, and when nothing is left the side is as it was.
pub proof fn law_place_touches_own_side_only_at_its_price(v: EngineView, order: Order)
    requires
        valid(v),
        order.quantity > 0,
        order.price > 0,
        !v.seen.contains(order.id),
    ensures
        ({
            let next = place_spec(v, order).0;
            let before = side_levels(v, order.side);
            let after = side_levels(next, order.side);
            let left = place_match(v, order).taker;
            &&& forall|p: u64| p != order.price ==> #[trigger] orders_at(after, p) == orders_at(before, p)
            &&& orders_at(after, order.price) == if left.quantity > 0 {
                orders_at(before, order.price).push(left)
            } else {
                orders_at(before, order.price)
            }
            &&& left.quantity == 0 ==> after == before
        }),
{
    let side = order.side;
    let price = order.price;
    let next = place_spec(v, order).0;
    let before = side_levels(v, side);
    let after = side_levels(next, side);
    let left = place_match(v, order).taker;
    lemma_place_valid(v, order);
    if left.quantity > 0 {
        crate::book::lemma_match_taker(v.policy, side_levels(v, opposite(side)), order, v.resting);
        assert(after == rest_at(before, side, left));
        law_rests_behind_earlier_orders(v, order);
        let k = choose|k: int|
            0 <= k < after.len() && #[trigger] after[k].price == price && after[k].orders
                == orders_at(before, price).push(left);
        lemma_orders_at(after, side, k);
        lemma_worse_count(before, side, price);
        let i = worse_count(before, side, price);
        if i < before.len() && before[i].price == price {
            assert forall|p: u64| p != price implies #[trigger] orders_at(after, p) == orders_at(before, p) by {
                if exists|k2: int| 0 <= k2 < before.len() && before[k2].price == p {
                    let k2 = choose|k2: int| 0 <= k2 < before.len() && before[k2].price == p;
                    assert(after[k2] == before[k2]);
                    lemma_orders_at(before, side, k2);
                    lemma_orders_at(after, side, k2);
                } else {
                    assert forall|k3: int| 0 <= k3 < after.len() implies #[trigger] after[k3].price != p by {
                        if k3 != i {
                            assert(after[k3] == before[k3]);
                        }
                    }
                }
            }
        } else {
            assert forall|p: u64| p != price implies #[trigger] orders_at(after, p) == orders_at(before, p) by {
                if exists|k2: int| 0 <= k2 < before.len() && before[k2].price == p {
                    let k2 = choose|k2: int| 0 <= k2 < before.len() && before[k2].price == p;
                    let k3 = if k2 < i { k2 } else { k2 + 1 };
                    assert(after[k3] == before[k2]);
                    lemma_orders_at(before, side, k2);
                    lemma_orders_at(after, side, k3);
                } else {
                    assert forall|k3: int| 0 <= k3 < after.len() implies #[trigger] after[k3].price != p by {
                        if k3 < i {
                            assert(after[k3] == before[k3]);
                        } else if k3 > i {
                            assert(after[k3] == before[k3 - 1]);
                        }
                    }
                }
            }
        }
    } else {
        assert(after == before);
    }
}

// ---------------------------------------------------------------- matching conserves lots

/// The lots that the trades among some events took from one maker.
pub open spec fn traded_by(events: Seq<Event>, maker: u64) -> int
    decreases events.len(),
{
    if events.len() == 0 {
        0
    } else {
        traded_by(events.drop_last(), maker) + match events.last() {
            Event::Trade { maker: m, quantity, .. } => if m == maker {
                quantity as int
            } else {
                0int
            },
            _ => 0int,
        }
    }
}

/// The lots that the order with this ID has resting on a side; none if it does not rest there.
pub open spec fn lots_of(levels: Seq<LevelView>, id: u64) -> int {
    if exists|k: int, j: int| at(levels, k, j) && #[trigger] levels[k].orders[j].id == id {
        let (k, j) = choose|k: int, j: int| at(levels, k, j) && #[trigger] levels[k].orders[j].id == id;
        levels[k].orders[j].quantity as int
    } else {
        0
    }
}

pub proof fn lemma_traded_by_concat(a: Seq<Event>, b: Seq<Event>, maker: u64)
    ensures
        traded_by(a + b, maker) == traded_by(a, maker) + traded_by(b, maker),
    decreases b.len(),
{
    if b.len() == 0 {
        assert(a + b =~= a);
    } else {
        lemma_traded_by_concat(a, b.drop_last(), maker);
        assert((a + b).drop_last() =~= a + b.drop_last());
        assert((a + b).last() == b.last());
    }
}

pub proof fn lemma_traded_by_nonneg(events: Seq<Event>, maker: u64)
    ensures
        traded_by(events, maker) >= 0,
    decreases events.len(),
{
    if events.len() > 0 {
        lemma_traded_by_nonneg(events.drop_last(), maker);
    }
}

/// The trades of one level take from each of its orders exactly its share, and nothing from
/// an order that is not there.
pub proof fn lemma_traded_by_fill(orders: Seq<Order>, s: Seq<u64>, taker: u64, price: u64, maker: u64)
    requires
        crate::book::distinct_ids(orders),
        s.len() <= orders.len(),
    ensures
        forall|i: int|
            0 <= i < s.len() && #[trigger] orders[i].id == maker ==> traded_by(
                fill_events(orders, s, taker, price),
                maker,
            ) == s[i],
        (forall|i: int| 0 <= i < s.len() ==> #[trigger] orders[i].id != maker) ==> traded_by(
            fill_events(orders, s, taker, price),
            maker,
        ) == 0,
    decreases s.len(),
{
    if s.len() > 0 {
        let init = s.drop_last();
        let n = s.len() - 1;
        lemma_traded_by_fill(orders, init, taker, price, maker);
        let fe = fill_events(orders, s, taker, price);
        let fi = fill_events(orders, init, taker, price);
        if s[n] > 0 {
            assert(fe.drop_last() =~= fi);
        } else {
            assert(fe == fi);
        }
        assert forall|i: int| 0 <= i < s.len() && #[trigger] orders[i].id == maker implies traded_by(
            fe,
            maker,
        ) == s[i] by {
            if i < n {
                assert(init[i] == s[i]);
                assert(orders[n].id != orders[i].id);
            } else {
                assert forall|i2: int| 0 <= i2 < init.len() implies #[trigger] orders[i2].id != maker by {
                    assert(orders[i2].id != orders[n].id);
                }
            }
        }
    }
}

/// On an indexed side, the lots of a resting order's ID are that order's lots.
pub proof fn lemma_lots_of(levels: Seq<LevelView>, side: Side, index: Index, k: int, j: int)
    requires
        side_ok(levels, side),
        crate::book::side_indexed(levels, side, index),
        at(levels, k, j),
    ensures
        lots_of(levels, levels[k].orders[j].id) == levels[k].orders[j].quantity,
{
    let id = levels[k].orders[j].id;
    assert(exists|k2: int, j2: int| at(levels, k2, j2) && #[trigger] levels[k2].orders[j2].id == id);
    let (k2, j2) = choose|k2: int, j2: int| at(levels, k2, j2) && #[trigger] levels[k2].orders[j2].id == id;
    crate::book::lemma_unique_position(levels, side, index, k2, j2, k, j);
}

/// A matching pass takes from each resting order exactly the lots of its trades, and leaves
/// every level below the last one it reached as it was.
pub proof fn lemma_match_conserves(
    policy: Policy,
    levels: Seq<LevelView>,
    taker: Order,
    index: Index,
    side: Side,
)
    requires
        side_ok(levels, side),
        crate::book::side_indexed(levels, side, index),
    ensures
        ({
            let m = match_levels(policy, levels, taker, index);
            &&& forall|id: u64|
                #[trigger] lots_of(levels, id) == lots_of(m.levels, id) + traded_by(m.events, id)
            &&& forall|k: int| 0 <= k < m.levels.len() - 1 ==> #[trigger] m.levels[k] == levels[k]
        }),
    decreases levels.len(),
{
    let m = match_levels(policy, levels, taker, index);
    if taker.quantity == 0 || levels.len() == 0 || !crosses(taker, levels.last().price) {
        assert forall|id: u64| #[trigger] lots_of(levels, id) == lots_of(m.levels, id) + traded_by(
            m.events,
            id,
        ) by {}
    } else {
        let n = levels.len() - 1;
        let best = levels.last();
        let q = taker.quantity as int;
        let s = shares(policy, best.orders, q);
        let filled = after_fill(best.orders, s);
        let left = resting(filled);
        let index2 = index.remove_keys(crate::book::filled_ids(filled));
        let trades = fill_events(best.orders, s, taker.id, best.price);
        let init = levels.drop_last();
        crate::book::lemma_match_step(policy, levels, taker, index, side);
        assert(level_ok(levels[n], side));
        assert(best == levels[n]);
        lemma_after_fill(policy, best, side, q);
        crate::book::lemma_resting(filled);
        assert(crate::book::distinct_ids(best.orders));
        crate::allocation::lemma_executable_bounds(best.orders, q);
        let taker2 = Order {
            id: taker.id,
            side: taker.side,
            price: taker.price,
            quantity: (taker.quantity - executable(best.orders, q)) as u64,
        };
        if left.len() == 0 {
            let rest = match_levels(policy, init, taker2, index2);
            lemma_match_conserves(policy, init, taker2, index2, side);
            assert(m.levels == rest.levels && m.events == trades + rest.events);
            assert forall|id: u64| #[trigger] lots_of(levels, id) == lots_of(m.levels, id) + traded_by(
                m.events,
                id,
            ) by {
                lemma_traded_by_concat(trades, rest.events, id);
                lemma_traded_by_fill(best.orders, s, taker.id, best.price, id);
                lemma_traded_by_nonneg(rest.events, id);
                assert(lots_of(init, id) == lots_of(rest.levels, id) + traded_by(rest.events, id));
                if exists|i: int| 0 <= i < best.orders.len() && #[trigger] best.orders[i].id == id {
                    let i = choose|i: int| 0 <= i < best.orders.len() && #[trigger] best.orders[i].id == id;
                    lemma_lots_of(levels, side, index, n, i);
                    if exists|k: int, j: int| at(init, k, j) && #[trigger] init[k].orders[j].id == id {
                        let (k, j) = choose|k: int, j: int| at(init, k, j) && #[trigger] init[k].orders[j].id == id;
                        assert(init[k] == levels[k]);
                        crate::book::lemma_unique_position(levels, side, index, k, j, n, i);
                    }
                    assert(lots_of(init, id) == 0);
                    if filled[i].quantity > 0 {
                        assert(left.contains(filled[i]));
                    }
                    assert(traded_by(trades, id) == s[i]);
                } else {
                    assert(traded_by(trades, id) == 0);
                    if exists|k: int, j: int| at(levels, k, j) && #[trigger] levels[k].orders[j].id == id {
                        let (k, j) = choose|k: int, j: int| at(levels, k, j) && #[trigger] levels[k].orders[j].id == id;
                        assert(k != n);
                        assert(init[k] == levels[k]);
                        lemma_lots_of(levels, side, index, k, j);
                        lemma_lots_of(init, side, index2, k, j);
                    } else {
                        if exists|k: int, j: int| at(init, k, j) && #[trigger] init[k].orders[j].id == id {
                            let (k, j) = choose|k: int, j: int| at(init, k, j) && #[trigger] init[k].orders[j].id == id;
                            assert(init[k] == levels[k]);
                            assert(at(levels, k, j));
                        }
                    }
                }
            }
            assert forall|k: int| 0 <= k < m.levels.len() - 1 implies #[trigger] m.levels[k] == levels[k] by {
                lemma_match_levels(policy, init, taker2, index2, side);
                assert(rest.levels[k] == init[k]);
                assert(init[k] == levels[k]);
            }
        } else {
            let next = init.push(LevelView { price: best.price, orders: left });
            assert(m.levels == next && m.events == trades);
            assert forall|id: u64| #[trigger] lots_of(levels, id) == lots_of(m.levels, id) + traded_by(
                m.events,
                id,
            ) by {
                lemma_traded_by_fill(best.orders, s, taker.id, best.price, id);
                if exists|i: int| 0 <= i < best.orders.len() && #[trigger] best.orders[i].id == id {
                    let i = choose|i: int| 0 <= i < best.orders.len() && #[trigger] best.orders[i].id == id;
                    lemma_lots_of(levels, side, index, n, i);
                    assert(traded_by(trades, id) == s[i]);
                    if filled[i].quantity > 0 {
                        assert(left.contains(filled[i]));
                        let j2 = choose|j2: int| 0 <= j2 < left.len() && left[j2] == filled[i];
                        assert(next[n].orders[j2] == filled[i]);
                        lemma_lots_of(next, side, index2, n, j2);
                    } else {
                        if exists|k: int, j: int| at(next, k, j) && #[trigger] next[k].orders[j].id == id {
                            let (k, j) = choose|k: int, j: int| at(next, k, j) && #[trigger] next[k].orders[j].id == id;
                            if k < n {
                                assert(next[k] == levels[k]);
                                crate::book::lemma_unique_position(levels, side, index, k, j, n, i);
                            } else {
                                let i2 = choose|i2: int| 0 <= i2 < filled.len() && filled[i2] == left[j];
                                assert(left[j].quantity > 0);
                                assert(filled[i2].id == best.orders[i2].id);
                                assert(i2 == i);
                            }
                        }
                    }
                } else {
                    assert(traded_by(trades, id) == 0);
                    if exists|k: int, j: int| at(levels, k, j) && #[trigger] levels[k].orders[j].id == id {
                        let (k, j) = choose|k: int, j: int| at(levels, k, j) && #[trigger] levels[k].orders[j].id == id;
                        assert(k != n);
                        assert(next[k] == levels[k]);
                        lemma_lots_of(levels, side, index, k, j);
                        lemma_lots_of(next, side, index2, k, j);
                    } else {
                        if exists|k: int, j: int| at(next, k, j) && #[trigger] next[k].orders[j].id == id {
                            let (k, j) = choose|k: int, j: int| at(next, k, j) && #[trigger] next[k].orders[j].id == id;
                            if k < n {
                                assert(next[k] == levels[k]);
                                assert(at(levels, k, j));
                            } else {
                                let i2 = choose|i2: int| 0 <= i2 < filled.len() && filled[i2] == left[j];
                                assert(filled[i2].id == best.orders[i2].id);
                            }
                        }
                    }
                }
            }
        }
    }
}

/// Matching an accepted order takes from each resting order of the opposite side exactly the
/// lots of its trades: for every ID, what rested before is what still rests plus what it
/// traded, so no lot appears or vanishes and no order trades without losing those lots; every
/// level beyond the last one the order reached is left as it was.
pub proof fn law_match_conserves_lots(v: EngineView, order: Order)
    requires
        valid(v),
        order.quantity > 0,
        order.price > 0,
        !v.seen.contains(order.id),
    ensures
        ({
            let (next, events) = place_spec(v, order);
            let before = side_levels(v, opposite(order.side));
            let after = side_levels(next, opposite(order.side));
            &&& forall|id: u64| #[trigger] lots_of(before, id) == lots_of(after, id) + traded_by(events, id)
            &&& forall|k: int| 0 <= k < after.len() - 1 ==> #[trigger] after[k] == before[k]
        }),
{
    let other = opposite(order.side);
    let before = side_levels(v, other);
    let m = place_match(v, order);
    lemma_match_conserves(v.policy, before, order, v.resting, other);
    let (next, events) = place_spec(v, order);
    assert(side_levels(next, other) == m.levels);
    if m.taker.quantity > 0 {
        let rested = Event::Rested { id: order.id, remaining: m.taker.quantity };
        assert(events == m.events.push(rested));
        assert forall|id: u64| traded_by(events, id) == traded_by(m.events, id) by {
            assert(events.drop_last() =~= m.events);
        }
    }
}

// ---------------------------------------------------------------- trades at one price follow arrival order

/// The maker of a trade.
pub open spec fn maker_of(e: Event) -> u64 {
    match e {
        Event::Trade { maker, .. } => maker,
        _ => 0,
    }
}

/// Among these orders, the one with ID `x` comes before one with ID `y`.
pub open spec fn arrived_before(orders: Seq<Order>, x: u64, y: u64) -> bool {
    exists|a: int, b: int|
        #![trigger orders[a], orders[b]]
        0 <= a < b < orders.len() && orders[a].id == x && orders[b].id == y
}

/// The trades of one level come in the order of its orders.
pub proof fn lemma_fill_events_in_order(orders: Seq<Order>, s: Seq<u64>, taker: u64, price: u64)
    requires
        s.len() <= orders.len(),
    ensures
        ({
            let fe = fill_events(orders, s, taker, price);
            forall|t1: int, t2: int|
                0 <= t1 < t2 < fe.len() ==> arrived_before(
                    orders,
                    maker_of(#[trigger] fe[t1]),
                    maker_of(#[trigger] fe[t2]),
                )
        }),
    decreases s.len(),
{
    if s.len() > 0 {
        let init = s.drop_last();
        let n = s.len() - 1;
        lemma_fill_events_in_order(orders, init, taker, price);
        crate::book::lemma_fill_events_elements(orders, init, taker, price);
        let fe = fill_events(orders, s, taker, price);
        let fi = fill_events(orders, init, taker, price);
        assert forall|t1: int, t2: int| 0 <= t1 < t2 < fe.len() implies arrived_before(
            orders,
            maker_of(#[trigger] fe[t1]),
            maker_of(#[trigger] fe[t2]),
        ) by {
            if t2 < fi.len() {
                assert(fe[t1] == fi[t1] && fe[t2] == fi[t2]);
            } else {
                assert(fe[t1] == fi[t1]);
                let i1 = choose|i1: int|
                    0 <= i1 < init.len() && init[i1] > 0 && #[trigger] fi[t1] == (Event::Trade {
                        maker: orders[i1].id,
                        taker,
                        price,
                        quantity: init[i1],
                    });
                assert(maker_of(fe[t2]) == orders[n].id);
                assert(orders[i1].id == maker_of(fe[t1]));
            }
        }
    }
}

/// A matching pass trades at each price in the order in which the orders there arrived.
pub proof fn lemma_match_in_arrival_order(
    policy: Policy,
    levels: Seq<LevelView>,
    taker: Order,
    index: Index,
    side: Side,
)
    requires
        side_ok(levels, side),
    ensures
        ({
            let m = match_levels(policy, levels, taker, index);
            forall|a: int, b: int|
                0 <= a < b < m.events.len() && trade_price(#[trigger] m.events[a]) == trade_price(
                    #[trigger] m.events[b],
                ) ==> arrived_before(
                    orders_at(levels, trade_price(m.events[a])),
                    maker_of(m.events[a]),
                    maker_of(m.events[b]),
                )
        }),
    decreases levels.len(),
{
    let m = match_levels(policy, levels, taker, index);
    if !(taker.quantity == 0 || levels.len() == 0 || !crosses(taker, levels.last().price)) {
        let n = levels.len() - 1;
        let best = levels.last();
        let q = taker.quantity as int;
        let s = shares(policy, best.orders, q);
        let filled = after_fill(best.orders, s);
        let left = resting(filled);
        let index2 = index.remove_keys(crate::book::filled_ids(filled));
        let trades = fill_events(best.orders, s, taker.id, best.price);
        assert(level_ok(levels[n], side));
        lemma_after_fill(policy, best, side, q);
        crate::allocation::lemma_executable_bounds(best.orders, q);
        crate::book::lemma_fill_events_elements(best.orders, s, taker.id, best.price);
        lemma_fill_events_in_order(best.orders, s, taker.id, best.price);
        lemma_orders_at(levels, side, n);
        assert forall|t: int| 0 <= t < trades.len() implies trade_price(#[trigger] trades[t]) == best.price by {
            let j = choose|j: int|
                0 <= j < s.len() && s[j] > 0 && #[trigger] trades[t] == (Event::Trade {
                    maker: best.orders[j].id,
                    taker: taker.id,
                    price: best.price,
                    quantity: s[j],
                });
        }
        let taker2 = Order {
            id: taker.id,
            side: taker.side,
            price: taker.price,
            quantity: (taker.quantity - executable(best.orders, q)) as u64,
        };
        if left.len() == 0 {
            lemma_side_ok_drop_last(levels, side);
            let init = levels.drop_last();
            let rest = match_levels(policy, init, taker2, index2);
            lemma_match_in_arrival_order(policy, init, taker2, index2, side);
            lemma_match_trades(policy, init, taker2, index2, side);
            assert(m.events == trades + rest.events);
            // A trade of the rest is at the price of a lower level, whose orders are those it had.
            assert forall|t: int| 0 <= t < rest.events.len() implies trade_price(#[trigger] rest.events[t])
                != best.price && orders_at(init, trade_price(rest.events[t])) == orders_at(
                levels,
                trade_price(rest.events[t]),
            ) by {
                assert(trade_against(rest.events[t], taker2, init));
                let p = trade_price(rest.events[t]);
                let maker = maker_of(rest.events[t]);
                let (k, j) = choose|k: int, j: int|
                    at(init, k, j) && #[trigger] init[k].orders[j].id == maker && init[k].price == p;
                assert(init[k] == levels[k]);
                assert(better(side, levels[n].price, levels[k].price));
                lemma_orders_at(init, side, k);
                lemma_orders_at(levels, side, k);
            }
            assert forall|a: int, b: int|
                0 <= a < b < m.events.len() && trade_price(#[trigger] m.events[a]) == trade_price(
                    #[trigger] m.events[b],
                ) implies arrived_before(
                orders_at(levels, trade_price(m.events[a])),
                maker_of(m.events[a]),
                maker_of(m.events[b]),
            ) by {
                let nt = trades.len() as int;
                if b < nt {
                    assert(m.events[a] == trades[a] && m.events[b] == trades[b]);
                } else if a < nt {
                    assert(m.events[a] == trades[a] && m.events[b] == rest.events[b - nt]);
                } else {
                    assert(m.events[a] == rest.events[a - nt] && m.events[b] == rest.events[b - nt]);
                }
            }
        } else {
            assert(m.events == trades);
        }
    }
}

/// Trades at one price come in the order in which the orders resting there arrived: of two
/// trades of an order at the same price, the earlier is with the order that arrived first.
pub proof fn law_trades_follow_arrival_order(v: EngineView, order: Order)
    requires
        valid(v),
        order.quantity > 0,
        order.price > 0,
        !v.seen.contains(order.id),
    ensures
        ({
            let events = place_spec(v, order).1;
            let before = side_levels(v, opposite(order.side));
            forall|a: int, b: int|
                0 <= a < b < events.len() && events[a] is Trade && events[b] is Trade && trade_price(
                    #[trigger] events[a],
                ) == trade_price(#[trigger] events[b]) ==> arrived_before(
                    orders_at(before, trade_price(events[a])),
                    maker_of(events[a]),
                    maker_of(events[b]),
                )
        }),
{
    let other = opposite(order.side);
    let before = side_levels(v, other);
    let m = place_match(v, order);
    lemma_match_in_arrival_order(v.policy, before, order, v.resting, other);
    let events = place_spec(v, order).1;
    assert forall|a: int, b: int|
        0 <= a < b < events.len() && events[a] is Trade && events[b] is Trade && trade_price(
            #[trigger] events[a],
        ) == trade_price(#[trigger] events[b]) implies arrived_before(
        orders_at(before, trade_price(events[a])),
        maker_of(events[a]),
        maker_of(events[b]),
    ) by {
        if m.taker.quantity > 0 {
            assert(events == m.events.push(Event::Rested { id: order.id, remaining: m.taker.quantity }));
            assert(b < m.events.len());
        }
        assert(events[a] == m.events[a] && events[b] == m.events[b]);
    }
}

// ---------------------------------------------------------------- acceptance order

pub proof fn lemma_order_extend(levels: Seq<LevelView>, acc: Seq<u64>, more: Seq<u64>)
    requires
        side_in_acceptance_order(levels, acc),
    ensures
        side_in_acceptance_order(levels, acc + more),
{
    let acc2 = acc + more;
    assert forall|k: int, j: int| at(levels, k, j) implies acc2.contains(#[trigger] levels[k].orders[j].id) by {
        let i = choose|i: int| 0 <= i < acc.len() && acc[i] == levels[k].orders[j].id;
        assert(acc2[i] == acc[i]);
    }
    assert forall|k: int, a: int, b: int|
        0 <= k < levels.len() && 0 <= a < b < levels[k].orders.len() implies accepted_before(
        acc2,
        #[trigger] levels[k].orders[a].id,
        #[trigger] levels[k].orders[b].id,
    ) by {
        let (i, j) = choose|i: int, j: int|
            0 <= i < j < acc.len() && acc[i] == levels[k].orders[a].id && acc[j] == levels[k].orders[b].id;
        assert(acc2[i] == acc[i] && acc2[j] == acc[j]);
    }
}

/// A matching pass keeps the orders of the side in acceptance order.
pub proof fn lemma_order_match(
    policy: Policy,
    levels: Seq<LevelView>,
    taker: Order,
    index: Index,
    side: Side,
    acc: Seq<u64>,
)
    requires
        side_ok(levels, side),
        side_in_acceptance_order(levels, acc),
    ensures
        side_in_acceptance_order(match_levels(policy, levels, taker, index).levels, acc),
    decreases levels.len(),
{
    if !(taker.quantity == 0 || levels.len() == 0 || !crosses(taker, levels.last().price)) {
        let n = levels.len() - 1;
        let best = levels.last();
        let q = taker.quantity as int;
        let s = shares(policy, best.orders, q);
        let filled = after_fill(best.orders, s);
        let left = resting(filled);
        assert(level_ok(levels[n], side));
        lemma_after_fill(policy, best, side, q);
        crate::allocation::lemma_executable_bounds(best.orders, q);
        crate::book::lemma_resting(filled);
        crate::book::lemma_resting_order(filled);
        let init = levels.drop_last();
        assert forall|k: int, j: int| at(init, k, j) implies acc.contains(#[trigger] init[k].orders[j].id) by {
            assert(init[k] == levels[k]);
            assert(at(levels, k, j));
        }
        assert forall|k: int, a: int, b: int|
            0 <= k < init.len() && 0 <= a < b < init[k].orders.len() implies accepted_before(
            acc,
            #[trigger] init[k].orders[a].id,
            #[trigger] init[k].orders[b].id,
        ) by {
            assert(init[k] == levels[k]);
        }
        if left.len() == 0 {
            lemma_side_ok_drop_last(levels, side);
            let taker2 = Order {
                id: taker.id,
                side: taker.side,
                price: taker.price,
                quantity: (taker.quantity - executable(best.orders, q)) as u64,
            };
            lemma_order_match(
                policy,
                init,
                taker2,
                index.remove_keys(crate::book::filled_ids(filled)),
                side,
                acc,
            );
        } else {
            let next = init.push(LevelView { price: best.price, orders: left });
            assert forall|k: int, j: int| at(next, k, j) implies acc.contains(#[trigger] next[k].orders[j].id) by {
                if k < n {
                    assert(next[k] == init[k]);
                    assert(at(init, k, j));
                } else {
                    let i = choose|i: int| 0 <= i < filled.len() && filled[i] == left[j];
                    assert(levels[n].orders[i].id == left[j].id);
                    assert(at(levels, n, i));
                }
            }
            assert forall|k: int, a: int, b: int|
                0 <= k < next.len() && 0 <= a < b < next[k].orders.len() implies accepted_before(
                acc,
                #[trigger] next[k].orders[a].id,
                #[trigger] next[k].orders[b].id,
            ) by {
                if k < n {
                    assert(next[k] == init[k]);
                } else {
                    let (a2, b2) = choose|a2: int, b2: int|
                        0 <= a2 < b2 < filled.len() && filled[a2] == #[trigger] left[a]
                            && filled[b2] == #[trigger] left[b];
                    assert(levels[n].orders[a2].id == left[a].id);
                    assert(levels[n].orders[b2].id == left[b].id);
                }
            }
        }
    }
}

pub proof fn lemma_worse_count_bounds(levels: Seq<LevelView>, side: Side, price: u64)
    ensures
        0 <= worse_count(levels, side, price) <= levels.len(),
    decreases levels.len(),
{
    if levels.len() > 0 {
        lemma_worse_count_bounds(levels.drop_last(), side, price);
    }
}

/// Resting a newly accepted order puts it after every order already at its price.
pub proof fn lemma_order_rest(levels: Seq<LevelView>, side: Side, order: Order, acc: Seq<u64>)
    requires
        side_in_acceptance_order(levels, acc),
    ensures
        side_in_acceptance_order(rest_at(levels, side, order), acc.push(order.id)),
{
    let acc2 = acc.push(order.id);
    lemma_order_extend(levels, acc, seq![order.id]);
    assert(acc + seq![order.id] =~= acc2);
    let i = worse_count(levels, side, order.price);
    lemma_worse_count_bounds(levels, side, order.price);
    let next = rest_at(levels, side, order);
    let last = acc.len() as int;
    assert(acc2[last] == order.id);
    if i < levels.len() && levels[i].price == order.price {
        let old = levels[i].orders;
        assert forall|k: int, j: int| at(next, k, j) implies acc2.contains(#[trigger] next[k].orders[j].id) by {
            if k != i || j < old.len() {
                assert(next[k].orders[j] == levels[k].orders[j]);
                assert(at(levels, k, j));
            }
        }
        assert forall|k: int, a: int, b: int|
            0 <= k < next.len() && 0 <= a < b < next[k].orders.len() implies accepted_before(
            acc2,
            #[trigger] next[k].orders[a].id,
            #[trigger] next[k].orders[b].id,
        ) by {
            if k != i || b < old.len() {
                assert(next[k].orders[a] == levels[k].orders[a]);
                assert(next[k].orders[b] == levels[k].orders[b]);
            } else {
                assert(next[k].orders[a] == levels[k].orders[a]);
                assert(at(levels, k, a));
                let x = levels[k].orders[a].id;
                let t = choose|t: int| 0 <= t < acc.len() && acc[t] == x;
                assert(acc2[t] == x);
            }
        }
    } else {
        assert forall|k: int, j: int| at(next, k, j) implies acc2.contains(#[trigger] next[k].orders[j].id) by {
            if k < i {
                assert(next[k] == levels[k]);
                assert(at(levels, k, j));
            } else if k > i {
                assert(next[k] == levels[k - 1]);
                assert(at(levels, k - 1, j));
            }
        }
        assert forall|k: int, a: int, b: int|
            0 <= k < next.len() && 0 <= a < b < next[k].orders.len() implies accepted_before(
            acc2,
            #[trigger] next[k].orders[a].id,
            #[trigger] next[k].orders[b].id,
        ) by {
            if k < i {
                assert(next[k] == levels[k]);
            } else if k > i {
                assert(next[k] == levels[k - 1]);
            }
        }
    }
}

/// Taking an order out of its level keeps the others in acceptance order.
pub proof fn lemma_order_cancel(levels: Seq<LevelView>, price: u64, id: u64, acc: Seq<u64>)
    requires
        side_in_acceptance_order(levels, acc),
        at(levels, level_of(levels, price), position_of(levels[level_of(levels, price)].orders, id)),
    ensures
        side_in_acceptance_order(crate::book::cancel_at(levels, price, id), acc),
{
    let k0 = level_of(levels, price);
    let j0 = position_of(levels[k0].orders, id);
    let orders = levels[k0].orders.remove(j0);
    let next = crate::book::cancel_at(levels, price, id);
    if orders.len() == 0 {
        assert forall|k: int, j: int| at(next, k, j) implies acc.contains(#[trigger] next[k].orders[j].id) by {
            let k2 = if k < k0 { k } else { k + 1 };
            assert(next[k] == levels[k2]);
            assert(at(levels, k2, j));
        }
        assert forall|k: int, a: int, b: int|
            0 <= k < next.len() && 0 <= a < b < next[k].orders.len() implies accepted_before(
            acc,
            #[trigger] next[k].orders[a].id,
            #[trigger] next[k].orders[b].id,
        ) by {
            let k2 = if k < k0 { k } else { k + 1 };
            assert(next[k] == levels[k2]);
        }
    } else {
        assert forall|k: int, j: int| at(next, k, j) implies acc.contains(#[trigger] next[k].orders[j].id) by {
            if k != k0 {
                assert(at(levels, k, j));
            } else {
                let j2 = if j < j0 { j } else { j + 1 };
                assert(next[k].orders[j] == levels[k].orders[j2]);
                assert(at(levels, k, j2));
            }
        }
        assert forall|k: int, a: int, b: int|
            0 <= k < next.len() && 0 <= a < b < next[k].orders.len() implies accepted_before(
            acc,
            #[trigger] next[k].orders[a].id,
            #[trigger] next[k].orders[b].id,
        ) by {
            if k == k0 {
                let a2 = if a < j0 { a } else { a + 1 };
                let b2 = if b < j0 { b } else { b + 1 };
                assert(next[k].orders[a] == levels[k].orders[a2]);
                assert(next[k].orders[b] == levels[k].orders[b2]);
            }
        }
    }
}

/// One command keeps the book in acceptance order, counting the ID it accepts, if any.
pub proof fn lemma_order_step(v: EngineView, acc: Seq<u64>, command: Command)
    requires
        valid(v),
        in_acceptance_order(v, acc),
    ensures
        in_acceptance_order(apply_spec(v, command).0, acc + newly_accepted(v, command)),
{
    let next = apply_spec(v, command).0;
    let acc2 = acc + newly_accepted(v, command);
    match command {
        Command::Place(order) => {
            if order.quantity > 0 && order.price > 0 && !v.seen.contains(order.id) {
                let side = order.side;
                let other = opposite(side);
                let m = place_match(v, order);
                assert(acc2 =~= acc.push(order.id));
                lemma_order_match(v.policy, side_levels(v, other), order, v.resting, other, acc);
                lemma_order_extend(m.levels, acc, seq![order.id]);
                lemma_order_extend(side_levels(v, side), acc, seq![order.id]);
                crate::book::lemma_match_taker(v.policy, side_levels(v, other), order, v.resting);
                if m.taker.quantity > 0 {
                    lemma_order_rest(side_levels(v, side), side, m.taker, acc);
                }
            } else {
                assert(acc2 =~= acc);
            }
        },
        Command::Cancel(id) => {
            assert(acc2 =~= acc);
            if v.resting.contains_key(id) {
                let (side, price) = v.resting[id];
                crate::book::lemma_cancel_at(side_levels(v, side), side, v.resting, id);
                lemma_order_cancel(side_levels(v, side), price, id, acc);
            }
        },
    }
}

pub proof fn lemma_order_run(v: EngineView, acc: Seq<u64>, commands: Seq<Command>)
    requires
        valid(v),
        in_acceptance_order(v, acc),
    ensures
        in_acceptance_order(run(v, commands), acc + accepted(v, commands)),
    decreases commands.len(),
{
    if commands.len() == 0 {
        assert(acc + accepted(v, commands) =~= acc);
    } else {
        let c = commands[0];
        let next = apply_spec(v, c).0;
        lemma_order_step(v, acc, c);
        lemma_apply_valid(v, c);
        lemma_order_run(next, acc + newly_accepted(v, c), commands.drop_first());
        assert(acc + newly_accepted(v, c) + accepted(next, commands.drop_first()) =~= acc + accepted(
            v,
            commands,
        ));
    }
}

/// From a new engine, whatever the commands, the orders of every level are in the order their
/// IDs were accepted.
pub proof fn law_levels_keep_acceptance_order(policy: Policy, commands: Seq<Command>)
    ensures
        in_acceptance_order(run(initial(policy), commands), accepted(initial(policy), commands)),
{
    crate::market::lemma_initial_valid(policy);
    lemma_order_run(initial(policy), Seq::empty(), commands);
    assert(Seq::<u64>::empty() + accepted(initial(policy), commands) =~= accepted(
        initial(policy),
        commands,
    ));
}

// ---------------------------------------------------------------- laws of allocation

/// At one level, both policies trade `min(requested, lots at the level)` in all,
/// and no order trades more lots than it has.
pub proof fn law_level_fill(policy: Policy, orders: Seq<Order>, requested: u64)
    requires
        lots(orders) > 0,
    ensures
        sum(shares(policy, orders, requested as int)) == if requested < lots(orders) {
            requested as int
        } else {
            lots(orders)
        },
        forall|i: int|
            0 <= i < orders.len() ==> #[trigger] shares(policy, orders, requested as int)[i]
                <= orders[i].quantity,
{
    lemma_shares_sum(policy, orders, requested as int);
    assert forall|i: int| 0 <= i < orders.len() implies #[trigger] shares(
        policy,
        orders,
        requested as int,
    )[i] <= orders[i].quantity by {
        lemma_share_bounds(policy, orders, requested as int, i);
    }
}

/// FIFO: an order trades only once every older order at its price is filled in full.
pub proof fn law_fifo_time_priority(orders: Seq<Order>, requested: u64, older: int, newer: int)
    requires
        0 <= older < newer < orders.len(),
        shares(Policy::Fifo, orders, requested as int)[newer] > 0,
    ensures
        shares(Policy::Fifo, orders, requested as int)[older] == orders[older].quantity,
{
    lemma_lots_take_mono(orders, older + 1, newer);
    lemma_lots_take_step(orders, older);
}

pub proof fn lemma_eligible_before_mono(orders: Seq<Order>, requested: int, a: int, b: int)
    requires
        0 <= a <= b,
    ensures
        eligible_before(orders, requested, a) <= eligible_before(orders, requested, b),
    decreases b - a,
{
    if a < b {
        lemma_eligible_before_mono(orders, requested, a, b - 1);
    }
}

/// Pro-rata: each order gets its proportional share rounded down, plus at most one leftover
/// lot, and the leftover lots go to older eligible orders first.
pub proof fn law_pro_rata_rounding(orders: Seq<Order>, requested: u64, older: int, newer: int)
    requires
        lots(orders) > 0,
        0 <= older < newer < orders.len(),
    ensures
        ({
            let s = shares(Policy::ProRata, orders, requested as int);
            let r = requested as int;
            &&& floor_share(orders, r, newer) <= s[newer] <= floor_share(orders, r, newer) + 1
            &&& s[newer] == floor_share(orders, r, newer) + 1 && eligible(orders, r, older)
                ==> s[older] == floor_share(orders, r, older) + 1
            &&& s[newer] == floor_share(orders, r, newer) + 1 ==> s[newer] <= orders[newer].quantity
        }),
{
    let r = requested as int;
    lemma_share_bounds(Policy::ProRata, orders, r, older);
    lemma_share_bounds(Policy::ProRata, orders, r, newer);
    crate::allocation::lemma_floor_share(orders, r, older);
    crate::allocation::lemma_floor_share(orders, r, newer);
    lemma_eligible_before_mono(orders, r, older + 1, newer);
}

} // verus!
