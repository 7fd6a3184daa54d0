//! The engine's state as a mathematical value, and what one command does to it.
use vstd::prelude::*;

use crate::book::{
    cancel_at, lemma_cancel_at, lemma_match_levels, lemma_rest_at, match_levels, opposite,
    rest_at, side_indexed, side_ok, Index, LevelView,
};
use crate::model::{Command, Event, LevelSnapshot, Order, Policy, Side};

verus! {

/// The whole engine: its policy, both sides of the book, where each resting order is,
/// and every order ID ever accepted.
pub struct EngineView {
    pub policy: Policy,
    /// Bids from the lowest price to the highest: the best bid is last.
    pub bids: Seq<LevelView>,
    /// Asks from the highest price to the lowest: the best ask is last.
    pub asks: Seq<LevelView>,
    pub resting: Index,
    pub seen: Set<u64>,
}

pub open spec fn side_levels(v: EngineView, side: Side) -> Seq<LevelView> {
    match side {
        Side::Buy => v.bids,
        Side::Sell => v.asks,
    }
}

pub open spec fn with_levels(v: EngineView, side: Side, levels: Seq<LevelView>) -> EngineView {
    match side {
        Side::Buy => EngineView { bids: levels, ..v },
        Side::Sell => EngineView { asks: levels, ..v },
    }
}

/// A consistent engine: both sides sorted and indexed, every resting ID accepted once,
/// and the book not crossed.
pub open spec fn valid(v: EngineView) -> bool {
    &&& side_ok(v.bids, Side::Buy)
    &&& side_ok(v.asks, Side::Sell)
    &&& side_indexed(v.bids, Side::Buy, v.resting)
    &&& side_indexed(v.asks, Side::Sell, v.resting)
    &&& forall|id: u64| #[trigger] v.resting.contains_key(id) ==> v.seen.contains(id)
    &&& v.bids.len() > 0 && v.asks.len() > 0 ==> v.bids.last().price < v.asks.last().price
}

pub open spec fn reject_not_positive(id: u64) -> Event {
    Event::Rejected { id, reason: "price and quantity must be positive" }
}

pub open spec fn reject_used(id: u64) -> Event {
    Event::Rejected { id, reason: "order ID already used" }
}

pub open spec fn reject_not_resting(id: u64) -> Event {
    Event::Rejected { id, reason: "order is not resting" }
}

/// The matching pass of an accepted order against the opposite side.
pub open spec fn place_match(v: EngineView, order: Order) -> crate::book::Matched {
    match_levels(v.policy, side_levels(v, opposite(order.side)), order, v.resting)
}

/// Placing an order: reject it, or match it and rest what is left at its own price.
pub open spec fn place_spec(v: EngineView, order: Order) -> (EngineView, Seq<Event>) {
    if order.quantity == 0 || order.price == 0 {
        (v, seq![reject_not_positive(order.id)])
    } else if v.seen.contains(order.id) {
        (v, seq![reject_used(order.id)])
    } else {
        let m = place_match(v, order);
        let matched = EngineView {
            resting: m.index,
            seen: v.seen.insert(order.id),
            ..with_levels(v, opposite(order.side), m.levels)
        };
        if m.taker.quantity > 0 {
            (
                EngineView {
                    resting: m.index.insert(order.id, (order.side, order.price)),
                    ..with_levels(
                        matched,
                        order.side,
                        rest_at(side_levels(v, order.side), order.side, m.taker),
                    )
                },
                m.events.push(Event::Rested { id: order.id, remaining: m.taker.quantity }),
            )
        } else {
            (matched, m.events)
        }
    }
}

/// Cancelling an order: take it out of the book if it rests there, else reject.
pub open spec fn cancel_spec(v: EngineView, id: u64) -> (EngineView, Seq<Event>) {
    if v.resting.contains_key(id) {
        let (side, price) = v.resting[id];
        (
            EngineView {
                resting: v.resting.remove(id),
                ..with_levels(v, side, cancel_at(side_levels(v, side), price, id))
            },
            seq![Event::Cancelled { id }],
        )
    } else {
        (v, seq![reject_not_resting(id)])
    }
}

/// What one command does: the next state and the events, in order.
pub open spec fn apply_spec(v: EngineView, command: Command) -> (EngineView, Seq<Event>) {
    match command {
        Command::Place(order) => place_spec(v, order),
        Command::Cancel(id) => cancel_spec(v, id),
    }
}

/// The engine a new `Engine` starts from.
pub open spec fn initial(policy: Policy) -> EngineView {
    EngineView {
        policy,
        bids: Seq::empty(),
        asks: Seq::empty(),
        resting: Map::empty(),
        seen: Set::empty(),
    }
}

/// A level as a snapshot shows it: (order ID, remaining lots) in arrival order.
pub open spec fn entries(level: LevelView) -> Seq<(u64, u64)> {
    level.orders.map_values(|o: Order| (o.id, o.quantity))
}

/// A snapshot of one side lists its levels best price first.
pub open spec fn shows(snapshot: Seq<LevelSnapshot>, levels: Seq<LevelView>) -> bool {
    &&& snapshot.len() == levels.len()
    &&& forall|i: int|
        0 <= i < snapshot.len() ==> {
            &&& (#[trigger] snapshot[i]).price == levels[levels.len() - 1 - i].price
            &&& snapshot[i].orders@ == entries(levels[levels.len() - 1 - i])
        }
}

// ---------------------------------------------------------------- every command keeps the engine consistent

pub proof fn lemma_initial_valid(policy: Policy)
    ensures
        valid(initial(policy)),
{
}

/// A side is still indexed after entries of the other side's orders leave or join the index.
proof fn lemma_other_side_indexed(levels: Seq<LevelView>, side: Side, index: Index, index2: Index)
    requires
        side_indexed(levels, side, index),
        forall|id: u64|
            #[trigger] index.contains_key(id) && index[id].0 == side ==> index2.contains_key(id)
                && index2[id] == index[id],
        forall|id: u64|
            #[trigger] index2.contains_key(id) && index2[id].0 == side ==> index.contains_key(id)
                && index2[id] == index[id],
    ensures
        side_indexed(levels, side, index2),
{
    assert forall|k: int, j: int| crate::book::at(levels, k, j) implies {
        &&& index2.contains_key(#[trigger] levels[k].orders[j].id)
        &&& index2[levels[k].orders[j].id] == (side, levels[k].price)
    } by {
        assert(index.contains_key(levels[k].orders[j].id));
    }
    assert forall|id: u64| #[trigger] index2.contains_key(id) && index2[id].0 == side implies crate::book::listed(
        levels,
        id,
        index2[id].1,
    ) by {
        assert(index.contains_key(id));
    }
}

pub proof fn lemma_place_valid(v: EngineView, order: Order)
    requires
        valid(v),
    ensures
        valid(place_spec(v, order).0),
{
    if !(order.quantity == 0 || order.price == 0 || v.seen.contains(order.id)) {
        let side = order.side;
        let other = opposite(side);
        let own = side_levels(v, side);
        let opp = side_levels(v, other);
        let m = place_match(v, order);
        lemma_match_levels(v.policy, opp, order, v.resting, other);
        lemma_other_side_indexed(own, side, v.resting, m.index);
        let next = place_spec(v, order).0;
        if m.taker.quantity > 0 {
            assert(!m.index.contains_key(order.id));
            let index3 = m.index.insert(order.id, (side, order.price));
            lemma_rest_at(own, side, m.index, m.taker);
            lemma_other_side_indexed(m.levels, other, m.index, index3);
            let rested = rest_at(own, side, m.taker);
            if rested.len() > 0 && m.levels.len() > 0 {
                let n = m.levels.len() - 1;
                assert(m.levels[n].price == opp[n].price);
                if n < opp.len() - 1 {
                    assert(crate::book::better(other, opp[opp.len() - 1].price, opp[n].price));
                }
            }
        } else {
            if own.len() > 0 && m.levels.len() > 0 {
                let n = m.levels.len() - 1;
                assert(m.levels[n].price == opp[n].price);
                if n < opp.len() - 1 {
                    assert(crate::book::better(other, opp[opp.len() - 1].price, opp[n].price));
                }
            }
        }
        assert(valid(next));
    }
}

pub proof fn lemma_cancel_valid(v: EngineView, id: u64)
    requires
        valid(v),
    ensures
        valid(cancel_spec(v, id).0),
{
    if v.resting.contains_key(id) {
        let (side, price) = v.resting[id];
        let levels = side_levels(v, side);
        lemma_cancel_at(levels, side, v.resting, id);
        lemma_other_side_indexed(side_levels(v, opposite(side)), opposite(side), v.resting, v.resting.remove(id));
    }
}

pub proof fn lemma_apply_valid(v: EngineView, command: Command)
    requires
        valid(v),
    ensures
        valid(apply_spec(v, command).0),
{
    match command {
        Command::Place(order) => lemma_place_valid(v, order),
        Command::Cancel(id) => lemma_cancel_valid(v, id),
    }
}

} // verus!
