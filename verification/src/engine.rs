//! One synchronous owner for one in-memory order book. No sockets or I/O here.
use std::collections::{HashMap, HashSet};
use vstd::prelude::*;

use crate::allocation::{
    allocate, indexed, lemma_executable_bounds, lemma_fifo_prefixes, lemma_prefix_allocations,
    lemma_shares_sum, lemma_sum_take, lemma_sum_take_step, shares, sum,
};
use crate::book::{
    after_fill, at, better, crosses, fill_events, filled_ids, lemma_after_fill, lemma_cancel_at,
    lemma_fill_events_take_step, lemma_fill_events_zero_tail, lemma_filled_ids_update,
    lemma_match_taker, lemma_resting, lemma_resting_prefix, lemma_worse_count, level_of, level_ok,
    match_levels, opposite, position_of, rest_at, resting, side_ok, worse_count, LevelView,
};
use crate::market::{
    apply_spec, cancel_spec, entries, initial, lemma_apply_valid, lemma_initial_valid, place_spec,
    shows, side_levels, valid, EngineView,
};
use crate::model::{BookSnapshot, Command, Event, LevelSnapshot, Order, Policy, Side};

verus! {

broadcast use vstd::std_specs::hash::group_hash_axioms;

/// An internal failure of the engine: the book was found inconsistent or a sum overflowed.
#[derive(Debug, PartialEq, Eq, Structural)]
pub enum EngineError {
    ArithmeticOverflow,
    CorruptBook,
}

/// One price level: its price and its orders in arrival order.
struct Level {
    price: u64,
    orders: Vec<Order>,
}

impl View for Level {
    type V = LevelView;

    closed spec fn view(&self) -> LevelView {
        LevelView { price: self.price, orders: self.orders@ }
    }
}

spec fn levels_view(levels: Seq<Level>) -> Seq<LevelView> {
    levels.map_values(|l: Level| l@)
}

/// The matching engine of one market: both sides of the book, stored from the worst price
/// to the best, an index from resting order ID to (side, price), and every ID ever accepted.
pub struct Engine {
    policy: Policy,
    bids: Vec<Level>,
    asks: Vec<Level>,
    active: HashMap<u64, (Side, u64)>,
    seen: HashSet<u64>,
    allocations: Vec<(usize, u64)>,
}

impl View for Engine {
    type V = EngineView;

    closed spec fn view(&self) -> EngineView {
        EngineView {
            policy: self.policy,
            bids: levels_view(self.bids@),
            asks: levels_view(self.asks@),
            resting: self.active@,
            seen: self.seen@,
        }
    }
}

impl Engine {
    /// The engine is consistent: see `valid`.
    pub open spec fn wf(&self) -> bool {
        valid(self@)
    }

    /// An engine with an empty book that has accepted no order yet.
    #[must_use]
    pub fn new(policy: Policy) -> (engine: Self)
        ensures
            engine.wf(),
            engine@ == initial(policy),
    {
        let engine = Engine {
            policy,
            bids: Vec::new(),
            asks: Vec::new(),
            active: HashMap::new(),
            seen: HashSet::new(),
            allocations: Vec::new(),
        };
        proof {
            assert(levels_view(engine.bids@) =~= Seq::<LevelView>::empty());
            assert(levels_view(engine.asks@) =~= Seq::<LevelView>::empty());
            assert(engine@ =~= initial(policy));
            lemma_initial_valid(policy);
        }
        engine
    }

    /// Process one command completely. The caller owns and may reuse `events`.
    /// A consistent engine never returns an error.
    pub fn apply(&mut self, command: Command, events: &mut Vec<Event>) -> (r: Result<(), EngineError>)
        requires
            old(self).wf(),
        ensures
            r is Ok,
            final(self).wf(),
            final(self)@ == apply_spec(old(self)@, command).0,
            final(events)@ == apply_spec(old(self)@, command).1,
    {
        events.clear();
        proof {
            lemma_apply_valid(self@, command);
        }
        match command {
            Command::Place(order) => self.place(order, events),
            Command::Cancel(id) => self.cancel(id, events),
        }
    }

    fn place(&mut self, order: Order, events: &mut Vec<Event>) -> (r: Result<(), EngineError>)
        requires
            old(self).wf(),
            old(events)@ == Seq::<Event>::empty(),
        ensures
            r is Ok,
            final(self)@ == place_spec(old(self)@, order).0,
            final(events)@ == place_spec(old(self)@, order).1,
    {
        let ghost v = self@;
        let mut incoming = order;
        if incoming.quantity == 0 || incoming.price == 0 {
            events.push(
                Event::Rejected { id: incoming.id, reason: "price and quantity must be positive" },
            );
            return Ok(());
        }
        if !self.seen.insert(incoming.id) {
            events.push(Event::Rejected { id: incoming.id, reason: "order ID already used" });
            proof {
                assert(self.seen@ =~= v.seen);
                assert(self@ =~= v);
            }
            return Ok(());
        }
        let policy = self.policy;
        proof {
            lemma_match_taker(policy, side_levels(v, opposite(order.side)), order, v.resting);
        }
        match incoming.side {
            Side::Buy => {
                match_against(
                    policy,
                    &mut self.asks,
                    &mut self.active,
                    &mut self.allocations,
                    &mut incoming,
                    events,
                )?;
            },
            Side::Sell => {
                match_against(
                    policy,
                    &mut self.bids,
                    &mut self.active,
                    &mut self.allocations,
                    &mut incoming,
                    events,
                )?;
            },
        }
        if incoming.quantity > 0 {
            match incoming.side {
                Side::Buy => rest(&mut self.bids, incoming),
                Side::Sell => rest(&mut self.asks, incoming),
            }
            self.active.insert(incoming.id, (incoming.side, incoming.price));
            events.push(Event::Rested { id: incoming.id, remaining: incoming.quantity });
        }
        proof {
            assert(self@ =~= place_spec(v, order).0);
        }
        Ok(())
    }

    fn cancel(&mut self, id: u64, events: &mut Vec<Event>) -> (r: Result<(), EngineError>)
        requires
            old(self).wf(),
            old(events)@ == Seq::<Event>::empty(),
        ensures
            r is Ok,
            final(self)@ == cancel_spec(old(self)@, id).0,
            final(events)@ == cancel_spec(old(self)@, id).1,
    {
        let ghost v = self@;
        let (side, price) = match self.active.get(&id) {
            Some(entry) => *entry,
            None => {
                events.push(Event::Rejected { id, reason: "order is not resting" });
                return Ok(());
            },
        };
        proof {
            lemma_cancel_at(side_levels(v, side), side, v.resting, id);
        }
        match side {
            Side::Buy => remove_order(&mut self.bids, side, price, id)?,
            Side::Sell => remove_order(&mut self.asks, side, price, id)?,
        }
        self.active.remove(&id);
        events.push(Event::Cancelled { id });
        proof {
            assert(self@ =~= cancel_spec(v, id).0);
        }
        Ok(())
    }
}

impl Engine {
    /// The book, bids from the highest price and asks from the lowest, each level's orders
    /// in arrival order.
    #[must_use]
    pub fn snapshot(&self) -> (snapshot: BookSnapshot)
        ensures
            shows(snapshot.bids@, self@.bids),
            shows(snapshot.asks@, self@.asks),
    {
        BookSnapshot { bids: level_snapshots(&self.bids), asks: level_snapshots(&self.asks) }
    }
}

/// Snapshots of one side's levels, best price first.
fn level_snapshots(levels: &Vec<Level>) -> (out: Vec<LevelSnapshot>)
    ensures
        shows(out@, levels_view(levels@)),
{
    let ghost v = levels_view(levels@);
    let mut out: Vec<LevelSnapshot> = Vec::new();
    let mut i = levels.len();
    while i > 0
        invariant
            v == levels_view(levels@),
            i <= levels.len(),
            out@.len() == levels.len() - i,
            forall|a: int|
                0 <= a < out@.len() ==> {
                    &&& (#[trigger] out@[a]).price == v[v.len() - 1 - a].price
                    &&& out@[a].orders@ == entries(v[v.len() - 1 - a])
                },
        decreases i,
    {
        i = i - 1;
        let level = &levels[i];
        let mut orders: Vec<(u64, u64)> = Vec::new();
        let mut j: usize = 0;
        while j < level.orders.len()
            invariant
                j <= level.orders.len(),
                orders@ =~= entries(level@).take(j as int),
            decreases level.orders.len() - j,
        {
            orders.push((level.orders[j].id, level.orders[j].quantity));
            j = j + 1;
        }
        assert(entries(level@).take(j as int) =~= entries(level@));
        assert(level@ == v[i as int]);
        out.push(LevelSnapshot { price: level.price, orders });
    }
    out
}

/// Does the taker cross the best level of this side?
fn crosses_best(incoming: &Order, levels: &Vec<Level>) -> (b: bool)
    requires
        levels.len() > 0,
    ensures
        b == crosses(*incoming, levels_view(levels@).last().price),
{
    let price = levels[levels.len() - 1].price;
    match incoming.side {
        Side::Buy => incoming.price >= price,
        Side::Sell => incoming.price <= price,
    }
}

/// Match the incoming order against one side of the book, best level first.
fn match_against(
    policy: Policy,
    levels: &mut Vec<Level>,
    active: &mut HashMap<u64, (Side, u64)>,
    allocations: &mut Vec<(usize, u64)>,
    incoming: &mut Order,
    events: &mut Vec<Event>,
) -> (r: Result<(), EngineError>)
    requires
        side_ok(levels_view(old(levels)@), opposite(old(incoming).side)),
    ensures
        r is Ok,
        ({
            let m = match_levels(policy, levels_view(old(levels)@), *old(incoming), old(active)@);
            &&& levels_view(final(levels)@) == m.levels
            &&& *final(incoming) == m.taker
            &&& final(active)@ == m.index
            &&& final(events)@ == old(events)@ + m.events
        }),
{
    let ghost side = opposite(incoming.side);
    let ghost m0 = match_levels(policy, levels_view(levels@), *incoming, active@);
    let ghost events0 = events@;
    while incoming.quantity > 0 && levels.len() > 0 && crosses_best(incoming, levels)
        invariant
            side == opposite(incoming.side),
            side_ok(levels_view(levels@), side),
            ({
                let m = match_levels(policy, levels_view(levels@), *incoming, active@);
                &&& m.levels == m0.levels
                &&& m.taker == m0.taker
                &&& m.index == m0.index
                &&& events0 + m0.events == events@ + m.events
            }),
        decreases levels.len() * 2 + if incoming.quantity > 0 {
            1int
        } else {
            0int
        },
    {
        let ghost before = levels_view(levels@);
        let ghost taker = *incoming;
        let ghost index = active@;
        let ghost events1 = events@;
        let mut level = match levels.pop() {
            Some(l) => l,
            None => return Err(EngineError::CorruptBook),
        };
        let ghost orders = level.orders@;
        let ghost q = incoming.quantity as int;
        let ghost s = shares(policy, orders, q);
        let ghost filled = after_fill(orders, s);
        proof {
            assert(levels_view(levels@) =~= before.drop_last());
            assert(level@ == before[before.len() - 1]);
            assert(level_ok(level@, side));
            lemma_after_fill(policy, level@, side, q);
            lemma_shares_sum(policy, orders, q);
            lemma_executable_bounds(orders, q);
            assert forall|j: int| 0 <= j < s.len() implies 0 < (#[trigger] orders[j]).quantity
                && s[j] <= orders[j].quantity by {
                assert(filled[j].quantity == orders[j].quantity - s[j]);
            }
        }
        match allocate(policy, &level.orders, incoming.quantity, allocations) {
            Ok(()) => {},
            Err(e) => return Err(e),
        }
        proof {
            match policy {
                Policy::Fifo => {
                    lemma_fifo_prefixes(orders, q);
                    lemma_prefix_allocations(s);
                },
                Policy::ProRata => {
                    assert(indexed(s).take(s.len() as int) =~= indexed(s));
                },
            }
        }
        if allocations.len() == 0 {
            return Err(EngineError::CorruptBook);
        }
        fill_level(&mut level, allocations, active, incoming, events, Ghost(s));
        proof {
            if policy == Policy::Fifo {
                lemma_fifo_prefixes(orders, q);
                assert forall|a: int, b: int|
                    0 <= a < b < filled.len() && #[trigger] filled[b].quantity == 0
                        implies #[trigger] filled[a].quantity == 0 by {
                    assert(s[b] == orders[b].quantity);
                }
            }
        }
        compact(policy, &mut level.orders);
        if level.orders.len() > 0 {
            levels.push(level);
        }
        proof {
            let left = resting(filled);
            lemma_resting(filled);
            let init = before.drop_last();
            assert forall|k: int| 0 <= k < init.len() implies level_ok(#[trigger] init[k], side) by {
                assert(init[k] == before[k]);
            }
            assert forall|i: int, j: int| 0 <= i < j < init.len() implies better(
                side,
                #[trigger] init[j].price,
                #[trigger] init[i].price,
            ) by {
                assert(init[i] == before[i] && init[j] == before[j]);
            }
            if left.len() > 0 {
                let next = init.push(LevelView { price: level.price, orders: left });
                assert(levels_view(levels@) =~= next);
                assert forall|k: int| 0 <= k < next.len() implies level_ok(#[trigger] next[k], side) by {
                    if k < init.len() {
                        assert(next[k] == init[k]);
                    }
                }
                assert forall|i: int, j: int| 0 <= i < j < next.len() implies better(
                    side,
                    #[trigger] next[j].price,
                    #[trigger] next[i].price,
                ) by {
                    assert(next[i].price == before[i].price && next[j].price == before[j].price);
                }
            } else {
                assert(levels_view(levels@) =~= init);
            }
            assert(events@ == events1 + fill_events(orders, s, taker.id, level.price));
        }
    }
    Ok(())
}

/// Trade each allocation against its resting order, in order.
fn fill_level(
    level: &mut Level,
    allocations: &Vec<(usize, u64)>,
    active: &mut HashMap<u64, (Side, u64)>,
    incoming: &mut Order,
    events: &mut Vec<Event>,
    Ghost(s): Ghost<Seq<u64>>,
)
    requires
        s.len() == old(level).orders.len(),
        allocations@ == indexed(s).take(allocations.len() as int),
        allocations.len() <= s.len(),
        forall|j: int| allocations.len() <= j < s.len() ==> #[trigger] s[j] == 0,
        forall|j: int|
            0 <= j < s.len() ==> 0 < (#[trigger] old(level).orders@[j]).quantity && s[j]
                <= old(level).orders@[j].quantity,
        sum(s) <= old(incoming).quantity,
    ensures
        final(level).price == old(level).price,
        final(level).orders@ == after_fill(old(level).orders@, s),
        final(incoming).id == old(incoming).id,
        final(incoming).side == old(incoming).side,
        final(incoming).price == old(incoming).price,
        final(incoming).quantity == old(incoming).quantity - sum(s),
        final(active)@ == old(active)@.remove_keys(
            filled_ids(after_fill(old(level).orders@, s)),
        ),
        final(events)@ == old(events)@ + fill_events(
            old(level).orders@,
            s,
            old(incoming).id,
            old(level).price,
        ),
{
    let ghost orders = level.orders@;
    let ghost filled = after_fill(orders, s);
    let ghost q0 = incoming.quantity;
    let ghost a0 = active@;
    let ghost e0 = events@;
    let ghost taker = *incoming;
    let price = level.price;
    let n = allocations.len();
    let mut t: usize = 0;
    proof {
        assert(filled_ids(orders) =~= Set::<u64>::empty());
        assert(a0.remove_keys(filled_ids(orders)) =~= a0);
        assert(s.take(0) =~= Seq::<u64>::empty());
        assert(fill_events(orders, s.take(0), taker.id, price) =~= Seq::<Event>::empty());
    }
    while t < n
        invariant
            n == allocations.len(),
            t <= n,
            allocations@ == indexed(s).take(n as int),
            n <= s.len(),
            s.len() == orders.len(),
            forall|j: int| n <= j < s.len() ==> #[trigger] s[j] == 0,
            forall|j: int|
                0 <= j < s.len() ==> 0 < (#[trigger] orders[j]).quantity && s[j]
                    <= orders[j].quantity,
            sum(s) <= q0,
            filled == after_fill(orders, s),
            level.price == price,
            level.orders@.len() == orders.len(),
            forall|i: int|
                0 <= i < orders.len() ==> #[trigger] level.orders@[i] == if i < t {
                    filled[i]
                } else {
                    orders[i]
                },
            incoming.id == taker.id,
            incoming.side == taker.side,
            incoming.price == taker.price,
            incoming.quantity == q0 - sum(s.take(t as int)),
            active@ == a0.remove_keys(filled_ids(level.orders@)),
            events@ == e0 + fill_events(orders, s.take(t as int), taker.id, price),
        decreases n - t,
    {
        let (index, quantity) = allocations[t];
        proof {
            assert(index == t && quantity == s[t as int]);
            lemma_sum_take_step(s, t as int);
            lemma_sum_take(s, t + 1);
            lemma_fill_events_take_step(orders, s, taker.id, price, t as int);
        }
        let ghost cur = level.orders@;
        if quantity > 0 {
            let maker = level.orders[index];
            let left = maker.quantity - quantity;
            let updated = Order { id: maker.id, side: maker.side, price: maker.price, quantity: left };
            level.orders.set(index, updated);
            incoming.quantity = incoming.quantity - quantity;
            events.push(Event::Trade { maker: maker.id, taker: incoming.id, price, quantity });
            if left == 0 {
                active.remove(&maker.id);
            }
            proof {
                assert(updated == filled[t as int]);
                assert(cur[t as int] == orders[t as int]);
                assert(level.orders@ == cur.update(t as int, updated));
                lemma_filled_ids_update(cur, t as int, updated);
                if left == 0 {
                    assert(active@ =~= a0.remove_keys(filled_ids(level.orders@)));
                }
            }
        } else {
            proof {
                assert(filled[t as int] == orders[t as int]);
            }
        }
        t = t + 1;
    }
    proof {
        assert(level.orders@ =~= filled);
        lemma_sum_take(s, n as int);
        lemma_fill_events_zero_tail(orders, s, taker.id, price, n as int);
    }
}

/// Drop the orders that have no lots left: under FIFO they are the oldest ones,
/// under pro-rata they may be anywhere.
fn compact(policy: Policy, orders: &mut Vec<Order>)
    requires
        policy == Policy::Fifo ==> forall|a: int, b: int|
            0 <= a < b < old(orders)@.len() && #[trigger] old(orders)@[b].quantity == 0
                ==> #[trigger] old(orders)@[a].quantity == 0,
    ensures
        final(orders)@ == resting(old(orders)@),
{
    let ghost all = orders@;
    match policy {
        Policy::Fifo => {
            let mut k: usize = 0;
            while k < orders.len() && orders[k].quantity == 0
                invariant
                    orders@ == all,
                    k <= orders.len(),
                    forall|j: int| 0 <= j < k ==> (#[trigger] all[j]).quantity == 0,
                decreases orders.len() - k,
            {
                k = k + 1;
            }
            proof {
                assert forall|j: int| k <= j < all.len() implies (#[trigger] all[j]).quantity > 0 by {
                    if all[j].quantity == 0 && j > k {
                        assert(all[k as int].quantity == 0);
                    }
                }
                lemma_resting_prefix(all, k as int);
            }
            let kept = orders.split_off(k);
            *orders = kept;
        },
        Policy::ProRata => {
            let mut kept: Vec<Order> = Vec::new();
            let mut i: usize = 0;
            assert(all.take(0) =~= Seq::<Order>::empty());
            while i < orders.len()
                invariant
                    orders@ == all,
                    i <= orders.len(),
                    kept@ == resting(all.take(i as int)),
                decreases orders.len() - i,
            {
                assert(all.take(i + 1).drop_last() =~= all.take(i as int));
                if orders[i].quantity > 0 {
                    kept.push(orders[i]);
                }
                i = i + 1;
            }
            assert(all.take(all.len() as int) =~= all);
            *orders = kept;
        },
    }
}

/// Does `a` have priority over `b` for orders resting on `side`?
fn has_priority(side: Side, a: u64, b: u64) -> (r: bool)
    ensures
        r == better(side, a, b),
{
    match side {
        Side::Buy => a > b,
        Side::Sell => a < b,
    }
}

/// Binary search for the first level whose price is not worse than `price`: the level with
/// that price, if there is one, or where a level with that price belongs.
fn find_level(levels: &Vec<Level>, side: Side, price: u64) -> (i: usize)
    requires
        side_ok(levels_view(levels@), side),
    ensures
        i == worse_count(levels_view(levels@), side, price),
{
    let ghost v = levels_view(levels@);
    proof {
        lemma_worse_count(v, side, price);
    }
    let mut lo: usize = 0;
    let mut hi: usize = levels.len();
    while lo < hi
        invariant
            v == levels_view(levels@),
            hi <= levels.len(),
            lo <= worse_count(v, side, price) <= hi,
            forall|k: int|
                0 <= k < v.len() ==> (better(side, price, #[trigger] v[k].price) <==> k
                    < worse_count(v, side, price)),
        decreases hi - lo,
    {
        let mid = lo + (hi - lo) / 2;
        assert(v[mid as int].price == levels@[mid as int].price);
        if has_priority(side, price, levels[mid].price) {
            lo = mid + 1;
        } else {
            hi = mid;
        }
    }
    lo
}

/// Rest an order at its own price: at the back of its level, or in a new level in price order.
fn rest(levels: &mut Vec<Level>, order: Order)
    requires
        side_ok(levels_view(old(levels)@), order.side),
    ensures
        levels_view(final(levels)@) == rest_at(levels_view(old(levels)@), order.side, order),
{
    let ghost before = levels_view(levels@);
    let i = find_level(levels, order.side, order.price);
    proof {
        crate::laws::lemma_worse_count_bounds(before, order.side, order.price);
    }
    if i < levels.len() && levels[i].price == order.price {
        let mut level = Level { price: 0, orders: Vec::new() };
        levels.set_and_swap(i, &mut level);
        level.orders.push(order);
        levels.set_and_swap(i, &mut level);
        proof {
            assert(levels_view(levels@) =~= rest_at(before, order.side, order));
        }
    } else {
        let mut orders: Vec<Order> = Vec::new();
        orders.push(order);
        levels.insert(i, Level { price: order.price, orders });
        proof {
            assert(levels_view(levels@) =~= rest_at(before, order.side, order));
        }
    }
}

/// Take the order with this ID out of the level with this price; drop the level if it empties.
fn remove_order(levels: &mut Vec<Level>, side: Side, price: u64, id: u64) -> (r: Result<(), EngineError>)
    requires
        side_ok(levels_view(old(levels)@), side),
        ({
            let v = levels_view(old(levels)@);
            let k = level_of(v, price);
            let j = position_of(v[k].orders, id);
            &&& at(v, k, j)
            &&& v[k].price == price
            &&& v[k].orders[j].id == id
            &&& forall|j2: int| 0 <= j2 < v[k].orders.len() && #[trigger] v[k].orders[j2].id == id ==> j2 == j
        }),
    ensures
        r is Ok,
        levels_view(final(levels)@) == crate::book::cancel_at(levels_view(old(levels)@), price, id),
{
    let ghost before = levels_view(levels@);
    let ghost k0 = level_of(before, price);
    let ghost j0 = position_of(before[k0].orders, id);
    let k = find_level(levels, side, price);
    proof {
        lemma_worse_count(before, side, price);
        assert forall|k2: int| 0 <= k2 < k0 implies better(side, price, #[trigger] before[k2].price) by {
            assert(better(side, before[k0].price, before[k2].price));
        }
        assert(!better(side, price, before[k0].price));
        if k0 > 0 {
            assert(better(side, price, before[k0 - 1].price));
        }
        assert(k == k0);
    }
    if k >= levels.len() || levels[k].price != price {
        return Err(EngineError::CorruptBook);
    }
    assert(before[k as int].price == levels@[k as int].price);
    assert(k == k0);
    let mut level = Level { price: 0, orders: Vec::new() };
    levels.set_and_swap(k, &mut level);
    let ghost orders = level.orders@;
    assert(orders == before[k0].orders);
    let mut j: usize = 0;
    while j < level.orders.len() && level.orders[j].id != id
        invariant
            level.orders@ == orders,
            j <= level.orders.len(),
            j <= j0,
            0 <= j0 < orders.len(),
            orders[j0].id == id,
            forall|j2: int| 0 <= j2 < orders.len() && #[trigger] orders[j2].id == id ==> j2 == j0,
        decreases level.orders.len() - j,
    {
        j = j + 1;
    }
    if j == level.orders.len() {
        return Err(EngineError::CorruptBook);
    }
    level.orders.remove(j);
    if level.orders.len() == 0 {
        levels.remove(k);
        proof {
            assert(levels_view(levels@) =~= crate::book::cancel_at(before, price, id));
        }
    } else {
        levels.set_and_swap(k, &mut level);
        proof {
            assert(levels_view(levels@) =~= crate::book::cancel_at(before, price, id));
        }
    }
    Ok(())
}

} // verus!
