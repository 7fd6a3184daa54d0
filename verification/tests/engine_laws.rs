use lobme_rs::{BookSnapshot, Command, Engine, Event, LevelSnapshot, Order, Policy, Side};

fn place(id: u64, side: Side, price: u64, quantity: u64) -> Command {
    Command::Place(Order {
        id,
        side,
        price,
        quantity,
    })
}

fn apply(engine: &mut Engine, command: Command) -> Vec<Event> {
    let mut events = Vec::new();
    assert_eq!(engine.apply(command, &mut events), Ok(()));
    events
}

fn trade(maker: u64, taker: u64, price: u64, quantity: u64) -> Event {
    Event::Trade {
        maker,
        taker,
        price,
        quantity,
    }
}

fn level(price: u64, orders: Vec<(u64, u64)>) -> LevelSnapshot {
    LevelSnapshot { price, orders }
}

#[test]
fn zero_quantity_or_price_is_rejected_and_changes_nothing() {
    let mut engine = Engine::new(Policy::Fifo);
    apply(&mut engine, place(1, Side::Sell, 100, 5));
    let before = engine.snapshot();
    assert_eq!(
        apply(&mut engine, place(2, Side::Buy, 100, 0)),
        vec![Event::Rejected {
            id: 2,
            reason: "price and quantity must be positive"
        }]
    );
    assert_eq!(
        apply(&mut engine, place(3, Side::Buy, 0, 5)),
        vec![Event::Rejected {
            id: 3,
            reason: "price and quantity must be positive"
        }]
    );
    assert_eq!(engine.snapshot(), before);
}

#[test]
fn an_id_rejected_as_invalid_is_still_free() {
    let mut engine = Engine::new(Policy::Fifo);
    apply(&mut engine, place(5, Side::Buy, 100, 0));
    assert_eq!(
        apply(&mut engine, place(5, Side::Buy, 100, 2)),
        vec![Event::Rested {
            id: 5,
            remaining: 2
        }]
    );
}

#[test]
fn filled_id_cannot_be_reused() {
    let mut engine = Engine::new(Policy::Fifo);
    apply(&mut engine, place(1, Side::Sell, 100, 2));
    apply(&mut engine, place(2, Side::Buy, 100, 2));
    assert_eq!(
        apply(&mut engine, place(1, Side::Sell, 100, 2)),
        vec![Event::Rejected {
            id: 1,
            reason: "order ID already used"
        }]
    );
    assert_eq!(
        apply(&mut engine, place(2, Side::Sell, 100, 2)),
        vec![Event::Rejected {
            id: 2,
            reason: "order ID already used"
        }]
    );
}

#[test]
fn cancel_of_unknown_or_cancelled_order_is_rejected() {
    let mut engine = Engine::new(Policy::Fifo);
    assert_eq!(
        apply(&mut engine, Command::Cancel(9)),
        vec![Event::Rejected {
            id: 9,
            reason: "order is not resting"
        }]
    );
    apply(&mut engine, place(1, Side::Sell, 100, 2));
    assert_eq!(
        apply(&mut engine, Command::Cancel(1)),
        vec![Event::Cancelled { id: 1 }]
    );
    assert_eq!(
        apply(&mut engine, Command::Cancel(1)),
        vec![Event::Rejected {
            id: 1,
            reason: "order is not resting"
        }]
    );
    assert!(engine.snapshot().asks.is_empty());
}

#[test]
fn cancel_of_filled_order_is_rejected() {
    let mut engine = Engine::new(Policy::ProRata);
    apply(&mut engine, place(1, Side::Buy, 50, 3));
    apply(&mut engine, place(2, Side::Sell, 50, 3));
    assert_eq!(
        apply(&mut engine, Command::Cancel(1)),
        vec![Event::Rejected {
            id: 1,
            reason: "order is not resting"
        }]
    );
}

#[test]
fn snapshot_lists_best_prices_first() {
    let mut engine = Engine::new(Policy::Fifo);
    apply(&mut engine, place(1, Side::Buy, 97, 1));
    apply(&mut engine, place(2, Side::Buy, 99, 2));
    apply(&mut engine, place(3, Side::Buy, 98, 3));
    apply(&mut engine, place(4, Side::Buy, 99, 4));
    apply(&mut engine, place(5, Side::Sell, 103, 5));
    apply(&mut engine, place(6, Side::Sell, 101, 6));
    apply(&mut engine, place(7, Side::Sell, 102, 7));
    assert_eq!(
        engine.snapshot(),
        BookSnapshot {
            bids: vec![
                level(99, vec![(2, 2), (4, 4)]),
                level(98, vec![(3, 3)]),
                level(97, vec![(1, 1)]),
            ],
            asks: vec![
                level(101, vec![(6, 6)]),
                level(102, vec![(7, 7)]),
                level(103, vec![(5, 5)]),
            ],
        }
    );
}

#[test]
fn buy_sweeps_asks_best_first_and_rests_the_rest() {
    let mut engine = Engine::new(Policy::Fifo);
    apply(&mut engine, place(1, Side::Sell, 103, 4));
    apply(&mut engine, place(2, Side::Sell, 101, 2));
    apply(&mut engine, place(3, Side::Sell, 102, 3));
    let events = apply(&mut engine, place(4, Side::Buy, 102, 9));
    assert_eq!(
        events,
        vec![
            trade(2, 4, 101, 2),
            trade(3, 4, 102, 3),
            Event::Rested {
                id: 4,
                remaining: 4
            },
        ]
    );
    let snapshot = engine.snapshot();
    assert_eq!(snapshot.bids, vec![level(102, vec![(4, 4)])]);
    assert_eq!(snapshot.asks, vec![level(103, vec![(1, 4)])]);
}

#[test]
fn sell_sweeps_bids_best_first() {
    let mut engine = Engine::new(Policy::ProRata);
    apply(&mut engine, place(1, Side::Buy, 98, 2));
    apply(&mut engine, place(2, Side::Buy, 100, 1));
    apply(&mut engine, place(3, Side::Buy, 99, 1));
    assert_eq!(
        apply(&mut engine, place(4, Side::Sell, 98, 3)),
        vec![trade(2, 4, 100, 1), trade(3, 4, 99, 1), trade(1, 4, 98, 1)]
    );
    assert_eq!(engine.snapshot().bids, vec![level(98, vec![(1, 1)])]);
    assert!(engine.snapshot().asks.is_empty());
}

#[test]
fn lots_are_conserved_across_levels() {
    let mut engine = Engine::new(Policy::ProRata);
    apply(&mut engine, place(1, Side::Sell, 100, 3));
    apply(&mut engine, place(2, Side::Sell, 100, 4));
    apply(&mut engine, place(3, Side::Sell, 101, 5));
    let events = apply(&mut engine, place(4, Side::Buy, 101, 20));
    let mut total = 0;
    for event in &events {
        match event {
            Event::Trade { quantity, .. } => total += quantity,
            Event::Rested { remaining, .. } => total += remaining,
            _ => panic!("unexpected event"),
        }
    }
    assert_eq!(total, 20);
    assert_eq!(
        events.last(),
        Some(&Event::Rested {
            id: 4,
            remaining: 8
        })
    );
}

#[test]
fn pro_rata_leftover_goes_to_oldest_eligible() {
    // Shares of 4 lots over 1, 2, 3: rounded down 0, 1, 2; the leftover lot goes to order 1.
    let mut engine = Engine::new(Policy::ProRata);
    apply(&mut engine, place(1, Side::Sell, 100, 1));
    apply(&mut engine, place(2, Side::Sell, 100, 2));
    apply(&mut engine, place(3, Side::Sell, 100, 3));
    assert_eq!(
        apply(&mut engine, place(4, Side::Buy, 100, 4)),
        vec![trade(1, 4, 100, 1), trade(2, 4, 100, 1), trade(3, 4, 100, 2)]
    );
    assert_eq!(engine.snapshot().asks, vec![level(100, vec![(2, 1), (3, 1)])]);
}

#[test]
fn pro_rata_zero_share_makes_no_trade() {
    // Shares of 2 lots over 1, 1, 8: rounded down 0, 0, 1; the leftover lot goes to order 1.
    let mut engine = Engine::new(Policy::ProRata);
    apply(&mut engine, place(1, Side::Buy, 100, 1));
    apply(&mut engine, place(2, Side::Buy, 100, 1));
    apply(&mut engine, place(3, Side::Buy, 100, 8));
    assert_eq!(
        apply(&mut engine, place(4, Side::Sell, 100, 2)),
        vec![trade(1, 4, 100, 1), trade(3, 4, 100, 1)]
    );
    assert_eq!(engine.snapshot().bids, vec![level(100, vec![(2, 1), (3, 7)])]);
}

#[test]
fn fifo_fills_oldest_first_and_keeps_the_partial_in_front() {
    let mut engine = Engine::new(Policy::Fifo);
    apply(&mut engine, place(1, Side::Sell, 100, 2));
    apply(&mut engine, place(2, Side::Sell, 100, 3));
    apply(&mut engine, place(3, Side::Sell, 100, 4));
    assert_eq!(
        apply(&mut engine, place(4, Side::Buy, 100, 4)),
        vec![trade(1, 4, 100, 2), trade(2, 4, 100, 2)]
    );
    assert_eq!(engine.snapshot().asks, vec![level(100, vec![(2, 1), (3, 4)])]);
}

#[test]
fn rested_order_joins_the_back_of_its_price() {
    let mut engine = Engine::new(Policy::Fifo);
    apply(&mut engine, place(1, Side::Buy, 100, 1));
    apply(&mut engine, place(2, Side::Sell, 105, 1));
    apply(&mut engine, place(3, Side::Buy, 100, 2));
    assert_eq!(engine.snapshot().bids, vec![level(100, vec![(1, 1), (3, 2)])]);
}

#[test]
fn book_never_crosses() {
    let mut engine = Engine::new(Policy::Fifo);
    apply(&mut engine, place(1, Side::Sell, 100, 1));
    apply(&mut engine, place(2, Side::Buy, 105, 3));
    let snapshot = engine.snapshot();
    assert!(snapshot.asks.is_empty());
    assert_eq!(snapshot.bids, vec![level(105, vec![(2, 2)])]);
    apply(&mut engine, place(3, Side::Sell, 106, 1));
    let snapshot = engine.snapshot();
    assert!(snapshot.bids[0].price < snapshot.asks[0].price);
}

#[test]
fn apply_replaces_the_previous_events() {
    let mut engine = Engine::new(Policy::Fifo);
    let mut events = vec![Event::Cancelled { id: 42 }];
    assert_eq!(engine.apply(place(1, Side::Buy, 10, 1), &mut events), Ok(()));
    assert_eq!(
        events,
        vec![Event::Rested {
            id: 1,
            remaining: 1
        }]
    );
}

#[test]
fn cancelling_last_order_removes_its_level() {
    let mut engine = Engine::new(Policy::Fifo);
    apply(&mut engine, place(1, Side::Sell, 100, 1));
    apply(&mut engine, place(2, Side::Sell, 101, 1));
    apply(&mut engine, Command::Cancel(1));
    assert_eq!(engine.snapshot().asks, vec![level(101, vec![(2, 1)])]);
    assert_eq!(
        apply(&mut engine, place(3, Side::Buy, 101, 1)),
        vec![trade(2, 3, 101, 1)]
    );
}

#[test]
fn cancelling_an_untraded_order_restores_the_book() {
    let mut engine = Engine::new(Policy::Fifo);
    apply(&mut engine, place(1, Side::Buy, 99, 2));
    apply(&mut engine, place(2, Side::Sell, 101, 3));
    let before = engine.snapshot();
    assert_eq!(
        apply(&mut engine, place(3, Side::Buy, 99, 4)),
        vec![Event::Rested {
            id: 3,
            remaining: 4
        }]
    );
    assert_eq!(
        apply(&mut engine, Command::Cancel(3)),
        vec![Event::Cancelled { id: 3 }]
    );
    assert_eq!(engine.snapshot(), before);
    assert_eq!(
        apply(&mut engine, place(3, Side::Buy, 99, 4)),
        vec![Event::Rejected {
            id: 3,
            reason: "order ID already used"
        }]
    );
}

#[test]
fn levels_stay_in_acceptance_order_across_commands() {
    let mut engine = Engine::new(Policy::ProRata);
    apply(&mut engine, place(10, Side::Sell, 100, 4));
    apply(&mut engine, place(11, Side::Sell, 100, 4));
    apply(&mut engine, place(12, Side::Sell, 100, 4));
    apply(&mut engine, Command::Cancel(11));
    apply(&mut engine, place(13, Side::Sell, 100, 4));
    apply(&mut engine, place(14, Side::Buy, 100, 6));
    apply(&mut engine, place(15, Side::Sell, 100, 1));
    let ids: Vec<u64> = engine.snapshot().asks[0]
        .orders
        .iter()
        .map(|(id, _)| *id)
        .collect();
    let mut sorted = ids.clone();
    sorted.sort();
    assert_eq!(ids, sorted);
    assert_eq!(ids.last(), Some(&15));
}
