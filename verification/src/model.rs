//! Integer ticks and lots are the units of this toy market.
use vstd::prelude::*;

verus! {

/// The side of the book an order rests on, or the side it takes from.
#[derive(Clone, Copy, Debug, PartialEq, Eq, Structural)]
pub enum Side {
    Buy,
    Sell,
}

/// A limit order: an identifier, a side, a limit price in ticks and a quantity in lots.
#[derive(Clone, Copy, Debug, PartialEq, Eq, Structural)]
pub struct Order {
    pub id: u64,
    pub side: Side,
    pub price: u64,
    pub quantity: u64,
}

/// One input to the engine.
#[derive(Clone, Copy, Debug, PartialEq, Eq, Structural)]
pub enum Command {
    Place(Order),
    Cancel(u64),
}

/// How an executable quantity is shared out among the orders of one price level.
#[derive(Clone, Copy, Debug, PartialEq, Eq, Structural)]
pub enum Policy {
    Fifo,
    ProRata,
}

/// One output of the engine.
#[derive(Clone, Debug, PartialEq, Eq)]
pub enum Event {
    Trade { maker: u64, taker: u64, price: u64, quantity: u64 },
    Rested { id: u64, remaining: u64 },
    Cancelled { id: u64 },
    Rejected { id: u64, reason: &'static str },
}

/// One price level of a snapshot: (order ID, remaining lots) in arrival order.
#[derive(Clone, Debug, PartialEq, Eq)]
pub struct LevelSnapshot {
    pub price: u64,
    pub orders: Vec<(u64, u64)>,
}

/// The book at one moment: bids from the highest price, asks from the lowest.
#[derive(Clone, Debug, PartialEq, Eq)]
pub struct BookSnapshot {
    pub bids: Vec<LevelSnapshot>,
    pub asks: Vec<LevelSnapshot>,
}

} // verus!
