//! A limit-order-book matcher: integer tick prices and lot quantities, processed in command
//! order, with price priority first and a selectable allocation rule within a price level.
pub mod allocation;
pub mod book;
mod engine;
pub mod laws;
pub mod market;
mod model;
pub mod parse;

pub use engine::{Engine, EngineError};
pub use model::{BookSnapshot, Command, Event, LevelSnapshot, Order, Policy, Side};
pub use parse::{parse, ParseError};
