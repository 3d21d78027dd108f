//! Spot market primitives.
pub mod market;

pub use market::L1;
pub mod prices;
pub use prices::{L2, Level, PriceNode};
pub mod orders;
pub use orders::{L3, L3Error, Node, Order, OrderId};
pub mod event;
pub mod orderbook;
pub mod time_in_force;
pub mod pair;
pub use pair::Pair;
pub mod matching_engine;
pub use matching_engine::MatchingEngine;
pub mod account;
