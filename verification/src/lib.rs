//! Spot matching-engine primitives: price levels (L1/L2), order storage (L3),
//! order books, trading pairs and the matching engine, with their events.
use vstd::prelude::*;

pub mod account;
pub mod bytes;
pub mod dll;
pub mod event;
pub mod jobs;
pub mod market;
pub mod orders;
pub mod ports;
pub mod prices;
pub mod spot;
pub mod text;

pub use market::L1;
pub use orders::{L3, L3Error, Node, Order};
pub use prices::{L2, Level};

verus! {

/// The version of this library.
pub fn version() -> (v: &'static str)
    ensures
        v@ == "0.1.0"@,
{
    "0.1.0"
}

} // verus!
