use vstd::prelude::*;

pub mod types;
pub mod orderbook;
pub mod market_data;
pub mod matching_engine;
pub mod config;
pub mod database;
pub mod api;
pub mod websocket;

verus! {

} // verus!
