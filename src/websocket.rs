use vstd::prelude::*;

use crate::types::{fresh_id, same_symbol, MarketData, Order, Symbol, Trade};

verus! {

/// The streams a subscriber may ask for.
#[derive(Debug, Clone, Copy, PartialEq, Eq, Structural)]
pub enum SubscriptionType {
    Trades,
    OrderBook,
    MarketData,
    OrderUpdates,
    All,
}

/// What one stream connection asked for. No symbols means every symbol.
#[derive(Debug)]
pub struct ConnectionInfo {
    pub id: u128,
    pub subscriptions: Vec<SubscriptionType>,
    pub symbols: Vec<Symbol>,
}

/// The connection wants messages of `kind` for `symbol`.
pub open spec fn wants(info: ConnectionInfo, kind: SubscriptionType, symbol: Symbol) -> bool {
    &&& (info.subscriptions@.contains(SubscriptionType::All) || info.subscriptions@.contains(kind))
    &&& (info.symbols@.len() == 0 || exists|i: int|
        0 <= i < info.symbols@.len() && same_symbol(#[trigger] info.symbols@[i], symbol))
}

impl ConnectionInfo {
    /// A fresh connection subscribed to everything.
    pub fn new() -> (r: ConnectionInfo)
        ensures
            r.subscriptions@ == seq![SubscriptionType::All],
            r.symbols@.len() == 0,
    {
        ConnectionInfo { id: fresh_id(), subscriptions: vec![SubscriptionType::All], symbols: Vec::new() }
    }
}

fn subscribed(subs: &Vec<SubscriptionType>, kind: SubscriptionType) -> (r: bool)
    ensures
        r == (subs@.contains(SubscriptionType::All) || subs@.contains(kind)),
{
    let mut i: usize = 0;
    while i < subs.len()
        invariant
            i <= subs@.len(),
            forall|j: int| 0 <= j < i ==> subs@[j] != SubscriptionType::All && subs@[j] != kind,
        decreases subs@.len() - i,
    {
        if subs[i] == SubscriptionType::All || subs[i] == kind {
            proof {
                assert(subs@[i as int] == SubscriptionType::All || subs@[i as int] == kind);
            }
            return true;
        }
        i = i + 1;
    }
    false
}

fn listed(symbols: &Vec<Symbol>, symbol: &Symbol) -> (r: bool)
    ensures
        r == exists|i: int| 0 <= i < symbols@.len() && same_symbol(#[trigger] symbols@[i], *symbol),
{
    let mut i: usize = 0;
    while i < symbols.len()
        invariant
            i <= symbols@.len(),
            forall|j: int| 0 <= j < i ==> !same_symbol(#[trigger] symbols@[j], *symbol),
        decreases symbols@.len() - i,
    {
        if symbols[i].same_as(symbol) {
            return true;
        }
        i = i + 1;
    }
    false
}

/// Whether the connection wants messages of `kind` for `symbol`.
pub fn should_send(info: &ConnectionInfo, kind: SubscriptionType, symbol: &Symbol) -> (r: bool)
    ensures
        r == wants(*info, kind, *symbol),
{
    if !subscribed(&info.subscriptions, kind) {
        return false;
    }
    info.symbols.len() == 0 || listed(&info.symbols, symbol)
}

/// Whether the connection wants this trade.
pub fn should_send_trade(info: &ConnectionInfo, trade: &Trade) -> (r: bool)
    ensures
        r == wants(*info, SubscriptionType::Trades, trade.symbol),
{
    should_send(info, SubscriptionType::Trades, &trade.symbol)
}

/// Whether the connection wants this order update.
pub fn should_send_order_update(info: &ConnectionInfo, order: &Order) -> (r: bool)
    ensures
        r == wants(*info, SubscriptionType::OrderUpdates, order.symbol),
{
    should_send(info, SubscriptionType::OrderUpdates, &order.symbol)
}

/// Whether the connection wants this market summary.
pub fn should_send_market_data(info: &ConnectionInfo, market_data: &MarketData) -> (r: bool)
    ensures
        r == wants(*info, SubscriptionType::MarketData, market_data.symbol),
{
    should_send(info, SubscriptionType::MarketData, &market_data.symbol)
}

} // verus!
