use vstd::prelude::*;

verus! {

/// Prices are fixed-point integers with six decimal places.
pub const PRICE_SCALE: u64 = 1_000_000;

/// Quantities are fixed-point integers with six decimal places.
pub const QUANTITY_SCALE: u64 = 1_000_000;

/// Relies on `str::to_uppercase`: the result depends on the characters alone.
pub uninterp spec fn upper_of(s: Seq<char>) -> Seq<char>;

/// Relies on `str::to_uppercase` to turn a currency token into upper case.
#[verifier::external_body]
fn uppercase(s: &str) -> (r: String)
    ensures
        r@ == upper_of(s@),
{
    s.to_uppercase()
}

/// Relies on `uuid::Uuid::new_v4` (and `Uuid::as_u128`) for a random 128-bit identifier.
/// Nothing is promised of the value.
#[verifier::external_body]
pub(crate) fn fresh_id() -> (r: u128) {
    uuid::Uuid::new_v4().as_u128()
}

/// Relies on `chrono::Utc::now` (and `DateTime::timestamp_millis`) for the wall clock in
/// milliseconds since the Unix epoch. Nothing is promised of the value.
#[verifier::external_body]
pub(crate) fn now_millis() -> (r: i64) {
    chrono::Utc::now().timestamp_millis()
}

/// Kind of an order. Only `Limit` and `Market` are executed by the engine.
#[derive(Debug, Clone, Copy, PartialEq, Eq, Structural)]
pub enum OrderType {
    Limit,
    Market,
    StopLoss,
    TakeProfit,
}

/// Side of an order.
#[derive(Debug, Clone, Copy, PartialEq, Eq, Structural)]
pub enum OrderSide {
    Buy,
    Sell,
}

/// Lifecycle state of an order.
#[derive(Debug, Clone, Copy, PartialEq, Eq, Structural)]
pub enum OrderStatus {
    New,
    PartiallyFilled,
    Filled,
    Cancelled,
    Rejected,
}

pub open spec fn is_active(s: OrderStatus) -> bool {
    s == OrderStatus::New || s == OrderStatus::PartiallyFilled
}

/// A trading pair such as BTC/USDT.
#[derive(Debug, Clone, Hash)]
pub struct Symbol {
    pub base: String,
    pub quote: String,
}

pub open spec fn same_symbol(a: Symbol, b: Symbol) -> bool {
    a.base@ == b.base@ && a.quote@ == b.quote@
}

impl PartialEq for Symbol {
    fn eq(&self, other: &Symbol) -> (r: bool) {
        self.base == other.base && self.quote == other.quote
    }
}

impl vstd::std_specs::cmp::PartialEqSpecImpl for Symbol {
    open spec fn obeys_eq_spec() -> bool {
        true
    }

    open spec fn eq_spec(&self, other: &Symbol) -> bool {
        same_symbol(*self, *other)
    }
}

impl Eq for Symbol {
}

impl Symbol {
    /// Builds a symbol, upper-casing both tokens.
    pub fn new(base: &str, quote: &str) -> (r: Symbol)
        ensures
            r.base@ == upper_of(base@),
            r.quote@ == upper_of(quote@),
    {
        Symbol { base: uppercase(base), quote: uppercase(quote) }
    }

    /// The concatenation of the two tokens, e.g. "BTCUSDT".
    pub fn to_string(&self) -> (r: String)
        ensures
            r@ == self.base@ + self.quote@,
    {
        let b = self.base.clone();
        b.concat(self.quote.as_str())
    }

    /// A copy with the same tokens.
    pub fn duplicate(&self) -> (r: Symbol)
        ensures
            r == *self,
    {
        Symbol { base: self.base.clone(), quote: self.quote.clone() }
    }

    /// Symbol equality as a plain function.
    pub fn same_as(&self, other: &Symbol) -> (r: bool)
        ensures
            r == same_symbol(*self, *other),
    {
        self.base == other.base && self.quote == other.quote
    }
}

/// An order. Prices and quantities are fixed-point integers
/// (see `PRICE_SCALE` and `QUANTITY_SCALE`); the timestamp is in milliseconds.
#[derive(Debug, Clone)]
pub struct Order {
    pub id: u128,
    pub symbol: Symbol,
    pub side: OrderSide,
    pub order_type: OrderType,
    pub quantity: u64,
    pub price: Option<u64>,
    pub status: OrderStatus,
    pub filled_quantity: u64,
    pub remaining_quantity: u64,
    pub timestamp: i64,
    pub user_id: String,
}

/// The quantity bookkeeping of an order: original = filled + remaining.
pub open spec fn order_balanced(o: Order) -> bool {
    o.quantity == o.filled_quantity + o.remaining_quantity
}

/// Whether an incoming order may trade against a resting price.
/// A market order always may; a limit order only at its price or better.
pub open spec fn marketable(incoming: Order, price: u64) -> bool {
    match incoming.order_type {
        OrderType::Market => true,
        _ => match incoming.price {
            Some(p) => match incoming.side {
                OrderSide::Buy => p >= price,
                OrderSide::Sell => p <= price,
            },
            None => false,
        },
    }
}

pub open spec fn spec_can_match(a: Order, b: Order) -> bool {
    &&& a.side != b.side
    &&& same_symbol(a.symbol, b.symbol)
    &&& match (a.price, b.price) {
        (Some(pa), Some(pb)) => match a.side {
            OrderSide::Buy => pa >= pb,
            OrderSide::Sell => pa <= pb,
        },
        _ => true,
    }
}

impl Order {
    /// A fresh order: random identifier, current time, status `New`, nothing filled.
    pub fn new(
        symbol: Symbol,
        side: OrderSide,
        order_type: OrderType,
        quantity: u64,
        price: Option<u64>,
        user_id: String,
    ) -> (r: Order)
        ensures
            r.symbol == symbol,
            r.side == side,
            r.order_type == order_type,
            r.quantity == quantity,
            r.price == price,
            r.status == OrderStatus::New,
            r.filled_quantity == 0,
            r.remaining_quantity == quantity,
            r.user_id == user_id,
    {
        let id = fresh_id();
        let timestamp = now_millis();
        Order {
            id,
            symbol,
            side,
            order_type,
            quantity,
            price,
            status: OrderStatus::New,
            filled_quantity: 0,
            remaining_quantity: quantity,
            timestamp,
            user_id,
        }
    }

    /// Whether the two orders may trade: opposite sides, same symbol, and crossing
    /// prices when both have one (an order without a price crosses anything).
    pub fn can_match(&self, other: &Order) -> (r: bool)
        ensures
            r == spec_can_match(*self, *other),
    {
        if self.side == other.side {
            return false;
        }
        if !self.symbol.same_as(&other.symbol) {
            return false;
        }
        match (self.price, other.price) {
            (Some(pa), Some(pb)) => match self.side {
                OrderSide::Buy => pa >= pb,
                OrderSide::Sell => pa <= pb,
            },
            _ => true,
        }
    }

    /// Execution price of `self` (the taker) against `other` (the resting maker):
    /// the maker's price, or zero where the two cannot trade or the maker has no price.
    pub fn match_price(&self, other: &Order) -> (r: u64)
        ensures
            r == (if self.side != other.side && other.price.is_some() {
                other.price.unwrap()
            } else {
                0
            }),
    {
        if self.side != other.side {
            match other.price {
                Some(p) => p,
                None => 0,
            }
        } else {
            0
        }
    }

    /// A copy with the same fields.
    pub fn duplicate(&self) -> (r: Order)
        ensures
            r == *self,
    {
        Order {
            id: self.id,
            symbol: self.symbol.duplicate(),
            side: self.side,
            order_type: self.order_type,
            quantity: self.quantity,
            price: self.price,
            status: self.status,
            filled_quantity: self.filled_quantity,
            remaining_quantity: self.remaining_quantity,
            timestamp: self.timestamp,
            user_id: self.user_id.clone(),
        }
    }
}

/// An execution between a buy order and a sell order.
#[derive(Debug, Clone)]
pub struct Trade {
    pub id: u128,
    pub symbol: Symbol,
    pub buy_order_id: u128,
    pub sell_order_id: u128,
    pub quantity: u64,
    pub price: u64,
    pub timestamp: i64,
    pub buyer_id: String,
    pub seller_id: String,
}

impl Trade {
    /// A trade between two orders on opposite sides; buyer and seller are resolved
    /// from the orders' sides, whichever argument holds which.
    pub fn new(symbol: Symbol, buy_order: &Order, sell_order: &Order, quantity: u64, price: u64) -> (r:
        Trade)
        requires
            buy_order.side != sell_order.side,
        ensures
            r.symbol == symbol,
            r.quantity == quantity,
            r.price == price,
            buy_order.side == OrderSide::Buy ==> {
                &&& r.buy_order_id == buy_order.id
                &&& r.sell_order_id == sell_order.id
                &&& r.buyer_id == buy_order.user_id
                &&& r.seller_id == sell_order.user_id
            },
            buy_order.side == OrderSide::Sell ==> {
                &&& r.buy_order_id == sell_order.id
                &&& r.sell_order_id == buy_order.id
                &&& r.buyer_id == sell_order.user_id
                &&& r.seller_id == buy_order.user_id
            },
    {
        let id = fresh_id();
        let timestamp = now_millis();
        let (buy_order_id, sell_order_id, buyer_id, seller_id) = match buy_order.side {
            OrderSide::Buy => (
                buy_order.id,
                sell_order.id,
                buy_order.user_id.clone(),
                sell_order.user_id.clone(),
            ),
            OrderSide::Sell => (
                sell_order.id,
                buy_order.id,
                sell_order.user_id.clone(),
                buy_order.user_id.clone(),
            ),
        };
        Trade {
            id,
            symbol,
            buy_order_id,
            sell_order_id,
            quantity,
            price,
            timestamp,
            buyer_id,
            seller_id,
        }
    }

    /// A copy with the same fields.
    pub fn duplicate(&self) -> (r: Trade)
        ensures
            r == *self,
    {
        Trade {
            id: self.id,
            symbol: self.symbol.duplicate(),
            buy_order_id: self.buy_order_id,
            sell_order_id: self.sell_order_id,
            quantity: self.quantity,
            price: self.price,
            timestamp: self.timestamp,
            buyer_id: self.buyer_id.clone(),
            seller_id: self.seller_id.clone(),
        }
    }
}

/// A resting order with its arrival sequence number (smaller is earlier).
#[derive(Debug, Clone)]
pub struct OrderBookEntry {
    pub order: Order,
    pub priority: u64,
}

impl OrderBookEntry {
    pub fn new(order: Order, priority: u64) -> (r: OrderBookEntry)
        ensures
            r.order == order,
            r.priority == priority,
    {
        OrderBookEntry { order, priority }
    }

    /// A copy with the same fields.
    pub fn duplicate(&self) -> (r: OrderBookEntry)
        ensures
            r == *self,
    {
        OrderBookEntry { order: self.order.duplicate(), priority: self.priority }
    }
}

/// One aggregated price level of a book side.
#[derive(Debug, Clone, Copy, PartialEq, Eq, Structural)]
pub struct PriceLevel {
    pub price: u64,
    pub total_quantity: u128,
    pub order_count: usize,
}

/// Aggregated depth of both sides of a book: bids best (highest) first,
/// asks best (lowest) first.
#[derive(Debug, Clone)]
pub struct OrderBookDepth {
    pub symbol: Symbol,
    pub bids: Vec<PriceLevel>,
    pub asks: Vec<PriceLevel>,
    pub timestamp: i64,
}

/// Summary of recent trading in one symbol. Volume is in quote units
/// (quantity times price, so scaled by `PRICE_SCALE * QUANTITY_SCALE`); the price
/// change is in basis points (hundredths of a percent).
#[derive(Debug, Clone)]
pub struct MarketData {
    pub symbol: Symbol,
    pub last_price: u64,
    pub volume_24h: u128,
    pub price_change_24h: i128,
    pub high_24h: u64,
    pub low_24h: u64,
    pub timestamp: i64,
}

impl MarketData {
    /// A copy with the same fields.
    pub fn duplicate(&self) -> (r: MarketData)
        ensures
            r == *self,
    {
        MarketData {
            symbol: self.symbol.duplicate(),
            last_price: self.last_price,
            volume_24h: self.volume_24h,
            price_change_24h: self.price_change_24h,
            high_24h: self.high_24h,
            low_24h: self.low_24h,
            timestamp: self.timestamp,
        }
    }
}

/// Body of an order submission request.
#[derive(Debug, Clone)]
pub struct CreateOrderRequest {
    pub symbol: Symbol,
    pub side: OrderSide,
    pub order_type: OrderType,
    pub quantity: u64,
    pub price: Option<u64>,
    pub user_id: String,
}

#[derive(Debug, Clone)]
pub struct CreateOrderResponse {
    pub order_id: u128,
    pub status: OrderStatus,
    pub message: String,
}

#[derive(Debug, Clone)]
pub struct CancelOrderRequest {
    pub order_id: u128,
    pub user_id: String,
}

#[derive(Debug, Clone)]
pub struct CancelOrderResponse {
    pub success: bool,
    pub message: String,
}

#[derive(Debug, Clone)]
pub struct GetOrderBookRequest {
    pub symbol: Symbol,
    pub depth: Option<usize>,
}

/// A message pushed to stream subscribers.
#[derive(Debug, Clone)]
pub enum WebSocketMessage {
    Trade(Trade),
    OrderBook(OrderBookDepth),
    MarketData(MarketData),
    OrderUpdate(Order),
    Error { message: String },
}

/// Engine counters. Volume is the sum of quantity times price over all trades,
/// saturating at the largest `u128`.
#[derive(Debug, Clone, Copy, PartialEq, Eq, Structural)]
pub struct EngineStats {
    pub total_orders: u64,
    pub total_trades: u64,
    pub total_volume: u128,
    pub active_orders: u64,
    pub uptime_seconds: u64,
}

} // verus!
