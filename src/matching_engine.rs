use vstd::prelude::*;

use crate::market_data::{capped, newest_first, recent_trades, summarize, volume_of, change_of, high_of, low_of};
use crate::orderbook::{inserted_in_priority, levels_of, match_spec, placed, removed_from, top_levels, Fill, OrderBook};
use crate::types::{
    is_active, now_millis, same_symbol, EngineStats, MarketData, Order,
    OrderBookDepth, OrderSide, OrderStatus, OrderType, Symbol, Trade, WebSocketMessage,
};

verus! {

/// How many of a symbol's most recent trades its market summary is computed from.
pub const SUMMARY_WINDOW: usize = 1000;

/// Why the engine refused a request.
#[derive(Debug, Clone, Copy, PartialEq, Eq, Structural)]
pub enum EngineError {
    InvalidQuantity,
    UnsupportedOrderType,
    MissingPrice,
    InvalidPrice,
    EmptyUserId,
    DuplicateOrderId,
    /// The symbol's book has used up its arrival numbers.
    CapacityExhausted,
    OrderNotFound,
    Unauthorized,
    AlreadyFilled,
    AlreadyCancelled,
    AlreadyRejected,
}

impl EngineError {
    /// A human-readable reason.
    pub fn message(&self) -> (r: &'static str) {
        match self {
            EngineError::InvalidQuantity => "Order quantity must be positive",
            EngineError::UnsupportedOrderType => "Order type is not supported",
            EngineError::MissingPrice => "Limit order must have a price",
            EngineError::InvalidPrice => "Limit order price must be positive",
            EngineError::EmptyUserId => "User ID cannot be empty",
            EngineError::DuplicateOrderId => "An order with this ID already exists",
            EngineError::CapacityExhausted => "Order book cannot accept more orders",
            EngineError::OrderNotFound => "Order not found",
            EngineError::Unauthorized => "Unauthorized to cancel this order",
            EngineError::AlreadyFilled => "Cannot cancel filled order",
            EngineError::AlreadyCancelled => "Order already cancelled",
            EngineError::AlreadyRejected => "Cannot cancel rejected order",
        }
    }
}

/// The first validation rule an order breaks, if any.
pub open spec fn validation_error(o: Order) -> Option<EngineError> {
    if o.quantity == 0 {
        Some(EngineError::InvalidQuantity)
    } else if o.order_type == OrderType::StopLoss || o.order_type == OrderType::TakeProfit {
        Some(EngineError::UnsupportedOrderType)
    } else if o.order_type == OrderType::Limit && o.price.is_none() {
        Some(EngineError::MissingPrice)
    } else if o.order_type == OrderType::Limit && o.price == Some(0u64) {
        Some(EngineError::InvalidPrice)
    } else if o.user_id@.len() == 0 {
        Some(EngineError::EmptyUserId)
    } else {
        None
    }
}

/// The order as the engine takes it in: nothing filled yet.
pub open spec fn fresh(o: Order) -> Order {
    Order { status: OrderStatus::New, filled_quantity: 0, remaining_quantity: o.quantity, ..o }
}

/// The submitted order as it is recorded after matching left `rem` of it.
pub open spec fn settled(o: Order, rem: u64) -> Order {
    placed(fresh(o), rem)
}

/// The trade recorded for a fill of the incoming order `o`.
pub open spec fn trade_matches_fill(t: Trade, o: Order, f: Fill) -> bool {
    &&& same_symbol(t.symbol, o.symbol)
    &&& t.quantity == f.quantity
    &&& t.price == f.price
    &&& o.side == OrderSide::Buy ==> t.buy_order_id == o.id && t.sell_order_id == f.maker.id
        && t.buyer_id == o.user_id && t.seller_id == f.maker.user_id
    &&& o.side == OrderSide::Sell ==> t.sell_order_id == o.id && t.buy_order_id == f.maker.id
        && t.seller_id == o.user_id && t.buyer_id == f.maker.user_id
}

/// Whether a summary holds what `summarize` computes from `window`.
pub open spec fn summary_of(md: MarketData, symbol: Symbol, window: Seq<Trade>) -> bool {
    &&& same_symbol(md.symbol, symbol)
    &&& md.last_price == (if window.len() > 0 {
        window[0].price
    } else {
        0
    })
    &&& md.volume_24h == volume_of(window)
    &&& md.high_24h == high_of(window)
    &&& md.low_24h == low_of(window)
    &&& md.price_change_24h == change_of(window)
}

/// The window a symbol's summary is computed from: its latest trades, newest first.
pub open spec fn summary_window(log: Seq<Trade>, symbol: Symbol) -> Seq<Trade> {
    capped(newest_first(log, Some(symbol)), Some(SUMMARY_WINDOW))
}

pub open spec fn active_count(s: Seq<Order>) -> nat
    decreases s.len(),
{
    if s.len() == 0 {
        0
    } else {
        active_count(s.drop_last()) + if is_active(s.last().status) {
            1nat
        } else {
            0nat
        }
    }
}

pub open spec fn status_count(s: Seq<Order>, st: OrderStatus) -> nat
    decreases s.len(),
{
    if s.len() == 0 {
        0
    } else {
        status_count(s.drop_last(), st) + if s.last().status == st {
            1nat
        } else {
            0nat
        }
    }
}

/// The orders of a user, in submission order.
pub open spec fn orders_of_user(s: Seq<Order>, user: Seq<char>) -> Seq<Order>
    decreases s.len(),
{
    if s.len() == 0 {
        Seq::empty()
    } else if s.last().user_id@ == user {
        orders_of_user(s.drop_last(), user).push(s.last())
    } else {
        orders_of_user(s.drop_last(), user)
    }
}

/// Active orders are exactly those submitted and not yet filled, cancelled or rejected.
pub proof fn lemma_active_orders_balance(s: Seq<Order>)
    ensures
        active_count(s) == s.len() - status_count(s, OrderStatus::Filled) - status_count(
            s,
            OrderStatus::Cancelled,
        ) - status_count(s, OrderStatus::Rejected),
    decreases s.len(),
{
    if s.len() > 0 {
        lemma_active_orders_balance(s.drop_last());
    }
}

/// The multi-symbol engine: one book per symbol, every order ever accepted, the
/// trade log, one market summary per symbol, and the events waiting to be published.
#[derive(Debug)]
pub struct MatchingEngine {
    pub orderbooks: Vec<OrderBook>,
    pub orders: Vec<Order>,
    pub trades: Vec<Trade>,
    pub market_data: Vec<MarketData>,
    pub total_volume: u128,
    pub start_time: i64,
    pub events: Vec<WebSocketMessage>,
}

pub open spec fn book_symbols_distinct(bs: Seq<OrderBook>) -> bool {
    forall|i: int, j: int|
        0 <= i < bs.len() && 0 <= j < bs.len() && i != j ==> !same_symbol(
            #[trigger] bs[i].symbol,
            #[trigger] bs[j].symbol,
        )
}

pub open spec fn order_ids_distinct(os: Seq<Order>) -> bool {
    forall|i: int, j: int|
        0 <= i < os.len() && 0 <= j < os.len() && i != j ==> #[trigger] os[i].id != #[trigger] os[j].id
}

pub open spec fn summary_symbols_distinct(ms: Seq<MarketData>) -> bool {
    forall|i: int, j: int|
        0 <= i < ms.len() && 0 <= j < ms.len() && i != j ==> !same_symbol(
            #[trigger] ms[i].symbol,
            #[trigger] ms[j].symbol,
        )
}

/// Every summary not of `symbol` keeps its place and value; summaries are only added.
pub open spec fn summaries_kept(a: Seq<MarketData>, b: Seq<MarketData>, symbol: Symbol) -> bool {
    &&& a.len() <= b.len()
    &&& forall|j: int| 0 <= j < a.len() && !same_symbol(a[j].symbol, symbol) ==> #[trigger] b[j] == a[j]
}

/// Index of the book of a symbol, if there is one.
fn find_book(books: &Vec<OrderBook>, symbol: &Symbol) -> (r: Option<usize>)
    ensures
        match r {
            Some(i) => i < books@.len() && same_symbol(books@[i as int].symbol, *symbol),
            None => forall|j: int| 0 <= j < books@.len() ==> !same_symbol(#[trigger] books@[j].symbol, *symbol),
        },
{
    let mut i: usize = 0;
    while i < books.len()
        invariant
            i <= books@.len(),
            forall|j: int| 0 <= j < i ==> !same_symbol(#[trigger] books@[j].symbol, *symbol),
        decreases books@.len() - i,
    {
        if books[i].symbol.same_as(symbol) {
            return Some(i);
        }
        i = i + 1;
    }
    None
}

/// Index of the order with this identifier, if there is one.
fn find_order(orders: &Vec<Order>, id: u128) -> (r: Option<usize>)
    ensures
        match r {
            Some(i) => i < orders@.len() && orders@[i as int].id == id,
            None => forall|j: int| 0 <= j < orders@.len() ==> (#[trigger] orders@[j]).id != id,
        },
{
    let mut i: usize = 0;
    while i < orders.len()
        invariant
            i <= orders@.len(),
            forall|j: int| 0 <= j < i ==> (#[trigger] orders@[j]).id != id,
        decreases orders@.len() - i,
    {
        if orders[i].id == id {
            return Some(i);
        }
        i = i + 1;
    }
    None
}

/// Index of the summary of a symbol, if there is one.
fn find_summary(ms: &Vec<MarketData>, symbol: &Symbol) -> (r: Option<usize>)
    ensures
        match r {
            Some(i) => i < ms@.len() && same_symbol(ms@[i as int].symbol, *symbol),
            None => forall|j: int| 0 <= j < ms@.len() ==> !same_symbol(#[trigger] ms@[j].symbol, *symbol),
        },
{
    let mut i: usize = 0;
    while i < ms.len()
        invariant
            i <= ms@.len(),
            forall|j: int| 0 <= j < i ==> !same_symbol(#[trigger] ms@[j].symbol, *symbol),
        decreases ms@.len() - i,
    {
        if ms[i].symbol.same_as(symbol) {
            return Some(i);
        }
        i = i + 1;
    }
    None
}


/// Writes the new state of an order into the index, in place of the order with its id.
fn record_order(orders: &mut Vec<Order>, o: Order)
    requires
        order_ids_distinct(old(orders)@),
    ensures
        order_ids_distinct(final(orders)@),
        final(orders)@.len() == old(orders)@.len(),
        forall|j: int| 0 <= j < old(orders)@.len() ==> (#[trigger] final(orders)@[j]).id == old(orders)@[j].id,
        forall|j: int| 0 <= j < old(orders)@.len() && old(orders)@[j].id == o.id ==> #[trigger] final(orders)@[j] == o,
        forall|j: int| 0 <= j < old(orders)@.len() && old(orders)@[j].id != o.id ==> #[trigger] final(orders)@[j] == old(orders)@[j],
{
    match find_order(orders, o.id) {
        Some(i) => {
            let ghost os = orders@;
            orders.set(i, o);
            proof {
                assert forall|a: int, b: int| 0 <= a < orders@.len() && 0 <= b < orders@.len() && a != b implies #[trigger] orders@[a].id
                    != #[trigger] orders@[b].id by {
                    assert(os[a].id != os[b].id);
                }
                assert forall|j: int| 0 <= j < os.len() && os[j].id == o.id implies #[trigger] orders@[j] == o by {
                    if j != i {
                        assert(os[j].id != os[i as int].id);
                    }
                }
            }
        },
        None => {},
    }
}


/// Queues the events of one submission: its trades, then the makers' new states,
/// then the submitted order's own state.
fn queue_submission_events(events: &mut Vec<WebSocketMessage>, trades: &Vec<Trade>, fills: &Vec<Fill>, last: Order)
    requires
        trades@.len() == fills@.len(),
    ensures
        ({
            let n = old(events)@.len() as int;
            let k = fills@.len() as int;
            let ev = final(events)@;
            &&& ev.len() == n + 2 * k + 1
            &&& ev.take(n) == old(events)@
            &&& forall|i: int| 0 <= i < k ==> ev[n + i] == WebSocketMessage::Trade(#[trigger] trades@[i])
            &&& forall|i: int| 0 <= i < k ==> ev[n + k + i] == WebSocketMessage::OrderUpdate(#[trigger] fills@[i].maker)
            &&& ev[n + 2 * k] == WebSocketMessage::OrderUpdate(last)
        }),
{
    let ghost n = events@.len() as int;
    let ghost k = fills@.len() as int;
    let ghost ev0 = events@;
    let mut i: usize = 0;
    while i < trades.len()
        invariant
            trades@.len() == k,
            n == ev0.len(),
            i <= k,
            events@.len() == n + i,
            forall|j: int| 0 <= j < n ==> events@[j] == ev0[j],
            forall|j: int| 0 <= j < i ==> events@[n + j] == WebSocketMessage::Trade(#[trigger] trades@[j]),
        decreases k - i,
    {
        events.push(WebSocketMessage::Trade(trades[i].duplicate()));
        i = i + 1;
    }
    let mut i: usize = 0;
    while i < fills.len()
        invariant
            trades@.len() == k,
            fills@.len() == k,
            n == ev0.len(),
            i <= k,
            events@.len() == n + k + i,
            forall|j: int| 0 <= j < n ==> events@[j] == ev0[j],
            forall|j: int| 0 <= j < k ==> events@[n + j] == WebSocketMessage::Trade(#[trigger] trades@[j]),
            forall|j: int| 0 <= j < i ==> events@[n + k + j] == WebSocketMessage::OrderUpdate(#[trigger] fills@[j].maker),
        decreases k - i,
    {
        events.push(WebSocketMessage::OrderUpdate(fills[i].maker.duplicate()));
        i = i + 1;
    }
    events.push(WebSocketMessage::OrderUpdate(last));
    proof {
        assert(events@.take(n) =~= ev0);
    }
}

/// The claim that active orders rest depends on the books and the orders alone.
proof fn lemma_rest_same(a: MatchingEngine, b: MatchingEngine)
    requires
        a.orderbooks == b.orderbooks,
        a.orders == b.orders,
        a.active_orders_rest(),
    ensures
        b.active_orders_rest(),
{
    assert forall|j: int| 0 <= j < b.orders@.len() && is_active(#[trigger] b.orders@[j].status) implies b.has_book(
        b.orders@[j].symbol,
    ) && b.book_of(b.orders@[j].symbol).contains(b.orders@[j].id) by {
        let s = b.orders@[j].symbol;
        assert(a.orders@[j] == b.orders@[j]);
        assert(a.has_book(s) == b.has_book(s));
        assert(a.book_of(s) == b.book_of(s));
    }
}

/// Changing only the book at `bi` (or adding it) leaves every other symbol's book alone.
proof fn lemma_books_kept(before: MatchingEngine, after: MatchingEngine, symbol: Symbol, bi: int)
    requires
        book_symbols_distinct(before.orderbooks@),
        book_symbols_distinct(after.orderbooks@),
        0 <= bi < after.orderbooks@.len(),
        same_symbol(after.orderbooks@[bi].symbol, symbol),
        bi < before.orderbooks@.len() ==> same_symbol(before.orderbooks@[bi].symbol, symbol),
        before.orderbooks@.len() <= after.orderbooks@.len(),
        forall|i: int| 0 <= i < after.orderbooks@.len() && i != bi ==> i < before.orderbooks@.len()
            && #[trigger] after.orderbooks@[i] == before.orderbooks@[i],
    ensures
        after.books_kept(before, symbol),
{
    assert forall|s: Symbol| !same_symbol(s, symbol) implies (#[trigger] after.has_book(s) == before.has_book(s)) && (
        before.has_book(s) ==> after.book_of(s) == before.book_of(s)) by {
        if before.has_book(s) {
            let i = choose|i: int| 0 <= i < before.orderbooks@.len() && same_symbol(#[trigger] before.orderbooks@[i].symbol, s);
            assert(i != bi);
            assert(after.orderbooks@[i] == before.orderbooks@[i]);
            before.lemma_book_of(s, i);
            after.lemma_book_of(s, i);
        }
        if after.has_book(s) {
            let i = choose|i: int| 0 <= i < after.orderbooks@.len() && same_symbol(#[trigger] after.orderbooks@[i].symbol, s);
            assert(i != bi);
            assert(after.orderbooks@[i] == before.orderbooks@[i]);
            assert(before.has_book(s));
        }
    }
}

/// The first validation rule an order breaks, if any.
pub fn validate_order(order: &Order) -> (r: Option<EngineError>)
    ensures
        r == validation_error(*order),
{
    if order.quantity == 0 {
        return Some(EngineError::InvalidQuantity);
    }
    match order.order_type {
        OrderType::StopLoss | OrderType::TakeProfit => {
            return Some(EngineError::UnsupportedOrderType);
        },
        OrderType::Limit => match order.price {
            None => {
                return Some(EngineError::MissingPrice);
            },
            Some(p) => {
                if p == 0 {
                    return Some(EngineError::InvalidPrice);
                }
            },
        },
        OrderType::Market => {},
    }
    if order.user_id.as_str().is_empty() {
        return Some(EngineError::EmptyUserId);
    }
    None
}

impl MatchingEngine {
    pub open spec fn wf(&self) -> bool {
        &&& forall|i: int| 0 <= i < self.orderbooks@.len() ==> (#[trigger] self.orderbooks@[i]).wf()
            && self.orderbooks@[i].uncrossed()
        &&& self.active_orders_rest()
        &&& book_symbols_distinct(self.orderbooks@)
        &&& order_ids_distinct(self.orders@)
        &&& summary_symbols_distinct(self.market_data@)
        &&& self.total_volume == volume_of(self.trades@)
    }

    /// Every active order (new or partly filled) rests in its symbol's book.
    pub open spec fn active_orders_rest(&self) -> bool {
        forall|j: int|
            0 <= j < self.orders@.len() && is_active(#[trigger] self.orders@[j].status) ==> self.has_book(
                self.orders@[j].symbol,
            ) && self.book_of(self.orders@[j].symbol).contains(self.orders@[j].id)
    }

    /// Whether some book holds this symbol, and which.
    pub open spec fn has_book(&self, symbol: Symbol) -> bool {
        exists|i: int| 0 <= i < self.orderbooks@.len() && same_symbol(#[trigger] self.orderbooks@[i].symbol, symbol)
    }

    pub open spec fn book_of(&self, symbol: Symbol) -> OrderBook
        recommends
            self.has_book(symbol),
    {
        let i = choose|i: int| 0 <= i < self.orderbooks@.len() && same_symbol(#[trigger] self.orderbooks@[i].symbol, symbol);
        self.orderbooks@[i]
    }

    pub open spec fn has_order(&self, id: u128) -> bool {
        exists|i: int| 0 <= i < self.orders@.len() && (#[trigger] self.orders@[i]).id == id
    }

    pub open spec fn order_of(&self, id: u128) -> Order
        recommends
            self.has_order(id),
    {
        let i = choose|i: int| 0 <= i < self.orders@.len() && (#[trigger] self.orders@[i]).id == id;
        self.orders@[i]
    }

    /// The resting orders on the side an order of `symbol` and `side` would rest on.
    pub open spec fn own_for(&self, symbol: Symbol, side: OrderSide) -> Seq<crate::types::OrderBookEntry> {
        if self.has_book(symbol) {
            self.book_of(symbol).side_of(side)
        } else {
            Seq::empty()
        }
    }

    /// The arrival number the next order resting in `symbol`'s book gets.
    pub open spec fn counter_for(&self, symbol: Symbol) -> u64 {
        if self.has_book(symbol) {
            self.book_of(symbol).priority_counter
        } else {
            0
        }
    }

    /// Every book of another symbol is as it was in `before`, and no such book appeared.
    pub open spec fn books_kept(&self, before: MatchingEngine, symbol: Symbol) -> bool {
        forall|s: Symbol|
            !same_symbol(s, symbol) ==> (#[trigger] self.has_book(s) == before.has_book(s)) && (
            before.has_book(s) ==> self.book_of(s) == before.book_of(s))
    }

    /// The resting orders an incoming order of `symbol` and `side` would meet.
    pub open spec fn opposite_for(&self, symbol: Symbol, side: OrderSide) -> Seq<crate::types::OrderBookEntry> {
        if self.has_book(symbol) {
            self.book_of(symbol).opposite_of(side)
        } else {
            Seq::empty()
        }
    }

    /// An engine with no books, orders or trades.
    pub fn new() -> (r: MatchingEngine)
        ensures
            r.wf(),
            r.orderbooks@.len() == 0,
            r.orders@.len() == 0,
            r.trades@.len() == 0,
            r.market_data@.len() == 0,
            r.events@.len() == 0,
    {
        MatchingEngine {
            orderbooks: Vec::new(),
            orders: Vec::new(),
            trades: Vec::new(),
            market_data: Vec::new(),
            total_volume: 0,
            start_time: now_millis(),
            events: Vec::new(),
        }
    }

    /// Recomputes the summary of a symbol from its latest trades and queues it.
    fn update_market_data(&mut self, symbol: &Symbol)
        requires
            old(self).wf(),
        ensures
            final(self).wf(),
            final(self).orderbooks == old(self).orderbooks,
            final(self).orders == old(self).orders,
            final(self).trades == old(self).trades,
            final(self).total_volume == old(self).total_volume,
            final(self).start_time == old(self).start_time,
            final(self).events@.len() == old(self).events@.len() + 1,
            final(self).events@.take(old(self).events@.len() as int) == old(self).events@,
            match final(self).events@.last() {
                WebSocketMessage::MarketData(md) => summary_of(md, *symbol, summary_window(final(self).trades@, *symbol)),
                _ => false,
            },
            exists|j: int|
                0 <= j < final(self).market_data@.len() && same_symbol(#[trigger] final(self).market_data@[j].symbol, *symbol)
                    && summary_of(final(self).market_data@[j], *symbol, summary_window(final(self).trades@, *symbol)),
            summaries_kept(old(self).market_data@, final(self).market_data@, *symbol),
    {
        let window = recent_trades(&self.trades, Some(symbol), Some(SUMMARY_WINDOW));
        let md = summarize(symbol, &window);
        let ghost ms = self.market_data@;
        let slot: usize = match find_summary(&self.market_data, symbol) {
            Some(j) => {
                self.market_data.set(j, md.duplicate());
                proof {
                    assert forall|a: int, b: int| 0 <= a < self.market_data@.len() && 0 <= b < self.market_data@.len() && a != b implies !same_symbol(
                        #[trigger] self.market_data@[a].symbol,
                        #[trigger] self.market_data@[b].symbol,
                    ) by {
                        assert(!same_symbol(ms[a].symbol, ms[b].symbol));
                    }
                    assert(same_symbol(self.market_data@[j as int].symbol, *symbol));
                    assert(summary_of(self.market_data@[j as int], *symbol, summary_window(self.trades@, *symbol)));
                }
                j
            },
            None => {
                self.market_data.push(md.duplicate());
                proof {
                    let n = ms.len() as int;
                    assert forall|a: int, b: int| 0 <= a < self.market_data@.len() && 0 <= b < self.market_data@.len() && a != b implies !same_symbol(
                        #[trigger] self.market_data@[a].symbol,
                        #[trigger] self.market_data@[b].symbol,
                    ) by {
                        if a < n && b < n {
                            assert(!same_symbol(ms[a].symbol, ms[b].symbol));
                        } else if a == n {
                            assert(!same_symbol(ms[b].symbol, *symbol));
                        } else {
                            assert(!same_symbol(ms[a].symbol, *symbol));
                        }
                    }
                    assert(same_symbol(self.market_data@[n].symbol, *symbol));
                    assert(summary_of(self.market_data@[n], *symbol, summary_window(self.trades@, *symbol)));
                }
                self.market_data.len() - 1
            },
        };
        let ghost ev = self.events@;
        self.events.push(WebSocketMessage::MarketData(md));
        proof {
            assert(self.events@.take(ev.len() as int) =~= ev);
            assert(summary_of(self.market_data@[slot as int], *symbol, summary_window(self.trades@, *symbol)));
            lemma_rest_same(*old(self), *self);
        }
    }

    /// Records the trades of one submission's fills, in fill order, and writes each
    /// maker's new state into the order index.
    fn record_fills(&mut self, fills: &Vec<Fill>, taker: &Order) -> (trades: Vec<Trade>)
        requires
            order_ids_distinct(old(self).orders@),
            old(self).total_volume == volume_of(old(self).trades@),
            forall|i: int| 0 <= i < fills@.len() ==> (#[trigger] fills@[i]).maker.side != taker.side,
            forall|i: int, j: int|
                0 <= i < fills@.len() && 0 <= j < fills@.len() && i != j ==> #[trigger] fills@[i].maker.id
                    != #[trigger] fills@[j].maker.id,
        ensures
            final(self).orderbooks == old(self).orderbooks,
            final(self).market_data == old(self).market_data,
            final(self).events == old(self).events,
            final(self).start_time == old(self).start_time,
            order_ids_distinct(final(self).orders@),
            final(self).total_volume == volume_of(final(self).trades@),
            final(self).orders@.len() == old(self).orders@.len(),
            forall|j: int| 0 <= j < old(self).orders@.len() ==> (#[trigger] final(self).orders@[j]).id == old(self).orders@[j].id,
            forall|j: int, i: int| 0 <= j < old(self).orders@.len() && 0 <= i < fills@.len() && old(self).orders@[j].id == fills@[i].maker.id
                ==> #[trigger] final(self).orders@[j] == #[trigger] fills@[i].maker,
            forall|j: int| 0 <= j < old(self).orders@.len() && (forall|i: int| 0 <= i < fills@.len() ==> fills@[i].maker.id != old(self).orders@[j].id)
                ==> #[trigger] final(self).orders@[j] == old(self).orders@[j],
            trades@.len() == fills@.len(),
            forall|i: int| 0 <= i < fills@.len() ==> trade_matches_fill(#[trigger] trades@[i], *taker, fills@[i]),
            final(self).trades@ == old(self).trades@ + trades@,
    {
        let ghost fs = fills@;
        let ghost orders0 = self.orders@;
        let mut trades: Vec<Trade> = Vec::new();
        let mut k: usize = 0;
        while k < fills.len()
            invariant
                fills@ == fs,
                k <= fs.len(),
                forall|i: int| 0 <= i < fs.len() ==> (#[trigger] fs[i]).maker.side != taker.side,
                forall|i: int, j: int| 0 <= i < fs.len() && 0 <= j < fs.len() && i != j ==> #[trigger] fs[i].maker.id != #[trigger] fs[j].maker.id,
                self.orderbooks == old(self).orderbooks,
                self.market_data == old(self).market_data,
                self.events == old(self).events,
                self.start_time == old(self).start_time,
                orders0 == old(self).orders@,
                order_ids_distinct(self.orders@),
                self.orders@.len() == orders0.len(),
                forall|j: int| 0 <= j < orders0.len() ==> (#[trigger] self.orders@[j]).id == orders0[j].id,
                forall|j: int, i: int| 0 <= j < orders0.len() && 0 <= i < k && orders0[j].id == fs[i].maker.id
                    ==> #[trigger] self.orders@[j] == #[trigger] fs[i].maker,
                forall|j: int| 0 <= j < orders0.len() && (forall|i: int| 0 <= i < k ==> fs[i].maker.id != orders0[j].id)
                    ==> #[trigger] self.orders@[j] == orders0[j],
                trades@.len() == k,
                forall|i: int| 0 <= i < k ==> trade_matches_fill(#[trigger] trades@[i], *taker, fs[i]),
                self.trades@ == old(self).trades@ + trades@,
                self.total_volume == volume_of(self.trades@),
            decreases fs.len() - k,
        {
            let f = &fills[k];
            let t = Trade::new(taker.symbol.duplicate(), taker, &f.maker, f.quantity, f.price);
            let ghost tr0 = self.trades@;
            let ghost ords = self.orders@;
            proof {
                assert(f.quantity * f.price <= u64::MAX * u64::MAX) by (nonlinear_arith)
                    requires f.quantity <= u64::MAX, f.price <= u64::MAX;
            }
            self.total_volume = self.total_volume.saturating_add((f.quantity as u128) * (f.price as u128));
            self.trades.push(t.duplicate());
            trades.push(t);
            record_order(&mut self.orders, f.maker.duplicate());
            proof {
                assert(self.trades@.drop_last() == tr0);
                assert(self.trades@ =~= old(self).trades@ + trades@);
                assert forall|j: int, i: int| 0 <= j < orders0.len() && 0 <= i < k + 1 && orders0[j].id == fs[i].maker.id
                    implies #[trigger] self.orders@[j] == #[trigger] fs[i].maker by {
                    if i < k {
                        assert(fs[i].maker.id != fs[k as int].maker.id);
                        assert(ords[j] == fs[i].maker);
                    }
                }
                assert forall|j: int| 0 <= j < orders0.len() && (forall|i: int| 0 <= i < k + 1 ==> fs[i].maker.id != orders0[j].id)
                    implies #[trigger] self.orders@[j] == orders0[j] by {
                    assert(fs[k as int].maker.id != orders0[j].id);
                    assert forall|i: int| 0 <= i < k implies fs[i].maker.id != orders0[j].id by {}
                }
            }
            k = k + 1;
        }
        trades
    }

    /// Validates an order, matches it against its symbol's book in price-time
    /// priority at the makers' prices, rests a limit residual (a market residual is
    /// rejected), records the trades, refreshes the symbol's summary, and queues
    /// events: the trades, the makers' updates, the order's own update, the summary.
    /// Returns the trades of this submission.
    #[verifier::rlimit(100)]
    #[verifier::spinoff_prover]
    pub fn submit_order(&mut self, order: Order) -> (r: Result<Vec<Trade>, EngineError>)
        requires
            old(self).wf(),
        ensures
            final(self).wf(),
            validation_error(order).is_some() ==> r == Err::<Vec<Trade>, EngineError>(
                validation_error(order).unwrap(),
            ),
            validation_error(order).is_none() && (old(self).has_order(order.id) || (old(self).has_book(
                order.symbol,
            ) && old(self).book_of(order.symbol).contains(order.id))) ==> r == Err::<
                Vec<Trade>,
                EngineError,
            >(EngineError::DuplicateOrderId),
            validation_error(order).is_none() && !old(self).has_order(order.id) && old(self).has_book(
                order.symbol,
            ) && !old(self).book_of(order.symbol).contains(order.id) && old(self).book_of(
                order.symbol,
            ).priority_counter == u64::MAX ==> r == Err::<Vec<Trade>, EngineError>(
                EngineError::CapacityExhausted,
            ),
            r.is_err() ==> *final(self) == *old(self),
            r.is_ok() <==> validation_error(order).is_none() && !old(self).has_order(order.id) && (
            !old(self).has_book(order.symbol) || (!old(self).book_of(order.symbol).contains(order.id)
                && old(self).book_of(order.symbol).priority_counter < u64::MAX)),
            r.is_ok() ==> {
                let (fs, rest, rem) = match_spec(
                    old(self).opposite_for(order.symbol, order.side),
                    fresh(order),
                    order.quantity,
                );
                let rests = rem > 0 && order.order_type == OrderType::Limit;
                let trades = r.unwrap();
                let k = fs.len() as int;
                let n = old(self).events@.len() as int;
                let ev = final(self).events@;
                let b = final(self).book_of(order.symbol);
                &&& trades@.len() == k
                &&& forall|i: int| 0 <= i < k ==> trade_matches_fill(#[trigger] trades@[i], order, fs[i])
                &&& final(self).trades@ == old(self).trades@ + trades@
                &&& final(self).orders@.len() == old(self).orders@.len() + 1
                &&& final(self).orders@.last() == settled(order, rem)
                &&& forall|j: int| 0 <= j < old(self).orders@.len() ==> (#[trigger] final(self).orders@[j]).id == old(self).orders@[j].id
                &&& forall|j: int, i: int| 0 <= j < old(self).orders@.len() && 0 <= i < k && old(self).orders@[j].id == fs[i].maker.id
                    ==> #[trigger] final(self).orders@[j] == #[trigger] fs[i].maker
                &&& forall|j: int| 0 <= j < old(self).orders@.len() && (forall|i: int| 0 <= i < k ==> fs[i].maker.id != old(self).orders@[j].id)
                    ==> #[trigger] final(self).orders@[j] == old(self).orders@[j]
                &&& final(self).has_book(order.symbol)
                &&& same_symbol(b.symbol, order.symbol)
                &&& b.opposite_of(order.side) == rest
                &&& b.contains(order.id) == rests
                &&& rests ==> inserted_in_priority(
                    old(self).own_for(order.symbol, order.side),
                    b.side_of(order.side),
                    crate::types::OrderBookEntry {
                        order: settled(order, rem),
                        priority: old(self).counter_for(order.symbol),
                    },
                    order.side,
                ) && b.priority_counter == old(self).counter_for(order.symbol) + 1
                &&& !rests ==> b.side_of(order.side) == old(self).own_for(order.symbol, order.side)
                    && b.priority_counter == old(self).counter_for(order.symbol)
                &&& final(self).books_kept(*old(self), order.symbol)
                &&& summaries_kept(old(self).market_data@, final(self).market_data@, order.symbol)
                &&& exists|j: int|
                    0 <= j < final(self).market_data@.len() && same_symbol(#[trigger] final(self).market_data@[j].symbol, order.symbol)
                        && summary_of(final(self).market_data@[j], order.symbol, summary_window(final(self).trades@, order.symbol))
                &&& ev.len() == n + 2 * k + 2
                &&& ev.take(n) == old(self).events@
                &&& forall|i: int| 0 <= i < k ==> ev[n + i] == WebSocketMessage::Trade(#[trigger] trades@[i])
                &&& forall|i: int| 0 <= i < k ==> ev[n + k + i] == WebSocketMessage::OrderUpdate(#[trigger] fs[i].maker)
                &&& ev[n + 2 * k] == WebSocketMessage::OrderUpdate(settled(order, rem))
                &&& match ev[n + 2 * k + 1] {
                    WebSocketMessage::MarketData(md) => summary_of(md, order.symbol, summary_window(final(self).trades@, order.symbol)),
                    _ => false,
                }
            },
    {
        match validate_order(&order) {
            Some(e) => {
                return Err(e);
            },
            None => {},
        }
        if find_order(&self.orders, order.id).is_some() {
            return Err(EngineError::DuplicateOrderId);
        }
        let found = find_book(&self.orderbooks, &order.symbol);
        match found {
            Some(bi) => {
                proof {
                    self.lemma_book_of(order.symbol, bi as int);
                }
                if self.orderbooks[bi].has_order(order.id) {
                    return Err(EngineError::DuplicateOrderId);
                }
                if self.orderbooks[bi].priority_counter == u64::MAX {
                    return Err(EngineError::CapacityExhausted);
                }
            },
            None => {},
        }
        // From here on the submission is accepted.
        let bi = self.book_slot(&order.symbol, found);
        let ghost bs_pre = self.orderbooks@;
        let ghost opp0 = old(self).opposite_for(order.symbol, order.side);
        let ghost own0 = old(self).own_for(order.symbol, order.side);
        let ghost c0 = old(self).counter_for(order.symbol);
        proof {
            if found.is_some() {
                old(self).lemma_book_of(order.symbol, bi as int);
            }
            assert(opp0 =~= bs_pre[bi as int].opposite_of(order.side));
            assert(own0 =~= bs_pre[bi as int].side_of(order.side));
            assert(c0 == bs_pre[bi as int].priority_counter);
        }
        let taker = order.duplicate();
        let mut incoming = Order {
            status: OrderStatus::New,
            filled_quantity: 0,
            remaining_quantity: order.quantity,
            ..order
        };
        assert(incoming == fresh(taker));
        let mut book = OrderBook::new(taker.symbol.duplicate());
        self.orderbooks.set_and_swap(bi, &mut book);
        let ghost book0 = book;
        let fills = book.place(&mut incoming);
        let ghost (fs, rest, rem) = match_spec(opp0, fresh(taker), taker.quantity);
        assert(fills@ == fs);
        assert(incoming == settled(taker, rem));
        proof {
            assert forall|i: int| 0 <= i < fs.len() implies (#[trigger] fs[i]).maker.id != taker.id by {
                assert(bs_pre[bi as int].contains(fs[i].maker.id));
            }
        }
        let ghost orders0 = self.orders@;
        let trades = self.record_fills(&fills, &taker);
        let ghost ords = self.orders@;
        self.orders.push(incoming.duplicate());
        proof {
            let n = ords.len() as int;
            assert forall|a: int, b: int| 0 <= a < self.orders@.len() && 0 <= b < self.orders@.len() && a != b implies #[trigger] self.orders@[a].id
                != #[trigger] self.orders@[b].id by {
                if a < n && b < n {
                    assert(ords[a].id != ords[b].id);
                } else if a == n {
                    assert(ords[b].id == orders0[b].id);
                } else {
                    assert(ords[a].id == orders0[a].id);
                }
            }
            assert forall|j: int| 0 <= j < n implies #[trigger] self.orders@[j] == ords[j] by {}
        }
        let ghost bs = self.orderbooks@;
        self.orderbooks.set(bi, book);
        proof {
            assert forall|a: int, b: int| 0 <= a < self.orderbooks@.len() && 0 <= b < self.orderbooks@.len() && a != b implies !same_symbol(
                #[trigger] self.orderbooks@[a].symbol,
                #[trigger] self.orderbooks@[b].symbol,
            ) by {
                assert(!same_symbol(bs_pre[a].symbol, bs_pre[b].symbol));
            }
            assert forall|i: int| 0 <= i < self.orderbooks@.len() implies (#[trigger] self.orderbooks@[i]).wf() && self.orderbooks@[i].uncrossed() by {
                if i != bi {
                    assert(self.orderbooks@[i] == bs_pre[i]);
                }
            }
        }
        let ghost bs_final = self.orderbooks@;
        // Events: trades, makers' updates, the order's own update.
        let ghost n = self.events@.len() as int;
        queue_submission_events(&mut self.events, &trades, &fills, incoming);
        assert(self.events@.take(n) == old(self).events@);
        let ghost ev2 = self.events@;
        proof {
            assert forall|i: int| 0 <= i < self.orderbooks@.len() && i != bi implies i < old(self).orderbooks@.len()
                && #[trigger] self.orderbooks@[i] == old(self).orderbooks@[i] by {
                assert(self.orderbooks@[i] == bs_pre[i]);
            }
            lemma_books_kept(*old(self), *self, order.symbol, bi as int);
            assert forall|j: int| 0 <= j < self.orders@.len() && is_active(#[trigger] self.orders@[j].status) implies self.has_book(
                self.orders@[j].symbol,
            ) && self.book_of(self.orders@[j].symbol).contains(self.orders@[j].id) by {
                let o = self.orders@[j];
                let n = orders0.len() as int;
                if j == n {
                    assert(o == settled(order, rem));
                    self.lemma_book_of(o.symbol, bi as int);
                } else {
                    let o0 = orders0[j];
                    assert(o == ords[j]);
                    if exists|i: int| 0 <= i < fs.len() && fs[i].maker.id == o0.id {
                        let i = choose|i: int| 0 <= i < fs.len() && fs[i].maker.id == o0.id;
                        assert(ords[j] == fs[i].maker);
                        assert(fills@[i] == fs[i]);
                        assert(o.remaining_quantity > 0);
                        self.lemma_book_of(o.symbol, bi as int);
                    } else {
                        assert(ords[j] == o0);
                        assert(old(self).orders@[j] == o0);
                        assert(old(self).has_book(o0.symbol) && old(self).book_of(o0.symbol).contains(o0.id));
                        if same_symbol(o0.symbol, order.symbol) {
                            if found.is_none() {
                                let w = choose|w: int| 0 <= w < old(self).orderbooks@.len() && same_symbol(#[trigger] old(self).orderbooks@[w].symbol, o0.symbol);
                                assert(same_symbol(old(self).orderbooks@[w].symbol, order.symbol));
                                assert(old(self).has_book(order.symbol));
                            }
                            old(self).lemma_book_of(o0.symbol, bi as int);
                            assert(book0.contains(o0.id));
                            assert(forall|i: int| 0 <= i < fills@.len() ==> fills@[i].maker.id != o0.id);
                            self.lemma_book_of(o0.symbol, bi as int);
                        } else {
                            assert(self.has_book(o0.symbol) == old(self).has_book(o0.symbol));
                            assert(self.book_of(o0.symbol) == old(self).book_of(o0.symbol));
                        }
                    }
                }
            }
        }
        let ghost mid = *self;
        self.update_market_data(&taker.symbol);
        proof {
            assert forall|j: int| 0 <= j < ev2.len() implies self.events@[j] == ev2[j] by {
                assert(self.events@.take(ev2.len() as int)[j] == self.events@[j]);
            }
            assert(self.events@.take(n) =~= ev2.take(n));
            assert(self.orderbooks == mid.orderbooks);
            assert(self.orderbooks@ == bs_final);
            self.lemma_book_of(order.symbol, bi as int);
            assert forall|i: int| 0 <= i < self.orderbooks@.len() && i != bi implies i < old(self).orderbooks@.len()
                && #[trigger] self.orderbooks@[i] == old(self).orderbooks@[i] by {
                assert(self.orderbooks@[i] == bs_pre[i]);
            }
            lemma_books_kept(*old(self), *self, order.symbol, bi as int);
        }
        Ok(trades)
    }

    /// The index of the book of `symbol`, adding an empty one at the end when `found`
    /// (the result of looking it up) is `None`.
    fn book_slot(&mut self, symbol: &Symbol, found: Option<usize>) -> (bi: usize)
        requires
            old(self).wf(),
            match found {
                Some(i) => i < old(self).orderbooks@.len() && same_symbol(old(self).orderbooks@[i as int].symbol, *symbol)
                    && old(self).orderbooks@[i as int].priority_counter < u64::MAX,
                None => forall|j: int| 0 <= j < old(self).orderbooks@.len() ==> !same_symbol(#[trigger] old(self).orderbooks@[j].symbol, *symbol),
            },
        ensures
            final(self).wf(),
            final(self).orders == old(self).orders,
            final(self).trades == old(self).trades,
            final(self).market_data == old(self).market_data,
            final(self).events == old(self).events,
            final(self).total_volume == old(self).total_volume,
            final(self).start_time == old(self).start_time,
            bi < final(self).orderbooks@.len(),
            same_symbol(final(self).orderbooks@[bi as int].symbol, *symbol),
            final(self).orderbooks@[bi as int].priority_counter < u64::MAX,
            forall|i: int| 0 <= i < old(self).orderbooks@.len() ==> #[trigger] final(self).orderbooks@[i] == old(self).orderbooks@[i],
            match found {
                Some(i) => bi == i && final(self).orderbooks == old(self).orderbooks,
                None => {
                    &&& bi == old(self).orderbooks@.len()
                    &&& final(self).orderbooks@.len() == old(self).orderbooks@.len() + 1
                    &&& final(self).orderbooks@[bi as int].bids@.len() == 0
                    &&& final(self).orderbooks@[bi as int].asks@.len() == 0
                    &&& final(self).orderbooks@[bi as int].priority_counter == 0
                    &&& final(self).orderbooks@[bi as int].symbol == *symbol
                },
            },
            !old(self).has_book(*symbol) <==> found.is_none(),
    {
        match found {
            Some(i) => i,
            None => {
                let ghost bs = self.orderbooks@;
                self.orderbooks.push(OrderBook::new(symbol.duplicate()));
                proof {
                    let n = bs.len() as int;
                    assert forall|a: int, b: int| 0 <= a < self.orderbooks@.len() && 0 <= b < self.orderbooks@.len() && a != b implies !same_symbol(
                        #[trigger] self.orderbooks@[a].symbol,
                        #[trigger] self.orderbooks@[b].symbol,
                    ) by {
                        if a < n && b < n {
                            assert(!same_symbol(bs[a].symbol, bs[b].symbol));
                        } else if a == n {
                            assert(!same_symbol(bs[b].symbol, *symbol));
                        } else {
                            assert(!same_symbol(bs[a].symbol, *symbol));
                        }
                    }
                    assert forall|i: int| 0 <= i < self.orderbooks@.len() implies (#[trigger] self.orderbooks@[i]).wf() && self.orderbooks@[i].uncrossed() by {
                        if i < n {
                            assert(self.orderbooks@[i] == bs[i]);
                        }
                    }
                    lemma_books_kept(*old(self), *self, *symbol, n);
                    assert forall|j: int| 0 <= j < self.orders@.len() && is_active(#[trigger] self.orders@[j].status) implies self.has_book(
                        self.orders@[j].symbol,
                    ) && self.book_of(self.orders@[j].symbol).contains(self.orders@[j].id) by {
                        let s = self.orders@[j].symbol;
                        if same_symbol(s, *symbol) {
                            let w = choose|w: int| 0 <= w < bs.len() && same_symbol(#[trigger] bs[w].symbol, s);
                            assert(!same_symbol(bs[w].symbol, *symbol));
                        }
                    }
                }
                self.orderbooks.len() - 1
            },
        }
    }

    /// In a well-formed engine no book is crossed: when both sides hold orders, the best
    /// bid is below the best ask, so the spread is positive.
    pub proof fn lemma_spread_nonnegative(&self, symbol: Symbol)
        requires
            self.wf(),
            self.has_book(symbol),
        ensures
            ({
                let b = self.book_of(symbol);
                b.bids@.len() > 0 && b.asks@.len() > 0 ==> crate::orderbook::entry_price(b.bids@[0])
                    < crate::orderbook::entry_price(b.asks@[0])
            }),
    {
        let i = choose|i: int| 0 <= i < self.orderbooks@.len() && same_symbol(#[trigger] self.orderbooks@[i].symbol, symbol);
        assert(self.orderbooks@[i].uncrossed());
    }

    /// With distinct book symbols, the book of a symbol is the one at its index.
    proof fn lemma_book_of(&self, symbol: Symbol, i: int)
        requires
            book_symbols_distinct(self.orderbooks@),
            0 <= i < self.orderbooks@.len(),
            same_symbol(self.orderbooks@[i].symbol, symbol),
        ensures
            self.has_book(symbol),
            self.book_of(symbol) == self.orderbooks@[i],
    {
        let j = choose|j: int| 0 <= j < self.orderbooks@.len() && same_symbol(#[trigger] self.orderbooks@[j].symbol, symbol);
        if j != i {
            assert(!same_symbol(self.orderbooks@[i].symbol, self.orderbooks@[j].symbol));
        }
    }

    /// With distinct identifiers, the order with an identifier is the one at its index.
    proof fn lemma_order_of(&self, id: u128, i: int)
        requires
            order_ids_distinct(self.orders@),
            0 <= i < self.orders@.len(),
            self.orders@[i].id == id,
        ensures
            self.has_order(id),
            self.order_of(id) == self.orders@[i],
    {
        let j = choose|j: int| 0 <= j < self.orders@.len() && (#[trigger] self.orders@[j]).id == id;
        if j != i {
            assert(self.orders@[i].id != self.orders@[j].id);
        }
    }

    /// Cancels an active order on behalf of its owner: it leaves its book, is
    /// recorded as cancelled, and its update is queued.
    #[verifier::spinoff_prover]
    pub fn cancel_order(&mut self, order_id: u128, user_id: String) -> (r: Result<Order, EngineError>)
        requires
            old(self).wf(),
        ensures
            final(self).wf(),
            !old(self).has_order(order_id) ==> r == Err::<Order, EngineError>(EngineError::OrderNotFound),
            old(self).has_order(order_id) ==> {
                let o = old(self).order_of(order_id);
                &&& o.user_id@ != user_id@ ==> r == Err::<Order, EngineError>(EngineError::Unauthorized)
                &&& o.user_id@ == user_id@ && o.status == OrderStatus::Filled ==> r == Err::<Order, EngineError>(EngineError::AlreadyFilled)
                &&& o.user_id@ == user_id@ && o.status == OrderStatus::Cancelled ==> r == Err::<Order, EngineError>(EngineError::AlreadyCancelled)
                &&& o.user_id@ == user_id@ && o.status == OrderStatus::Rejected ==> r == Err::<Order, EngineError>(EngineError::AlreadyRejected)
                &&& r.is_ok() <==> o.user_id@ == user_id@ && is_active(o.status)
                &&& r.is_ok() ==> {
                    let c = r.unwrap();
                    &&& c == Order { status: OrderStatus::Cancelled, ..o }
                    &&& removed_from(old(self).book_of(o.symbol), final(self).book_of(o.symbol), order_id)
                    &&& final(self).books_kept(*old(self), o.symbol)
                    &&& final(self).market_data == old(self).market_data
                    &&& final(self).orders@.len() == old(self).orders@.len()
                    &&& forall|j: int| 0 <= j < old(self).orders@.len() ==> #[trigger] final(self).orders@[j]
                        == if old(self).orders@[j].id == order_id { c } else { old(self).orders@[j] }
                    &&& final(self).has_book(o.symbol)
                    &&& !final(self).book_of(o.symbol).contains(order_id)
                    &&& forall|id: u128| id != order_id ==> (#[trigger] final(self).book_of(o.symbol).contains(id)
                        <==> old(self).book_of(o.symbol).contains(id))
                    &&& final(self).trades == old(self).trades
                    &&& final(self).events@ == old(self).events@.push(WebSocketMessage::OrderUpdate(c))
                }
            },
            r.is_err() ==> *final(self) == *old(self),
    {
        let oi = match find_order(&self.orders, order_id) {
            Some(i) => i,
            None => {
                return Err(EngineError::OrderNotFound);
            },
        };
        proof {
            self.lemma_order_of(order_id, oi as int);
        }
        let o = &self.orders[oi];
        let base = o.duplicate();
        if o.user_id != user_id {
            return Err(EngineError::Unauthorized);
        }
        match o.status {
            OrderStatus::Filled => {
                return Err(EngineError::AlreadyFilled);
            },
            OrderStatus::Cancelled => {
                return Err(EngineError::AlreadyCancelled);
            },
            OrderStatus::Rejected => {
                return Err(EngineError::AlreadyRejected);
            },
            _ => {},
        }
        proof {
            assert(is_active(self.orders@[oi as int].status));
            assert(old(self).has_book(o.symbol) && old(self).book_of(o.symbol).contains(order_id));
        }
        let sym = o.symbol.duplicate();
        let bi = match find_book(&self.orderbooks, &sym) {
            Some(bi) => bi,
            None => {
                return Err(EngineError::OrderNotFound);
            },
        };
        proof {
            self.lemma_book_of(sym, bi as int);
        }
        if !self.orderbooks[bi].has_order(order_id) {
            return Err(EngineError::OrderNotFound);
        }
        let mut book = OrderBook::new(sym.duplicate());
        self.orderbooks.set_and_swap(bi, &mut book);
        let ghost book0 = book;
        let removed = book.remove_order(order_id);
        let ghost bs = self.orderbooks@;
        self.orderbooks.set(bi, book);
        let cancelled = match removed {
            Ok(_) => Order { status: OrderStatus::Cancelled, ..base },
            Err(_) => {
                // Not reached: the book holds the order.
                proof {
                    assert(false);
                }
                return Err(EngineError::OrderNotFound);
            },
        };
        proof {
            assert forall|a: int, b: int| 0 <= a < self.orderbooks@.len() && 0 <= b < self.orderbooks@.len() && a != b implies !same_symbol(
                #[trigger] self.orderbooks@[a].symbol,
                #[trigger] self.orderbooks@[b].symbol,
            ) by {
                assert(!same_symbol(bs[a].symbol, bs[b].symbol));
            }
            assert forall|i: int| 0 <= i < self.orderbooks@.len() implies (#[trigger] self.orderbooks@[i]).wf() && self.orderbooks@[i].uncrossed() by {
                if i != bi {
                    assert(self.orderbooks@[i] == bs[i]);
                }
            }
            self.lemma_book_of(sym, bi as int);
            assert(removed_from(book0, book, order_id));
            assert(book0 == old(self).book_of(sym));
            assert(book == self.book_of(sym));
        }
        let ghost ords = self.orders@;
        self.orders.set(oi, cancelled.duplicate());
        proof {
            assert forall|a: int, b: int| 0 <= a < self.orders@.len() && 0 <= b < self.orders@.len() && a != b implies #[trigger] self.orders@[a].id
                != #[trigger] self.orders@[b].id by {
                assert(ords[a].id != ords[b].id);
            }
            assert forall|j: int| 0 <= j < ords.len() implies #[trigger] self.orders@[j]
                == if ords[j].id == order_id { cancelled } else { ords[j] } by {
                if j != oi {
                    assert(ords[j].id != ords[oi as int].id);
                }
            }
        }
        self.events.push(WebSocketMessage::OrderUpdate(cancelled.duplicate()));
        proof {
            assert forall|i: int| 0 <= i < self.orderbooks@.len() && i != bi implies i < old(self).orderbooks@.len()
                && #[trigger] self.orderbooks@[i] == old(self).orderbooks@[i] by {
                assert(self.orderbooks@[i] == bs[i]);
            }
            lemma_books_kept(*old(self), *self, sym, bi as int);
            self.lemma_book_of(sym, bi as int);
            assert forall|j: int| 0 <= j < self.orders@.len() && is_active(#[trigger] self.orders@[j].status) implies self.has_book(
                self.orders@[j].symbol,
            ) && self.book_of(self.orders@[j].symbol).contains(self.orders@[j].id) by {
                let o2 = ords[j];
                assert(j != oi);
                assert(self.orders@[j] == o2);
                assert(o2 == old(self).orders@[j]);
                assert(o2.id != order_id);
                assert(old(self).has_book(o2.symbol) && old(self).book_of(o2.symbol).contains(o2.id));
                if same_symbol(o2.symbol, sym) {
                    old(self).lemma_book_of(o2.symbol, bi as int);
                    self.lemma_book_of(o2.symbol, bi as int);
                    assert(book0.contains(o2.id));
                    assert(book.contains(o2.id));
                } else {
                    assert(self.has_book(o2.symbol) == old(self).has_book(o2.symbol));
                    assert(self.book_of(o2.symbol) == old(self).book_of(o2.symbol));
                }
            }
        }
        Ok(cancelled)
    }

    /// The order with this identifier.
    pub fn get_order(&self, order_id: u128) -> (r: Option<Order>)
        requires
            self.wf(),
        ensures
            r == if self.has_order(order_id) {
                Some(self.order_of(order_id))
            } else {
                None
            },
    {
        match find_order(&self.orders, order_id) {
            Some(i) => {
                proof {
                    self.lemma_order_of(order_id, i as int);
                }
                Some(self.orders[i].duplicate())
            },
            None => None,
        }
    }

    /// Every order of a user, in submission order.
    pub fn get_user_orders(&self, user_id: &str) -> (r: Vec<Order>)
        ensures
            r@ == orders_of_user(self.orders@, user_id@),
    {
        let user: String = user_id.to_owned();
        let mut out: Vec<Order> = Vec::new();
        let mut i: usize = 0;
        while i < self.orders.len()
            invariant
                i <= self.orders@.len(),
                user@ == user_id@,
                out@ == orders_of_user(self.orders@.take(i as int), user_id@),
            decreases self.orders@.len() - i,
        {
            proof {
                assert(self.orders@.take(i + 1).drop_last() =~= self.orders@.take(i as int));
            }
            if self.orders[i].user_id == user {
                out.push(self.orders[i].duplicate());
            }
            i = i + 1;
        }
        proof {
            assert(self.orders@.take(i as int) =~= self.orders@);
        }
        out
    }

    /// Aggregated depth of a symbol's book, if the symbol has one.
    pub fn get_orderbook_depth(&self, symbol: &Symbol, depth: Option<usize>) -> (r: Option<OrderBookDepth>)
        requires
            self.wf(),
        ensures
            r.is_some() == self.has_book(*symbol),
            r.is_some() ==> {
                let b = self.book_of(*symbol);
                let d = r.unwrap();
                &&& d.symbol == b.symbol
                &&& d.bids@ == top_levels(levels_of(b.bids@), depth)
                &&& d.asks@ == top_levels(levels_of(b.asks@), depth)
            },
    {
        match find_book(&self.orderbooks, symbol) {
            Some(bi) => {
                proof {
                    self.lemma_book_of(*symbol, bi as int);
                }
                Some(self.orderbooks[bi].get_depth(depth))
            },
            None => None,
        }
    }

    /// The summary of a symbol, if it has traded or been submitted to.
    pub fn get_market_data(&self, symbol: &Symbol) -> (r: Option<MarketData>)
        ensures
            r.is_none() == forall|j: int| 0 <= j < self.market_data@.len() ==> !same_symbol(#[trigger] self.market_data@[j].symbol, *symbol),
            r.is_some() ==> exists|j: int| 0 <= j < self.market_data@.len() && same_symbol(#[trigger] self.market_data@[j].symbol, *symbol)
                && r == Some(self.market_data@[j]),
    {
        match find_summary(&self.market_data, symbol) {
            Some(j) => Some(self.market_data[j].duplicate()),
            None => None,
        }
    }

    /// Every summary.
    pub fn get_all_market_data(&self) -> (r: Vec<MarketData>)
        ensures
            r@ == self.market_data@,
    {
        let mut out: Vec<MarketData> = Vec::new();
        let mut i: usize = 0;
        while i < self.market_data.len()
            invariant
                i <= self.market_data@.len(),
                out@ == self.market_data@.take(i as int),
            decreases self.market_data@.len() - i,
        {
            out.push(self.market_data[i].duplicate());
            proof {
                assert(self.market_data@.take(i + 1) =~= self.market_data@.take(i as int).push(self.market_data@[i as int]));
            }
            i = i + 1;
        }
        proof {
            assert(self.market_data@.take(i as int) =~= self.market_data@);
        }
        out
    }

    /// Counters: orders submitted, trades made, traded volume, orders still active,
    /// and whole seconds since the engine started.
    pub fn get_stats(&self) -> (r: EngineStats)
        requires
            self.wf(),
        ensures
            r.total_orders == self.orders@.len(),
            r.total_trades == self.trades@.len(),
            r.total_volume == volume_of(self.trades@),
            r.active_orders == active_count(self.orders@),
    {
        let mut active: u64 = 0;
        let mut i: usize = 0;
        while i < self.orders.len()
            invariant
                i <= self.orders@.len(),
                active == active_count(self.orders@.take(i as int)),
                active <= i,
            decreases self.orders@.len() - i,
        {
            proof {
                assert(self.orders@.take(i + 1).drop_last() =~= self.orders@.take(i as int));
            }
            match self.orders[i].status {
                OrderStatus::New | OrderStatus::PartiallyFilled => {
                    active = active + 1;
                },
                _ => {},
            }
            i = i + 1;
        }
        proof {
            assert(self.orders@.take(i as int) =~= self.orders@);
        }
        let now = now_millis();
        let uptime: u64 = if now > self.start_time {
            let ms = (now as i128 - self.start_time as i128) as u128;
            let secs = ms / 1000;
            if secs > u64::MAX as u128 {
                u64::MAX
            } else {
                secs as u64
            }
        } else {
            0
        };
        EngineStats {
            total_orders: self.orders.len() as u64,
            total_trades: self.trades.len() as u64,
            total_volume: self.total_volume,
            active_orders: active,
            uptime_seconds: uptime,
        }
    }

    /// Trades of a symbol (all when `None`), newest first, at most `limit`.
    pub fn get_trades(&self, symbol: Option<&Symbol>, limit: Option<usize>) -> (r: Vec<Trade>)
        ensures
            r@ == capped(
                newest_first(
                    self.trades@,
                    match symbol {
                        Some(s) => Some(*s),
                        None => None,
                    },
                ),
                limit,
            ),
    {
        recent_trades(&self.trades, symbol, limit)
    }

    /// Hands over the queued events, oldest first, and empties the queue.
    pub fn take_events(&mut self) -> (r: Vec<WebSocketMessage>)
        requires
            old(self).wf(),
        ensures
            final(self).wf(),
            r@ == old(self).events@,
            final(self).events@.len() == 0,
            final(self).orderbooks == old(self).orderbooks,
            final(self).orders == old(self).orders,
            final(self).trades == old(self).trades,
            final(self).market_data == old(self).market_data,
    {
        let mut out: Vec<WebSocketMessage> = Vec::new();
        std::mem::swap(&mut out, &mut self.events);
        proof {
            lemma_rest_same(*old(self), *self);
        }
        out
    }
}

} // verus!
