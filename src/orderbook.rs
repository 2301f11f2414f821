use vstd::prelude::*;

use crate::types::{
    marketable, now_millis, order_balanced, same_symbol, Order, OrderBookDepth,
    OrderBookEntry, OrderSide, OrderStatus, OrderType, PriceLevel, Symbol,
};

verus! {

/// Why a book operation was refused.
#[derive(Debug, Clone, Copy, PartialEq, Eq, Structural)]
pub enum BookError {
    SymbolMismatch,
    NonPositiveQuantity,
    /// The order has no price, or a price of zero, so it cannot rest.
    InvalidPrice,
    /// The order's filled and remaining quantities do not add up to its quantity.
    InconsistentQuantities,
    /// An order with the same identifier is already resting.
    DuplicateOrder,
    NotFound,
    /// An update asked to raise the remaining quantity.
    QuantityIncrease,
}

/// One execution against a resting order: the maker as it stands after the fill,
/// the quantity taken and the price (the maker's).
#[derive(Debug, Clone)]
pub struct Fill {
    pub maker: Order,
    pub quantity: u64,
    pub price: u64,
}

pub open spec fn entry_price(e: OrderBookEntry) -> u64 {
    e.order.price.unwrap()
}

/// Strict price-time priority on a side: better price first, then earlier arrival.
pub open spec fn ahead(side: OrderSide, a: OrderBookEntry, b: OrderBookEntry) -> bool {
    if entry_price(a) == entry_price(b) {
        a.priority < b.priority
    } else {
        match side {
            OrderSide::Buy => entry_price(a) > entry_price(b),
            OrderSide::Sell => entry_price(a) < entry_price(b),
        }
    }
}

/// A price strictly worse than `price` on `side`.
pub open spec fn worse_price(side: OrderSide, p: u64, price: u64) -> bool {
    match side {
        OrderSide::Buy => p < price,
        OrderSide::Sell => p > price,
    }
}

pub open spec fn entry_ok(e: OrderBookEntry, side: OrderSide, symbol: Symbol, counter: u64) -> bool {
    &&& e.order.side == side
    &&& same_symbol(e.order.symbol, symbol)
    &&& e.order.price.is_some()
    &&& entry_price(e) > 0
    &&& e.order.remaining_quantity > 0
    &&& order_balanced(e.order)
    &&& e.priority < counter
}

pub open spec fn has_id(s: Seq<OrderBookEntry>, id: u128) -> bool {
    exists|i: int| 0 <= i < s.len() && #[trigger] s[i].order.id == id
}

pub open spec fn ids_unique(s: Seq<OrderBookEntry>) -> bool {
    forall|i: int, j: int|
        0 <= i < s.len() && 0 <= j < s.len() && i != j ==> #[trigger] s[i].order.id
            != #[trigger] s[j].order.id
}

/// One side of a book: every entry resting correctly, in strict priority order,
/// identifiers distinct.
pub open spec fn side_wf(s: Seq<OrderBookEntry>, side: OrderSide, symbol: Symbol, counter: u64) -> bool {
    &&& forall|i: int| 0 <= i < s.len() ==> entry_ok(#[trigger] s[i], side, symbol, counter)
    &&& forall|i: int, j: int|
        0 <= i < j < s.len() ==> ahead(side, #[trigger] s[i], #[trigger] s[j])
    &&& ids_unique(s)
}

/// The order after its remaining quantity is set to `rem`.
pub open spec fn with_remaining(o: Order, rem: u64) -> Order {
    Order {
        remaining_quantity: rem,
        filled_quantity: (o.quantity - rem) as u64,
        status: if rem == 0 {
            OrderStatus::Filled
        } else if rem < o.quantity {
            OrderStatus::PartiallyFilled
        } else {
            o.status
        },
        ..o
    }
}

/// Matching of an incoming order with `rem` left against the opposite side `opp`
/// (given in priority order). Returns the fills, what is left of the side, and
/// what is left of the incoming quantity.
pub open spec fn match_spec(opp: Seq<OrderBookEntry>, incoming: Order, rem: u64) -> (Seq<Fill>, Seq<
    OrderBookEntry,
>, u64)
    decreases opp.len(),
{
    if rem == 0 || opp.len() == 0 || !marketable(incoming, entry_price(opp[0])) {
        (Seq::empty(), opp, rem)
    } else {
        let e = opp[0];
        if rem >= e.order.remaining_quantity {
            let f = Fill {
                maker: with_remaining(e.order, 0),
                quantity: e.order.remaining_quantity,
                price: entry_price(e),
            };
            let next = match_spec(opp.skip(1), incoming, (rem - e.order.remaining_quantity) as u64);
            (seq![f] + next.0, next.1, next.2)
        } else {
            let left = (e.order.remaining_quantity - rem) as u64;
            let f = Fill { maker: with_remaining(e.order, left), quantity: rem, price: entry_price(e) };
            (
                seq![f],
                opp.update(0, OrderBookEntry { order: with_remaining(e.order, left), ..e }),
                0,
            )
        }
    }
}

pub open spec fn fills_total(fs: Seq<Fill>) -> int
    decreases fs.len(),
{
    if fs.len() == 0 {
        0
    } else {
        fs[0].quantity + fills_total(fs.skip(1))
    }
}

/// The entry keeps its place: same order identity, price and arrival.
pub open spec fn same_slot(a: OrderBookEntry, b: OrderBookEntry) -> bool {
    &&& a.order.id == b.order.id
    &&& a.priority == b.priority
    &&& a.order.price == b.order.price
    &&& a.order.side == b.order.side
    &&& a.order.symbol == b.order.symbol
    &&& a.order.quantity == b.order.quantity
    &&& a.order.user_id == b.order.user_id
}

/// What matching does: fill `i` is taken from the `i`-th resting entry in priority
/// order, at that entry's price, for a positive quantity no larger than either side
/// had left; every entry but possibly the last one touched is used up and leaves;
/// the quantities taken add up to what the incoming order lost.
pub proof fn lemma_match_shape(opp: Seq<OrderBookEntry>, incoming: Order, rem: u64)
    requires
        forall|i: int|
            0 <= i < opp.len() ==> (#[trigger] opp[i]).order.remaining_quantity > 0
                && order_balanced(opp[i].order) && opp[i].order.price.is_some(),
    ensures
        ({
            let (fs, rest, r) = match_spec(opp, incoming, rem);
            let d = opp.len() - rest.len();
            &&& r <= rem
            &&& fills_total(fs) == rem - r
            &&& fs.len() <= opp.len()
            &&& d == fs.len() || (d == fs.len() - 1 && r == 0)
            &&& forall|i: int|
                0 <= i < fs.len() ==> {
                    &&& (#[trigger] fs[i]).maker.id == opp[i].order.id
                    &&& fs[i].price == entry_price(opp[i])
                    &&& 0 < fs[i].quantity <= opp[i].order.remaining_quantity
                    &&& fs[i].quantity <= rem
                    &&& marketable(incoming, entry_price(opp[i]))
                    &&& fs[i].maker == with_remaining(
                        opp[i].order,
                        (opp[i].order.remaining_quantity - fs[i].quantity) as u64,
                    )
                }
            &&& forall|i: int|
                0 <= i < fs.len() - 1 ==> (#[trigger] fs[i]).quantity
                    == opp[i].order.remaining_quantity
            &&& forall|j: int|
                0 <= j < rest.len() ==> {
                    &&& same_slot(#[trigger] rest[j], opp[j + d])
                    &&& rest[j].order.remaining_quantity > 0
                    &&& order_balanced(rest[j].order)
                    &&& (j > 0 || d == fs.len() ==> rest[j] == opp[j + d])
                }
            &&& (r > 0 && rest.len() > 0 ==> !marketable(incoming, entry_price(rest[0])))
            &&& forall|i: int|
                0 <= i < fs.len() && (#[trigger] fs[i]).quantity < opp[i].order.remaining_quantity ==> d == i
                    && rest.len() > 0 && rest[0].order.id == opp[i].order.id
        }),
    decreases opp.len(),
{
    if rem == 0 || opp.len() == 0 || !marketable(incoming, entry_price(opp[0])) {
    } else {
        let e = opp[0];
        if rem >= e.order.remaining_quantity {
            let tail = opp.skip(1);
            let nrem = (rem - e.order.remaining_quantity) as u64;
            assert forall|i: int| 0 <= i < tail.len() implies (#[trigger] tail[i]).order.remaining_quantity
                > 0 && order_balanced(tail[i].order) && tail[i].order.price.is_some() by {
                assert(tail[i] == opp[i + 1]);
            }
            lemma_match_shape(tail, incoming, nrem);
            let (fs1, rest, r) = match_spec(tail, incoming, nrem);
            let f = Fill {
                maker: with_remaining(e.order, 0),
                quantity: e.order.remaining_quantity,
                price: entry_price(e),
            };
            let fs = seq![f] + fs1;
            let d1 = tail.len() - rest.len();
            assert(fs.skip(1) =~= fs1);
            assert(fs[0] == f);
            assert(fills_total(fs) == f.quantity + fills_total(fs.skip(1)));
            assert forall|i: int| 0 < i < opp.len() implies #[trigger] opp[i] == tail[i - 1] by {}
            assert forall|i: int| 0 <= i < fs.len() implies {
                &&& (#[trigger] fs[i]).maker.id == opp[i].order.id
                &&& fs[i].price == entry_price(opp[i])
                &&& 0 < fs[i].quantity <= opp[i].order.remaining_quantity
                &&& fs[i].quantity <= rem
                &&& marketable(incoming, entry_price(opp[i]))
                &&& fs[i].maker == with_remaining(
                    opp[i].order,
                    (opp[i].order.remaining_quantity - fs[i].quantity) as u64,
                )
            } by {
                if i > 0 {
                    assert(fs[i] == fs1[i - 1]);
                    assert(opp[i] == tail[i - 1]);
                }
            }
            assert forall|i: int| 0 <= i < fs.len() - 1 implies (#[trigger] fs[i]).quantity
                == opp[i].order.remaining_quantity by {
                if i > 0 {
                    assert(fs[i] == fs1[i - 1]);
                    assert(opp[i] == tail[i - 1]);
                }
            }
            assert forall|j: int| 0 <= j < rest.len() implies {
                &&& same_slot(#[trigger] rest[j], opp[j + (opp.len() - rest.len())])
                &&& rest[j].order.remaining_quantity > 0
                &&& order_balanced(rest[j].order)
                &&& (j > 0 || opp.len() - rest.len() == fs.len() ==> rest[j] == opp[j + (opp.len() - rest.len())])
            } by {
                assert(opp[j + d1 + 1] == tail[j + d1]);
            }
            assert forall|i: int|
                0 <= i < fs.len() && (#[trigger] fs[i]).quantity < opp[i].order.remaining_quantity implies
                    opp.len() - rest.len() == i && rest.len() > 0 && rest[0].order.id == opp[i].order.id by {
                if i > 0 {
                    assert(fs[i] == fs1[i - 1]);
                    assert(opp[i] == tail[i - 1]);
                }
            }
        } else {
            let left = (e.order.remaining_quantity - rem) as u64;
            let f = Fill { maker: with_remaining(e.order, left), quantity: rem, price: entry_price(e) };
            let fs = seq![f];
            assert(fs.skip(1) =~= Seq::<Fill>::empty());
            assert(fills_total(fs) == f.quantity + fills_total(fs.skip(1)));
        }
    }
}

/// A limit order with quantity left after matching does not cross what is left of the
/// opposite side: a buy is priced below the best remaining ask, a sell above the best
/// remaining bid. Resting that residual therefore keeps the best ask above the best bid.
pub proof fn lemma_residual_does_not_cross(opp: Seq<OrderBookEntry>, incoming: Order, rem: u64)
    requires
        forall|i: int|
            0 <= i < opp.len() ==> (#[trigger] opp[i]).order.remaining_quantity > 0
                && order_balanced(opp[i].order) && opp[i].order.price.is_some(),
        incoming.order_type == OrderType::Limit,
        incoming.price.is_some(),
    ensures
        ({
            let (fs, rest, r) = match_spec(opp, incoming, rem);
            r > 0 && rest.len() > 0 ==> match incoming.side {
                OrderSide::Buy => incoming.price.unwrap() < entry_price(rest[0]),
                OrderSide::Sell => incoming.price.unwrap() > entry_price(rest[0]),
            }
        }),
{
    lemma_match_shape(opp, incoming, rem);
}

/// Status of an order entering the book once matching has left `rem` of it: filled,
/// resting (new or partly filled) for a limit order, rejected for a market order.
pub open spec fn final_status(o: Order, rem: u64) -> OrderStatus {
    if rem == 0 {
        OrderStatus::Filled
    } else if o.order_type == OrderType::Limit {
        if rem < o.quantity {
            OrderStatus::PartiallyFilled
        } else {
            OrderStatus::New
        }
    } else {
        OrderStatus::Rejected
    }
}

/// An order that entered with nothing filled, after matching left `rem` of it.
pub open spec fn placed(o: Order, rem: u64) -> Order {
    Order {
        status: final_status(o, rem),
        filled_quantity: (o.quantity - rem) as u64,
        remaining_quantity: rem,
        ..o
    }
}

/// A book for one symbol. Each side is a vector kept in strict price-time priority
/// (bids highest price first, asks lowest first, earlier arrival first within a
/// price), so a price level is a run of equal prices and no empty level can exist.
#[derive(Debug)]
pub struct OrderBook {
    pub symbol: Symbol,
    pub bids: Vec<OrderBookEntry>,
    pub asks: Vec<OrderBookEntry>,
    pub priority_counter: u64,
}

/// Totals of a book.
#[derive(Debug, Clone)]
pub struct OrderBookStats {
    pub symbol: Symbol,
    pub bid_levels: usize,
    pub ask_levels: usize,
    pub total_bid_orders: usize,
    pub total_ask_orders: usize,
    pub total_bid_quantity: u128,
    pub total_ask_quantity: u128,
}

/// The best `max_depth` levels (ten when not given).
pub open spec fn top_levels(l: Seq<PriceLevel>, max_depth: Option<usize>) -> Seq<PriceLevel> {
    let n = match max_depth {
        Some(n) => n,
        None => 10,
    };
    if n <= l.len() {
        l.take(n as int)
    } else {
        l
    }
}

/// `new` is `old` with `e` inserted after every entry priced at least as well and
/// before every entry priced worse: where price-time priority puts a newest arrival.
pub open spec fn inserted_in_priority(
    old: Seq<OrderBookEntry>,
    new: Seq<OrderBookEntry>,
    e: OrderBookEntry,
    side: OrderSide,
) -> bool {
    exists|k: int|
        0 <= k <= old.len() && new == old.insert(k, e) && (forall|i: int|
            0 <= i < k ==> !worse_price(side, entry_price(#[trigger] old[i]), entry_price(e))) && (
        forall|i: int| k <= i < old.len() ==> worse_price(side, entry_price(#[trigger] old[i]), entry_price(e)))
}

/// `new` is `old` with the entry of order `id` taken out of one side, the other side,
/// the symbol and the arrival counter untouched.
pub open spec fn removed_from(old: OrderBook, new: OrderBook, id: u128) -> bool {
    &&& new.symbol == old.symbol
    &&& new.priority_counter == old.priority_counter
    &&& exists|sd: OrderSide, i: int|
        0 <= i < old.side_of(sd).len() && (#[trigger] old.side_of(sd)[i]).order.id == id
            && new.side_of(sd) == old.side_of(sd).remove(i) && new.opposite_of(sd) == old.opposite_of(sd)
}

/// The aggregated price levels of a side, in the side's order.
pub open spec fn levels_of(s: Seq<OrderBookEntry>) -> Seq<PriceLevel>
    decreases s.len(),
{
    if s.len() == 0 {
        Seq::empty()
    } else {
        let prev = levels_of(s.drop_last());
        let e = s.last();
        if prev.len() > 0 && prev.last().price == entry_price(e) {
            let l = prev.last();
            prev.update(
                prev.len() - 1,
                PriceLevel {
                    price: l.price,
                    total_quantity: (l.total_quantity + e.order.remaining_quantity) as u128,
                    order_count: (l.order_count + 1) as usize,
                },
            )
        } else {
            prev.push(
                PriceLevel {
                    price: entry_price(e),
                    total_quantity: e.order.remaining_quantity as u128,
                    order_count: 1,
                },
            )
        }
    }
}

pub open spec fn remaining_total(s: Seq<OrderBookEntry>) -> int
    decreases s.len(),
{
    if s.len() == 0 {
        0
    } else {
        remaining_total(s.drop_last()) + s.last().order.remaining_quantity
    }
}

/// Levels never hold more than the whole side, and no more orders than it has.
proof fn lemma_levels_bounded(s: Seq<OrderBookEntry>)
    ensures
        levels_of(s).len() <= s.len(),
        forall|k: int|
            0 <= k < levels_of(s).len() ==> (#[trigger] levels_of(s)[k]).order_count <= s.len()
                && levels_of(s)[k].total_quantity <= s.len() * 0xffff_ffff_ffff_ffffu64,
    decreases s.len(),
{
    if s.len() > 0 {
        lemma_levels_bounded(s.drop_last());
        let n = s.len() - 1;
        assert forall|k: int| 0 <= k < levels_of(s.drop_last()).len() implies (#[trigger] levels_of(
            s.drop_last(),
        )[k]).total_quantity <= n * 0xffff_ffff_ffff_ffffu64 by {}
        assert(n * 0xffff_ffff_ffff_ffffu64 + 0xffff_ffff_ffff_ffffu64 == (n + 1)
            * 0xffff_ffff_ffff_ffffu64) by (nonlinear_arith);
    }
}

proof fn lemma_remaining_total_bounded(s: Seq<OrderBookEntry>)
    ensures
        0 <= remaining_total(s) <= s.len() * 0xffff_ffff_ffff_ffffu64,
    decreases s.len(),
{
    if s.len() > 0 {
        lemma_remaining_total_bounded(s.drop_last());
        let n = s.len() - 1;
        assert(n * 0xffff_ffff_ffff_ffffu64 + 0xffff_ffff_ffff_ffffu64 == (n + 1)
            * 0xffff_ffff_ffff_ffffu64) by (nonlinear_arith);
    }
}

/// Index of the first entry with this identifier.
fn find_entry(s: &Vec<OrderBookEntry>, id: u128) -> (r: Option<usize>)
    ensures
        match r {
            Some(i) => i < s@.len() && s@[i as int].order.id == id && forall|j: int|
                0 <= j < i ==> (#[trigger] s@[j]).order.id != id,
            None => !has_id(s@, id),
        },
{
    let mut i: usize = 0;
    while i < s.len()
        invariant
            i <= s@.len(),
            forall|j: int| 0 <= j < i ==> (#[trigger] s@[j]).order.id != id,
        decreases s@.len() - i,
    {
        if s[i].order.id == id {
            return Some(i);
        }
        i = i + 1;
    }
    None
}

/// Whether the incoming order may trade at `price`.
pub fn is_marketable(incoming: &Order, price: u64) -> (r: bool)
    ensures
        r == marketable(*incoming, price),
{
    match incoming.order_type {
        OrderType::Market => true,
        _ => match incoming.price {
            Some(p) => match incoming.side {
                OrderSide::Buy => p >= price,
                OrderSide::Sell => p <= price,
            },
            None => false,
        },
    }
}

/// Inserts after every entry at an equal or better price: the new entry has the
/// latest arrival, so this keeps strict priority order.
fn insert_entry(s: &mut Vec<OrderBookEntry>, side: OrderSide, symbol: Ghost<Symbol>, counter: u64, e: OrderBookEntry)
    requires
        side_wf(old(s)@, side, symbol@, counter),
        entry_ok(e, side, symbol@, (counter + 1) as u64),
        e.priority == counter,
        !has_id(old(s)@, e.order.id),
        counter < u64::MAX,
    ensures
        side_wf(final(s)@, side, symbol@, (counter + 1) as u64),
        exists|k: int|
            0 <= k <= old(s)@.len() && final(s)@ == old(s)@.insert(k, e) && (forall|i: int|
                0 <= i < k ==> !worse_price(side, entry_price(#[trigger] old(s)@[i]), entry_price(e)))
                && (forall|i: int|
                k <= i < old(s)@.len() ==> worse_price(
                    side,
                    entry_price(#[trigger] old(s)@[i]),
                    entry_price(e),
                )),
{
    let price = match e.order.price {
        Some(p) => p,
        None => 0,
    };
    let mut i: usize = 0;
    while i < s.len()
        invariant
            i <= s@.len(),
            side_wf(s@, side, symbol@, counter),
            price == entry_price(e),
            forall|j: int| 0 <= j < i ==> !worse_price(side, entry_price(#[trigger] s@[j]), price),
        ensures
            i <= s@.len(),
            forall|j: int| 0 <= j < i ==> !worse_price(side, entry_price(#[trigger] s@[j]), price),
            i < s@.len() ==> worse_price(side, entry_price(s@[i as int]), price),
        decreases s@.len() - i,
    {
        let p = match s[i].order.price {
            Some(p) => p,
            None => 0,
        };
        let worse = match side {
            OrderSide::Buy => p < price,
            OrderSide::Sell => p > price,
        };
        if worse {
            break;
        }
        i = i + 1;
    }
    let ghost old_s = s@;
    assert forall|j: int| i <= j < old_s.len() implies worse_price(
        side,
        entry_price(#[trigger] old_s[j]),
        price,
    ) by {
        if j > i {
            assert(ahead(side, old_s[i as int], old_s[j]));
        }
    }
    s.insert(i, e);
    let ghost ns = s@;
    assert forall|j: int| 0 <= j < ns.len() implies entry_ok(#[trigger] ns[j], side, symbol@, (counter + 1) as u64) by {
        if j < i {
            assert(ns[j] == old_s[j]);
        } else if j > i {
            assert(ns[j] == old_s[j - 1]);
        }
    }
    assert forall|a: int, b: int| 0 <= a < b < ns.len() implies ahead(side, #[trigger] ns[a], #[trigger] ns[b]) by {
        if b < i {
            assert(ns[a] == old_s[a] && ns[b] == old_s[b]);
        } else if a > i {
            assert(ns[a] == old_s[a - 1] && ns[b] == old_s[b - 1]);
        } else if a == i {
            assert(ns[b] == old_s[b - 1]);
        } else if b == i {
            assert(ns[a] == old_s[a]);
        } else {
            assert(ns[a] == old_s[a] && ns[b] == old_s[b - 1]);
        }
    }
    assert forall|a: int, b: int| 0 <= a < ns.len() && 0 <= b < ns.len() && a != b implies #[trigger] ns[a].order.id
        != #[trigger] ns[b].order.id by {
        if a != i && b != i {
            let a0 = if a < i { a } else { a - 1 };
            let b0 = if b < i { b } else { b - 1 };
            assert(ns[a] == old_s[a0] && ns[b] == old_s[b0]);
        } else if a == i {
            let b0 = if b < i { b } else { b - 1 };
            assert(ns[b] == old_s[b0]);
        } else {
            let a0 = if a < i { a } else { a - 1 };
            assert(ns[a] == old_s[a0]);
        }
    }
}

/// Aggregates a side into price levels.
fn side_levels(s: &Vec<OrderBookEntry>) -> (r: Vec<PriceLevel>)
    requires
        forall|i: int| 0 <= i < s@.len() ==> (#[trigger] s@[i]).order.price.is_some(),
    ensures
        r@ == levels_of(s@),
{
    let mut out: Vec<PriceLevel> = Vec::new();
    let mut i: usize = 0;
    while i < s.len()
        invariant
            i <= s@.len(),
            forall|k: int| 0 <= k < s@.len() ==> (#[trigger] s@[k]).order.price.is_some(),
            out@ == levels_of(s@.take(i as int)),
        decreases s@.len() - i,
    {
        let e = &s[i];
        let p = match e.order.price {
            Some(p) => p,
            None => 0,
        };
        proof {
            assert(s@.take(i + 1).drop_last() =~= s@.take(i as int));
            lemma_levels_bounded(s@.take(i as int));
        }
        let n = out.len();
        if n > 0 && out[n - 1].price == p {
            let l = out[n - 1];
            proof {
                assert(l.total_quantity <= i * 0xffff_ffff_ffff_ffffu64);
                assert(i * 0xffff_ffff_ffff_ffffu64 + 0xffff_ffff_ffff_ffffu64 <= 0xffff_ffff_ffff_ffffu64 * 0xffff_ffff_ffff_ffffu64 + 0xffff_ffff_ffff_ffffu64) by (nonlinear_arith)
                    requires i < 0xffff_ffff_ffff_ffffu64;
            }
            out.set(
                n - 1,
                PriceLevel {
                    price: l.price,
                    total_quantity: l.total_quantity + e.order.remaining_quantity as u128,
                    order_count: l.order_count + 1,
                },
            );
        } else {
            out.push(
                PriceLevel {
                    price: p,
                    total_quantity: e.order.remaining_quantity as u128,
                    order_count: 1,
                },
            );
        }
        i = i + 1;
    }
    proof {
        assert(s@.take(i as int) =~= s@);
    }
    out
}

/// Sum of the remaining quantities of a side.
fn side_quantity(s: &Vec<OrderBookEntry>) -> (r: u128)
    ensures
        r == remaining_total(s@),
{
    let mut total: u128 = 0;
    let mut i: usize = 0;
    while i < s.len()
        invariant
            i <= s@.len(),
            total == remaining_total(s@.take(i as int)),
        decreases s@.len() - i,
    {
        proof {
            assert(s@.take(i + 1).drop_last() =~= s@.take(i as int));
            lemma_remaining_total_bounded(s@.take(i as int));
            assert(i * 0xffff_ffff_ffff_ffffu64 + 0xffff_ffff_ffff_ffffu64 <= 0xffff_ffff_ffff_ffffu64 * 0xffff_ffff_ffff_ffffu64 + 0xffff_ffff_ffff_ffffu64) by (nonlinear_arith)
                requires i < 0xffff_ffff_ffff_ffffu64;
        }
        total = total + s[i].order.remaining_quantity as u128;
        i = i + 1;
    }
    proof {
        assert(s@.take(i as int) =~= s@);
    }
    total
}


/// Removing an entry keeps a side well formed.
proof fn lemma_remove_keeps_wf(s: Seq<OrderBookEntry>, side: OrderSide, symbol: Symbol, counter: u64, i: int)
    requires
        side_wf(s, side, symbol, counter),
        0 <= i < s.len(),
    ensures
        side_wf(s.remove(i), side, symbol, counter),
        forall|j: int| 0 <= j < s.remove(i).len() ==> has_id(s, (#[trigger] s.remove(i)[j]).order.id),
        !has_id(s.remove(i), s[i].order.id),
        forall|id: u128| id != s[i].order.id && has_id(s, id) ==> #[trigger] has_id(s.remove(i), id),
{
    let t = s.remove(i);
    assert forall|j: int| 0 <= j < t.len() implies #[trigger] t[j] == s[if j < i { j } else { j + 1 }] by {}
    assert forall|a: int, b: int| 0 <= a < b < t.len() implies ahead(side, #[trigger] t[a], #[trigger] t[b]) by {
        let a0 = if a < i { a } else { a + 1 };
        let b0 = if b < i { b } else { b + 1 };
        assert(t[a] == s[a0] && t[b] == s[b0]);
    }
    assert forall|a: int, b: int| 0 <= a < t.len() && 0 <= b < t.len() && a != b implies #[trigger] t[a].order.id
        != #[trigger] t[b].order.id by {
        let a0 = if a < i { a } else { a + 1 };
        let b0 = if b < i { b } else { b + 1 };
        assert(t[a] == s[a0] && t[b] == s[b0]);
    }
    assert forall|j: int| 0 <= j < t.len() implies has_id(s, (#[trigger] t[j]).order.id) by {
        let j0 = if j < i { j } else { j + 1 };
        assert(t[j] == s[j0]);
    }
    if has_id(t, s[i].order.id) {
        let j = choose|j: int| 0 <= j < t.len() && #[trigger] t[j].order.id == s[i].order.id;
        let j0 = if j < i { j } else { j + 1 };
        assert(t[j] == s[j0]);
    }
    assert forall|id: u128| id != s[i].order.id && has_id(s, id) implies #[trigger] has_id(t, id) by {
        let j = choose|j: int| 0 <= j < s.len() && #[trigger] s[j].order.id == id;
        let j1 = if j < i { j } else { j - 1 };
        assert(t[j1] == s[j]);
    }
}

/// Replacing an entry by one in the same slot with some quantity left keeps a side well formed.
proof fn lemma_update_keeps_wf(
    s: Seq<OrderBookEntry>,
    side: OrderSide,
    symbol: Symbol,
    counter: u64,
    i: int,
    e: OrderBookEntry,
)
    requires
        side_wf(s, side, symbol, counter),
        0 <= i < s.len(),
        same_slot(e, s[i]),
        e.order.remaining_quantity > 0,
        order_balanced(e.order),
    ensures
        side_wf(s.update(i, e), side, symbol, counter),
{
    let t = s.update(i, e);
    assert forall|a: int, b: int| 0 <= a < b < t.len() implies ahead(side, #[trigger] t[a], #[trigger] t[b]) by {
        assert(ahead(side, s[a], s[b]));
    }
    assert forall|a: int, b: int| 0 <= a < t.len() && 0 <= b < t.len() && a != b implies #[trigger] t[a].order.id
        != #[trigger] t[b].order.id by {
        assert(s[a].order.id != s[b].order.id);
    }
}

/// The order with its remaining quantity set to `rem` and the rest of its
/// bookkeeping (filled quantity, status) following.
pub fn apply_remaining(o: Order, rem: u64) -> (r: Order)
    requires
        rem <= o.quantity,
    ensures
        r == with_remaining(o, rem),
{
    let status = if rem == 0 {
        OrderStatus::Filled
    } else if rem < o.quantity {
        OrderStatus::PartiallyFilled
    } else {
        o.status
    };
    Order { remaining_quantity: rem, filled_quantity: o.quantity - rem, status, ..o }
}

/// Matches against one side, head first, while the incoming order has quantity left
/// and the head's price is marketable.
fn match_side(opp: &mut Vec<OrderBookEntry>, incoming: &Order) -> (out: (Vec<Fill>, u64))
    requires
        forall|i: int|
            0 <= i < old(opp)@.len() ==> (#[trigger] old(opp)@[i]).order.remaining_quantity > 0
                && order_balanced(old(opp)@[i].order) && old(opp)@[i].order.price.is_some(),
    ensures
        ({
            let (fs, rest, r) = match_spec(old(opp)@, *incoming, incoming.remaining_quantity);
            out.0@ == fs && final(opp)@ == rest && out.1 == r
        }),
{
    let ghost opp0 = opp@;
    let ghost inc = *incoming;
    let mut fills: Vec<Fill> = Vec::new();
    let mut rem = incoming.remaining_quantity;
    while rem > 0 && opp.len() > 0
        invariant
            inc == *incoming,
            forall|i: int|
                0 <= i < opp@.len() ==> (#[trigger] opp@[i]).order.remaining_quantity > 0
                    && order_balanced(opp@[i].order) && opp@[i].order.price.is_some(),
            match_spec(opp0, inc, inc.remaining_quantity) == (
                fills@ + match_spec(opp@, inc, rem).0,
                match_spec(opp@, inc, rem).1,
                match_spec(opp@, inc, rem).2,
            ),
        ensures
            match_spec(opp0, inc, inc.remaining_quantity) == (
                fills@ + match_spec(opp@, inc, rem).0,
                match_spec(opp@, inc, rem).1,
                match_spec(opp@, inc, rem).2,
            ),
            match_spec(opp@, inc, rem) == (Seq::<Fill>::empty(), opp@, rem),
        decreases opp@.len(), rem,
    {
        let p = match opp[0].order.price {
            Some(p) => p,
            None => 0,
        };
        if !is_marketable(incoming, p) {
            proof {
                assert(match_spec(opp@, inc, rem) == (Seq::<Fill>::empty(), opp@, rem));
            }
            break;
        }
        let e_rem = opp[0].order.remaining_quantity;
        let ghost cur = opp@;
        let ghost cur_fills = fills@;
        if rem >= e_rem {
            let e = opp.remove(0);
            let maker = apply_remaining(e.order, 0);
            let f = Fill { maker, quantity: e_rem, price: p };
            fills.push(f);
            rem = rem - e_rem;
            proof {
                assert(cur.remove(0) =~= cur.skip(1));
                let next = match_spec(cur.skip(1), inc, rem);
                assert(match_spec(cur, inc, (rem + e_rem) as u64) == (seq![f] + next.0, next.1, next.2));
                assert(cur_fills + (seq![f] + next.0) =~= fills@ + next.0);
                assert forall|i: int| 0 <= i < opp@.len() implies (#[trigger] opp@[i]).order.remaining_quantity > 0
                    && order_balanced(opp@[i].order) && opp@[i].order.price.is_some() by {
                    assert(opp@[i] == cur[i + 1]);
                }
            }
        } else {
            let left = e_rem - rem;
            let head = opp[0].duplicate();
            let order = apply_remaining(head.order, left);
            let f = Fill { maker: order.duplicate(), quantity: rem, price: p };
            let ghost rem_before = rem;
            let updated = OrderBookEntry { order, priority: head.priority };
            fills.push(f);
            opp.set(0, updated);
            rem = 0;
            proof {
                assert(match_spec(cur, inc, rem_before) == (seq![f], cur.update(0, updated), 0u64));
                assert(cur_fills + seq![f] =~= fills@ + Seq::<Fill>::empty());
                assert(match_spec(opp@, inc, 0) == (Seq::<Fill>::empty(), opp@, 0u64));
            }
        }
    }
    proof {
        assert(fills@ + Seq::<Fill>::empty() =~= fills@);
    }
    (fills, rem)
}

impl OrderBook {
    pub open spec fn wf(&self) -> bool {
        &&& side_wf(self.bids@, OrderSide::Buy, self.symbol, self.priority_counter)
        &&& side_wf(self.asks@, OrderSide::Sell, self.symbol, self.priority_counter)
        &&& forall|i: int, j: int|
            0 <= i < self.bids@.len() && 0 <= j < self.asks@.len() ==> #[trigger] self.bids@[i].order.id
                != #[trigger] self.asks@[j].order.id
    }

    /// Both sides hold orders only if the best bid is below the best ask.
    pub open spec fn uncrossed(&self) -> bool {
        self.bids@.len() > 0 && self.asks@.len() > 0 ==> entry_price(self.bids@[0]) < entry_price(
            self.asks@[0],
        )
    }

    pub open spec fn contains(&self, id: u128) -> bool {
        has_id(self.bids@, id) || has_id(self.asks@, id)
    }

    /// The side an order of `side` would rest on.
    pub open spec fn side_of(&self, side: OrderSide) -> Seq<OrderBookEntry> {
        match side {
            OrderSide::Buy => self.bids@,
            OrderSide::Sell => self.asks@,
        }
    }

    /// The side an incoming order of `side` trades against.
    pub open spec fn opposite_of(&self, side: OrderSide) -> Seq<OrderBookEntry> {
        match side {
            OrderSide::Buy => self.asks@,
            OrderSide::Sell => self.bids@,
        }
    }

    /// An empty book.
    pub fn new(symbol: Symbol) -> (r: OrderBook)
        ensures
            r.wf(),
            r.symbol == symbol,
            r.bids@.len() == 0,
            r.asks@.len() == 0,
            r.priority_counter == 0,
    {
        OrderBook { symbol, bids: Vec::new(), asks: Vec::new(), priority_counter: 0 }
    }

    /// Whether an order with this identifier is resting.
    pub fn has_order(&self, id: u128) -> (r: bool)
        ensures
            r == self.contains(id),
    {
        find_entry(&self.bids, id).is_some() || find_entry(&self.asks, id).is_some()
    }

    /// Rests an order at the tail of its price level, with the next arrival number.
    pub fn add_order(&mut self, order: Order) -> (r: Result<(), BookError>)
        requires
            old(self).wf(),
            old(self).priority_counter < u64::MAX,
        ensures
            final(self).wf(),
            final(self).symbol == old(self).symbol,
            !same_symbol(order.symbol, old(self).symbol) ==> r == Err::<(), BookError>(
                BookError::SymbolMismatch),
            same_symbol(order.symbol, old(self).symbol) && order.remaining_quantity == 0 ==> r
                == Err::<(), BookError>(BookError::NonPositiveQuantity),
            same_symbol(order.symbol, old(self).symbol) && order.remaining_quantity > 0 && (
            order.price.is_none() || order.price == Some(0u64)) ==> r == Err::<(), BookError>(
                BookError::InvalidPrice),
            same_symbol(order.symbol, old(self).symbol) && order.remaining_quantity > 0
                && order.price.is_some() && order.price != Some(0u64) && !order_balanced(order) ==> r
                == Err::<(), BookError>(BookError::InconsistentQuantities),
            same_symbol(order.symbol, old(self).symbol) && order.remaining_quantity > 0
                && order.price.is_some() && order.price != Some(0u64) && order_balanced(order)
                && old(self).contains(order.id) ==> r == Err::<(), BookError>(
                BookError::DuplicateOrder),
            r.is_err() ==> *final(self) == *old(self),
            r.is_ok() ==> {
                let e = OrderBookEntry { order, priority: old(self).priority_counter };
                &&& final(self).priority_counter == old(self).priority_counter + 1
                &&& final(self).opposite_of(order.side) == old(self).opposite_of(order.side)
                &&& exists|k: int|
                    0 <= k <= old(self).side_of(order.side).len() && final(self).side_of(order.side)
                        == old(self).side_of(order.side).insert(k, e) && (forall|i: int|
                        0 <= i < k ==> !worse_price(
                            order.side,
                            entry_price(#[trigger] old(self).side_of(order.side)[i]),
                            entry_price(e),
                        )) && (forall|i: int|
                        k <= i < old(self).side_of(order.side).len() ==> worse_price(
                            order.side,
                            entry_price(#[trigger] old(self).side_of(order.side)[i]),
                            entry_price(e),
                        ))
            },
            r.is_ok() ==> final(self).contains(order.id),
            r.is_ok() ==> forall|id: u128| old(self).contains(id) ==> #[trigger] final(self).contains(id),
            old(self).uncrossed() && (old(self).opposite_of(order.side).len() == 0 || match order.side {
                OrderSide::Buy => order.price.unwrap() < entry_price(old(self).asks@[0]),
                OrderSide::Sell => order.price.unwrap() > entry_price(old(self).bids@[0]),
            }) ==> final(self).uncrossed(),
            r.is_ok() ==> inserted_in_priority(
                old(self).side_of(order.side),
                final(self).side_of(order.side),
                OrderBookEntry { order, priority: old(self).priority_counter },
                order.side,
            ),
            r.is_ok() <==> same_symbol(order.symbol, old(self).symbol) && order.remaining_quantity
                > 0 && order.price.is_some() && order.price != Some(0u64) && order_balanced(order)
                && !old(self).contains(order.id),
    {
        if !order.symbol.same_as(&self.symbol) {
            return Err(BookError::SymbolMismatch);
        }
        if order.remaining_quantity == 0 {
            return Err(BookError::NonPositiveQuantity);
        }
        match order.price {
            None => {
                return Err(BookError::InvalidPrice);
            },
            Some(p) => {
                if p == 0 {
                    return Err(BookError::InvalidPrice);
                }
            },
        }
        if order.filled_quantity > order.quantity || order.quantity - order.filled_quantity
            != order.remaining_quantity {
            return Err(BookError::InconsistentQuantities);
        }
        if self.has_order(order.id) {
            return Err(BookError::DuplicateOrder);
        }
        let priority = self.priority_counter;
        let side = order.side;
        let id = order.id;
        let entry = OrderBookEntry::new(order, priority);
        assert(entry == OrderBookEntry { order, priority: old(self).priority_counter });
        let ghost sym = self.symbol;
        match side {
            OrderSide::Buy => {
                insert_entry(&mut self.bids, side, Ghost(sym), priority, entry);
                proof {
                    assert forall|j: int| 0 <= j < self.asks@.len() implies entry_ok(#[trigger] self.asks@[j], OrderSide::Sell, sym, (priority + 1) as u64) by {}
                }
            },
            OrderSide::Sell => {
                insert_entry(&mut self.asks, side, Ghost(sym), priority, entry);
                proof {
                    assert forall|j: int| 0 <= j < self.bids@.len() implies entry_ok(#[trigger] self.bids@[j], OrderSide::Buy, sym, (priority + 1) as u64) by {}
                }
            },
        }
        self.priority_counter = priority + 1;
        proof {
            let os = old(self).side_of(side);
            let ns = self.side_of(side);
            let k = choose|k: int|
                0 <= k <= os.len() && ns == os.insert(k, entry) && (forall|i: int|
                    0 <= i < k ==> !worse_price(side, entry_price(#[trigger] os[i]), entry_price(entry)))
                    && (forall|i: int|
                    k <= i < os.len() ==> worse_price(side, entry_price(#[trigger] os[i]), entry_price(entry)));
            assert(0 <= k <= os.len() && ns == os.insert(k, entry));
            assert(ns[k].order.id == id);
            assert(has_id(ns, id));
            if k > 0 {
                assert(ns[0] == os[0]);
            }
            assert forall|x: u128| old(self).contains(x) implies #[trigger] self.contains(x) by {
                if has_id(os, x) {
                    let j = choose|j: int| 0 <= j < os.len() && #[trigger] os[j].order.id == x;
                    if j < k {
                        assert(ns[j] == os[j]);
                        assert(has_id(ns, x));
                    } else {
                        assert(ns[j + 1] == os[j]);
                        assert(has_id(ns, x));
                    }
                }
                if side == OrderSide::Buy {
                    assert(self.asks@ == old(self).asks@);
                } else {
                    assert(self.bids@ == old(self).bids@);
                }
            }
            assert(ns[k].order.id == id);
            assert(has_id(ns, id));
            if k > 0 {
                assert(ns[0] == os[0]);
            }
            assert forall|x: u128| old(self).contains(x) implies #[trigger] self.contains(x) by {
                if has_id(os, x) {
                    let j = choose|j: int| 0 <= j < os.len() && #[trigger] os[j].order.id == x;
                    if j < k {
                        assert(ns[j] == os[j]);
                        assert(has_id(ns, x));
                    } else {
                        assert(ns[j + 1] == os[j]);
                        assert(has_id(ns, x));
                    }
                }
                if side == OrderSide::Buy {
                    assert(self.asks@ == old(self).asks@);
                } else {
                    assert(self.bids@ == old(self).bids@);
                }
            }
            let bs = self.bids@;
            let as_ = self.asks@;
            assert forall|i: int, j: int| 0 <= i < bs.len() && 0 <= j < as_.len() implies #[trigger] bs[i].order.id
                != #[trigger] as_[j].order.id by {
                if side == OrderSide::Buy {
                    let k = choose|k: int| 0 <= k <= old(self).bids@.len() && bs == old(self).bids@.insert(k, entry);
                    if i < k {
                        assert(bs[i] == old(self).bids@[i]);
                    } else if i > k {
                        assert(bs[i] == old(self).bids@[i - 1]);
                    } else {
                        assert(as_[j] == old(self).asks@[j]);
                    }
                } else {
                    let k = choose|k: int| 0 <= k <= old(self).asks@.len() && as_ == old(self).asks@.insert(k, entry);
                    if j < k {
                        assert(as_[j] == old(self).asks@[j]);
                    } else if j > k {
                        assert(as_[j] == old(self).asks@[j - 1]);
                    } else {
                        assert(bs[i] == old(self).bids@[i]);
                    }
                }
            }
        }
        Ok(())
    }

    /// Takes a resting order out of the book.
    pub fn remove_order(&mut self, order_id: u128) -> (r: Result<Order, BookError>)
        requires
            old(self).wf(),
        ensures
            final(self).wf(),
            final(self).symbol == old(self).symbol,
            final(self).priority_counter == old(self).priority_counter,
            r.is_err() <==> !old(self).contains(order_id),
            r.is_err() ==> r == Err::<Order, BookError>(BookError::NotFound) && *final(self)
                == *old(self),
            r.is_ok() ==> exists|sd: OrderSide, i: int|
                0 <= i < old(self).side_of(sd).len() && (#[trigger] old(self).side_of(sd)[i]).order.id
                    == order_id && r == Ok::<Order, BookError>(old(self).side_of(sd)[i].order)
                    && final(self).side_of(sd) == old(self).side_of(sd).remove(i) 
                    && final(self).opposite_of(sd) == old(self).opposite_of(sd),
            !final(self).contains(order_id),
            r.is_ok() ==> r.unwrap().id == order_id,
            old(self).uncrossed() ==> final(self).uncrossed(),
            r.is_ok() ==> removed_from(*old(self), *final(self), order_id),
            forall|id: u128| id != order_id ==> (#[trigger] final(self).contains(id) <==> old(self).contains(id)),
    {
        let ghost sym = self.symbol;
        let ghost c = self.priority_counter;
        match find_entry(&self.bids, order_id) {
            Some(i) => {
                proof {
                    lemma_remove_keeps_wf(self.bids@, OrderSide::Buy, sym, c, i as int);
                    assert(!has_id(self.asks@, order_id));
                }
                let e = self.bids.remove(i);
                proof {
                    assert(old(self).side_of(OrderSide::Buy)[i as int].order.id == order_id);
                    assert(self.side_of(OrderSide::Buy) == old(self).side_of(OrderSide::Buy).remove(i as int));
                    if self.bids@.len() > 0 && i == 0 {
                        assert(self.bids@[0] == old(self).bids@[1]);
                        assert(ahead(OrderSide::Buy, old(self).bids@[0], old(self).bids@[1]));
                    } else if self.bids@.len() > 0 {
                        assert(self.bids@[0] == old(self).bids@[0]);
                    }
                    assert(self.opposite_of(OrderSide::Buy) == old(self).opposite_of(OrderSide::Buy));
                }
                return Ok(e.order);
            },
            None => {},
        }
        match find_entry(&self.asks, order_id) {
            Some(i) => {
                proof {
                    lemma_remove_keeps_wf(self.asks@, OrderSide::Sell, sym, c, i as int);
                }
                let e = self.asks.remove(i);
                proof {
                    assert(old(self).side_of(OrderSide::Sell)[i as int].order.id == order_id);
                    assert(self.side_of(OrderSide::Sell) == old(self).side_of(OrderSide::Sell).remove(i as int));
                    if self.asks@.len() > 0 && i == 0 {
                        assert(self.asks@[0] == old(self).asks@[1]);
                        assert(ahead(OrderSide::Sell, old(self).asks@[0], old(self).asks@[1]));
                    } else if self.asks@.len() > 0 {
                        assert(self.asks@[0] == old(self).asks@[0]);
                    }
                    assert(self.opposite_of(OrderSide::Sell) == old(self).opposite_of(OrderSide::Sell));
                }
                Ok(e.order)
            },
            None => Err(BookError::NotFound),
        }
    }

    /// Sets the remaining quantity of a resting order, with its filled quantity and
    /// status following; an order left with nothing leaves the book.
    pub fn update_order(&mut self, order_id: u128, new_quantity: u64) -> (r: Result<Order, BookError>)
        requires
            old(self).wf(),
        ensures
            final(self).wf(),
            final(self).symbol == old(self).symbol,
            final(self).priority_counter == old(self).priority_counter,
            !old(self).contains(order_id) ==> r == Err::<Order, BookError>(BookError::NotFound),
            r.is_err() ==> *final(self) == *old(self),
            old(self).contains(order_id) ==> exists|sd: OrderSide, i: int|
                0 <= i < old(self).side_of(sd).len() && (#[trigger] old(self).side_of(sd)[i]).order.id
                    == order_id && final(self).opposite_of(sd) == old(self).opposite_of(sd) && ({
                    let e = old(self).side_of(sd)[i];
                    if new_quantity > e.order.remaining_quantity {
                        r == Err::<Order, BookError>(BookError::QuantityIncrease)
                    } else {
                        let o = with_remaining(e.order, new_quantity);
                        &&& r == Ok::<Order, BookError>(o)
                        &&& new_quantity == 0 ==> final(self).side_of(sd) == old(self).side_of(
                            sd,
                        ).remove(i)
                        &&& new_quantity > 0 ==> final(self).side_of(sd) == old(self).side_of(
                            sd,
                        ).update(i, OrderBookEntry { order: o, ..e })
                    }
                }),
    {
        let ghost sym = self.symbol;
        let ghost c = self.priority_counter;
        let (sd, i) = match find_entry(&self.bids, order_id) {
            Some(i) => (OrderSide::Buy, i),
            None => match find_entry(&self.asks, order_id) {
                Some(i) => (OrderSide::Sell, i),
                None => {
                    return Err(BookError::NotFound);
                },
            },
        };
        let ghost os = self.side_of(sd);
        assert(os[i as int].order.id == order_id);
        let side_vec = match sd {
            OrderSide::Buy => &mut self.bids,
            OrderSide::Sell => &mut self.asks,
        };
        let head = side_vec[i].duplicate();
        if new_quantity > head.order.remaining_quantity {
            return Err(BookError::QuantityIncrease);
        }
        let o = apply_remaining(head.order, new_quantity);
        let result = o.duplicate();
        if new_quantity == 0 {
            proof {
                lemma_remove_keeps_wf(os, sd, sym, c, i as int);
            }
            side_vec.remove(i);
        } else {
            let updated = OrderBookEntry { order: o, priority: head.priority };
            proof {
                lemma_update_keeps_wf(os, sd, sym, c, i as int, updated);
            }
            side_vec.set(i, updated);
        }
        proof {
            let ns = self.side_of(sd);
            let oo = self.opposite_of(sd);
            assert forall|a: int, b: int| 0 <= a < self.bids@.len() && 0 <= b < self.asks@.len() implies #[trigger] self.bids@[a].order.id
                != #[trigger] self.asks@[b].order.id by {
                if sd == OrderSide::Buy {
                    if new_quantity == 0 {
                        let a0 = if a < i { a } else { a + 1 };
                        assert(self.bids@[a] == os[a0]);
                    } else {
                        assert(self.bids@[a].order.id == old(self).bids@[a].order.id);
                    }
                    assert(self.asks@[b] == old(self).asks@[b]);
                } else {
                    if new_quantity == 0 {
                        let b0 = if b < i { b } else { b + 1 };
                        assert(self.asks@[b] == os[b0]);
                    } else {
                        assert(self.asks@[b].order.id == old(self).asks@[b].order.id);
                    }
                    assert(self.bids@[a] == old(self).bids@[a]);
                }
            }
        }
        Ok(result)
    }

    /// Highest bid price.
    pub fn best_bid(&self) -> (r: Option<u64>)
        requires
            self.wf(),
        ensures
            self.bids@.len() == 0 ==> r.is_none(),
            self.bids@.len() > 0 ==> r == Some(entry_price(self.bids@[0])),
            forall|i: int| 0 <= i < self.bids@.len() ==> entry_price(#[trigger] self.bids@[i]) <= r.unwrap(),
    {
        if self.bids.len() == 0 {
            None
        } else {
            proof {
                assert forall|i: int| 0 <= i < self.bids@.len() implies entry_price(#[trigger] self.bids@[i]) <= entry_price(self.bids@[0]) by {
                    if i > 0 {
                        assert(ahead(OrderSide::Buy, self.bids@[0], self.bids@[i]));
                    }
                }
            }
            self.bids[0].order.price
        }
    }

    /// Lowest ask price.
    pub fn best_ask(&self) -> (r: Option<u64>)
        requires
            self.wf(),
        ensures
            self.asks@.len() == 0 ==> r.is_none(),
            self.asks@.len() > 0 ==> r == Some(entry_price(self.asks@[0])),
            forall|i: int| 0 <= i < self.asks@.len() ==> entry_price(#[trigger] self.asks@[i]) >= r.unwrap(),
    {
        if self.asks.len() == 0 {
            None
        } else {
            proof {
                assert forall|i: int| 0 <= i < self.asks@.len() implies entry_price(#[trigger] self.asks@[i]) >= entry_price(self.asks@[0]) by {
                    if i > 0 {
                        assert(ahead(OrderSide::Sell, self.asks@[0], self.asks@[i]));
                    }
                }
            }
            self.asks[0].order.price
        }
    }

    /// Best ask minus best bid, when both sides have orders.
    pub fn spread(&self) -> (r: Option<i128>)
        requires
            self.wf(),
        ensures
            self.bids@.len() == 0 || self.asks@.len() == 0 ==> r.is_none(),
            self.bids@.len() > 0 && self.asks@.len() > 0 ==> r == Some(
                (entry_price(self.asks@[0]) - entry_price(self.bids@[0])) as i128,
            ),
    {
        match (self.best_ask(), self.best_bid()) {
            (Some(a), Some(b)) => Some(a as i128 - b as i128),
            _ => None,
        }
    }

    /// Aggregated levels of both sides, the best `max_depth` (ten by default) of each.
    pub fn get_depth(&self, max_depth: Option<usize>) -> (r: OrderBookDepth)
        requires
            self.wf(),
        ensures
            r.symbol == self.symbol,
            r.bids@ == top_levels(levels_of(self.bids@), max_depth),
            r.asks@ == top_levels(levels_of(self.asks@), max_depth),
    {
        let depth = match max_depth {
            Some(n) => n,
            None => 10,
        };
        let mut bids = side_levels(&self.bids);
        let mut asks = side_levels(&self.asks);
        bids.truncate(depth);
        asks.truncate(depth);
        proof {
            assert(levels_of(self.bids@).subrange(0, depth as int) =~= levels_of(self.bids@).take(depth as int));
            assert(levels_of(self.asks@).subrange(0, depth as int) =~= levels_of(self.asks@).take(depth as int));
        }
        OrderBookDepth { symbol: self.symbol.duplicate(), bids, asks, timestamp: now_millis() }
    }

    /// Resting orders on the opposite side that the incoming order may trade with,
    /// in priority order: the longest marketable run from the best price.
    pub fn get_matching_orders(&self, incoming_order: &Order) -> (r: Vec<OrderBookEntry>)
        requires
            self.wf(),
        ensures
            ({
                let opp = self.opposite_of(incoming_order.side);
                exists|k: int|
                    0 <= k <= opp.len() && r@ == opp.take(k) && (forall|i: int|
                        0 <= i < k ==> marketable(*incoming_order, entry_price(#[trigger] opp[i])))
                        && (k < opp.len() ==> !marketable(*incoming_order, entry_price(opp[k])))
            }),
    {
        let opp = match incoming_order.side {
            OrderSide::Buy => &self.asks,
            OrderSide::Sell => &self.bids,
        };
        let mut out: Vec<OrderBookEntry> = Vec::new();
        let mut i: usize = 0;
        while i < opp.len()
            invariant
                i <= opp@.len(),
                opp@ == self.opposite_of(incoming_order.side),
                out@ == opp@.take(i as int),
                forall|j: int| 0 <= j < i ==> marketable(*incoming_order, entry_price(#[trigger] opp@[j])),
                forall|j: int| 0 <= j < opp@.len() ==> (#[trigger] opp@[j]).order.price.is_some(),
            ensures
                i <= opp@.len(),
                out@ == opp@.take(i as int),
                forall|j: int| 0 <= j < i ==> marketable(*incoming_order, entry_price(#[trigger] opp@[j])),
                i < opp@.len() ==> !marketable(*incoming_order, entry_price(opp@[i as int])),
            decreases opp@.len() - i,
        {
            let p = match opp[i].order.price {
                Some(p) => p,
                None => 0,
            };
            if !is_marketable(incoming_order, p) {
                break;
            }
            out.push(opp[i].duplicate());
            proof {
                assert(opp@.take(i + 1) =~= opp@.take(i as int).push(opp@[i as int]));
            }
            i = i + 1;
        }
        out
    }

    /// Level counts, order counts and total remaining quantity of each side.
    pub fn get_stats(&self) -> (r: OrderBookStats)
        requires
            self.wf(),
        ensures
            r.symbol == self.symbol,
            r.bid_levels == levels_of(self.bids@).len(),
            r.ask_levels == levels_of(self.asks@).len(),
            r.total_bid_orders == self.bids@.len(),
            r.total_ask_orders == self.asks@.len(),
            r.total_bid_quantity == remaining_total(self.bids@),
            r.total_ask_quantity == remaining_total(self.asks@),
    {
        let bl = side_levels(&self.bids);
        let al = side_levels(&self.asks);
        OrderBookStats {
            symbol: self.symbol.duplicate(),
            bid_levels: bl.len(),
            ask_levels: al.len(),
            total_bid_orders: self.bids.len(),
            total_ask_orders: self.asks.len(),
            total_bid_quantity: side_quantity(&self.bids),
            total_ask_quantity: side_quantity(&self.asks),
        }
    }

    /// Matches an incoming order against the opposite side in price-time priority,
    /// each fill at the resting order's price. Resting orders that are used up leave
    /// the book; the incoming order's filled and remaining quantities are updated
    /// (its status is left to the caller).
    pub fn match_order(&mut self, incoming: &mut Order) -> (fills: Vec<Fill>)
        requires
            old(self).wf(),
            order_balanced(*old(incoming)),
        ensures
            final(self).wf(),
            final(self).symbol == old(self).symbol,
            final(self).priority_counter == old(self).priority_counter,
            final(self).side_of(old(incoming).side) == old(self).side_of(old(incoming).side),
            ({
                let (fs, rest, r) = match_spec(
                    old(self).opposite_of(old(incoming).side),
                    *old(incoming),
                    old(incoming).remaining_quantity,
                );
                &&& fills@ == fs
                &&& final(self).opposite_of(old(incoming).side) == rest
                &&& *final(incoming) == Order {
                    remaining_quantity: r,
                    filled_quantity: (old(incoming).filled_quantity + (old(incoming).remaining_quantity - r)) as u64,
                    ..*old(incoming)
                }
            }),
            order_balanced(*final(incoming)),
            forall|id: u128| #[trigger] final(self).contains(id) ==> old(self).contains(id),
            forall|i: int|
                0 <= i < fills@.len() && (#[trigger] fills@[i]).maker.remaining_quantity > 0 ==> final(self).contains(
                    fills@[i].maker.id,
                ),
            forall|id: u128|
                old(self).contains(id) && (forall|i: int| 0 <= i < fills@.len() ==> fills@[i].maker.id != id)
                    ==> #[trigger] final(self).contains(id),
            old(self).uncrossed() ==> final(self).uncrossed(),
            final(incoming).remaining_quantity > 0 && final(self).opposite_of(old(incoming).side).len()
                > 0 && old(incoming).order_type == OrderType::Limit && old(incoming).price.is_some()
                ==> match old(incoming).side {
                OrderSide::Buy => old(incoming).price.unwrap() < entry_price(final(self).asks@[0]),
                OrderSide::Sell => old(incoming).price.unwrap() > entry_price(final(self).bids@[0]),
            },
    {
        let ghost sym = self.symbol;
        let ghost c = self.priority_counter;
        let ghost opp0 = self.opposite_of(incoming.side);
        let ghost inc0 = *incoming;
        proof {
            lemma_match_shape(opp0, inc0, inc0.remaining_quantity);
        }
        let (fills, r) = match incoming.side {
            OrderSide::Buy => match_side(&mut self.asks, incoming),
            OrderSide::Sell => match_side(&mut self.bids, incoming),
        };
        let ghost rest = self.opposite_of(inc0.side);
        let ghost d = opp0.len() - rest.len();
        proof {
            let osd = match inc0.side {
                OrderSide::Buy => OrderSide::Sell,
                OrderSide::Sell => OrderSide::Buy,
            };
            assert forall|j: int| 0 <= j < rest.len() implies entry_ok(#[trigger] rest[j], osd, sym, c) by {
                assert(same_slot(rest[j], opp0[j + d]));
                assert(entry_ok(opp0[j + d], osd, sym, c));
            }
            assert forall|a: int, b: int| 0 <= a < b < rest.len() implies ahead(osd, #[trigger] rest[a], #[trigger] rest[b]) by {
                assert(same_slot(rest[a], opp0[a + d]));
                assert(same_slot(rest[b], opp0[b + d]));
                assert(ahead(osd, opp0[a + d], opp0[b + d]));
            }
            assert forall|a: int, b: int| 0 <= a < rest.len() && 0 <= b < rest.len() && a != b implies #[trigger] rest[a].order.id
                != #[trigger] rest[b].order.id by {
                assert(same_slot(rest[a], opp0[a + d]));
                assert(same_slot(rest[b], opp0[b + d]));
                assert(opp0[a + d].order.id != opp0[b + d].order.id);
            }
            assert forall|a: int, b: int| 0 <= a < self.bids@.len() && 0 <= b < self.asks@.len() implies #[trigger] self.bids@[a].order.id
                != #[trigger] self.asks@[b].order.id by {
                if inc0.side == OrderSide::Buy {
                    assert(same_slot(self.asks@[b], old(self).asks@[b + d]));
                    assert(old(self).bids@[a].order.id != old(self).asks@[b + d].order.id);
                } else {
                    assert(same_slot(self.bids@[a], old(self).bids@[a + d]));
                    assert(old(self).bids@[a + d].order.id != old(self).asks@[b].order.id);
                }
            }
            if rest.len() > 0 && d > 0 {
                assert(same_slot(rest[0], opp0[d]));
                assert(ahead(osd, opp0[0], opp0[d]));
            }
            if rest.len() > 0 && d == 0 {
                assert(same_slot(rest[0], opp0[0]));
            }
            assert forall|i: int|
                0 <= i < fills@.len() && (#[trigger] fills@[i]).maker.remaining_quantity > 0 implies self.contains(
                    fills@[i].maker.id,
                ) by {
                assert(fills@[i].quantity < opp0[i].order.remaining_quantity);
                assert(rest[0].order.id == fills@[i].maker.id);
                assert(has_id(rest, fills@[i].maker.id));
            }
            assert forall|id: u128|
                old(self).contains(id) && (forall|i: int| 0 <= i < fills@.len() ==> fills@[i].maker.id != id)
                    implies #[trigger] self.contains(id) by {
                if has_id(opp0, id) {
                    let j = choose|j: int| 0 <= j < opp0.len() && #[trigger] opp0[j].order.id == id;
                    if j < fills@.len() {
                        assert(fills@[j].maker.id == opp0[j].order.id);
                    }
                    assert(same_slot(rest[j - d], opp0[j - d + d]));
                    assert(has_id(rest, id));
                }
            }
            assert forall|id: u128| #[trigger] self.contains(id) implies old(self).contains(id) by {
                if has_id(rest, id) {
                    let j = choose|j: int| 0 <= j < rest.len() && #[trigger] rest[j].order.id == id;
                    assert(same_slot(rest[j], opp0[j + d]));
                    assert(opp0[j + d].order.id == id);
                }
            }
        }
        let taken = incoming.remaining_quantity - r;
        incoming.filled_quantity = incoming.filled_quantity + taken;
        incoming.remaining_quantity = r;
        fills
    }

    /// Places an order that has nothing filled yet: matches it against the opposite
    /// side, then rests a limit order's remainder at its price, after every order
    /// priced at least as well. A market order's remainder is rejected.
    pub fn place(&mut self, incoming: &mut Order) -> (fills: Vec<Fill>)
        requires
            old(self).wf(),
            old(self).priority_counter < u64::MAX,
            old(incoming).filled_quantity == 0,
            old(incoming).remaining_quantity == old(incoming).quantity,
            same_symbol(old(incoming).symbol, old(self).symbol),
            !old(self).contains(old(incoming).id),
            old(incoming).order_type == OrderType::Limit ==> old(incoming).price.is_some()
                && old(incoming).price != Some(0u64),
        ensures
            final(self).wf(),
            final(self).symbol == old(self).symbol,
            ({
                let (fs, rest, r) = match_spec(
                    old(self).opposite_of(old(incoming).side),
                    *old(incoming),
                    old(incoming).quantity,
                );
                let rests = r > 0 && old(incoming).order_type == OrderType::Limit;
                &&& fills@ == fs
                &&& final(self).opposite_of(old(incoming).side) == rest
                &&& *final(incoming) == placed(*old(incoming), r)
                &&& final(self).contains(old(incoming).id) == rests
                &&& rests ==> inserted_in_priority(
                    old(self).side_of(old(incoming).side),
                    final(self).side_of(old(incoming).side),
                    OrderBookEntry { order: placed(*old(incoming), r), priority: old(self).priority_counter },
                    old(incoming).side,
                ) && final(self).priority_counter == old(self).priority_counter + 1
                &&& !rests ==> final(self).side_of(old(incoming).side) == old(self).side_of(old(incoming).side)
                    && final(self).priority_counter == old(self).priority_counter
            }),
            forall|i: int|
                0 <= i < fills@.len() ==> (#[trigger] fills@[i]).maker.side != old(incoming).side
                    && old(self).contains(fills@[i].maker.id) && same_symbol(fills@[i].maker.symbol, old(self).symbol)
                    && (fills@[i].maker.remaining_quantity == 0 ==> fills@[i].maker.status == OrderStatus::Filled),
            forall|i: int, j: int|
                0 <= i < fills@.len() && 0 <= j < fills@.len() && i != j ==> #[trigger] fills@[i].maker.id
                    != #[trigger] fills@[j].maker.id,
            forall|i: int|
                0 <= i < fills@.len() && (#[trigger] fills@[i]).maker.remaining_quantity > 0 ==> final(self).contains(
                    fills@[i].maker.id,
                ),
            forall|id: u128|
                old(self).contains(id) && (forall|i: int| 0 <= i < fills@.len() ==> fills@[i].maker.id != id)
                    ==> #[trigger] final(self).contains(id),
            old(self).uncrossed() ==> final(self).uncrossed(),
    {
        let ghost inc0 = *incoming;
        let ghost opp = self.opposite_of(incoming.side);
        proof {
            lemma_match_shape(opp, inc0, inc0.quantity);
        }
        let fills = self.match_order(incoming);
        let rests = incoming.remaining_quantity > 0 && incoming.order_type == OrderType::Limit;
        if incoming.remaining_quantity == 0 {
            incoming.status = OrderStatus::Filled;
        } else {
            match incoming.order_type {
                OrderType::Limit => {
                    incoming.status = if incoming.remaining_quantity < incoming.quantity {
                        OrderStatus::PartiallyFilled
                    } else {
                        OrderStatus::New
                    };
                },
                _ => {
                    incoming.status = OrderStatus::Rejected;
                },
            }
        }
        assert(*incoming == placed(inc0, incoming.remaining_quantity));
        let ghost mid = *self;
        assert(incoming.price == inc0.price && incoming.order_type == inc0.order_type);
        if rests {
            let added = self.add_order(incoming.duplicate());
            assert(added.is_ok());
        } else {
            assert(!self.contains(inc0.id));
        }
        proof {
            let osd = if inc0.side == OrderSide::Buy { OrderSide::Sell } else { OrderSide::Buy };
            assert forall|i: int| 0 <= i < fills@.len() implies (#[trigger] fills@[i]).maker.side != inc0.side
                && old(self).contains(fills@[i].maker.id) && same_symbol(fills@[i].maker.symbol, old(self).symbol)
                && (fills@[i].maker.remaining_quantity == 0 ==> fills@[i].maker.status == OrderStatus::Filled) by {
                assert(entry_ok(opp[i], osd, old(self).symbol, old(self).priority_counter));
                assert(opp[i].order.id == fills@[i].maker.id);
                if inc0.side == OrderSide::Buy {
                    assert(has_id(old(self).asks@, fills@[i].maker.id));
                } else {
                    assert(has_id(old(self).bids@, fills@[i].maker.id));
                }
            }
            assert forall|i: int, j: int| 0 <= i < fills@.len() && 0 <= j < fills@.len() && i != j implies #[trigger] fills@[i].maker.id
                != #[trigger] fills@[j].maker.id by {
                assert(opp[i].order.id != opp[j].order.id);
            }
        }
        fills
    }
}

} // verus!
