use vstd::prelude::*;

use crate::types::{now_millis, same_symbol, MarketData, Symbol, Trade};

verus! {

/// Trades of the log that belong to `symbol` (all of them when `None`), newest first.
pub open spec fn newest_first(log: Seq<Trade>, symbol: Option<Symbol>) -> Seq<Trade>
    decreases log.len(),
{
    if log.len() == 0 {
        Seq::empty()
    } else {
        let rest = newest_first(log.skip(1), symbol);
        let keep = match symbol {
            Some(s) => same_symbol(log[0].symbol, s),
            None => true,
        };
        if keep {
            rest.push(log[0])
        } else {
            rest
        }
    }
}

/// At most `limit` of a sequence, from its front.
pub open spec fn capped<T>(s: Seq<T>, limit: Option<usize>) -> Seq<T> {
    match limit {
        Some(n) => if n < s.len() {
            s.take(n as int)
        } else {
            s
        },
        None => s,
    }
}

pub open spec fn saturating(x: int) -> u128 {
    if x > u128::MAX {
        u128::MAX
    } else {
        x as u128
    }
}

/// Quote volume, quantity times price summed over the trades, saturating.
pub open spec fn volume_of(w: Seq<Trade>) -> u128
    decreases w.len(),
{
    if w.len() == 0 {
        0
    } else {
        saturating(volume_of(w.drop_last()) + w.last().quantity * w.last().price)
    }
}

/// Highest price, zero for no trades.
pub open spec fn high_of(w: Seq<Trade>) -> u64
    decreases w.len(),
{
    if w.len() == 0 {
        0
    } else {
        let h = high_of(w.drop_last());
        if w.last().price > h {
            w.last().price
        } else {
            h
        }
    }
}

/// Lowest price, zero for no trades.
pub open spec fn low_of(w: Seq<Trade>) -> u64
    decreases w.len(),
{
    if w.len() == 0 {
        0
    } else if w.len() == 1 {
        w[0].price
    } else {
        let l = low_of(w.drop_last());
        if w.last().price < l {
            w.last().price
        } else {
            l
        }
    }
}

/// Change in basis points from the oldest trade of a newest-first window to the
/// newest, truncated toward zero; zero with fewer than two trades or an oldest
/// price of zero.
pub open spec fn change_of(w: Seq<Trade>) -> i128 {
    if w.len() < 2 || w.last().price == 0 {
        0
    } else {
        let newest = w[0].price as int;
        let oldest = w.last().price as int;
        if newest >= oldest {
            ((newest - oldest) * 10000 / oldest) as i128
        } else {
            (-((oldest - newest) * 10000 / oldest)) as i128
        }
    }
}

/// Trades of `log` for `symbol` (all when `None`), newest first, at most `limit`.
pub fn recent_trades(log: &Vec<Trade>, symbol: Option<&Symbol>, limit: Option<usize>) -> (r: Vec<
    Trade,
>)
    ensures
        r@ == capped(
            newest_first(
                log@,
                match symbol {
                    Some(s) => Some(*s),
                    None => None,
                },
            ),
            limit,
        ),
{
    let ghost sym = match symbol {
        Some(s) => Some(*s),
        None => None::<Symbol>,
    };
    let mut out: Vec<Trade> = Vec::new();
    let mut i: usize = log.len();
    while i > 0
        invariant
            i <= log@.len(),
            sym == match symbol {
                Some(s) => Some(*s),
                None => None::<Symbol>,
            },
            out@ == newest_first(log@.subrange(i as int, log@.len() as int), sym),
        decreases i,
    {
        i = i - 1;
        let ghost prev = out@;
        let t = &log[i];
        let keep = match symbol {
            Some(s) => t.symbol.same_as(s),
            None => true,
        };
        if keep {
            out.push(t.duplicate());
        }
        proof {
            let sub = log@.subrange(i as int, log@.len() as int);
            assert(sub.skip(1) =~= log@.subrange(i + 1, log@.len() as int));
            assert(sub[0] == log@[i as int]);
            assert(prev == newest_first(sub.skip(1), sym));
            assert(keep == match sym {
                Some(s) => same_symbol(sub[0].symbol, s),
                None => true,
            });
            if keep {
                assert(out@ == prev.push(sub[0]));
            } else {
                assert(out@ == prev);
            }
        }
    }
    proof {
        assert(log@.subrange(0, log@.len() as int) =~= log@);
    }
    match limit {
        Some(n) => {
            out.truncate(n);
            proof {
                if n < out@.len() {
                    assert(out@.subrange(0, n as int) =~= out@.take(n as int));
                }
            }
        },
        None => {},
    }
    out
}

/// Summary of a window of trades given newest first: last price, quote volume,
/// high, low, and change from oldest to newest.
pub fn summarize(symbol: &Symbol, window: &Vec<Trade>) -> (r: MarketData)
    ensures
        r.symbol == *symbol,
        r.last_price == (if window@.len() > 0 {
            window@[0].price
        } else {
            0
        }),
        r.volume_24h == volume_of(window@),
        r.high_24h == high_of(window@),
        r.low_24h == low_of(window@),
        r.price_change_24h == change_of(window@),
{
    let mut volume: u128 = 0;
    let mut high: u64 = 0;
    let mut low: u64 = 0;
    let mut i: usize = 0;
    while i < window.len()
        invariant
            i <= window@.len(),
            volume == volume_of(window@.take(i as int)),
            high == high_of(window@.take(i as int)),
            low == low_of(window@.take(i as int)),
        decreases window@.len() - i,
    {
        let t = &window[i];
        proof {
            assert(window@.take(i + 1).drop_last() =~= window@.take(i as int));
            assert(window@.take(i + 1).last() == window@[i as int]);
            assert(t.quantity * t.price <= u64::MAX * u64::MAX) by (nonlinear_arith)
                requires t.quantity <= u64::MAX, t.price <= u64::MAX;
        }
        let v = (t.quantity as u128) * (t.price as u128);
        volume = volume.saturating_add(v);
        if t.price > high {
            high = t.price;
        }
        if i == 0 || t.price < low {
            low = t.price;
        }
        proof {
            if i == 0 {
                assert(window@.take(1)[0] == window@[0]);
            }
        }
        i = i + 1;
    }
    proof {
        assert(window@.take(i as int) =~= window@);
    }
    let n = window.len();
    let last_price = if n > 0 {
        window[0].price
    } else {
        0
    };
    let change: i128 = if n < 2 || window[n - 1].price == 0 {
        0
    } else {
        let newest = window[0].price as u128;
        let oldest = window[n - 1].price as u128;
        if newest >= oldest {
            (((newest - oldest) * 10000) / oldest) as i128
        } else {
            -((((oldest - newest) * 10000) / oldest) as i128)
        }
    };
    MarketData {
        symbol: symbol.duplicate(),
        last_price,
        volume_24h: volume,
        price_change_24h: change,
        high_24h: high,
        low_24h: low,
        timestamp: now_millis(),
    }
}

} // verus!
