//! Tick data: one timestamped price observation for one symbol.

use vstd::prelude::*;
use crate::price::Price;

verus! {

/// One decoded input tick: ask `a`, symbol `s`, bid `b`, timestamp `t`
/// in milliseconds.
#[derive(Clone, Debug)]
pub struct Ticker {
    pub a: Price,
    pub s: String,
    pub b: Price,
    pub t: u128,
}

/// A price observation stored inside a sliding tracker; never mutated after
/// insertion, only evicted.
#[derive(Clone, Debug)]
pub struct TickerVal {
    pub symbol: String,
    pub timestamp: u128,
    pub price: Price,
}

/// One output record: per-tick Open-High-Low-Close summary.
#[derive(Clone, Debug, PartialEq)]
pub struct ParseOutput {
    pub symbol: String,
    pub timestamp: u128,
    pub open: Price,
    pub high: Price,
    pub low: Price,
    pub close: Price,
}

} // verus!
