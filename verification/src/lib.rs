//! Rolling OHLC aggregation over a trailing time window.
//!
//! A stream of timestamped price ticks, one symbol at a time, is summarized
//! into one Open-High-Low-Close record per tick, computed over a trailing
//! window of fixed duration. The sliding containers that maintain the open
//! price and the running extrema are verified: their contracts state, over
//! the full history of ticks fed in, that the reported open is the earliest
//! still-in-window price and that the reported high (low) is the maximum
//! (minimum) in-window price.

pub mod price;
pub mod ticks;
pub mod trackers;
pub mod aggregate;
pub mod output;

pub use price::Price;
pub use ticks::{Ticker, TickerVal, ParseOutput};
pub use trackers::{calc_open, calc_highlow, OpenTracker, ExtremumTracker};
pub use aggregate::{Aggregator, SymbolState};
pub use output::{format_output, u128_to_string};
