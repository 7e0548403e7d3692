use ohlc_lib::{Aggregator, Price, Ticker, TickerVal};
use rust_decimal::Decimal;
use std::str::FromStr;

fn p(m: i128, s: u32) -> Price {
    Price::new(m, s).unwrap()
}

fn feed(agg: &mut Aggregator, sym: &str, t: u128, price: Price) -> Option<ohlc_lib::ParseOutput> {
    agg.process_priced(&sym.to_string(), t, price)
}

#[test]
fn concrete_scenario() {
    // symbol "X", window 300000 ms, four ticks; expected values recomputed
    // by a brute-force scan over the in-window ticks
    let mut agg = Aggregator::new(300_000);
    let r0 = feed(&mut agg, "X", 0, p(10, 0)).unwrap();
    assert_eq!((r0.open, r0.high, r0.low, r0.close), (p(10, 0), p(10, 0), p(10, 0), p(10, 0)));
    let r1 = feed(&mut agg, "X", 100_000, p(12, 0)).unwrap();
    assert_eq!((r1.open, r1.high, r1.low, r1.close), (p(10, 0), p(12, 0), p(10, 0), p(12, 0)));
    let r2 = feed(&mut agg, "X", 250_000, p(8, 0)).unwrap();
    assert_eq!((r2.open, r2.high, r2.low, r2.close), (p(10, 0), p(12, 0), p(8, 0), p(8, 0)));
    // at t=400000 the tick at t=0 has expired (gap 400000 > 300000); the
    // ticks at 100000 (gap exactly 300000, still in-window), 250000 and
    // 400000 remain: open 12, high 12, low 8, close 9
    let r3 = feed(&mut agg, "X", 400_000, p(9, 0)).unwrap();
    assert_eq!((r3.open, r3.high, r3.low, r3.close), (p(12, 0), p(12, 0), p(8, 0), p(9, 0)));
    assert_eq!(r3.timestamp, 400_000);
    assert_eq!(r3.symbol, "X".to_string());
}

#[test]
fn single_observation() {
    let mut agg = Aggregator::new(300_000);
    let r = feed(&mut agg, "NEW", 42, p(12345, 2)).unwrap();
    assert_eq!(r.open, p(12345, 2));
    assert_eq!(r.high, p(12345, 2));
    assert_eq!(r.low, p(12345, 2));
    assert_eq!(r.close, p(12345, 2));
}

#[test]
fn window_gap_restarts() {
    // two consecutive ticks separated by more than the window: all prior
    // history is discarded and the window restarts at the newer tick
    let mut agg = Aggregator::new(1000);
    feed(&mut agg, "G", 0, p(100, 0)).unwrap();
    feed(&mut agg, "G", 500, p(1, 0)).unwrap();
    let r = feed(&mut agg, "G", 2000, p(7, 0)).unwrap();
    assert_eq!((r.open, r.high, r.low, r.close), (p(7, 0), p(7, 0), p(7, 0), p(7, 0)));
}

#[test]
fn gap_of_exactly_window_stays() {
    let mut agg = Aggregator::new(1000);
    feed(&mut agg, "E", 0, p(5, 0)).unwrap();
    let r = feed(&mut agg, "E", 1000, p(9, 0)).unwrap();
    assert_eq!(r.open, p(5, 0));
    assert_eq!(r.high, p(9, 0));
    assert_eq!(r.low, p(5, 0));
}

#[test]
fn order_preserved_across_symbols() {
    let mut agg = Aggregator::new(300_000);
    let ticks = vec![
        TickerVal { symbol: "A".to_string(), timestamp: 1, price: p(1, 0) },
        TickerVal { symbol: "B".to_string(), timestamp: 2, price: p(2, 0) },
        TickerVal { symbol: "A".to_string(), timestamp: 3, price: p(3, 0) },
        TickerVal { symbol: "B".to_string(), timestamp: 4, price: p(4, 0) },
    ];
    let (recs, _attribution) = agg.process_all(&ticks);
    let seen: Vec<(String, u128)> = recs.iter().map(|r| (r.symbol.clone(), r.timestamp)).collect();
    assert_eq!(
        seen,
        vec![
            ("A".to_string(), 1),
            ("B".to_string(), 2),
            ("A".to_string(), 3),
            ("B".to_string(), 4)
        ]
    );
}

#[test]
fn allow_list_skips_other_symbols() {
    let mut agg = Aggregator::with_symbols(300_000, vec!["TURBOUSDT".to_string()]);
    assert!(feed(&mut agg, "FISHUSDT", 1, p(1, 0)).is_none());
    assert!(feed(&mut agg, "TURBOUSDT", 1, p(1, 0)).is_some());
}

#[test]
fn backwards_timestamp_is_skipped() {
    let mut agg = Aggregator::new(300_000);
    feed(&mut agg, "X", 100, p(1, 0)).unwrap();
    assert!(feed(&mut agg, "X", 99, p(2, 0)).is_none());
    // the skipped tick left the state untouched
    let r = feed(&mut agg, "X", 100, p(3, 0)).unwrap();
    assert_eq!(r.open, p(1, 0));
    assert_eq!(r.high, p(3, 0));
}

#[test]
fn midpoint_of_bid_and_ask() {
    let mut agg = Aggregator::new(300_000);
    let ticker = Ticker { a: p(12, 0), s: "M".to_string(), b: p(10, 0), t: 1 };
    let r = agg.process_tick(&ticker).unwrap();
    let close = Decimal::from_i128_with_scale(r.close.mantissa, r.close.scale);
    assert_eq!(close, Decimal::from_str("11").unwrap());
    // an exact half survives: (10 + 10.01) / 2 = 10.005
    let ticker2 = Ticker { a: p(10, 0), s: "M".to_string(), b: p(1001, 2), t: 2 };
    let r2 = agg.process_tick(&ticker2).unwrap();
    let close2 = Decimal::from_i128_with_scale(r2.close.mantissa, r2.close.scale);
    assert_eq!(close2, Decimal::from_str("10.005").unwrap());
}

#[test]
fn cross_scale_comparison() {
    // 10.5 and 10.50 are the same value on different scales; 11 beats both
    let mut agg = Aggregator::new(300_000);
    feed(&mut agg, "S", 0, p(105, 1)).unwrap();
    let r1 = feed(&mut agg, "S", 1, p(1050, 2)).unwrap();
    assert_eq!(r1.high, p(105, 1));
    assert_eq!(r1.low, p(105, 1));
    let r2 = feed(&mut agg, "S", 2, p(11, 0)).unwrap();
    assert_eq!(r2.high, p(11, 0));
    assert_eq!(r2.low, p(105, 1));
}

#[test]
fn format_output_exact_line() {
    let line = ohlc_lib::format_output(
        &"X".to_string(),
        5,
        p(10, 0),
        p(125, 1),
        p(8, 0),
        p(9, 0),
    );
    assert_eq!(
        line,
        "{\"symbol\":\"X\",\"timestamp\":5,\"open\":\"10\",\"high\":\"12.5\",\"low\":\"8\",\"close\":\"9\"}\n"
    );
}

#[test]
fn u128_to_string_digits() {
    assert_eq!(ohlc_lib::u128_to_string(0), "0".to_string());
    assert_eq!(ohlc_lib::u128_to_string(1234567890), "1234567890".to_string());
}

#[test]
fn decimal_round_trip() {
    // a price with many decimal digits round-trips through the serialized
    // line with no precision loss
    let exact = p(123_456_789_123_456_789_012_345_678, 26);
    let mut agg = Aggregator::new(300_000);
    let r = feed(&mut agg, "D", 7, exact).unwrap();
    let line = ohlc_lib::format_output(&r.symbol, r.timestamp, r.open, r.high, r.low, r.close);
    let v: serde_json::Value = serde_json::from_str(line.trim_end()).unwrap();
    let open_back = Decimal::from_str(v["open"].as_str().unwrap()).unwrap();
    assert_eq!(open_back, Decimal::from_i128_with_scale(exact.mantissa, exact.scale));
    assert_eq!(v["symbol"].as_str().unwrap(), "D");
    assert_eq!(v["timestamp"].as_u64().unwrap(), 7);
}

#[test]
fn price_new_rejects_out_of_range() {
    assert!(Price::new(1, 29).is_none());
    assert!(Price::new(79_228_162_514_264_337_593_543_950_336, 0).is_none());
    assert!(Price::new(79_228_162_514_264_337_593_543_950_335, 28).is_some());
    assert!(Price::new(-79_228_162_514_264_337_593_543_950_335, 0).is_some());
}

#[test]
fn equal_timestamps_are_processed() {
    let mut agg = Aggregator::new(100);
    feed(&mut agg, "T", 5, p(3, 0)).unwrap();
    let r = feed(&mut agg, "T", 5, p(9, 0)).unwrap();
    assert_eq!(r.open, p(3, 0));
    assert_eq!(r.high, p(9, 0));
    assert_eq!(r.low, p(3, 0));
    assert_eq!(r.close, p(9, 0));
}

#[test]
fn matches_brute_force_rescan() {
    // the incremental answers must equal an independent rescan of the
    // in-window ticks for every tick of a varied stream
    let w: u128 = 50;
    let stream: Vec<(u128, i128, u32)> = vec![
        (0, 10, 0),
        (5, 125, 1),
        (9, 125, 1),
        (20, 7, 0),
        (30, 99, 1),
        (55, 10, 0),
        (56, 101, 1),
        (80, 45, 1),
        (120, 8, 0),
        (121, 80, 1),
        (200, 3, 0),
        (201, 30000, 4),
        (202, 4, 0),
        (260, 12, 0),
        (261, 1200001, 5),
        (330, 5, 0),
    ];
    let mut agg = Aggregator::new(w);
    let mut hist: Vec<(u128, Decimal)> = vec![];
    for (t, m, s) in stream {
        let pr = Price::new(m, s).unwrap();
        let rec = feed(&mut agg, "BF", t, pr).unwrap();
        hist.push((t, Decimal::from_i128_with_scale(m, s)));
        let in_w: Vec<Decimal> = hist
            .iter()
            .filter(|(ts, _)| t - ts <= w)
            .map(|(_, d)| *d)
            .collect();
        let open = in_w[0];
        let high = *in_w.iter().max().unwrap();
        let low = *in_w.iter().min().unwrap();
        let close = in_w[in_w.len() - 1];
        assert_eq!(Decimal::from_i128_with_scale(rec.open.mantissa, rec.open.scale), open);
        assert_eq!(Decimal::from_i128_with_scale(rec.high.mantissa, rec.high.scale), high);
        assert_eq!(Decimal::from_i128_with_scale(rec.low.mantissa, rec.low.scale), low);
        assert_eq!(Decimal::from_i128_with_scale(rec.close.mantissa, rec.close.scale), close);
    }
}
