use ohlc_lib::{calc_highlow, calc_open, Price, Ticker, TickerVal};
use std::collections::VecDeque;

fn tick(sym: &str, t: u128) -> Ticker {
    Ticker { a: px(0), s: sym.to_string(), b: px(0), t }
}

fn px(m: i128) -> Price {
    Price::new(m, 0).unwrap()
}

#[test]
fn calc_open_keeps_in_window_prefix() {
    let w = 1000;
    let mut v: VecDeque<TickerVal> = VecDeque::new();
    v = calc_open(&tick("X", 0), v, px(10), w);
    assert_eq!(v.len(), 1);
    assert_eq!(v[0].price, px(10));
    v = calc_open(&tick("X", 500), v, px(11), w);
    assert_eq!(v.len(), 2);
    assert_eq!(v[0].price, px(10));
    // the first value expires: 1400 - 0 > 1000, 1400 - 500 <= 1000
    v = calc_open(&tick("X", 1400), v, px(12), w);
    assert_eq!(v.len(), 2);
    assert_eq!(v[0].price, px(11));
    assert_eq!(v[0].timestamp, 500);
}

#[test]
fn calc_highlow_pops_dominated_backs() {
    let w = 1000;
    let mut v: VecDeque<TickerVal> = VecDeque::new();
    v = calc_highlow(&tick("X", 0), v, px(10), true, w);
    v = calc_highlow(&tick("X", 1), v, px(8), true, w);
    assert_eq!(v.len(), 2);
    // 9 beats the back (8) but not the front (10)
    v = calc_highlow(&tick("X", 2), v, px(9), true, w);
    assert_eq!(v.len(), 2);
    assert_eq!(v[0].price, px(10));
    // 11 beats everything and becomes the sole entry
    v = calc_highlow(&tick("X", 3), v, px(11), true, w);
    assert_eq!(v.len(), 1);
    assert_eq!(v[0].price, px(11));
}

#[test]
fn calc_highlow_min_direction() {
    let w = 1000;
    let mut v: VecDeque<TickerVal> = VecDeque::new();
    v = calc_highlow(&tick("X", 0), v, px(10), false, w);
    v = calc_highlow(&tick("X", 1), v, px(12), false, w);
    assert_eq!(v[0].price, px(10));
    v = calc_highlow(&tick("X", 2), v, px(7), false, w);
    assert_eq!(v.len(), 1);
    assert_eq!(v[0].price, px(7));
}

#[test]
fn calc_highlow_expires_front_by_age() {
    let w = 100;
    let mut v: VecDeque<TickerVal> = VecDeque::new();
    v = calc_highlow(&tick("X", 0), v, px(50), true, w);
    // the 50 is out of the window at t=200 even though it dominates
    v = calc_highlow(&tick("X", 200), v, px(1), true, w);
    assert_eq!(v.len(), 1);
    assert_eq!(v[0].price, px(1));
}
