//! The sliding-window containers: the open tracker (a FIFO of the still
//! in-window observations) and the extremum tracker (a monotonic deque whose
//! front is the running maximum or minimum).
//!
//! The window is anchored at the latest tick: an observation with timestamp
//! `ts` is in scope for a tick at `now` exactly when `now - ts <= w`; a gap
//! of exactly `w` is still in-window, only a larger gap expires.
//!
//! The extremum tracker evicts by age from the front and by domination from
//! the back, independently: a newly observed price removes from the back
//! every price it strictly beats, since such a price can never again become
//! the extremum while the newer one remains in-window.

use vstd::prelude::*;
use std::collections::VecDeque;
use crate::price::{Price, price_lt, price_le};
use crate::ticks::{Ticker, TickerVal};

verus! {

/// Is a value with timestamp `ts` still inside the trailing window of
/// duration `w` anchored at `now`?
pub open spec fn in_window(now: u128, ts: u128, w: u128) -> bool {
    now - ts <= w
}

/// Timestamps never decrease along the sequence.
pub open spec fn ts_monotone(h: Seq<TickerVal>) -> bool {
    forall|i: int, j: int| 0 <= i <= j < h.len() ==> h[i].timestamp <= h[j].timestamp
}

/// Every stored price is in the representable decimal range.
pub open spec fn prices_wf(h: Seq<TickerVal>) -> bool {
    forall|i: int| 0 <= i < h.len() ==> h[i].price.wf()
}

/// `a` is at least as good as `b` under the tracked direction:
/// at least as large when maximizing, at least as small when minimizing.
pub open spec fn dominates(maximize: bool, a: Price, b: Price) -> bool {
    if maximize {
        price_le(b, a)
    } else {
        price_le(a, b)
    }
}

/// `a` strictly beats `b` under the tracked direction.
pub open spec fn strictly_better(maximize: bool, a: Price, b: Price) -> bool {
    if maximize {
        price_lt(b, a)
    } else {
        price_lt(a, b)
    }
}

/// Drop values from the front while they have fallen out of the window
/// anchored at `now`.
pub open spec fn evict_front_expired(s: Seq<TickerVal>, now: u128, w: u128) -> Seq<TickerVal>
    decreases s.len(),
{
    if s.len() == 0 {
        s
    } else if !in_window(now, s[0].timestamp, w) {
        evict_front_expired(s.drop_first(), now, w)
    } else {
        s
    }
}

/// How many values `evict_front_expired` drops.
pub open spec fn evict_front_count(s: Seq<TickerVal>, now: u128, w: u128) -> int
    decreases s.len(),
{
    if s.len() == 0 {
        0
    } else if !in_window(now, s[0].timestamp, w) {
        1 + evict_front_count(s.drop_first(), now, w)
    } else {
        0
    }
}

/// Drop values from the back while the new price `p` strictly beats them.
pub open spec fn evict_back_dominated(s: Seq<TickerVal>, maximize: bool, p: Price) -> Seq<
    TickerVal,
>
    decreases s.len(),
{
    if s.len() == 0 {
        s
    } else if strictly_better(maximize, p, s.last().price) {
        evict_back_dominated(s.drop_last(), maximize, p)
    } else {
        s
    }
}

/// One step of the open tracker: append the new value, then expire the front.
pub open spec fn spec_calc_open(s: Seq<TickerVal>, tv: TickerVal, w: u128) -> Seq<TickerVal> {
    evict_front_expired(s.push(tv), tv.timestamp, w)
}

/// One step of the extremum tracker: expire the front by age, evict the back
/// by domination, then append the new value.
pub open spec fn spec_calc_highlow(
    s: Seq<TickerVal>,
    tv: TickerVal,
    w: u128,
    maximize: bool,
) -> Seq<TickerVal> {
    evict_back_dominated(
        evict_front_expired(s, tv.timestamp, w),
        maximize,
        tv.price,
    ).push(tv)
}

/// Feeds one tick into an open-tracking FIFO: the new value is appended and
/// the front is expired until it is back inside the window. The front of the
/// result is the open price for this tick.
pub fn calc_open(ticker: &Ticker, open_vec: VecDeque<TickerVal>, price: Price, window: u128) -> (r:
    VecDeque<TickerVal>)
    requires
        forall|i: int| 0 <= i < open_vec@.len() ==> #[trigger] open_vec@[i].timestamp <= ticker.t,
    ensures
        r@ == spec_calc_open(
            open_vec@,
            (TickerVal { symbol: ticker.s, timestamp: ticker.t, price }),
            window,
        ),
        r@.len() > 0,
{
    let ghost tv = TickerVal { symbol: ticker.s, timestamp: ticker.t, price };
    let mut v = open_vec;
    v.push_back(TickerVal { symbol: ticker.s.clone(), timestamp: ticker.t, price });
    while v.len() > 0 && ticker.t - v[0].timestamp > window
        invariant
            v@.len() > 0,
            v@.last() == tv,
            tv.timestamp == ticker.t,
            forall|i: int| 0 <= i < v@.len() ==> #[trigger] v@[i].timestamp <= ticker.t,
            evict_front_expired(v@, ticker.t, window) == spec_calc_open(open_vec@, tv, window),
        decreases v@.len(),
    {
        proof {
            // the back is in-window, so the expired front is not the back
            assert(in_window(ticker.t, v@.last().timestamp, window));
            assert(v@.len() > 1);
        }
        v.pop_front();
    }
    proof {
        assert(evict_front_expired(v@, ticker.t, window) == v@);
    }
    v
}

/// Feeds one tick into a monotonic extremum deque: ages the front out of the
/// window, removes from the back every price the new one strictly beats
/// (`highlow` true tracks the maximum, false the minimum), and appends the
/// new value. The front of the result is the extremum for this tick.
pub fn calc_highlow(
    ticker: &Ticker,
    highlow_vec: VecDeque<TickerVal>,
    price: Price,
    highlow: bool,
    window: u128,
) -> (r: VecDeque<TickerVal>)
    requires
        price.wf(),
        forall|i: int| 0 <= i < highlow_vec@.len() ==> #[trigger] highlow_vec@[i].timestamp
            <= ticker.t,
        forall|i: int| 0 <= i < highlow_vec@.len() ==> (#[trigger] highlow_vec@[i].price).wf(),
    ensures
        r@ == spec_calc_highlow(
            highlow_vec@,
            (TickerVal { symbol: ticker.s, timestamp: ticker.t, price }),
            window,
            highlow,
        ),
        r@.len() > 0,
{
    let ghost tv = TickerVal { symbol: ticker.s, timestamp: ticker.t, price };
    let mut v = highlow_vec;
    while v.len() > 0 && ticker.t - v[0].timestamp > window
        invariant
            forall|i: int| 0 <= i < v@.len() ==> #[trigger] v@[i].timestamp <= ticker.t,
            forall|i: int| 0 <= i < v@.len() ==> (#[trigger] v@[i].price).wf(),
            evict_front_expired(v@, ticker.t, window) == evict_front_expired(
                highlow_vec@,
                ticker.t,
                window,
            ),
        decreases v@.len(),
    {
        v.pop_front();
    }
    proof {
        assert(evict_front_expired(v@, ticker.t, window) == v@);
    }
    loop
        invariant
            price.wf(),
            forall|i: int| 0 <= i < v@.len() ==> #[trigger] v@[i].timestamp <= ticker.t,
            forall|i: int| 0 <= i < v@.len() ==> (#[trigger] v@[i].price).wf(),
            evict_back_dominated(v@, highlow, price) == evict_back_dominated(
                evict_front_expired(highlow_vec@, ticker.t, window),
                highlow,
                price,
            ),
        ensures
            v@ == evict_back_dominated(
                evict_front_expired(highlow_vec@, ticker.t, window),
                highlow,
                price,
            ),
        decreases v@.len(),
    {
        if v.len() == 0 {
            break ;
        }
        let back = v[v.len() - 1].price;
        let dominated = if highlow {
            crate::price::price_is_lt(&back, &price)
        } else {
            crate::price::price_is_lt(&price, &back)
        };
        if !dominated {
            proof {
                assert(evict_back_dominated(v@, highlow, price) == v@);
            }
            break ;
        }
        v.pop_back();
    }
    v.push_back(TickerVal { symbol: ticker.s.clone(), timestamp: ticker.t, price });
    v
}

/// The open deque that results from feeding a whole history of ticks, one
/// `spec_calc_open` step at a time.
pub open spec fn fold_open(h: Seq<TickerVal>, w: u128) -> Seq<TickerVal>
    decreases h.len(),
{
    if h.len() == 0 {
        Seq::empty()
    } else {
        spec_calc_open(fold_open(h.drop_last(), w), h.last(), w)
    }
}

/// The index of the earliest history entry still inside the window anchored
/// at the latest entry.
pub open spec fn open_index(h: Seq<TickerVal>, w: u128) -> int
    decreases h.len(),
{
    if h.len() == 0 {
        0
    } else if in_window(h.last().timestamp, h[0].timestamp, w) {
        0
    } else {
        1 + open_index(h.drop_first(), w)
    }
}

/// `open_index` points at the earliest in-window entry: it is in-window
/// itself, and everything before it has expired.
pub proof fn lemma_open_index(h: Seq<TickerVal>, w: u128)
    requires
        h.len() > 0,
        ts_monotone(h),
    ensures
        0 <= open_index(h, w) < h.len(),
        in_window(h.last().timestamp, h[open_index(h, w)].timestamp, w),
        forall|j: int|
            0 <= j < open_index(h, w) ==> !in_window(h.last().timestamp, h[j].timestamp, w),
    decreases h.len(),
{
    if in_window(h.last().timestamp, h[0].timestamp, w) {
    } else {
        // the last entry is always in-window of itself, so h has at least
        // two entries here
        assert(h.len() >= 2);
        let hd = h.drop_first();
        assert(hd.last() == h.last());
        assert(ts_monotone(hd)) by {
            assert(forall|i: int, j: int|
                0 <= i <= j < hd.len() ==> hd[i].timestamp == h[i + 1].timestamp && hd[j].timestamp
                    == h[j + 1].timestamp);
        }
        lemma_open_index(hd, w);
        let m = open_index(h, w);
        assert(m == 1 + open_index(hd, w));
        assert(h[m] == hd[m - 1]);
        assert(forall|j: int| 1 <= j < m ==> h[j] == hd[j - 1]);
    }
}

/// Evicting expired entries from any suffix that already starts at or before
/// the earliest in-window entry yields exactly the in-window suffix.
proof fn lemma_evict_to_open_suffix(h: Seq<TickerVal>, w: u128, k: int)
    requires
        h.len() > 0,
        ts_monotone(h),
        0 <= k <= open_index(h, w),
    ensures
        evict_front_expired(h.subrange(k, h.len() as int), h.last().timestamp, w) == h.subrange(
            open_index(h, w),
            h.len() as int,
        ),
    decreases open_index(h, w) - k,
{
    let n = h.len() as int;
    let m = open_index(h, w);
    lemma_open_index(h, w);
    let s = h.subrange(k, n);
    assert(s.len() > 0);
    assert(s[0] == h[k]);
    if k == m {
        assert(s.last() == h.last());
        assert(in_window(h.last().timestamp, s[0].timestamp, w));
        assert(evict_front_expired(s, h.last().timestamp, w) == s);
    } else {
        assert(!in_window(h.last().timestamp, h[k].timestamp, w));
        assert(evict_front_expired(s, h.last().timestamp, w) == evict_front_expired(
            s.drop_first(),
            h.last().timestamp,
            w,
        ));
        assert(s.drop_first() =~= h.subrange(k + 1, n));
        lemma_evict_to_open_suffix(h, w, k + 1);
    }
}

/// The open deque built from a monotone history is exactly the suffix of the
/// history that starts at the earliest in-window entry.
pub proof fn lemma_fold_open(h: Seq<TickerVal>, w: u128)
    requires
        h.len() > 0,
        ts_monotone(h),
    ensures
        fold_open(h, w) == h.subrange(open_index(h, w), h.len() as int),
    decreases h.len(),
{
    let n = h.len() as int;
    let tv = h.last();
    let h0 = h.drop_last();
    lemma_open_index(h, w);
    let m = open_index(h, w);
    if n == 1 {
        assert(h.drop_last().len() == 0);
        assert(fold_open(h.drop_last(), w) == Seq::<TickerVal>::empty());
        assert(fold_open(h, w) == spec_calc_open(Seq::<TickerVal>::empty(), tv, w));
        assert(Seq::<TickerVal>::empty().push(tv) =~= h);
        assert(in_window(tv.timestamp, tv.timestamp, w));
        assert(evict_front_expired(h, tv.timestamp, w) == h);
        assert(m == 0);
        assert(h.subrange(0, 1) =~= h);
    } else {
        assert(ts_monotone(h0)) by {
            assert(forall|i: int, j: int|
                0 <= i <= j < h0.len() ==> h0[i] == h[i] && h0[j] == h[j]);
        }
        lemma_fold_open(h0, w);
        let m0 = open_index(h0, w);
        lemma_open_index(h0, w);
        assert(fold_open(h, w) == evict_front_expired(fold_open(h0, w).push(tv), tv.timestamp, w));
        assert(fold_open(h0, w).push(tv) =~= h.subrange(m0, n));
        // entries expired for the previous anchor stay expired for the newer one
        assert(h0.last().timestamp <= tv.timestamp);
        assert(forall|j: int|
            0 <= j < m0 ==> !in_window(tv.timestamp, #[trigger] h[j].timestamp, w)) by {
            assert(forall|j: int|
                0 <= j < m0 ==> !in_window(h0.last().timestamp, #[trigger] h0[j].timestamp, w));
            assert(forall|j: int| 0 <= j < m0 ==> h0[j] == h[j]);
        }
        // hence the earliest in-window entry of h is at or after m0
        assert(m0 <= m) by {
            if m < m0 {
                assert(in_window(h.last().timestamp, h[m].timestamp, w));
                assert(!in_window(tv.timestamp, h[m].timestamp, w));
            }
        }
        lemma_evict_to_open_suffix(h, w, m0);
    }
}

/// Transitivity of domination, in either direction.
pub proof fn lemma_dominates_trans(maximize: bool, a: Price, b: Price, c: Price)
    requires
        dominates(maximize, a, b),
        dominates(maximize, b, c),
    ensures
        dominates(maximize, a, c),
{
    if maximize {
        crate::price::lemma_price_le_trans(c, b, a);
    } else {
        crate::price::lemma_price_le_trans(a, b, c);
    }
}

/// What `evict_front_expired` does, exactly: it removes a fully expired
/// prefix and stops at the first in-window entry.
proof fn lemma_evict_front(s: Seq<TickerVal>, now: u128, w: u128)
    ensures
        ({
            let c = evict_front_count(s, now, w);
            let r = evict_front_expired(s, now, w);
            &&& 0 <= c <= s.len()
            &&& r == s.subrange(c, s.len() as int)
            &&& forall|j: int| 0 <= j < c ==> !in_window(now, (#[trigger] s[j]).timestamp, w)
            &&& r.len() > 0 ==> in_window(now, r[0].timestamp, w)
        }),
    decreases s.len(),
{
    let c = evict_front_count(s, now, w);
    let r = evict_front_expired(s, now, w);
    if s.len() == 0 {
        assert(r =~= s.subrange(0, 0));
    } else if !in_window(now, s[0].timestamp, w) {
        lemma_evict_front(s.drop_first(), now, w);
        assert(s.drop_first() =~= s.subrange(1, s.len() as int));
        assert(r =~= s.subrange(c, s.len() as int));
        assert(forall|j: int| 1 <= j < c ==> s[j] == s.drop_first()[j - 1]);
    } else {
        assert(r =~= s.subrange(0, s.len() as int));
    }
}

/// What `evict_back_dominated` does, exactly: it keeps a prefix, drops only
/// entries the new price strictly beats, and stops at an unbeaten entry.
proof fn lemma_evict_back(s: Seq<TickerVal>, maximize: bool, p: Price)
    ensures
        ({
            let r = evict_back_dominated(s, maximize, p);
            &&& 0 <= r.len() <= s.len()
            &&& r == s.subrange(0, r.len() as int)
            &&& forall|j: int|
                r.len() <= j < s.len() ==> strictly_better(maximize, p, (#[trigger] s[j]).price)
            &&& r.len() > 0 ==> !strictly_better(maximize, p, r.last().price)
        }),
    decreases s.len(),
{
    let r = evict_back_dominated(s, maximize, p);
    if s.len() == 0 {
        assert(r =~= s.subrange(0, 0));
    } else if strictly_better(maximize, p, s.last().price) {
        lemma_evict_back(s.drop_last(), maximize, p);
        assert(s.drop_last() =~= s.subrange(0, s.len() - 1));
        assert(r =~= s.subrange(0, r.len() as int));
        assert(forall|j: int| 0 <= j < s.len() - 1 ==> s[j] == s.drop_last()[j]);
    } else {
        assert(r =~= s.subrange(0, s.len() as int));
    }
}

/// The extremum deque that results from feeding a whole history of ticks,
/// one `spec_calc_highlow` step at a time.
pub open spec fn fold_ext(h: Seq<TickerVal>, w: u128, maximize: bool) -> Seq<TickerVal>
    decreases h.len(),
{
    if h.len() == 0 {
        Seq::empty()
    } else {
        spec_calc_highlow(fold_ext(h.drop_last(), w, maximize), h.last(), w, maximize)
    }
}


/// The structural half of the extremum-deque invariant: the deque is
/// nonempty, ends with the latest tick, keeps arrival order, and every entry
/// is an in-window history entry.
#[verifier::opaque]
pub open spec fn ext_entries_ok(h: Seq<TickerVal>, w: u128, d: Seq<TickerVal>) -> bool {
    &&& d.len() > 0
    &&& h.len() > 0
    &&& d.last() == h.last()
    &&& ts_monotone(d)
    &&& forall|i: int| 0 <= i < d.len() ==> exists|j: int| 0 <= j < h.len() && h[j] == #[trigger] d[i]
    &&& forall|i: int|
        0 <= i < d.len() ==> in_window(h.last().timestamp, (#[trigger] d[i]).timestamp, w)
}

/// The deque is sorted from best to worst under the tracked direction.
#[verifier::opaque]
pub open spec fn ext_sorted(maximize: bool, d: Seq<TickerVal>) -> bool {
    forall|i1: int, i2: int|
        0 <= i1 <= i2 < d.len() ==> dominates(maximize, d[i1].price, d[i2].price)
}

/// Every in-window history entry is covered by a deque entry that arrived no
/// earlier and is at least as good.
#[verifier::opaque]
pub open spec fn ext_complete(h: Seq<TickerVal>, w: u128, maximize: bool, d: Seq<TickerVal>) -> bool {
    forall|j: int|
        0 <= j < h.len() && in_window(h.last().timestamp, (#[trigger] h[j]).timestamp, w)
            ==> exists|i: int|
            0 <= i < d.len() && (#[trigger] d[i]).timestamp >= h[j].timestamp && dominates(
                maximize,
                d[i].price,
                h[j].price,
            )
}

/// The whole extremum-deque invariant. Together these clauses make the front
/// of the deque the in-window extremum of the history.
pub open spec fn ext_deque_ok(h: Seq<TickerVal>, w: u128, maximize: bool, d: Seq<TickerVal>) -> bool {
    &&& ext_entries_ok(h, w, d)
    &&& ext_sorted(maximize, d)
    &&& ext_complete(h, w, maximize, d)
}

/// Entries of a deque drawn from a history never postdate the history.
proof fn lemma_deque_ts_bounded(h: Seq<TickerVal>, w: u128, d: Seq<TickerVal>)
    requires
        ts_monotone(h),
        ext_entries_ok(h, w, d),
    ensures
        forall|i: int| 0 <= i < d.len() ==> (#[trigger] d[i]).timestamp <= h.last().timestamp,
{
    reveal(ext_entries_ok);
    assert forall|i: int| 0 <= i < d.len() implies (#[trigger] d[i]).timestamp
        <= h.last().timestamp by {
        let j = choose|j: int| 0 <= j < h.len() && h[j] == d[i];
        assert(h[j].timestamp <= h[h.len() - 1].timestamp);
    }
}

/// After expiring the front at anchor `now`, everything that survives is
/// in-window at `now`.
proof fn lemma_surviving_suffix_in_window(d0: Seq<TickerVal>, now: u128, w: u128)
    requires
        ts_monotone(d0),
    ensures
        ({
            let s1 = evict_front_expired(d0, now, w);
            forall|i: int| 0 <= i < s1.len() ==> in_window(now, (#[trigger] s1[i]).timestamp, w)
        }),
{
    lemma_evict_front(d0, now, w);
    let c = evict_front_count(d0, now, w);
    let s1 = evict_front_expired(d0, now, w);
    assert forall|i: int| 0 <= i < s1.len() implies in_window(
        now,
        (#[trigger] s1[i]).timestamp,
        w,
    ) by {
        assert(s1[0] == d0[c]);
        assert(s1[i] == d0[c + i]);
        assert(d0[c].timestamp <= d0[c + i].timestamp);
        assert(in_window(now, s1[0].timestamp, w));
    }
}

/// One tracker step keeps the structural half of the invariant.
proof fn lemma_ext_step_entries(h: Seq<TickerVal>, w: u128, maximize: bool)
    requires
        h.len() >= 2,
        ts_monotone(h),
        ext_entries_ok(h.drop_last(), w, fold_ext(h.drop_last(), w, maximize)),
    ensures
        ext_entries_ok(h, w, fold_ext(h, w, maximize)),
{
    let n = h.len() as int;
    let tv = h.last();
    let t = tv.timestamp;
    let p = tv.price;
    let h0 = h.drop_last();
    let d0 = fold_ext(h0, w, maximize);
    let d = fold_ext(h, w, maximize);
    assert(h0.last().timestamp <= t);
    lemma_deque_ts_bounded(h0, w, d0);
    reveal(ext_entries_ok);
    lemma_evict_front(d0, t, w);
    lemma_surviving_suffix_in_window(d0, t, w);
    let c = evict_front_count(d0, t, w);
    let s1 = evict_front_expired(d0, t, w);
    lemma_evict_back(s1, maximize, p);
    let s2 = evict_back_dominated(s1, maximize, p);
    let k = s2.len() as int;
    assert(d == s2.push(tv));
    assert(forall|i: int| 0 <= i < k ==> s2[i] == d0[c + i]);
    assert(forall|j: int| 0 <= j < n - 1 ==> h0[j] == h[j]);
    assert forall|i: int| 0 <= i < d.len() implies exists|j: int|
        0 <= j < h.len() && h[j] == #[trigger] d[i] by {
        if i < k {
            let j = choose|j: int| 0 <= j < h0.len() && h0[j] == d0[c + i];
            assert(h[j] == d[i]);
        } else {
            assert(h[n - 1] == d[i]);
        }
    }
    assert(forall|i: int| 0 <= i < d.len() ==> in_window(t, (#[trigger] d[i]).timestamp, w)) by {
        assert(forall|i: int| 0 <= i < k ==> d[i] == s1[i]);
        assert(in_window(t, t, w));
    }
    assert(ts_monotone(d)) by {
        assert(forall|i1: int, i2: int|
            0 <= i1 <= i2 < k ==> d[i1] == d0[c + i1] && d[i2] == d0[c + i2]);
        assert(forall|i: int| 0 <= i < k ==> (#[trigger] d[i]).timestamp <= t);
    }
}

/// One tracker step keeps the deque sorted.
proof fn lemma_ext_step_sorted(h: Seq<TickerVal>, w: u128, maximize: bool)
    requires
        h.len() >= 2,
        ts_monotone(h),
        ext_sorted(maximize, fold_ext(h.drop_last(), w, maximize)),
    ensures
        ext_sorted(maximize, fold_ext(h, w, maximize)),
{
    let tv = h.last();
    let t = tv.timestamp;
    let p = tv.price;
    let h0 = h.drop_last();
    let d0 = fold_ext(h0, w, maximize);
    let d = fold_ext(h, w, maximize);
    reveal(ext_sorted);
    lemma_evict_front(d0, t, w);
    let c = evict_front_count(d0, t, w);
    let s1 = evict_front_expired(d0, t, w);
    lemma_evict_back(s1, maximize, p);
    let s2 = evict_back_dominated(s1, maximize, p);
    let k = s2.len() as int;
    assert(d == s2.push(tv));
    assert(forall|i: int| 0 <= i < k ==> s2[i] == d0[c + i]);
    // the kept entries all beat (or tie) the new price: the last kept one is
    // not strictly beaten, and the rest chain to it
    assert(forall|i: int| 0 <= i < k ==> dominates(maximize, (#[trigger] d[i]).price, p)) by {
        if k > 0 {
            assert(!strictly_better(maximize, p, s2.last().price));
            crate::price::lemma_price_order(s2.last().price, p);
            crate::price::lemma_price_order(p, s2.last().price);
            assert(dominates(maximize, s2.last().price, p));
            assert forall|i: int| 0 <= i < k implies dominates(
                maximize,
                (#[trigger] d[i]).price,
                p,
            ) by {
                assert(dominates(maximize, d0[c + i].price, d0[c + k - 1].price));
                assert(s2.last() == d0[c + k - 1]);
                lemma_dominates_trans(maximize, d0[c + i].price, s2.last().price, p);
            }
        }
    }
    assert forall|i1: int, i2: int| 0 <= i1 <= i2 < d.len() implies dominates(
        maximize,
        d[i1].price,
        d[i2].price,
    ) by {
        if i2 < k {
            assert(dominates(maximize, d0[c + i1].price, d0[c + i2].price));
        } else {
            assert(d[i2] == tv);
            if i1 < k {
                assert(dominates(maximize, d[i1].price, p));
            } else {
                assert(d[i1] == tv);
                crate::price::lemma_price_order(p, p);
            }
        }
    }
}

/// One tracker step keeps completeness: the old witness either survives, or
/// was expired (then so is the entry it covered), or was beaten by the new
/// price, which then covers the entry itself.
proof fn lemma_ext_step_complete(h: Seq<TickerVal>, w: u128, maximize: bool)
    requires
        h.len() >= 2,
        ts_monotone(h),
        ext_complete(h.drop_last(), w, maximize, fold_ext(h.drop_last(), w, maximize)),
    ensures
        ext_complete(h, w, maximize, fold_ext(h, w, maximize)),
{
    let n = h.len() as int;
    let tv = h.last();
    let t = tv.timestamp;
    let p = tv.price;
    let h0 = h.drop_last();
    let d0 = fold_ext(h0, w, maximize);
    let d = fold_ext(h, w, maximize);
    let t0 = h0.last().timestamp;
    assert(t0 <= t);
    reveal(ext_complete);
    lemma_evict_front(d0, t, w);
    let c = evict_front_count(d0, t, w);
    let s1 = evict_front_expired(d0, t, w);
    lemma_evict_back(s1, maximize, p);
    let s2 = evict_back_dominated(s1, maximize, p);
    let k = s2.len() as int;
    assert(d == s2.push(tv));
    assert(forall|i: int| 0 <= i < k ==> s2[i] == d0[c + i]);
    assert(forall|j: int| 0 <= j < n - 1 ==> h0[j] == h[j]);
    assert forall|j: int|
        0 <= j < h.len() && in_window(t, (#[trigger] h[j]).timestamp, w) implies exists|i: int|
        0 <= i < d.len() && (#[trigger] d[i]).timestamp >= h[j].timestamp && dominates(
            maximize,
            d[i].price,
            h[j].price,
        ) by {
        if j == n - 1 {
            let i = d.len() - 1;
            assert(d[i] == tv);
            crate::price::lemma_price_order(p, p);
            assert(0 <= i < d.len() && d[i].timestamp >= h[j].timestamp && dominates(
                maximize,
                d[i].price,
                h[j].price,
            ));
        } else {
            // in-window at the new anchor implies in-window at the old one
            assert(in_window(t0, h0[j].timestamp, w));
            let i0 = choose|i0: int|
                0 <= i0 < d0.len() && (#[trigger] d0[i0]).timestamp >= h0[j].timestamp && dominates(
                    maximize,
                    d0[i0].price,
                    h0[j].price,
                );
            if i0 < c {
                // a front-evicted witness would make h[j] expired too
                assert(!in_window(t, d0[i0].timestamp, w));
                assert(false);
            } else if i0 - c < k {
                let i = i0 - c;
                assert(d[i] == d0[i0]);
                assert(0 <= i < d.len() && d[i].timestamp >= h[j].timestamp && dominates(
                    maximize,
                    d[i].price,
                    h[j].price,
                ));
            } else {
                // a back-evicted witness is strictly beaten by the new
                // price, which then covers h[j] itself
                assert(s1[i0 - c] == d0[i0]);
                assert(strictly_better(maximize, p, d0[i0].price));
                crate::price::lemma_price_order(d0[i0].price, p);
                crate::price::lemma_price_order(p, d0[i0].price);
                assert(dominates(maximize, p, d0[i0].price));
                lemma_dominates_trans(maximize, p, d0[i0].price, h0[j].price);
                let i = d.len() - 1;
                assert(d[i] == tv);
                assert(0 <= i < d.len() && d[i].timestamp >= h[j].timestamp && dominates(
                    maximize,
                    d[i].price,
                    h[j].price,
                ));
            }
        }
    }
}

/// The extremum deque built from a monotone history satisfies the whole
/// invariant: its front is the in-window extremum.
pub proof fn lemma_fold_ext(h: Seq<TickerVal>, w: u128, maximize: bool)
    requires
        h.len() > 0,
        ts_monotone(h),
    ensures
        ext_deque_ok(h, w, maximize, fold_ext(h, w, maximize)),
    decreases h.len(),
{
    let n = h.len() as int;
    let tv = h.last();
    let t = tv.timestamp;
    let d = fold_ext(h, w, maximize);
    if n == 1 {
        let s0 = Seq::<TickerVal>::empty();
        assert(h.drop_last().len() == 0);
        assert(fold_ext(h.drop_last(), w, maximize) == s0);
        assert(evict_front_expired(s0, t, w) == s0);
        assert(evict_back_dominated(s0, maximize, tv.price) == s0);
        assert(d == s0.push(tv));
        assert(d[0] == tv && h[0] == tv && d.len() == 1);
        assert(ext_entries_ok(h, w, d)) by {
            reveal(ext_entries_ok);
            assert(in_window(t, t, w));
            assert forall|i: int| 0 <= i < d.len() implies exists|j: int|
                0 <= j < h.len() && h[j] == #[trigger] d[i] by {
                assert(h[0] == d[i]);
            }
        }
        assert(ext_sorted(maximize, d)) by {
            reveal(ext_sorted);
            crate::price::lemma_price_order(tv.price, tv.price);
        }
        assert(ext_complete(h, w, maximize, d)) by {
            reveal(ext_complete);
            crate::price::lemma_price_order(tv.price, tv.price);
            assert forall|j: int|
                0 <= j < h.len() && in_window(t, (#[trigger] h[j]).timestamp, w) implies exists|
                i: int,
            |
                0 <= i < d.len() && (#[trigger] d[i]).timestamp >= h[j].timestamp && dominates(
                    maximize,
                    d[i].price,
                    h[j].price,
                ) by {
                assert(0 <= 0 < d.len() && d[0].timestamp >= h[j].timestamp && dominates(
                    maximize,
                    d[0].price,
                    h[j].price,
                ));
            }
        }
    } else {
        let h0 = h.drop_last();
        assert(ts_monotone(h0)) by {
            assert(forall|i: int, j: int|
                0 <= i <= j < h0.len() ==> h0[i] == h[i] && h0[j] == h[j]);
        }
        lemma_fold_ext(h0, w, maximize);
        lemma_ext_step_entries(h, w, maximize);
        lemma_ext_step_sorted(h, w, maximize);
        lemma_ext_step_complete(h, w, maximize);
    }
}

/// The front of a deque that satisfies the invariant is attained by an
/// in-window history entry.
pub proof fn lemma_front_attained(h: Seq<TickerVal>, w: u128, maximize: bool, d: Seq<TickerVal>)
    requires
        h.len() > 0,
        ext_entries_ok(h, w, d),
    ensures
        exists|j: int|
            0 <= j < h.len() && in_window(h.last().timestamp, (#[trigger] h[j]).timestamp, w)
                && h[j].price == d[0].price,
{
    reveal(ext_entries_ok);
    let j = choose|j: int| 0 <= j < h.len() && h[j] == d[0];
    assert(in_window(h.last().timestamp, h[j].timestamp, w));
}

/// The front of a deque that satisfies the invariant is at least as good as
/// every in-window history entry.
pub proof fn lemma_front_dominant(h: Seq<TickerVal>, w: u128, maximize: bool, d: Seq<TickerVal>)
    requires
        h.len() > 0,
        d.len() > 0,
        ext_sorted(maximize, d),
        ext_complete(h, w, maximize, d),
    ensures
        forall|j: int|
            0 <= j < h.len() && in_window(h.last().timestamp, (#[trigger] h[j]).timestamp, w)
                ==> dominates(maximize, d[0].price, h[j].price),
{
    reveal(ext_sorted);
    reveal(ext_complete);
    assert forall|j: int|
        0 <= j < h.len() && in_window(h.last().timestamp, (#[trigger] h[j]).timestamp, w) implies dominates(
        maximize,
        d[0].price,
        h[j].price,
    ) by {
        let i = choose|i: int|
            0 <= i < d.len() && (#[trigger] d[i]).timestamp >= h[j].timestamp && dominates(
                maximize,
                d[i].price,
                h[j].price,
            );
        assert(dominates(maximize, d[0].price, d[i].price));
        lemma_dominates_trans(maximize, d[0].price, d[i].price, h[j].price);
    }
}

/// Entries of the open deque and of the extremum deque carry well-formed
/// prices and timestamps bounded by the history, so they can be fed back
/// into the step functions.
pub proof fn lemma_fold_ext_entry_facts(h: Seq<TickerVal>, w: u128, maximize: bool)
    requires
        h.len() > 0,
        ts_monotone(h),
        prices_wf(h),
    ensures
        ({
            let d = fold_ext(h, w, maximize);
            &&& d.len() > 0
            &&& forall|i: int|
                0 <= i < d.len() ==> (#[trigger] d[i]).timestamp <= h.last().timestamp
            &&& forall|i: int| 0 <= i < d.len() ==> (#[trigger] d[i]).price.wf()
        }),
{
    lemma_fold_ext(h, w, maximize);
    let d = fold_ext(h, w, maximize);
    lemma_deque_ts_bounded(h, w, d);
    reveal(ext_entries_ok);
    assert forall|i: int| 0 <= i < d.len() implies (#[trigger] d[i]).price.wf() by {
        let j = choose|j: int| 0 <= j < h.len() && h[j] == d[i];
        assert(h[j].price.wf());
    }
}

/// Per-symbol sliding container yielding the oldest observation still within
/// the trailing window: the open price.
pub struct OpenTracker {
    pub window: u128,
    pub vals: VecDeque<TickerVal>,
    pub hist: Ghost<Seq<TickerVal>>,
}

impl OpenTracker {
    /// The deque is exactly what feeding the whole history produces.
    pub open spec fn wf(self) -> bool {
        &&& ts_monotone(self.hist@)
        &&& prices_wf(self.hist@)
        &&& self.vals@ == fold_open(self.hist@, self.window)
    }

    /// An empty tracker for one symbol.
    pub fn new(window: u128) -> (r: OpenTracker)
        ensures
            r.wf(),
            r.window == window,
            r.hist@ == Seq::<TickerVal>::empty(),
    {
        let r = OpenTracker { window, vals: VecDeque::new(), hist: Ghost(Seq::empty()) };
        proof {
            assert(fold_open(r.hist@, window) == Seq::<TickerVal>::empty());
        }
        r
    }

    /// Feeds one tick and returns the open price: the price of the earliest
    /// observation whose timestamp is within the window of this tick's.
    pub fn update(&mut self, ticker: &Ticker, price: Price) -> (r: Price)
        requires
            old(self).wf(),
            price.wf(),
            old(self).hist@.len() > 0 ==> ticker.t >= old(self).hist@.last().timestamp,
        ensures
            final(self).wf(),
            final(self).window == old(self).window,
            final(self).hist@ == old(self).hist@.push(
                (TickerVal { symbol: ticker.s, timestamp: ticker.t, price }),
            ),
            ({
                let h = final(self).hist@;
                let w = old(self).window;
                let i = open_index(h, w);
                &&& 0 <= i < h.len()
                &&& r == h[i].price
                &&& in_window(h.last().timestamp, h[i].timestamp, w)
                &&& forall|j: int| 0 <= j < i ==> !in_window(h.last().timestamp, h[j].timestamp, w)
            }),
    {
        let ghost tv = TickerVal { symbol: ticker.s, timestamp: ticker.t, price };
        let ghost h0 = self.hist@;
        let ghost w = self.window;
        proof {
            if h0.len() > 0 {
                lemma_fold_open(h0, w);
                lemma_open_index(h0, w);
                assert forall|i: int| 0 <= i < self.vals@.len() implies #[trigger] self.vals@[i].timestamp
                    <= ticker.t by {
                    assert(self.vals@[i] == h0[open_index(h0, w) + i]);
                    assert(h0[open_index(h0, w) + i].timestamp <= h0[h0.len() - 1].timestamp);
                }
            }
        }
        let mut tmp: VecDeque<TickerVal> = VecDeque::new();
        core::mem::swap(&mut tmp, &mut self.vals);
        self.vals = calc_open(ticker, tmp, price, self.window);
        self.hist = Ghost(h0.push(tv));
        let ghost h = self.hist@;
        proof {
            assert(h.drop_last() =~= h0);
            assert(h.last() == tv);
            assert(fold_open(h, w) == spec_calc_open(fold_open(h0, w), tv, w));
            assert(ts_monotone(h)) by {
                assert(forall|i: int| 0 <= i < h0.len() ==> h[i] == h0[i]);
            }
            lemma_fold_open(h, w);
            lemma_open_index(h, w);
        }
        self.vals[0].price
    }
}

/// Per-symbol sliding container yielding the in-window extremum:
/// the high price when `maximize` is set, the low price otherwise.
pub struct ExtremumTracker {
    pub maximize: bool,
    pub window: u128,
    pub vals: VecDeque<TickerVal>,
    pub hist: Ghost<Seq<TickerVal>>,
}

impl ExtremumTracker {
    /// The deque is exactly what feeding the whole history produces.
    pub open spec fn wf(self) -> bool {
        &&& ts_monotone(self.hist@)
        &&& prices_wf(self.hist@)
        &&& self.vals@ == fold_ext(self.hist@, self.window, self.maximize)
    }

    /// An empty tracker for one symbol and one direction.
    pub fn new(window: u128, maximize: bool) -> (r: ExtremumTracker)
        ensures
            r.wf(),
            r.window == window,
            r.maximize == maximize,
            r.hist@ == Seq::<TickerVal>::empty(),
    {
        let r = ExtremumTracker {
            maximize,
            window,
            vals: VecDeque::new(),
            hist: Ghost(Seq::empty()),
        };
        proof {
            assert(fold_ext(r.hist@, window, maximize) == Seq::<TickerVal>::empty());
        }
        r
    }

    /// Feeds one tick and returns the extremum price: a price attained by an
    /// in-window observation and at least as good, under the tracked
    /// direction, as every in-window observation.
    pub fn update(&mut self, ticker: &Ticker, price: Price) -> (r: Price)
        requires
            old(self).wf(),
            price.wf(),
            old(self).hist@.len() > 0 ==> ticker.t >= old(self).hist@.last().timestamp,
        ensures
            final(self).wf(),
            final(self).window == old(self).window,
            final(self).maximize == old(self).maximize,
            final(self).hist@ == old(self).hist@.push(
                (TickerVal { symbol: ticker.s, timestamp: ticker.t, price }),
            ),
            ({
                let h = final(self).hist@;
                let w = old(self).window;
                &&& exists|j: int|
                    0 <= j < h.len() && in_window(
                        h.last().timestamp,
                        (#[trigger] h[j]).timestamp,
                        w,
                    ) && h[j].price == r
                &&& forall|j: int|
                    0 <= j < h.len() && in_window(
                        h.last().timestamp,
                        (#[trigger] h[j]).timestamp,
                        w,
                    ) ==> dominates(old(self).maximize, r, h[j].price)
            }),
    {
        let ghost tv = TickerVal { symbol: ticker.s, timestamp: ticker.t, price };
        let ghost h0 = self.hist@;
        let ghost w = self.window;
        let ghost mx = self.maximize;
        proof {
            if h0.len() > 0 {
                lemma_fold_ext_entry_facts(h0, w, mx);
            }
        }
        let mut tmp: VecDeque<TickerVal> = VecDeque::new();
        core::mem::swap(&mut tmp, &mut self.vals);
        self.vals = calc_highlow(ticker, tmp, price, self.maximize, self.window);
        self.hist = Ghost(h0.push(tv));
        let ghost h = self.hist@;
        proof {
            assert(h.drop_last() =~= h0);
            assert(h.last() == tv);
            assert(fold_ext(h, w, mx) == spec_calc_highlow(fold_ext(h0, w, mx), tv, w, mx));
            assert(ts_monotone(h)) by {
                assert(forall|i: int| 0 <= i < h0.len() ==> h[i] == h0[i]);
            }
            lemma_fold_ext(h, w, mx);
            lemma_front_attained(h, w, mx, fold_ext(h, w, mx));
            lemma_front_dominant(h, w, mx, fold_ext(h, w, mx));
            reveal(ext_entries_ok);
        }
        self.vals[0].price
    }
}


/// A single observation is its own open, high, low and close: over a
/// one-entry history the open index is 0, the entry is in-window, and every
/// in-window entry carries the first price.
pub proof fn lemma_single_observation(h: Seq<TickerVal>, w: u128)
    requires
        h.len() == 1,
    ensures
        open_index(h, w) == 0,
        in_window(h.last().timestamp, h[0].timestamp, w),
        forall|j: int|
            0 <= j < h.len() && in_window(h.last().timestamp, h[j].timestamp, w) ==> h[j].price
                == h[0].price,
{
    assert(h.last() == h[0]);
    assert(in_window(h[0].timestamp, h[0].timestamp, w));
}

/// After a gap wider than the window between the two newest observations,
/// all prior history is out of scope: the open index lands on the newest
/// entry and it is the only in-window one, so open, high, low and close all
/// equal the newest price.
pub proof fn lemma_window_gap(h: Seq<TickerVal>, w: u128)
    requires
        h.len() >= 2,
        ts_monotone(h),
        h.last().timestamp - h[h.len() - 2].timestamp > w,
    ensures
        open_index(h, w) == h.len() - 1,
        forall|j: int|
            0 <= j < h.len() && in_window(h.last().timestamp, h[j].timestamp, w) ==> j == h.len()
                - 1,
{
    let n = h.len() as int;
    let t = h.last().timestamp;
    assert forall|j: int| 0 <= j < n - 1 implies !in_window(t, h[j].timestamp, w) by {
        assert(h[j].timestamp <= h[n - 2].timestamp);
    }
    lemma_open_index(h, w);
    let m = open_index(h, w);
    if m < n - 1 {
        assert(in_window(t, h[m].timestamp, w));
        assert(false);
    }
}

/// The extremum is unique up to decimal value: any two prices that are both
/// attained by an in-window observation and at least as good as every
/// in-window observation are the same value. The tracker's incremental
/// answer therefore equals a brute-force rescan's, however the rescan picks
/// among equal representations.
pub proof fn lemma_extremum_unique(
    h: Seq<TickerVal>,
    w: u128,
    maximize: bool,
    r1: Price,
    r2: Price,
)
    requires
        exists|j: int|
            0 <= j < h.len() && in_window(h.last().timestamp, (#[trigger] h[j]).timestamp, w)
                && h[j].price == r1,
        forall|j: int|
            0 <= j < h.len() && in_window(h.last().timestamp, (#[trigger] h[j]).timestamp, w)
                ==> dominates(maximize, r1, h[j].price),
        exists|j: int|
            0 <= j < h.len() && in_window(h.last().timestamp, (#[trigger] h[j]).timestamp, w)
                && h[j].price == r2,
        forall|j: int|
            0 <= j < h.len() && in_window(h.last().timestamp, (#[trigger] h[j]).timestamp, w)
                ==> dominates(maximize, r2, h[j].price),
    ensures
        crate::price::price_eq_val(r1, r2),
{
    let j1 = choose|j: int|
        0 <= j < h.len() && in_window(h.last().timestamp, (#[trigger] h[j]).timestamp, w)
            && h[j].price == r1;
    let j2 = choose|j: int|
        0 <= j < h.len() && in_window(h.last().timestamp, (#[trigger] h[j]).timestamp, w)
            && h[j].price == r2;
    assert(dominates(maximize, r1, h[j2].price));
    assert(dominates(maximize, r2, h[j1].price));
    crate::price::lemma_price_le_antisym(r1, r2);
}

} // verus!
