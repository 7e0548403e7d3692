//! The aggregator: routes each tick to its symbol's tracker triple and emits
//! one OHLC record per processed tick, in arrival order.
//!
//! Symbol state is created lazily on the first tick for a symbol. Routing
//! may be restricted to a configurable allow-list; a tick for a symbol
//! outside the list, or one whose timestamp runs backwards for its symbol,
//! is silently skipped and leaves every tracker untouched.

use vstd::prelude::*;
use crate::price::Price;
use crate::ticks::{Ticker, TickerVal, ParseOutput};
use crate::trackers::{
    OpenTracker, ExtremumTracker, in_window, open_index, dominates,
};

verus! {

/// The tracker triple for one symbol, with the timestamp of the last tick
/// fed to it.
pub struct SymbolState {
    pub symbol: String,
    pub last_t: u128,
    pub open: OpenTracker,
    pub high: ExtremumTracker,
    pub low: ExtremumTracker,
}

impl SymbolState {
    /// The three trackers share one nonempty history of this symbol's ticks.
    pub open spec fn wf(self, w: u128) -> bool {
        &&& self.open.wf()
        &&& self.high.wf()
        &&& self.low.wf()
        &&& self.open.window == w
        &&& self.high.window == w
        &&& self.low.window == w
        &&& self.high.maximize
        &&& !self.low.maximize
        &&& self.high.hist@ == self.open.hist@
        &&& self.low.hist@ == self.open.hist@
        &&& self.open.hist@.len() > 0
        &&& self.last_t == self.open.hist@.last().timestamp
    }
}

/// The first index holding a state for `sym`, or -1 when there is none.
pub open spec fn find_sym(s: Seq<SymbolState>, sym: Seq<char>) -> int
    decreases s.len(),
{
    if s.len() == 0 {
        -1
    } else if s[0].symbol@ == sym {
        0
    } else if find_sym(s.drop_first(), sym) < 0 {
        -1
    } else {
        1 + find_sym(s.drop_first(), sym)
    }
}

/// `find_sym` points at the first state for the symbol, or reports that
/// none exists.
pub proof fn lemma_find_sym(s: Seq<SymbolState>, sym: Seq<char>)
    ensures
        ({
            let r = find_sym(s, sym);
            &&& r < 0 ==> forall|k: int| 0 <= k < s.len() ==> (#[trigger] s[k]).symbol@ != sym
            &&& r >= 0 ==> 0 <= r < s.len() && s[r].symbol@ == sym && forall|k: int|
                0 <= k < r ==> (#[trigger] s[k]).symbol@ != sym
        }),
    decreases s.len(),
{
    if s.len() == 0 {
    } else if s[0].symbol@ == sym {
    } else {
        lemma_find_sym(s.drop_first(), sym);
        assert(forall|k: int| 1 <= k < s.len() ==> s[k] == s.drop_first()[k - 1]);
    }
}

/// What one emitted OHLC record must say about the history `h` of its
/// symbol: the close is the newest price, the open is the price of the
/// earliest in-window observation, and the high (low) is attained by an
/// in-window observation and at least as large (small) as every in-window
/// price.
pub open spec fn record_ok(h: Seq<TickerVal>, w: u128, rec: ParseOutput) -> bool {
    &&& h.len() > 0
    &&& rec.timestamp == h.last().timestamp
    &&& rec.close == h.last().price
    &&& ({
        let i = open_index(h, w);
        &&& 0 <= i < h.len()
        &&& rec.open == h[i].price
        &&& in_window(h.last().timestamp, h[i].timestamp, w)
        &&& forall|j: int| 0 <= j < i ==> !in_window(h.last().timestamp, h[j].timestamp, w)
    })
    &&& exists|j: int|
        0 <= j < h.len() && in_window(h.last().timestamp, (#[trigger] h[j]).timestamp, w)
            && h[j].price == rec.high
    &&& forall|j: int|
        0 <= j < h.len() && in_window(h.last().timestamp, (#[trigger] h[j]).timestamp, w)
            ==> dominates(true, rec.high, h[j].price)
    &&& exists|j: int|
        0 <= j < h.len() && in_window(h.last().timestamp, (#[trigger] h[j]).timestamp, w)
            && h[j].price == rec.low
    &&& forall|j: int|
        0 <= j < h.len() && in_window(h.last().timestamp, (#[trigger] h[j]).timestamp, w)
            ==> dominates(false, rec.low, h[j].price)
}

/// Owns the per-symbol tracker triples and the shared window.
pub struct Aggregator {
    pub window: u128,
    pub allowed: Option<Vec<String>>,
    pub states: Vec<SymbolState>,
}

impl Aggregator {
    /// Every state is well formed and no symbol appears twice.
    pub open spec fn wf(self) -> bool {
        &&& forall|k: int|
            0 <= k < self.states@.len() ==> (#[trigger] self.states@[k]).wf(self.window)
        &&& forall|k1: int, k2: int|
            0 <= k1 < k2 < self.states@.len() ==> self.states@[k1].symbol@
                != self.states@[k2].symbol@
    }

    /// Is this symbol processed at all?
    pub open spec fn tracks(self, sym: Seq<char>) -> bool {
        match self.allowed {
            Option::None => true,
            Option::Some(l) => exists|k: int| 0 <= k < l@.len() && (#[trigger] l@[k])@ == sym,
        }
    }

    /// The full history of ticks processed for a symbol.
    pub open spec fn hist_of(self, sym: Seq<char>) -> Seq<TickerVal> {
        if find_sym(self.states@, sym) >= 0 {
            self.states@[find_sym(self.states@, sym)].open.hist@
        } else {
            Seq::empty()
        }
    }

    /// An aggregator that tracks every symbol seen.
    pub fn new(window: u128) -> (r: Aggregator)
        ensures
            r.wf(),
            r.window == window,
            r.allowed is None,
            r.states@.len() == 0,
    {
        Aggregator { window, allowed: None, states: Vec::new() }
    }

    /// An aggregator restricted to an allow-list of symbols.
    pub fn with_symbols(window: u128, symbols: Vec<String>) -> (r: Aggregator)
        ensures
            r.wf(),
            r.window == window,
            r.allowed == Some(symbols),
            r.states@.len() == 0,
    {
        Aggregator { window, allowed: Some(symbols), states: Vec::new() }
    }

    /// Whether the symbol passes the allow-list.
    fn is_tracked(&self, symbol: &String) -> (r: bool)
        ensures
            r == self.tracks(symbol@),
    {
        match &self.allowed {
            Option::None => true,
            Option::Some(l) => {
                let ghost la = self.allowed->Some_0;
                proof {
                    assert(la == *l);
                }
                let mut i: usize = 0;
                while i < l.len()
                    invariant
                        0 <= i <= l@.len(),
                        la == *l,
                        self.allowed == Option::Some(la),
                        forall|k: int| 0 <= k < i ==> (#[trigger] la@[k])@ != symbol@,
                    decreases l@.len() - i,
                {
                    if l[i].eq(symbol) {
                        proof {
                            assert(self.allowed->Some_0 == la);
                            assert(((self.allowed->Some_0)@[i as int])@ == symbol@);
                            assert(exists|k: int|
                                0 <= k < (self.allowed->Some_0)@.len() && (#[trigger] (
                                self.allowed->Some_0)@[k])@ == symbol@);
                            assert(self.tracks(symbol@));
                        }
                        return true;
                    }
                    i = i + 1;
                }
                false
            },
        }
    }

    /// Index of the state for the symbol, if one exists.
    fn find_state(&self, symbol: &String) -> (r: Option<usize>)
        ensures
            match r {
                Option::Some(i) => 0 <= i < self.states@.len() && self.states@[i as int].symbol@
                    == symbol@ && i == find_sym(self.states@, symbol@),
                Option::None => find_sym(self.states@, symbol@) < 0,
            },
    {
        let mut i: usize = 0;
        while i < self.states.len()
            invariant
                0 <= i <= self.states@.len(),
                forall|k: int| 0 <= k < i ==> (#[trigger] self.states@[k]).symbol@ != symbol@,
            decreases self.states@.len() - i,
        {
            if self.states[i].symbol.eq(symbol) {
                proof {
                    lemma_find_sym(self.states@, symbol@);
                }
                return Some(i);
            }
            i = i + 1;
        }
        proof {
            lemma_find_sym(self.states@, symbol@);
        }
        None
    }

    /// Routes one already-priced tick: looks up (or lazily creates) the
    /// symbol's tracker triple, feeds the price into all three, and emits
    /// one record whose open, high and low are the tracker fronts and whose
    /// close is the tick's own price. A tick for an untracked symbol, or one
    /// whose timestamp runs backwards for its symbol, is skipped and leaves
    /// the aggregator untouched.
    #[verifier::rlimit(100)]
    pub fn process_priced(&mut self, symbol: &String, t: u128, price: Price) -> (r: Option<
        ParseOutput,
    >)
        requires
            old(self).wf(),
            price.wf(),
        ensures
            final(self).wf(),
            final(self).window == old(self).window,
            final(self).allowed == old(self).allowed,
            r is Some <==> (old(self).tracks(symbol@) && (old(self).hist_of(symbol@).len() == 0
                || t >= old(self).hist_of(symbol@).last().timestamp)),
            r is None ==> *final(self) == *old(self),
            r matches Some(rec) ==> ({
                let h = final(self).hist_of(symbol@);
                &&& h == old(self).hist_of(symbol@).push(
                    (TickerVal { symbol: *symbol, timestamp: t, price }),
                )
                &&& forall|s2: Seq<char>|
                    s2 != symbol@ ==> final(self).hist_of(s2) == old(self).hist_of(s2)
                &&& rec.symbol@ == symbol@
                &&& rec.timestamp == t
                &&& rec.close == price
                &&& record_ok(h, old(self).window, rec)
            }),
    {
        let ghost w = self.window;
        let ghost old_states = self.states@;
        if !self.is_tracked(symbol) {
            return None;
        }
        let found = self.find_state(symbol);
        let ticker = Ticker { a: price, s: symbol.clone(), b: price, t };
        let ghost tv = TickerVal { symbol: *symbol, timestamp: t, price };
        match found {
            Option::Some(i) => {
                proof {
                    assert(old_states[i as int].wf(w));
                    assert(old(self).hist_of(symbol@) == old_states[i as int].open.hist@);
                    assert(old_states[i as int].last_t == old(
                        self,
                    ).hist_of(symbol@).last().timestamp);
                }
                if t < self.states[i].last_t {
                    return None;
                }
                let mut st = self.states.remove(i);
                let o = st.open.update(&ticker, price);
                let hi = st.high.update(&ticker, price);
                let lo = st.low.update(&ticker, price);
                st.last_t = t;
                self.states.insert(i, st);
                proof {
                    assert(self.states@ =~= old_states.update(i as int, self.states@[i as int]));
                    let ns = self.states@;
                    assert(ns[i as int].open.hist@ == old_states[i as int].open.hist@.push(tv));
                    assert(forall|k: int|
                        0 <= k < ns.len() ==> (#[trigger] ns[k]).symbol@ == old_states[k].symbol@);
                    assert(forall|k: int| 0 <= k < ns.len() && k != i ==> ns[k] == old_states[k]);
                    assert(ns[i as int].wf(w));
                    assert(forall|k: int| 0 <= k < ns.len() ==> (#[trigger] ns[k]).wf(w));
                    lemma_find_sym_same_symbols(old_states, ns, symbol@);
                    assert(find_sym(ns, symbol@) == i);
                    assert forall|s2: Seq<char>| s2 != symbol@ implies final(self).hist_of(s2)
                        == old(self).hist_of(s2) by {
                        lemma_find_sym_same_symbols(old_states, ns, s2);
                        lemma_find_sym(ns, s2);
                        if find_sym(ns, s2) >= 0 {
                            assert(ns[find_sym(ns, s2)].symbol@ == s2);
                            assert(find_sym(ns, s2) != i);
                        }
                    }
                }
                Some(
                    ParseOutput {
                        symbol: symbol.clone(),
                        timestamp: t,
                        open: o,
                        high: hi,
                        low: lo,
                        close: price,
                    },
                )
            },
            Option::None => {
                proof {
                    lemma_find_sym(old_states, symbol@);
                }
                let mut op = OpenTracker::new(self.window);
                let mut hg = ExtremumTracker::new(self.window, true);
                let mut lw = ExtremumTracker::new(self.window, false);
                let o = op.update(&ticker, price);
                let hi = hg.update(&ticker, price);
                let lo = lw.update(&ticker, price);
                let st = SymbolState { symbol: symbol.clone(), last_t: t, open: op, high: hg, low: lw };
                self.states.push(st);
                proof {
                    let ns = self.states@;
                    assert(ns =~= old_states.push(st));
                    assert(st.open.hist@ =~= Seq::<TickerVal>::empty().push(tv));
                    assert(st.wf(w));
                    assert(forall|k: int| 0 <= k < old_states.len() ==> ns[k] == old_states[k]);
                    assert(forall|k: int| 0 <= k < ns.len() ==> (#[trigger] ns[k]).wf(w));
                    assert(forall|k1: int, k2: int|
                        0 <= k1 < k2 < ns.len() ==> ns[k1].symbol@ != ns[k2].symbol@);
                    lemma_find_sym_push(old_states, st, symbol@);
                    assert(find_sym(ns, symbol@) == old_states.len());
                    assert forall|s2: Seq<char>| s2 != symbol@ implies final(self).hist_of(s2)
                        == old(self).hist_of(s2) by {
                        lemma_find_sym_push(old_states, st, s2);
                        lemma_find_sym(old_states, s2);
                        assert(st.symbol@ == symbol@);
                        if find_sym(old_states, s2) >= 0 {
                            assert(ns[find_sym(old_states, s2)] == old_states[find_sym(
                                old_states,
                                s2,
                            )]);
                        }
                    }
                }
                Some(
                    ParseOutput {
                        symbol: symbol.clone(),
                        timestamp: t,
                        open: o,
                        high: hi,
                        low: lo,
                        close: price,
                    },
                )
            },
        }
    }

    /// Routes one raw tick: derives its representative price as the decimal
    /// midpoint of bid and ask, then processes it. A tick whose midpoint
    /// cannot be computed is skipped and leaves the aggregator untouched.
    pub fn process_tick(&mut self, ticker: &Ticker) -> (r: Option<ParseOutput>)
        requires
            old(self).wf(),
            ticker.a.wf(),
            ticker.b.wf(),
        ensures
            final(self).wf(),
            final(self).window == old(self).window,
            final(self).allowed == old(self).allowed,
            r is None ==> *final(self) == *old(self),
            r is Some <==> (old(self).tracks(ticker.s@) && (old(self).hist_of(ticker.s@).len()
                == 0 || ticker.t >= old(self).hist_of(ticker.s@).last().timestamp)
                && crate::price::mid_available(
                ticker.a.mantissa as int,
                ticker.a.scale as int,
                ticker.b.mantissa as int,
                ticker.b.scale as int,
            )),
            r matches Some(rec) ==> ({
                let h = final(self).hist_of(ticker.s@);
                &&& (rec.close.mantissa as int, rec.close.scale as int)
                    == crate::price::mid_of(
                    ticker.a.mantissa as int,
                    ticker.a.scale as int,
                    ticker.b.mantissa as int,
                    ticker.b.scale as int,
                )
                &&& old(self).tracks(ticker.s@)
                &&& h == old(self).hist_of(ticker.s@).push(
                    (TickerVal { symbol: ticker.s, timestamp: ticker.t, price: rec.close }),
                )
                &&& forall|s2: Seq<char>|
                    s2 != ticker.s@ ==> final(self).hist_of(s2) == old(self).hist_of(s2)
                &&& rec.symbol@ == ticker.s@
                &&& rec.timestamp == ticker.t
                &&& record_ok(h, old(self).window, rec)
            }),
    {
        match crate::price::mid_price(&ticker.a, &ticker.b) {
            Option::None => None,
            Option::Some(p) => self.process_priced(&ticker.s, ticker.t, p),
        }
    }

    /// Processes a whole stream of priced ticks in order, and emits exactly
    /// the records that per-tick processing owes: the ghost index sequence
    /// equals `emitted_indices`, so every tick whose symbol is tracked and
    /// whose timestamp does not run backwards at its point yields one record
    /// at its position, in arrival order, and a tick is omitted only if it
    /// was untracked or out of order. Each emitted record satisfies
    /// `record_ok` over its symbol's history up to and including its tick.
    pub fn process_all(&mut self, ticks: &Vec<TickerVal>) -> (r: (Vec<ParseOutput>, Ghost<
        Seq<int>,
    >))
        requires
            old(self).wf(),
            forall|k: int| 0 <= k < ticks@.len() ==> (#[trigger] ticks@[k]).price.wf(),
        ensures
            final(self).wf(),
            final(self).window == old(self).window,
            final(self).allowed == old(self).allowed,
            r.1@ == emitted_indices(*old(self), ticks@, ticks@.len() as int),
            forall|s: Seq<char>|
                #[trigger] final(self).hist_of(s) == hist_after(
                    *old(self),
                    ticks@,
                    ticks@.len() as int,
                    s,
                ),
            r.0@.len() == r.1@.len(),
            forall|k1: int, k2: int| 0 <= k1 < k2 < r.1@.len() ==> r.1@[k1] < r.1@[k2],
            forall|k: int| 0 <= k < r.1@.len() ==> 0 <= #[trigger] r.1@[k] < ticks@.len(),
            forall|k: int|
                0 <= k < r.1@.len() ==> ({
                    let tv = ticks@[#[trigger] r.1@[k]];
                    &&& r.0@[k].symbol@ == tv.symbol@
                    &&& r.0@[k].timestamp == tv.timestamp
                    &&& r.0@[k].close == tv.price
                    &&& record_ok(
                        hist_after(*old(self), ticks@, r.1@[k] + 1, tv.symbol@),
                        old(self).window,
                        r.0@[k],
                    )
                }),
    {
        let ghost a0 = *self;
        let mut out: Vec<ParseOutput> = Vec::new();
        let ghost mut idx: Seq<int> = Seq::empty();
        let mut i: usize = 0;
        while i < ticks.len()
            invariant
                self.wf(),
                self.window == a0.window,
                self.allowed == a0.allowed,
                0 <= i <= ticks@.len(),
                out@.len() == idx.len(),
                forall|k: int| 0 <= k < ticks@.len() ==> (#[trigger] ticks@[k]).price.wf(),
                idx == emitted_indices(a0, ticks@, i as int),
                forall|s: Seq<char>|
                    #[trigger] self.hist_of(s) == hist_after(a0, ticks@, i as int, s),
                forall|k: int|
                    0 <= k < idx.len() ==> ({
                        let ii = #[trigger] idx[k];
                        &&& 0 <= ii < i
                        &&& out@[k].symbol@ == ticks@[ii].symbol@
                        &&& out@[k].timestamp == ticks@[ii].timestamp
                        &&& out@[k].close == ticks@[ii].price
                        &&& record_ok(
                            hist_after(a0, ticks@, ii + 1, ticks@[ii].symbol@),
                            a0.window,
                            out@[k],
                        )
                    }),
            decreases ticks@.len() - i,
        {
            let tvi = &ticks[i];
            let ghost pre = *self;
            let ghost sym = tvi.symbol@;
            proof {
                lemma_tracks_agree(pre, a0, sym);
                assert(pre.hist_of(sym) == hist_after(a0, ticks@, i as int, sym));
            }
            match self.process_priced(&tvi.symbol, tvi.timestamp, tvi.price) {
                Option::Some(rec) => {
                    proof {
                        assert(emitted(a0, ticks@, i as int));
                        assert((TickerVal {
                            symbol: tvi.symbol,
                            timestamp: tvi.timestamp,
                            price: tvi.price,
                        }) == ticks@[i as int]);
                        idx = idx.push(i as int);
                        assert(idx == emitted_indices(a0, ticks@, i as int + 1));
                        assert forall|s: Seq<char>| #[trigger] self.hist_of(s) == hist_after(
                            a0,
                            ticks@,
                            i as int + 1,
                            s,
                        ) by {
                            if s == sym {
                                assert(self.hist_of(s) == pre.hist_of(sym).push(
                                    ticks@[i as int],
                                ));
                            } else {
                                assert(self.hist_of(s) == pre.hist_of(s));
                            }
                        }
                    }
                    out.push(rec);
                },
                Option::None => {
                    proof {
                        assert(!emitted(a0, ticks@, i as int));
                        assert(idx == emitted_indices(a0, ticks@, i as int + 1));
                        assert forall|s: Seq<char>| #[trigger] self.hist_of(s) == hist_after(
                            a0,
                            ticks@,
                            i as int + 1,
                            s,
                        ) by {
                            assert(self.hist_of(s) == pre.hist_of(s));
                        }
                    }
                },
            }
            i = i + 1;
        }
        proof {
            lemma_emitted_indices_props(a0, ticks@, ticks@.len() as int);
        }
        (out, Ghost(idx))
    }
}

/// The history a symbol would have after the first `n` ticks of a stream
/// have been offered to an aggregator that started as `a0`: a tick of the
/// symbol is appended when the symbol is tracked and its timestamp does not
/// run backwards; any other tick leaves the history unchanged.
pub open spec fn hist_after(
    a0: Aggregator,
    ticks: Seq<TickerVal>,
    n: int,
    sym: Seq<char>,
) -> Seq<TickerVal>
    decreases n,
{
    if n <= 0 {
        a0.hist_of(sym)
    } else {
        let h = hist_after(a0, ticks, n - 1, sym);
        let tv = ticks[n - 1];
        if tv.symbol@ == sym && a0.tracks(sym) && (h.len() == 0 || tv.timestamp
            >= h.last().timestamp) {
            h.push(tv)
        } else {
            h
        }
    }
}

/// Whether the tick at position `i` of the stream is emitted: its symbol is
/// tracked and its timestamp does not precede its symbol's history at that
/// point.
pub open spec fn emitted(a0: Aggregator, ticks: Seq<TickerVal>, i: int) -> bool {
    let tv = ticks[i];
    let h = hist_after(a0, ticks, i, tv.symbol@);
    a0.tracks(tv.symbol@) && (h.len() == 0 || tv.timestamp >= h.last().timestamp)
}

/// The positions of the emitted ticks among the first `n`, in order.
pub open spec fn emitted_indices(a0: Aggregator, ticks: Seq<TickerVal>, n: int) -> Seq<int>
    decreases n,
{
    if n <= 0 {
        Seq::empty()
    } else if emitted(a0, ticks, n - 1) {
        emitted_indices(a0, ticks, n - 1).push(n - 1)
    } else {
        emitted_indices(a0, ticks, n - 1)
    }
}

/// The emitted positions are within range and strictly increasing.
pub proof fn lemma_emitted_indices_props(a0: Aggregator, ticks: Seq<TickerVal>, n: int)
    ensures
        forall|k: int|
            0 <= k < emitted_indices(a0, ticks, n).len() ==> 0 <= #[trigger] emitted_indices(
                a0,
                ticks,
                n,
            )[k] < n,
        forall|k1: int, k2: int|
            0 <= k1 < k2 < emitted_indices(a0, ticks, n).len() ==> emitted_indices(
                a0,
                ticks,
                n,
            )[k1] < emitted_indices(a0, ticks, n)[k2],
    decreases n,
{
    if n > 0 {
        lemma_emitted_indices_props(a0, ticks, n - 1);
        let e0 = emitted_indices(a0, ticks, n - 1);
        let e = emitted_indices(a0, ticks, n);
        if emitted(a0, ticks, n - 1) {
            assert(e == e0.push(n - 1));
            assert(forall|k: int| 0 <= k < e0.len() ==> e[k] == e0[k]);
            assert(e[e.len() - 1] == n - 1);
        } else {
            assert(e == e0);
        }
    }
}

/// Tracking depends only on the allow-list.
proof fn lemma_tracks_agree(a: Aggregator, b: Aggregator, sym: Seq<char>)
    requires
        a.allowed == b.allowed,
    ensures
        a.tracks(sym) == b.tracks(sym),
{
    if a.allowed is Some {
        let la = a.allowed->Some_0;
        assert(b.allowed->Some_0 == la);
        if a.tracks(sym) {
            let k = choose|k: int|
                0 <= k < (a.allowed->Some_0)@.len() && (#[trigger] (a.allowed->Some_0)@[k])@
                    == sym;
            assert(((b.allowed->Some_0)@[k])@ == sym);
            assert(exists|k2: int|
                0 <= k2 < (b.allowed->Some_0)@.len() && (#[trigger] (b.allowed->Some_0)@[k2])@
                    == sym);
        }
        if b.tracks(sym) {
            let k = choose|k: int|
                0 <= k < (b.allowed->Some_0)@.len() && (#[trigger] (b.allowed->Some_0)@[k])@
                    == sym;
            assert(((a.allowed->Some_0)@[k])@ == sym);
            assert(exists|k2: int|
                0 <= k2 < (a.allowed->Some_0)@.len() && (#[trigger] (a.allowed->Some_0)@[k2])@
                    == sym);
        }
    }
}

/// `find_sym` only looks at the symbols, so two state sequences that agree
/// on them agree on it.
pub proof fn lemma_find_sym_same_symbols(s1: Seq<SymbolState>, s2: Seq<SymbolState>, sym: Seq<char>)
    requires
        s1.len() == s2.len(),
        forall|k: int| 0 <= k < s1.len() ==> (#[trigger] s1[k]).symbol@ == s2[k].symbol@,
    ensures
        find_sym(s1, sym) == find_sym(s2, sym),
    decreases s1.len(),
{
    if s1.len() > 0 {
        assert(s1[0].symbol@ == s2[0].symbol@);
        assert(forall|k: int|
            0 <= k < s1.len() - 1 ==> (#[trigger] s1.drop_first()[k]).symbol@ == s1[k + 1].symbol@
                && s2.drop_first()[k].symbol@ == s2[k + 1].symbol@);
        lemma_find_sym_same_symbols(s1.drop_first(), s2.drop_first(), sym);
    }
}

/// What appending a state does to `find_sym`: an existing first match wins,
/// otherwise the new state matches at the end or not at all.
pub proof fn lemma_find_sym_push(s: Seq<SymbolState>, st: SymbolState, sym: Seq<char>)
    ensures
        find_sym(s.push(st), sym) == (if find_sym(s, sym) >= 0 {
            find_sym(s, sym)
        } else if st.symbol@ == sym {
            s.len() as int
        } else {
            -1
        }),
    decreases s.len(),
{
    if s.len() == 0 {
        assert(s.push(st)[0] == st);
        assert(s.push(st).drop_first() =~= Seq::<SymbolState>::empty());
        assert(find_sym(Seq::<SymbolState>::empty(), sym) == -1);
        assert(find_sym(s.push(st), sym) == (if st.symbol@ == sym {
            0
        } else {
            -1
        }));
    } else {
        assert(s.push(st)[0] == s[0]);
        assert(s.push(st).drop_first() =~= s.drop_first().push(st));
        lemma_find_sym_push(s.drop_first(), st, sym);
        assert(find_sym(s.push(st).drop_first(), sym) == find_sym(s.drop_first().push(st), sym));
    }
}

} // verus!
