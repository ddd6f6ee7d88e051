//! The simulated price feed: the current quote of each ticker, and the
//! per-tick update of volumes and timestamps with the hourly volume reset.
use vstd::prelude::*;
use crate::stock_quote::{QuoteView, StockQuote};
use std::time::{Duration, SystemTime};

verus! {

/// `std::time::SystemTime`, a reading of the system clock.
#[verifier::external_type_specification]
#[verifier::external_body]
pub struct ExSystemTime(std::time::SystemTime);

/// `SystemTime::now`: the current reading of the system clock. Nothing is
/// stated of it: it is the time.
#[verifier::external_body]
fn system_now() -> SystemTime {
    SystemTime::now()
}

/// `SystemTime::duration_since(UNIX_EPOCH)`: how long after the Unix epoch
/// `t` is, or `None` when `t` is before it. Nothing is stated of the value,
/// whose meaning is the clock's.
#[verifier::external_body]
fn since_epoch(t: SystemTime) -> Option<Duration> {
    match t.duration_since(std::time::UNIX_EPOCH) {
        Ok(d) => Some(d),
        Err(_) => None,
    }
}

/// `Duration::as_secs`: the whole seconds of `d`. Nothing is stated of the
/// value, as `Duration` is opaque here.
#[verifier::external_body]
fn whole_seconds(d: Duration) -> u64 {
    d.as_secs()
}

/// `rand::random_range(1..=3)`: a volume increment drawn from 1 to 3.
#[verifier::external_body]
fn random_volume_step() -> (r: u32)
    ensures
        1 <= r <= 3,
{
    rand::random_range(1u32..=3u32)
}

/// The quotes of all tickers and the time of the last volume reset.
pub struct Prices {
    pub prices: Vec<StockQuote>,
    pub last_reset_ts: u64,
}

/// The mathematical model of the price feed.
pub struct PricesView {
    pub prices: Seq<QuoteView>,
    pub last_reset_ts: u64,
}

impl View for Prices {
    type V = PricesView;

    open spec fn view(&self) -> PricesView {
        PricesView {
            prices: self.prices@.map_values(|q: StockQuote| q@),
            last_reset_ts: self.last_reset_ts,
        }
    }
}

/// How often the volumes start again from zero, in seconds.
pub const RESET_INTERVAL: u64 = 3600;

/// The feed after a tick at time `ts`: volumes start again from zero when
/// `RESET_INTERVAL` seconds have passed since the last reset; then each quote
/// takes its new price, its volume grows by its step, and its timestamp is `ts`.
pub open spec fn tick(p: PricesView, ts: u64, price_bits: Seq<u64>, steps: Seq<u32>) -> PricesView {
    let reset = ts - p.last_reset_ts >= RESET_INTERVAL;
    PricesView {
        prices: Seq::new(
            p.prices.len(),
            |i: int|
                QuoteView {
                    ticker: p.prices[i].ticker,
                    price_bits: price_bits[i],
                    volume: ((if reset {
                        0
                    } else {
                        p.prices[i].volume as int
                    }) + steps[i]) as u32,
                    timestamp: ts,
                },
        ),
        last_reset_ts: if reset {
            ts
        } else {
            p.last_reset_ts
        },
    }
}

/// What a tick does to each quote: the feed keeps its quotes in order; the
/// `i`-th quote keeps its ticker, takes the `i`-th new price, gets the time
/// `ts`, and its volume is its step added to its old volume, or to zero when
/// `RESET_INTERVAL` seconds have passed since the last reset, which then
/// moves to `ts`.
pub proof fn lemma_tick_quotes(p: PricesView, ts: u64, price_bits: Seq<u64>, steps: Seq<u32>)
    requires
        price_bits.len() == p.prices.len(),
        steps.len() == p.prices.len(),
        ts >= p.last_reset_ts,
        tick_fits(p, ts, steps),
    ensures
        tick(p, ts, price_bits, steps).prices.len() == p.prices.len(),
        forall|i: int|
            0 <= i < p.prices.len() ==> {
                let q = #[trigger] tick(p, ts, price_bits, steps).prices[i];
                &&& q.ticker == p.prices[i].ticker
                &&& q.price_bits == price_bits[i]
                &&& q.timestamp == ts
                &&& q.volume == (if ts - p.last_reset_ts >= RESET_INTERVAL {
                    0
                } else {
                    p.prices[i].volume as int
                }) + steps[i]
            },
        tick(p, ts, price_bits, steps).last_reset_ts == (if ts - p.last_reset_ts >= RESET_INTERVAL {
            ts
        } else {
            p.last_reset_ts
        }),
{
    assert forall|i: int| 0 <= i < p.prices.len() implies {
        let q = #[trigger] tick(p, ts, price_bits, steps).prices[i];
        &&& q.ticker == p.prices[i].ticker
        &&& q.price_bits == price_bits[i]
        &&& q.timestamp == ts
        &&& q.volume == (if ts - p.last_reset_ts >= RESET_INTERVAL {
            0
        } else {
            p.prices[i].volume as int
        }) + steps[i]
    } by {
        assert(0 <= steps[i]);
        if ts - p.last_reset_ts >= RESET_INTERVAL {
            assert(0 + steps[i] <= u32::MAX);
        } else {
            assert(p.prices[i].volume as int + steps[i] <= u32::MAX);
        }
    }
}

/// Whether a tick at `ts` with these steps overflows no volume.
pub open spec fn tick_fits(p: PricesView, ts: u64, steps: Seq<u32>) -> bool {
    let reset = ts - p.last_reset_ts >= RESET_INTERVAL;
    forall|i: int|
        0 <= i < p.prices.len() ==> (if reset {
            0
        } else {
            p.prices[i].volume as int
        }) + #[trigger] steps[i] <= u32::MAX
}

/// A new quote: volume 0.
pub open spec fn fresh_quote(ticker: Seq<char>, price_bits: u64, ts: u64) -> QuoteView {
    QuoteView { ticker, price_bits, volume: 0, timestamp: ts }
}

/// Whether `steps` are volume steps from 1 to 3, one for each quote of `p`.
pub open spec fn valid_steps(p: PricesView, steps: Seq<u32>) -> bool {
    &&& steps.len() == p.prices.len()
    &&& forall|i: int| 0 <= i < steps.len() ==> 1 <= #[trigger] steps[i] <= 3
}

/// Whether a tick at `ts` with `steps` (one from 1 to 3 per quote) turns
/// `p` into `q`, as `applied` says: it is taken exactly when the clock reads
/// no earlier than the last reset and no volume overflows.
pub open spec fn tick_outcome(
    p: PricesView,
    q: PricesView,
    ts: u64,
    price_bits: Seq<u64>,
    steps: Seq<u32>,
    applied: bool,
) -> bool {
    &&& valid_steps(p, steps)
    &&& applied == (ts >= p.last_reset_ts && tick_fits(p, ts, steps))
    &&& applied ==> q == tick(p, ts, price_bits, steps)
    &&& !applied ==> q == p
}

/// The current Unix time in seconds, `0` when the clock is before the epoch.
fn now_ts() -> u64 {
    match since_epoch(system_now()) {
        Some(d) => whole_seconds(d),
        None => 0,
    }
}

impl Prices {
    /// A feed for `tickers`, each with its initial price (the bit pattern of
    /// the `f64` price), volume 0 and the current time as timestamp, which is
    /// also the time of the last reset.
    pub fn new(tickers: Vec<String>, price_bits: &[u64]) -> (r: Self)
        requires
            price_bits@.len() == tickers@.len(),
        ensures
            r@.prices.len() == tickers@.len(),
            forall|i: int|
                0 <= i < tickers@.len() ==> (#[trigger] r@.prices[i]) == fresh_quote(
                    tickers@[i]@,
                    price_bits@[i],
                    r.last_reset_ts,
                ),
    {
        let now = now_ts();
        let mut prices: Vec<StockQuote> = Vec::new();
        let mut i: usize = 0;
        while i < tickers.len()
            invariant
                price_bits@.len() == tickers@.len(),
                i <= tickers@.len(),
                prices@.len() == i,
                forall|k: int|
                    0 <= k < i ==> (#[trigger] prices@[k])@ == fresh_quote(
                        tickers@[k]@,
                        price_bits@[k],
                        now,
                    ),
            decreases tickers@.len() - i,
        {
            prices.push(
                StockQuote {
                    ticker: tickers[i].clone(),
                    price_bits: price_bits[i],
                    volume: 0,
                    timestamp: now,
                },
            );
            i = i + 1;
        }
        Prices { prices, last_reset_ts: now }
    }

    /// The current quotes.
    pub fn quotes(&self) -> (r: &[StockQuote])
        ensures
            r@ == self.prices@,
    {
        self.prices.as_slice()
    }

    /// A tick at time `ts` (see `tick`), with the new prices and the volume
    /// steps given.
    pub fn apply_tick(&mut self, ts: u64, price_bits: &[u64], steps: &[u32])
        requires
            price_bits@.len() == old(self).prices@.len(),
            steps@.len() == old(self).prices@.len(),
            ts >= old(self).last_reset_ts,
            tick_fits(old(self)@, ts, steps@),
        ensures
            final(self)@ == tick(old(self)@, ts, price_bits@, steps@),
            final(self)@.prices.len() == old(self)@.prices.len(),
            forall|i: int|
                0 <= i < old(self)@.prices.len() ==> (#[trigger] final(self)@.prices[i]).price_bits
                    == price_bits@[i] && final(self)@.prices[i].ticker == old(self)@.prices[i].ticker
                    && final(self)@.prices[i].timestamp == ts,
    {
        proof {
            lemma_tick_quotes(old(self)@, ts, price_bits@, steps@);
        }
        let ghost start = self@;
        let reset = ts - self.last_reset_ts >= RESET_INTERVAL;
        let n = self.prices.len();
        let mut old_prices: Vec<StockQuote> = Vec::new();
        std::mem::swap(&mut old_prices, &mut self.prices);
        let mut prices: Vec<StockQuote> = Vec::new();
        let mut i: usize = 0;
        while i < n
            invariant
                n == old_prices@.len(),
                start.prices == old_prices@.map_values(|q: StockQuote| q@),
                reset == (ts - start.last_reset_ts >= RESET_INTERVAL),
                price_bits@.len() == n,
                steps@.len() == n,
                tick_fits(start, ts, steps@),
                i <= n,
                prices@.len() == i,
                forall|k: int|
                    0 <= k < i ==> (#[trigger] prices@[k])@ == tick(
                        start,
                        ts,
                        price_bits@,
                        steps@,
                    ).prices[k],
            decreases n - i,
        {
            let q = &old_prices[i];
            assert(q@ == start.prices[i as int]);
            let base: u32 = if reset {
                0
            } else {
                q.volume
            };
            assert(base + steps@[i as int] <= u32::MAX);
            prices.push(
                StockQuote {
                    ticker: q.ticker.clone(),
                    price_bits: price_bits[i],
                    volume: base + steps[i],
                    timestamp: ts,
                },
            );
            i = i + 1;
        }
        self.prices = prices;
        if reset {
            self.last_reset_ts = ts;
        }
        assert(self@.prices =~= tick(start, ts, price_bits@, steps@).prices);
    }

    /// A tick at time `ts` with the new prices and volume steps given, when
    /// it can be taken (see `tick`): the clock reads no earlier than the last
    /// reset and no volume overflows. Otherwise nothing changes.
    pub fn tick_at(&mut self, ts: u64, price_bits: &[u64], steps: &[u32]) -> (applied: bool)
        requires
            price_bits@.len() == old(self).prices@.len(),
            valid_steps(old(self)@, steps@),
        ensures
            applied == (ts >= old(self).last_reset_ts && tick_fits(old(self)@, ts, steps@)),
            applied ==> final(self)@ == tick(old(self)@, ts, price_bits@, steps@),
            applied ==> final(self)@.prices.len() == old(self)@.prices.len() && forall|i: int|
                0 <= i < old(self)@.prices.len() ==> (#[trigger] final(self)@.prices[i]).price_bits
                    == price_bits@[i] && final(self)@.prices[i].ticker == old(self)@.prices[i].ticker
                    && final(self)@.prices[i].timestamp == ts,
            !applied ==> final(self)@ == old(self)@,
    {
        if ts < self.last_reset_ts {
            return false;
        }
        let n = self.prices.len();
        let reset = ts - self.last_reset_ts >= RESET_INTERVAL;
        let mut k: usize = 0;
        while k < n
            invariant
                n == self.prices@.len(),
                steps@.len() == n,
                ts >= self.last_reset_ts,
                reset == (ts - self.last_reset_ts >= RESET_INTERVAL),
                k <= n,
                forall|j: int|
                    0 <= j < k ==> (if reset {
                        0
                    } else {
                        self@.prices[j].volume as int
                    }) + #[trigger] steps@[j] <= u32::MAX,
            decreases n - k,
        {
            let base: u32 = if reset {
                0
            } else {
                self.prices[k].volume
            };
            if base > u32::MAX - steps[k] {
                assert(!tick_fits(self@, ts, steps@)) by {
                    assert(self@.prices[k as int] == self.prices@[k as int]@);
                }
                return false;
            }
            k = k + 1;
        }
        self.apply_tick(ts, price_bits, steps);
        true
    }

    /// A tick now (see `tick_at`): the clock is read, and the volume of each
    /// quote grows by a random step from 1 to 3 as the quotes take the given
    /// prices. Returns whether the tick was taken; it is refused, and nothing
    /// changes, exactly when the clock reads earlier than the last reset or a
    /// volume would overflow.
    pub fn update_prices(&mut self, price_bits: &[u64]) -> (applied: bool)
        requires
            price_bits@.len() == old(self).prices@.len(),
        ensures
            exists|ts: u64, steps: Seq<u32>|
                tick_outcome(old(self)@, final(self)@, ts, price_bits@, steps, applied),
            applied ==> final(self)@.prices.len() == old(self)@.prices.len() && forall|i: int|
                0 <= i < old(self)@.prices.len() ==> (#[trigger] final(self)@.prices[i]).price_bits
                    == price_bits@[i] && final(self)@.prices[i].ticker == old(self)@.prices[i].ticker,
            !applied ==> final(self)@ == old(self)@,
    {
        let ts = now_ts();
        let n = self.prices.len();
        let mut steps: Vec<u32> = Vec::new();
        let mut i: usize = 0;
        while i < n
            invariant
                n == self.prices@.len(),
                i <= n,
                steps@.len() == i,
                forall|k: int| 0 <= k < i ==> 1 <= #[trigger] steps@[k] <= 3,
            decreases n - i,
        {
            steps.push(random_volume_step());
            i = i + 1;
        }
        let ghost start = self@;
        let applied = self.tick_at(ts, price_bits, steps.as_slice());
        assert(tick_outcome(start, self@, ts, price_bits@, steps@, applied));
        applied
    }
}

} // verus!
