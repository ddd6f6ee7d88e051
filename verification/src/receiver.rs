//! The client's decisions while it receives quotes: what to do with each
//! datagram, and when to give up after failed pings.
use vstd::prelude::*;
use crate::stock_quote::{decode_packet, StockQuote};

verus! {

/// What to do with a received datagram.
#[derive(Debug)]
pub enum DatagramAction {
    /// Not a quote packet: ignore it.
    Ignore,
    /// A quote: show it.
    Show(StockQuote),
    /// The first quote: start pinging its sender, and show it.
    StartPingerAndShow(StockQuote),
}

/// The receiver's state: whether the pinger has been started.
pub struct ReceiverState {
    pub pinger_active: bool,
}

impl ReceiverState {
    /// A receiver that has not seen a quote yet.
    pub fn new() -> (r: Self)
        ensures
            !r.pinger_active,
    {
        ReceiverState { pinger_active: false }
    }

    /// Decides what to do with a datagram: a packet that decodes to a quote
    /// is shown, and the first one also starts the pinger; anything else is
    /// ignored.
    pub fn on_datagram(&mut self, bytes: &[u8]) -> (a: DatagramAction)
        ensures
            match decode_packet(bytes@) {
                None => a is Ignore && final(self).pinger_active == old(self).pinger_active,
                Some(q) => final(self).pinger_active && if old(self).pinger_active {
                    a matches DatagramAction::Show(s) && s@ == q
                } else {
                    a matches DatagramAction::StartPingerAndShow(s) && s@ == q
                },
            },
    {
        match StockQuote::from_bytes(bytes) {
            None => DatagramAction::Ignore,
            Some(q) => {
                if self.pinger_active {
                    DatagramAction::Show(q)
                } else {
                    self.pinger_active = true;
                    DatagramAction::StartPingerAndShow(q)
                }
            },
        }
    }
}

/// How many pings in a row may fail before the client shuts down.
pub const MAX_FAILURES: u32 = 3;

/// What the pinger does after a ping.
#[derive(Debug, Clone, Copy, PartialEq, Eq, Structural)]
pub enum PingDecision {
    /// Go on pinging.
    Continue,
    /// Too many pings failed in a row: shut the client down.
    Shutdown,
}

/// The count of failures after a ping that was sent or not.
pub open spec fn ping_step(failures: u32, sent: bool) -> u32 {
    if sent {
        0
    } else if failures < u32::MAX {
        (failures + 1) as u32
    } else {
        failures
    }
}

/// The count of failures of a new pinger after the pings `results`.
pub open spec fn failures_after(results: Seq<bool>) -> u32
    decreases results.len(),
{
    if results.len() == 0 {
        0
    } else {
        ping_step(failures_after(results.drop_last()), results.last())
    }
}

/// How many of the last pings failed in a row.
pub open spec fn trailing_failures(results: Seq<bool>) -> nat
    decreases results.len(),
{
    if results.len() == 0 || results.last() {
        0
    } else {
        1 + trailing_failures(results.drop_last())
    }
}

/// A pinger counts the failed pings since the last success, and so decides
/// to shut down exactly when the last `MAX_FAILURES` pings all failed.
pub proof fn lemma_ping_failures(results: Seq<bool>)
    requires
        results.len() < u32::MAX,
    ensures
        failures_after(results) == trailing_failures(results),
        failures_after(results) >= MAX_FAILURES <==> (results.len() >= 3 && !results[results.len()
            - 1] && !results[results.len() - 2] && !results[results.len() - 3]),
    decreases results.len(),
{
    if results.len() > 0 {
        let prev = results.drop_last();
        lemma_ping_failures(prev);
        lemma_trailing_bound(prev);
        if results.len() >= 2 {
            assert(prev[prev.len() - 1] == results[results.len() - 2]);
        }
        if results.len() >= 3 {
            assert(prev[prev.len() - 2] == results[results.len() - 3]);
        }
        assert(results[results.len() - 1] == results.last());
    }
    lemma_trailing_three(results);
}

proof fn lemma_trailing_three(r: Seq<bool>)
    ensures
        trailing_failures(r) >= 3 <==> (r.len() >= 3 && !r[r.len() - 1] && !r[r.len() - 2]
            && !r[r.len() - 3]),
{
    if r.len() >= 1 {
        let r1 = r.drop_last();
        assert(r[r.len() - 1] == r.last());
        if r.len() >= 2 {
            let r2 = r1.drop_last();
            assert(r1.last() == r[r.len() - 2]);
            if r.len() >= 3 {
                assert(r2.last() == r[r.len() - 3]);
            }
        }
    }
    reveal_with_fuel(trailing_failures, 4);
}

proof fn lemma_trailing_bound(results: Seq<bool>)
    ensures
        trailing_failures(results) <= results.len(),
    decreases results.len(),
{
    if results.len() > 0 {
        lemma_trailing_bound(results.drop_last());
    }
}

/// The pinger's state: how many pings in a row have failed.
pub struct PingMonitor {
    pub failures: u32,
}

impl PingMonitor {
    /// A pinger with no failure yet.
    pub fn new() -> (r: Self)
        ensures
            r.failures == 0,
    {
        PingMonitor { failures: 0 }
    }

    /// Records the outcome of a ping: a success clears the count of failures;
    /// a failure adds one, and the client shuts down once `MAX_FAILURES`
    /// pings in a row have failed.
    pub fn on_ping(&mut self, sent: bool) -> (d: PingDecision)
        ensures
            final(self).failures == ping_step(old(self).failures, sent),
            d == PingDecision::Shutdown <==> (!sent && final(self).failures >= MAX_FAILURES),
    {
        if sent {
            self.failures = 0;
            PingDecision::Continue
        } else {
            if self.failures < u32::MAX {
                self.failures = self.failures + 1;
            }
            if self.failures >= MAX_FAILURES {
                PingDecision::Shutdown
            } else {
                PingDecision::Continue
            }
        }
    }
}

} // verus!
