//! The server's watchdog over one client: the client pings the server now and
//! then, and the server drops the client once no ping has come for longer than
//! the timeout. Times are readings of a monotonic clock, in milliseconds.
use vstd::prelude::*;

verus! {

/// What the watchdog decides at a check.
#[derive(Debug, Clone, Copy, PartialEq, Eq, Structural)]
pub enum WatchdogDecision {
    /// A ping came recently enough: keep streaming.
    KeepAlive,
    /// No ping came for longer than the timeout: disconnect the client.
    Disconnect,
}

/// The time of the last ping (or of the connection, before any ping) and the
/// longest silence allowed.
pub struct Watchdog {
    pub last_ping: u64,
    pub timeout: u64,
}

/// Whether, at time `now`, the silence since `last_ping` exceeds `timeout`.
pub open spec fn timed_out(last_ping: u64, timeout: u64, now: u64) -> bool {
    now > last_ping && now - last_ping > timeout
}

impl Watchdog {
    /// A watchdog for a client that connected at time `now`.
    pub fn new(now: u64, timeout: u64) -> (r: Self)
        ensures
            r.last_ping == now,
            r.timeout == timeout,
    {
        Watchdog { last_ping: now, timeout }
    }

    /// Records a ping received at time `now`; a reading earlier than the last
    /// ping changes nothing.
    pub fn on_ping(&mut self, now: u64)
        ensures
            final(self).last_ping == (if now > old(self).last_ping {
                now
            } else {
                old(self).last_ping
            }),
            final(self).timeout == old(self).timeout,
    {
        if now > self.last_ping {
            self.last_ping = now;
        }
    }

    /// The decision at time `now`: disconnect exactly when the silence since
    /// the last ping exceeds the timeout.
    pub fn check(&self, now: u64) -> (d: WatchdogDecision)
        ensures
            d == (if timed_out(self.last_ping, self.timeout, now) {
                WatchdogDecision::Disconnect
            } else {
                WatchdogDecision::KeepAlive
            }),
    {
        if now > self.last_ping && now - self.last_ping > self.timeout {
            WatchdogDecision::Disconnect
        } else {
            WatchdogDecision::KeepAlive
        }
    }
}

/// A client that has pinged within the timeout is kept: after a ping at
/// `ping`, every check up to `ping + timeout` keeps the client, and every
/// check past it disconnects the client unless another ping came.
pub proof fn lemma_ping_keeps_alive(ping: u64, timeout: u64, now: u64)
    ensures
        now <= ping + timeout ==> !timed_out(ping, timeout, now),
        now > ping + timeout ==> timed_out(ping, timeout, now),
{
}

} // verus!
