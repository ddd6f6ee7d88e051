use quotes::watchdog::{Watchdog, WatchdogDecision};

#[test]
fn watchdog_keeps_a_client_that_pings() {
    let mut wd = Watchdog::new(1000, 6000);
    assert_eq!(wd.check(7000), WatchdogDecision::KeepAlive);
    assert_eq!(wd.check(7001), WatchdogDecision::Disconnect);
    wd.on_ping(5000);
    assert_eq!(wd.last_ping, 5000);
    assert_eq!(wd.check(11000), WatchdogDecision::KeepAlive);
    assert_eq!(wd.check(11001), WatchdogDecision::Disconnect);
}

#[test]
fn watchdog_ignores_an_earlier_reading() {
    let mut wd = Watchdog::new(1000, 10);
    wd.on_ping(500);
    assert_eq!(wd.last_ping, 1000);
    assert_eq!(wd.check(0), WatchdogDecision::KeepAlive);
    assert_eq!(wd.check(u64::MAX), WatchdogDecision::Disconnect);
}
