use quotes::receiver::{DatagramAction, PingDecision, PingMonitor, ReceiverState, MAX_FAILURES};
use quotes::stock_quote::StockQuote;

#[test]
fn first_quote_starts_the_pinger() {
    let q = StockQuote { ticker: "AAPL".into(), price_bits: 1, volume: 2, timestamp: 3 };
    let bytes = q.to_bytes();
    let mut st = ReceiverState::new();
    assert!(matches!(st.on_datagram(b"PING"), DatagramAction::Ignore));
    assert!(!st.pinger_active);
    match st.on_datagram(&bytes) {
        DatagramAction::StartPingerAndShow(s) => assert_eq!(s.ticker, "AAPL"),
        other => panic!("unexpected {:?}", other),
    }
    match st.on_datagram(&bytes) {
        DatagramAction::Show(s) => assert_eq!(s.volume, 2),
        other => panic!("unexpected {:?}", other),
    }
}

#[test]
fn shutdown_after_three_failed_pings_in_a_row() {
    let mut m = PingMonitor::new();
    assert_eq!(MAX_FAILURES, 3);
    assert_eq!(m.on_ping(false), PingDecision::Continue);
    assert_eq!(m.on_ping(false), PingDecision::Continue);
    assert_eq!(m.on_ping(true), PingDecision::Continue);
    assert_eq!(m.failures, 0);
    assert_eq!(m.on_ping(false), PingDecision::Continue);
    assert_eq!(m.on_ping(false), PingDecision::Continue);
    assert_eq!(m.on_ping(false), PingDecision::Shutdown);
}
