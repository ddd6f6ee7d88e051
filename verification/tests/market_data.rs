use quotes::market_data::{Event, EventBus};
use quotes::stock_quote::StockQuote;

fn quote(ticker: &str, price: f64, volume: u32) -> StockQuote {
    StockQuote { ticker: ticker.into(), price_bits: price.to_bits(), volume, timestamp: 0 }
}

#[test]
fn subscribe_and_receive() {
    let mut bus = EventBus::new();
    let rx = bus.subscribe(&["AAPL".into()]);

    let event = Event { ticker: "AAPL".into(), quote: quote("AAPL", 150.0, 10) };

    let _ = bus.publish(event.clone());
    let received = rx.try_recv().unwrap();
    assert_eq!(received.ticker, "AAPL");
    assert_eq!(f64::from_bits(received.quote.price_bits), 150.0);
}

#[test]
fn no_event_for_other_ticker() {
    let mut bus = EventBus::new();
    let rx = bus.subscribe(&["AAPL".into()]);

    let _ = bus.publish(Event { ticker: "GOOG".into(), quote: quote("GOOG", 100.0, 0) });

    assert!(rx.try_recv().is_err());
}

#[test]
fn multiple_tickers_one_receiver() {
    let mut bus = EventBus::new();
    let rx = bus.subscribe(&["AAPL".into(), "GOOG".into()]);

    for ticker in &["AAPL", "GOOG"] {
        let _ = bus.publish(Event { ticker: ticker.to_string(), quote: quote(ticker, 1.0, 0) });
    }

    assert_eq!(rx.try_recv().unwrap().ticker, "AAPL");
    assert_eq!(rx.try_recv().unwrap().ticker, "GOOG");
}

#[test]
fn dropped_receiver_cleaned_up() {
    let mut bus = EventBus::new();
    let rx = bus.subscribe(&["AAPL".into()]);
    drop(rx);

    let _ = bus.publish(Event { ticker: "AAPL".into(), quote: quote("AAPL", 1.0, 0) });

    assert_eq!(bus.subscriber_count("AAPL"), Some(0));
}

// ---- further cases ----

#[test]
fn publish_reports_delivery_per_subscriber() {
    let mut bus = EventBus::new();
    let rx1 = bus.subscribe(&["AAPL".into()]);
    let rx2 = bus.subscribe(&["AAPL".into(), "MSFT".into()]);
    drop(rx1);

    let delivered = bus.publish(Event { ticker: "AAPL".into(), quote: quote("AAPL", 2.0, 1) });
    assert_eq!(delivered, vec![false, true]);
    assert_eq!(bus.subscriber_count("AAPL"), Some(1));
    assert_eq!(bus.subscriber_count("MSFT"), Some(1));
    assert_eq!(bus.subscriber_count("GOOG"), None);
    assert_eq!(rx2.try_recv().unwrap().quote.volume, 1);

    let none = bus.publish(Event { ticker: "GOOG".into(), quote: quote("GOOG", 2.0, 1) });
    assert!(none.is_empty());
}

#[test]
fn ticker_listed_twice_gets_the_event_twice() {
    let mut bus = EventBus::new();
    let rx = bus.subscribe(&["AAPL".into(), "AAPL".into()]);
    assert_eq!(bus.subscriber_count("AAPL"), Some(2));
    let delivered = bus.publish(Event { ticker: "AAPL".into(), quote: quote("AAPL", 3.0, 0) });
    assert_eq!(delivered, vec![true, true]);
    assert!(rx.try_recv().is_ok());
    assert!(rx.try_recv().is_ok());
    assert!(rx.try_recv().is_err());
}
