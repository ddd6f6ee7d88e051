use quotes::prices::{Prices, RESET_INTERVAL};

fn bits(prices: &[f64]) -> Vec<u64> {
    prices.iter().map(|p| p.to_bits()).collect()
}

#[test]
fn new_creates_all_tickers() {
    let p = Prices::new(vec!["AAPL".into(), "GOOG".into()], &bits(&[10.0, 20.0]));
    assert_eq!(p.prices.len(), 2);
    assert_eq!(p.prices[0].ticker, "AAPL");
    assert_eq!(p.prices[1].ticker, "GOOG");
}

#[test]
fn new_volume_starts_at_zero() {
    let p = Prices::new(vec!["X".into()], &bits(&[10.0]));
    assert_eq!(p.prices[0].volume, 0);
}

#[test]
fn update_changes_price_and_volume() {
    let mut p = Prices::new(vec!["X".into()], &bits(&[10.0]));
    let price_before = p.prices[0].price_bits;
    assert!(p.update_prices(&bits(&[10.5])));
    assert_ne!(p.prices[0].price_bits, price_before);
    assert_eq!(p.prices[0].price_bits, 10.5f64.to_bits());
    assert!((1..=3).contains(&p.prices[0].volume));
    assert!(p.prices[0].timestamp >= p.last_reset_ts);
}

#[test]
fn volume_resets_after_interval() {
    let mut p = Prices::new(vec!["X".into()], &bits(&[10.0]));
    assert!(p.update_prices(&bits(&[10.0])));
    assert!(p.prices[0].volume > 0);

    p.last_reset_ts -= RESET_INTERVAL;
    assert!(p.update_prices(&bits(&[10.0])));
    assert!(p.prices[0].volume <= 3);
}

// ---- further cases ----

#[test]
fn apply_tick_is_exact() {
    let mut p = Prices::new(vec!["A".into(), "B".into()], &bits(&[1.0, 2.0]));
    let t0 = p.last_reset_ts;
    p.apply_tick(t0 + 10, &[7, 8], &[1, 3]);
    assert_eq!(p.prices[0].volume, 1);
    assert_eq!(p.prices[1].volume, 3);
    assert_eq!(p.prices[0].price_bits, 7);
    assert_eq!(p.prices[1].timestamp, t0 + 10);
    assert_eq!(p.last_reset_ts, t0);

    p.apply_tick(t0 + 20, &[7, 8], &[2, 2]);
    assert_eq!(p.prices[0].volume, 3);
    assert_eq!(p.prices[1].volume, 5);

    p.apply_tick(t0 + RESET_INTERVAL, &[7, 8], &[2, 1]);
    assert_eq!(p.prices[0].volume, 2);
    assert_eq!(p.prices[1].volume, 1);
    assert_eq!(p.last_reset_ts, t0 + RESET_INTERVAL);
}

#[test]
fn update_refuses_clock_before_last_reset() {
    let mut p = Prices::new(vec!["A".into()], &bits(&[1.0]));
    p.last_reset_ts = u64::MAX;
    assert!(!p.update_prices(&bits(&[2.0])));
    assert_eq!(p.prices[0].price_bits, 1.0f64.to_bits());
    assert_eq!(p.prices[0].volume, 0);
}

#[test]
fn update_volume_steps_are_one_to_three() {
    let mut p = Prices::new(vec!["A".into()], &bits(&[1.0]));
    for _ in 0..50 {
        let before = p.prices[0].volume;
        assert!(p.update_prices(&bits(&[1.0])));
        let step = p.prices[0].volume - before;
        assert!((1..=3).contains(&step));
    }
}

#[test]
fn tick_at_applies_at_the_last_reset() {
    let mut p = Prices::new(vec!["A".into(), "B".into()], &bits(&[1.0, 2.0]));
    let t0 = p.last_reset_ts;
    assert!(p.tick_at(t0, &[5, 6], &[2, 3]));
    assert_eq!(p.prices[0].volume, 2);
    assert_eq!(p.prices[1].volume, 3);
    assert_eq!(p.prices[0].price_bits, 5);
    assert_eq!(p.prices[1].timestamp, t0);
}

#[test]
fn tick_at_refuses_a_clock_before_the_last_reset() {
    let mut p = Prices::new(vec!["A".into()], &bits(&[1.0]));
    p.last_reset_ts = 1000;
    assert!(!p.tick_at(999, &[5], &[1]));
    assert_eq!(p.prices[0].price_bits, 1.0f64.to_bits());
    assert_eq!(p.prices[0].volume, 0);
    assert_eq!(p.last_reset_ts, 1000);
}

#[test]
fn tick_at_refuses_a_volume_overflow() {
    let mut p = Prices::new(vec!["A".into(), "B".into()], &bits(&[1.0, 2.0]));
    let t0 = p.last_reset_ts;
    p.prices[1].volume = u32::MAX - 1;
    assert!(!p.tick_at(t0 + 1, &[5, 6], &[1, 2]));
    assert_eq!(p.prices[0].volume, 0);
    assert_eq!(p.prices[1].volume, u32::MAX - 1);
    assert_eq!(p.prices[0].price_bits, 1.0f64.to_bits());
    assert!(p.tick_at(t0 + 1, &[5, 6], &[1, 1]));
    assert_eq!(p.prices[1].volume, u32::MAX);
}

#[test]
fn tick_at_resets_volume_so_it_cannot_overflow() {
    let mut p = Prices::new(vec!["A".into()], &bits(&[1.0]));
    let t0 = p.last_reset_ts;
    p.prices[0].volume = u32::MAX;
    assert!(p.tick_at(t0 + RESET_INTERVAL, &[5], &[3]));
    assert_eq!(p.prices[0].volume, 3);
    assert_eq!(p.last_reset_ts, t0 + RESET_INTERVAL);
}
