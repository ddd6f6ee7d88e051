use quotes::stock_quote::{StockQuote, PACKET_SIZE};

fn sample() -> StockQuote {
    StockQuote {
        ticker: "AAPL".into(),
        price_bits: 189.50f64.to_bits(),
        volume: 1_200_000,
        timestamp: 1_700_000_000,
    }
}

fn price_of(q: &StockQuote) -> f64 {
    f64::from_bits(q.price_bits)
}

fn price_text(q: &StockQuote) -> String {
    format!("{}", price_of(q))
}

/// Reads the text form, the price with `f64`'s `FromStr`.
fn read_text(s: &str) -> Option<StockQuote> {
    let t = StockQuote::deserialize(s)?;
    let price: f64 = t.price.parse().ok()?;
    Some(StockQuote {
        ticker: t.ticker,
        price_bits: price.to_bits(),
        volume: t.volume,
        timestamp: t.timestamp,
    })
}

#[test]
fn binary_packet_size() {
    assert_eq!(sample().to_bytes().len(), PACKET_SIZE);
    assert_eq!(PACKET_SIZE, 28);
}

#[test]
fn binary_roundtrip() {
    let original = sample();
    let restored = StockQuote::from_bytes(&original.to_bytes()).unwrap();

    assert_eq!(original.ticker, restored.ticker);
    assert!((price_of(&original) - price_of(&restored)).abs() < f64::EPSILON);
    assert_eq!(original.volume, restored.volume);
    assert_eq!(original.timestamp, restored.timestamp);
}

#[test]
fn binary_ticker_padded_with_zeros() {
    let buf = sample().to_bytes();
    assert_eq!(&buf[4..8], &[0, 0, 0, 0]);
}

#[test]
fn binary_ticker_exact_max_length() {
    let q = StockQuote { ticker: "ABCDEFGH".into(), ..sample() };
    let restored = StockQuote::from_bytes(&q.to_bytes()).unwrap();
    assert_eq!(restored.ticker, "ABCDEFGH");
}

#[test]
fn binary_ticker_truncated_if_too_long() {
    let q = StockQuote { ticker: "LONGTICKERXYZ".into(), ..sample() };
    let restored = StockQuote::from_bytes(&q.to_bytes()).unwrap();
    assert_eq!(restored.ticker, "LONGTICK");
}

#[test]
fn binary_empty_ticker() {
    let q = StockQuote { ticker: "".into(), ..sample() };
    let restored = StockQuote::from_bytes(&q.to_bytes()).unwrap();
    assert_eq!(restored.ticker, "");
}

#[test]
fn binary_big_endian_price() {
    let q = StockQuote { price_bits: 1.0f64.to_bits(), ..sample() };
    let buf = q.to_bytes();
    assert_eq!(&buf[8..16], &0x3FF0_0000_0000_0000u64.to_be_bytes());
}

#[test]
fn binary_big_endian_volume() {
    let q = StockQuote { volume: 0x01020304, ..sample() };
    let buf = q.to_bytes();
    assert_eq!(&buf[16..20], &[0x01, 0x02, 0x03, 0x04]);
}

#[test]
fn binary_big_endian_timestamp() {
    let q = StockQuote { timestamp: 1, ..sample() };
    let buf = q.to_bytes();
    assert_eq!(&buf[20..28], &[0, 0, 0, 0, 0, 0, 0, 1]);
}

#[test]
fn binary_zero_values() {
    let q = StockQuote {
        ticker: "".into(),
        price_bits: 0.0f64.to_bits(),
        volume: 0,
        timestamp: 0,
    };
    let buf = q.to_bytes();
    assert_eq!(buf, [0u8; PACKET_SIZE]);
}

#[test]
fn binary_max_volume_and_timestamp() {
    let q = StockQuote { volume: u32::MAX, timestamp: u64::MAX, ..sample() };
    let restored = StockQuote::from_bytes(&q.to_bytes()).unwrap();
    assert_eq!(restored.volume, u32::MAX);
    assert_eq!(restored.timestamp, u64::MAX);
}

#[test]
fn from_bytes_wrong_size_short() {
    assert!(StockQuote::from_bytes(&[0u8; 10]).is_none());
}

#[test]
fn from_bytes_wrong_size_long() {
    assert!(StockQuote::from_bytes(&[0u8; 30]).is_none());
}

#[test]
fn from_bytes_empty() {
    assert!(StockQuote::from_bytes(&[]).is_none());
}

#[test]
fn from_bytes_invalid_utf8_ticker() {
    let mut buf = sample().to_bytes();
    buf[0] = 0xFF;
    buf[1] = 0xFE;
    assert!(StockQuote::from_bytes(&buf).is_none());
}

#[test]
fn text_serialize_basic() {
    let q = sample();
    assert_eq!(q.serialize(&price_text(&q)), "AAPL|189.5|1200000|1700000000");
}

#[test]
fn text_deserialize_basic() {
    let q = read_text("TSLA|242.7|800000|1700000000").unwrap();
    assert_eq!(q.ticker, "TSLA");
    assert!((price_of(&q) - 242.7).abs() < f64::EPSILON);
}

#[test]
fn text_roundtrip() {
    let original = sample();
    let restored = read_text(&original.serialize(&price_text(&original))).unwrap();
    assert_eq!(original.ticker, restored.ticker);
    assert!((price_of(&original) - price_of(&restored)).abs() < f64::EPSILON);
    assert_eq!(original.volume, restored.volume);
    assert_eq!(original.timestamp, restored.timestamp);
}

#[test]
fn text_deserialize_empty() {
    assert!(StockQuote::deserialize("").is_none());
}

#[test]
fn text_deserialize_too_few_fields() {
    assert!(StockQuote::deserialize("AAPL|100").is_none());
}

#[test]
fn text_deserialize_too_many_fields() {
    assert!(StockQuote::deserialize("AAPL|100|200|300|extra").is_none());
}

#[test]
fn text_deserialize_bad_price() {
    assert!(StockQuote::deserialize("AAPL|abc|200|300").is_none());
}

// ---- further cases of the wire and text formats ----

#[test]
fn binary_layout_is_exact() {
    let q = StockQuote {
        ticker: "AB".into(),
        price_bits: 0x0102030405060708,
        volume: 0x0A0B0C0D,
        timestamp: 0x1112131415161718,
    };
    let buf = q.to_bytes();
    assert_eq!(
        buf,
        [
            b'A', b'B', 0, 0, 0, 0, 0, 0, 1, 2, 3, 4, 5, 6, 7, 8, 0x0A, 0x0B, 0x0C, 0x0D, 0x11,
            0x12, 0x13, 0x14, 0x15, 0x16, 0x17, 0x18
        ]
    );
}

#[test]
fn binary_ticker_cut_inside_a_character_is_refused() {
    // seven ASCII bytes and a two-byte character: the cut leaves half of it
    let q = StockQuote { ticker: "ABCDEFGé".into(), ..sample() };
    assert!(StockQuote::from_bytes(&q.to_bytes()).is_none());
}

#[test]
fn binary_multibyte_ticker_roundtrip() {
    let q = StockQuote { ticker: "ÄÖÜ".into(), ..sample() };
    let restored = StockQuote::from_bytes(&q.to_bytes()).unwrap();
    assert_eq!(restored.ticker, "ÄÖÜ");
}

#[test]
fn binary_ticker_stops_at_first_zero() {
    let mut buf = sample().to_bytes();
    buf[2] = 0;
    buf[3] = b'X';
    let q = StockQuote::from_bytes(&buf).unwrap();
    assert_eq!(q.ticker, "AA");
}

#[test]
fn text_deserialize_keeps_price_text() {
    assert!(StockQuote::deserialize("X|not a number|1|2").is_none());
    let t = StockQuote::deserialize("X|-1.5e3|1|2").unwrap();
    assert_eq!(t.ticker, "X");
    assert_eq!(t.price, "-1.5e3");
    assert_eq!(t.volume, 1);
    assert_eq!(t.timestamp, 2);
}

#[test]
fn text_price_follows_the_float_grammar() {
    for p in ["0", "1.", ".5", "+2.50", "-7", "1e+5", "3E-2", "inf", "-Infinity", "NaN", "+nan"] {
        let line = format!("T|{}|1|2", p);
        assert!(StockQuote::deserialize(&line).is_some(), "{}", p);
        assert!(p.parse::<f64>().is_ok(), "{}", p);
    }
    for p in ["", ".", "e5", "1e", "1e+", "1_0", "+-1", "1.2.3", "infin", " 1", "0x10"] {
        let line = format!("T|{}|1|2", p);
        assert!(StockQuote::deserialize(&line).is_none(), "{}", p);
        assert!(p.parse::<f64>().is_err(), "{}", p);
    }
}

#[test]
fn text_deserialize_bad_volume() {
    assert!(StockQuote::deserialize("AAPL|1.0|-5|300").is_none());
    assert!(StockQuote::deserialize("AAPL|1.0|4294967296|300").is_none());
    assert!(StockQuote::deserialize("AAPL|1.0||300").is_none());
}

#[test]
fn text_deserialize_bad_timestamp() {
    assert!(StockQuote::deserialize("AAPL|1.0|5|18446744073709551616").is_none());
    assert!(StockQuote::deserialize("AAPL|1.0|5|+").is_none());
}

#[test]
fn text_deserialize_accepts_plus_sign_and_limits() {
    let t = StockQuote::deserialize("AAPL|1.0|+4294967295|18446744073709551615").unwrap();
    assert_eq!(t.volume, u32::MAX);
    assert_eq!(t.timestamp, u64::MAX);
}

#[test]
fn text_serialize_zero_values() {
    let q = StockQuote { ticker: "".into(), price_bits: 0, volume: 0, timestamp: 0 };
    assert_eq!(q.serialize("0"), "|0|0|0");
}

#[test]
fn binary_canonical_buffer_is_reencoded() {
    let mut buf = [0u8; PACKET_SIZE];
    buf[..3].copy_from_slice("€".as_bytes());
    buf[8..16].copy_from_slice(&1.5f64.to_bits().to_be_bytes());
    buf[16..20].copy_from_slice(&7u32.to_be_bytes());
    buf[20..28].copy_from_slice(&99u64.to_be_bytes());
    let q = StockQuote::from_bytes(&buf).unwrap();
    assert_eq!(q.ticker, "€");
    assert_eq!(q.volume, 7);
    assert_eq!(q.to_bytes(), buf);
}
