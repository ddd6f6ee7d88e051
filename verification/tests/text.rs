use quotes::command::parse_command;
use quotes::text::trim_str;

#[test]
fn trim_removes_unicode_whitespace_only() {
    assert_eq!(trim_str("\u{3000}\t X Y \u{85}\r\n"), "X Y");
    assert_eq!(trim_str("\u{200b}X"), "\u{200b}X");
    assert_eq!(trim_str("   "), "");
}

#[test]
fn numbers_are_written_in_decimal() {
    let q = quotes::stock_quote::StockQuote {
        ticker: "T".into(),
        price_bits: 0,
        volume: 4_294_967_295,
        timestamp: 10,
    };
    assert_eq!(q.serialize("p"), "T|p|4294967295|10");
}

#[test]
fn ports_with_leading_zeros_are_read() {
    assert_eq!(parse_command("STREAM udp://h:00080 A").unwrap().port, 80);
}
