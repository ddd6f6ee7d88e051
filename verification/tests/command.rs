use quotes::command::{client_tickers, local_udp_addr, parse_command, stream_command, CommandError};
use quotes::text::trim_str;

#[test]
fn parse_valid_command() {
    let client = parse_command("STREAM udp://127.0.0.1:34254 AAPL,TSLA").unwrap();
    assert_eq!(client.ip, "127.0.0.1");
    assert_eq!(client.port, 34254);
    assert_eq!(client.stocks, vec!["AAPL", "TSLA"]);
}

#[test]
fn parse_single_ticker() {
    let client = parse_command("STREAM udp://10.0.0.1:5000 MSFT").unwrap();
    assert_eq!(client.stocks, vec!["MSFT"]);
}

#[test]
fn parse_rejects_missing_prefix() {
    assert!(parse_command("STREAM tcp://127.0.0.1:3000 AAPL").is_err());
}

#[test]
fn parse_rejects_bad_command() {
    assert!(parse_command("SUBSCRIBE udp://127.0.0.1:3000 AAPL").is_err());
}

#[test]
fn parse_rejects_bad_port() {
    assert!(parse_command("STREAM udp://127.0.0.1:99999 AAPL").is_err());
}

#[test]
fn parse_rejects_empty() {
    assert!(parse_command("").is_err());
}

// ---- further cases ----

#[test]
fn parse_reports_each_error() {
    assert_eq!(parse_command("STREAM udp://x").unwrap_err(), CommandError::BadCommand);
    assert_eq!(parse_command("stream udp://1:2 A").unwrap_err(), CommandError::BadCommand);
    assert_eq!(parse_command("STREAM tcp://1:2 A").unwrap_err(), CommandError::MissingUdpPrefix);
    assert_eq!(parse_command("STREAM udp://host A").unwrap_err(), CommandError::MissingPort);
    assert_eq!(parse_command("STREAM udp://host:65536 A").unwrap_err(), CommandError::InvalidPort);
    assert_eq!(parse_command("STREAM udp://host: A").unwrap_err(), CommandError::InvalidPort);
}

#[test]
fn parse_keeps_last_colon_and_trims_tickers() {
    let client = parse_command("STREAM udp://::1:65535  A , ,B C,").unwrap();
    assert_eq!(client.ip, "::1");
    assert_eq!(client.port, 65535);
    assert_eq!(client.stocks, vec!["A", "B C"]);
}

#[test]
fn parse_accepts_empty_ticker_list() {
    let client = parse_command("STREAM udp://1.2.3.4:+0 ").unwrap();
    assert_eq!(client.port, 0);
    assert!(client.stocks.is_empty());
}

#[test]
fn client_command_is_accepted_by_server() {
    let addr = local_udp_addr(34254);
    assert_eq!(addr, "127.0.0.1:34254");
    let stocks = vec!["AAPL".to_string(), "BRK.B".to_string()];
    let cmd = stream_command(&addr, &stocks);
    assert_eq!(cmd, "STREAM udp://127.0.0.1:34254 AAPL,BRK.B\n");
    let client = parse_command(&trim_str(&cmd)).unwrap();
    assert_eq!(client.ip, "127.0.0.1");
    assert_eq!(client.port, 34254);
    assert_eq!(client.stocks, stocks);
}

#[test]
fn client_tickers_skip_blank_and_comment_lines() {
    let tickers = client_tickers("AAPL\n  # comment\n\n msft \r\n#X\nGOOG");
    assert_eq!(tickers, vec!["AAPL", "MSFT", "GOOG"]);
}

#[test]
fn client_tickers_are_case_insensitive_and_deduplicated() {
    assert_eq!(client_tickers("aapl\nMSFT\nAAPL\n"), vec!["AAPL", "MSFT"]);
}

#[test]
fn client_command_is_accepted_for_any_ip() {
    let stocks = vec!["AAPL".to_string(), "MSFT".to_string()];
    let cmd = stream_command("10.0.0.7:9000", &stocks);
    let client = parse_command(&trim_str(&cmd)).unwrap();
    assert_eq!(client.ip, "10.0.0.7");
    assert_eq!(client.port, 9000);
    assert_eq!(client.stocks, stocks);
}

#[test]
fn udp_dest_joins_ip_and_port() {
    assert_eq!(quotes::command::udp_dest("10.1.2.3", 8080), "10.1.2.3:8080");
    assert_eq!(quotes::command::udp_dest("127.0.0.1", 0), "127.0.0.1:0");
}

#[test]
fn client_tickers_keep_lines_that_are_not_valid_tickers() {
    assert_eq!(client_tickers("brk/b\nBRK/B\n  x y \n"), vec!["BRK/B", "X Y"]);
}

#[test]
fn command_errors_have_messages() {
    assert_eq!(CommandError::BadCommand.message(), "expected: STREAM udp://ip:port TICKER,...");
    assert_eq!(CommandError::MissingUdpPrefix.message(), "expected udp:// prefix");
    assert_eq!(CommandError::MissingPort.message(), "missing :port");
    assert_eq!(CommandError::InvalidPort.message(), "invalid port");
}
