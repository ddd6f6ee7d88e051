use quotes::ticker_loader::{
    is_valid_ticker, load_tickers, normalize_ticker, parse_tickers, select_tickers, TickerLoadError,
    TickerSource,
    DEFAULT_TICKERS,
};

#[test]
fn parse_tickers_removes_duplicates_and_preserves_order() {
    let input = "\
AAPL
MSFT
AAPL
GOOGL
MSFT
NVDA
";

    let tickers = parse_tickers(input);

    assert_eq!(tickers, vec!["AAPL", "MSFT", "GOOGL", "NVDA"]);
}

#[test]
fn parse_tickers_trims_and_uppercases() {
    let input = "\
 aapl
 msft
Googl
";

    let tickers = parse_tickers(input);

    assert_eq!(tickers, vec!["AAPL", "MSFT", "GOOGL"]);
}

#[test]
fn parse_tickers_skips_empty_lines() {
    let input = "\
AAPL

MSFT


NVDA
";

    let tickers = parse_tickers(input);

    assert_eq!(tickers, vec!["AAPL", "MSFT", "NVDA"]);
}

#[test]
fn parse_tickers_skips_invalid_lines() {
    let input = "\
AAPL
MS FT
$$$
NVDA
BRK.B
RDS-A
";

    let tickers = parse_tickers(input);

    assert_eq!(tickers, vec!["AAPL", "NVDA", "BRK.B", "RDS-A"]);
}

fn file(path: &str, content: &str) -> TickerSource {
    TickerSource::File { path: path.to_string(), content: Ok(content.to_string()) }
}

#[test]
fn load_tickers_uses_file_when_path_is_valid() {
    let tickers = load_tickers(file("tickers_valid.txt", "AAPL\nMSFT\nAAPL\n")).unwrap();

    assert_eq!(tickers, vec!["AAPL", "MSFT"]);
}

#[test]
fn load_tickers_returns_error_when_file_does_not_exist() {
    let result = load_tickers(TickerSource::File {
        path: "this/file/should/not/exist.txt".to_string(),
        content: Err(std::io::Error::from(std::io::ErrorKind::NotFound)),
    });

    assert!(matches!(result, Err(TickerLoadError::Io(_))));
}

#[test]
fn load_tickers_returns_error_when_file_is_empty() {
    let result = load_tickers(file("tickers_empty.txt", ""));

    assert!(matches!(result, Err(TickerLoadError::EmptyOrInvalidFile(_))));
}

#[test]
fn load_tickers_returns_error_when_file_has_only_invalid_lines() {
    let result = load_tickers(file("tickers_invalid.txt", "@@@\n   \n###\n"));

    assert!(matches!(result, Err(TickerLoadError::EmptyOrInvalidFile(_))));
}

#[test]
fn load_tickers_uses_defaults_when_path_is_none() {
    let tickers = load_tickers(TickerSource::Default).unwrap();
    let defaults = parse_tickers(DEFAULT_TICKERS);

    assert_eq!(tickers, defaults);
}

// ---- further cases ----

#[test]
fn empty_file_error_names_the_path() {
    match load_tickers(file("some/path.txt", "\n")) {
        Err(TickerLoadError::EmptyOrInvalidFile(p)) => assert_eq!(p, "some/path.txt"),
        other => panic!("unexpected {:?}", other),
    }
}

#[test]
fn default_tickers_are_valid_and_distinct() {
    let tickers = load_tickers(TickerSource::Default).unwrap();
    assert!(!tickers.is_empty());
    for (i, t) in tickers.iter().enumerate() {
        assert!(is_valid_ticker(t));
        assert!(!tickers[..i].contains(t));
    }
}

#[test]
fn normalize_and_validate() {
    assert_eq!(normalize_ticker("  brk.b \t"), "BRK.B");
    assert!(is_valid_ticker("RDS-A"));
    assert!(is_valid_ticker("X1"));
    assert!(!is_valid_ticker(""));
    assert!(!is_valid_ticker("ms ft"));
    assert!(!is_valid_ticker("aapl"));
}

#[test]
fn parse_tickers_handles_crlf_and_missing_final_newline() {
    assert_eq!(parse_tickers("aapl\r\nmsft\r\nAAPL"), vec!["AAPL", "MSFT"]);
    assert!(parse_tickers("").is_empty());
}

#[test]
fn select_tickers_keeps_first_valid_occurrences() {
    let cands: Vec<String> =
        vec!["B", "", "A", "B", "a", "A", "C-1"].into_iter().map(String::from).collect();
    assert_eq!(select_tickers(&cands), vec!["B", "A", "C-1"]);
}

#[test]
fn parse_tickers_reread_gives_the_same_list() {
    let input = " aapl\n# note\nmsft\r\nAAPL\nbad ticker\nbrk.b";
    let first = parse_tickers(input);
    assert_eq!(first, vec!["AAPL", "MSFT", "BRK.B"]);
    assert_eq!(parse_tickers(&first.join("\n")), first);
}

#[test]
fn parse_tickers_is_case_insensitive() {
    let input = "AAPL\nMsft\n  goog \nBRK.B\n";
    assert_eq!(parse_tickers(&input.to_ascii_lowercase()), parse_tickers(input));
    assert_eq!(parse_tickers(input), vec!["AAPL", "MSFT", "GOOG", "BRK.B"]);
}

#[test]
fn parse_tickers_ignores_a_repeated_file() {
    let input = "tsla\nAAPL\n\nmsft";
    let twice = format!("{}\n{}", input, input);
    assert_eq!(parse_tickers(&twice), parse_tickers(input));
    assert_eq!(parse_tickers(&twice), vec!["TSLA", "AAPL", "MSFT"]);
}

#[test]
fn normalize_is_idempotent_on_ascii() {
    let once = normalize_ticker("  brk.b \t");
    assert_eq!(once, "BRK.B");
    assert_eq!(normalize_ticker(&once), once);
    assert_eq!(normalize_ticker("AAPL"), "AAPL");
}

#[test]
fn load_error_messages() {
    let e = TickerLoadError::EmptyOrInvalidFile("t.txt".into());
    assert_eq!(e.message(""), "tickers file 't.txt' is empty or contains no valid tickers");
    let io = TickerLoadError::Io(std::io::Error::new(std::io::ErrorKind::NotFound, "gone"));
    assert_eq!(io.message("gone"), "failed to read tickers file: gone");
}
