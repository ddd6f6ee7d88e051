//! Loading the list of tickers to stream: one symbol per line,
//! case-insensitive, invalid lines skipped, duplicates dropped.
use vstd::prelude::*;
use vstd::hash_set::StringHashSet;
use crate::text::{push_str, char_seqs, chars_of, lines, lines_chars, string_of, trim, trim_chars};

verus! {

/// `std::io::Error`, what reading a tickers file may fail with.
#[verifier::external_type_specification]
#[verifier::external_body]
pub struct ExIoError(std::io::Error);

/// Why no tickers could be loaded.
#[derive(Debug)]
pub enum TickerLoadError {
    /// The tickers file could not be read.
    Io(std::io::Error),
    /// The tickers file (named by its path) holds no valid ticker.
    EmptyOrInvalidFile(String),
}

impl TickerLoadError {
    /// The message that reports the error, as its `Display` form would: for a
    /// read error, `io_text` is the read error's own message.
    pub fn message(&self, io_text: &str) -> (r: String)
        ensures
            match self {
                TickerLoadError::Io(_) => r@ == "failed to read tickers file: "@ + io_text@,
                TickerLoadError::EmptyOrInvalidFile(p) => r@ == "tickers file '"@ + p@
                    + "' is empty or contains no valid tickers"@,
            },
    {
        let mut s = String::new();
        match self {
            TickerLoadError::Io(_) => {
                push_str(&mut s, "failed to read tickers file: ");
                push_str(&mut s, io_text);
            },
            TickerLoadError::EmptyOrInvalidFile(p) => {
                push_str(&mut s, "tickers file '");
                push_str(&mut s, p.as_str());
                push_str(&mut s, "' is empty or contains no valid tickers");
            },
        }
        s
    }
}

/// Where the tickers come from: the built-in list, or a file, given by its
/// path and by what reading it gave.
#[derive(Debug)]
pub enum TickerSource {
    Default,
    File { path: String, content: Result<String, std::io::Error> },
}

/// `str::to_uppercase` of a string: the name of its result.
pub uninterp spec fn uppercase(s: Seq<char>) -> Seq<char>;

/// `c` with an ASCII lower-case letter turned into its upper-case letter.
pub open spec fn ascii_upper_char(c: char) -> char {
    if 'a' <= c <= 'z' {
        ((c as u32) - 32) as char
    } else {
        c
    }
}

/// `s` with each ASCII lower-case letter turned into its upper-case letter.
pub open spec fn ascii_uppercase(s: Seq<char>) -> Seq<char> {
    s.map_values(|c: char| ascii_upper_char(c))
}

/// `str::to_uppercase`: the string whose view is `uppercase` of the
/// argument's; on an ASCII string it upper-cases exactly the ASCII letters
/// (as `str::to_ascii_uppercase` does).
#[verifier::external_body]
fn to_uppercase(s: &str) -> (r: String)
    ensures
        r@ == uppercase(s@),
        vstd::utf8::is_ascii_chars(s@) ==> r@ == ascii_uppercase(s@),
{
    s.to_uppercase()
}

/// The upper case of `s`, as `str::to_uppercase` gives it: on an ASCII
/// string, each ASCII lower-case letter turned into its upper-case letter; on
/// any other string, `uppercase` of it.
pub open spec fn upper(s: Seq<char>) -> Seq<char> {
    if vstd::utf8::is_ascii_chars(s) {
        ascii_uppercase(s)
    } else {
        uppercase(s)
    }
}

/// A line of a tickers file, trimmed and in upper case.
pub open spec fn normalized(line: Seq<char>) -> Seq<char> {
    upper(trim(line))
}

/// Whether `c` may stand in a ticker: an ASCII upper-case letter or digit, `.` or `-`.
pub open spec fn is_ticker_char(c: char) -> bool {
    ('A' <= c <= 'Z') || ('0' <= c <= '9') || c == '.' || c == '-'
}

/// Whether `t` is a valid ticker: not empty, and made of ticker characters only.
pub open spec fn valid_ticker(t: Seq<char>) -> bool {
    t.len() > 0 && forall|i: int| 0 <= i < t.len() ==> is_ticker_char(#[trigger] t[i])
}

/// The characters of tickers are exactly the ASCII upper-case letters, the
/// ASCII digits, `.` and `-`; a valid ticker is a non-empty string of them.
pub proof fn lemma_ticker_chars(c: char, t: Seq<char>)
    ensures
        is_ticker_char(c) <==> (('A' <= c && c <= 'Z') || ('0' <= c && c <= '9') || c == '.' || c
            == '-'),
        valid_ticker(t) <==> (t.len() > 0 && forall|i: int|
            0 <= i < t.len() ==> ('A' <= #[trigger] t[i] && t[i] <= 'Z') || ('0' <= t[i] && t[i]
                <= '9') || t[i] == '.' || t[i] == '-'),
{
}

/// The valid candidates of `cs`, each kept at its first occurrence only.
pub open spec fn distinct_valid(cs: Seq<Seq<char>>) -> Seq<Seq<char>>
    decreases cs.len(),
{
    if cs.len() == 0 {
        seq![]
    } else {
        let prev = distinct_valid(cs.drop_last());
        let t = cs.last();
        if valid_ticker(t) && !prev.contains(t) {
            prev.push(t)
        } else {
            prev
        }
    }
}

/// Each of the lines `ls`, normalized.
pub open spec fn normalized_lines(ls: Seq<Seq<char>>) -> Seq<Seq<char>> {
    ls.map_values(|l: Seq<char>| normalized(l))
}

/// The tickers of the lines `ls`: each line normalized, invalid ones skipped,
/// and each ticker kept at its first occurrence only.
pub open spec fn tickers_of(ls: Seq<Seq<char>>) -> Seq<Seq<char>> {
    distinct_valid(normalized_lines(ls))
}

/// What selecting the distinct valid candidates promises: no ticker twice;
/// every ticker valid; a ticker is selected exactly when it is valid and some
/// candidate is it; and each selected ticker first occurs among the
/// candidates before every occurrence of the tickers selected after it.
pub proof fn lemma_distinct_valid(cs: Seq<Seq<char>>)
    ensures
        distinct_valid(cs).no_duplicates(),
        forall|k: int|
            0 <= k < distinct_valid(cs).len() ==> valid_ticker(#[trigger] distinct_valid(cs)[k]),
        forall|t: Seq<char>|
            distinct_valid(cs).contains(t) <==> (valid_ticker(t) && exists|i: int|
                0 <= i < cs.len() && #[trigger] cs[i] == t),
        forall|a: int, b: int|
            0 <= a < b < distinct_valid(cs).len() ==> exists|i: int|
                0 <= i < cs.len() && cs[i] == #[trigger] distinct_valid(cs)[a] && forall|k: int|
                    0 <= k <= i ==> cs[k] != #[trigger] distinct_valid(cs)[b],
    decreases cs.len(),
{
    if cs.len() > 0 {
        let pl = cs.drop_last();
        lemma_distinct_valid(pl);
        let prev = distinct_valid(pl);
        let cur = distinct_valid(cs);
        let t = cs.last();
        assert forall|i: int| 0 <= i < pl.len() implies pl[i] == cs[i] by {}
        assert(cs[cs.len() - 1] == cs.last());
        assert forall|u: Seq<char>|
            cur.contains(u) <==> (valid_ticker(u) && exists|i: int|
                0 <= i < cs.len() && #[trigger] cs[i] == u) by {
            if cur.contains(u) {
                if prev.contains(u) {
                    let i = choose|i: int| 0 <= i < pl.len() && #[trigger] pl[i] == u;
                    assert(cs[i] == u);
                } else {
                    assert(u == t);
                    assert(cs[cs.len() - 1] == u);
                }
            }
            if valid_ticker(u) && exists|i: int| 0 <= i < cs.len() && #[trigger] cs[i] == u {
                let i = choose|i: int| 0 <= i < cs.len() && #[trigger] cs[i] == u;
                if i < pl.len() {
                    assert(pl[i] == u);
                    assert(prev.contains(u));
                    let j = choose|j: int| 0 <= j < prev.len() && prev[j] == u;
                    assert(cur[j] == u);
                } else {
                    if prev.contains(u) {
                        let j = choose|j: int| 0 <= j < prev.len() && prev[j] == u;
                        assert(cur[j] == u);
                    } else {
                        assert(cur[cur.len() - 1] == u);
                    }
                }
            }
        }
        if valid_ticker(t) && !prev.contains(t) {
            assert forall|a: int, b: int| 0 <= a < b < cur.len() implies exists|i: int|
                0 <= i < cs.len() && cs[i] == #[trigger] cur[a] && forall|k: int|
                    0 <= k <= i ==> cs[k] != #[trigger] cur[b] by {
                if b < prev.len() {
                    let i = choose|i: int|
                        0 <= i < pl.len() && pl[i] == #[trigger] prev[a] && forall|k: int|
                            0 <= k <= i ==> pl[k] != #[trigger] prev[b];
                    assert forall|k: int| 0 <= k <= i implies cs[k] != cur[b] by {
                        assert(pl[k] != prev[b]);
                    }
                } else {
                    assert(cur[b] == t);
                    assert(prev.contains(cur[a]));
                    let i = choose|i: int| 0 <= i < pl.len() && #[trigger] pl[i] == cur[a];
                    assert forall|k: int| 0 <= k <= i implies cs[k] != cur[b] by {
                        if cs[k] == cur[b] {
                            assert(pl[k] == t);
                            assert(prev.contains(t));
                        }
                    }
                    assert(cs[i] == cur[a]);
                }
            }
            assert forall|x: int, y: int| 0 <= x < cur.len() && 0 <= y < cur.len() && x != y
                implies cur[x] != cur[y] by {
                if x < prev.len() && y < prev.len() {
                } else if x < prev.len() {
                    assert(prev.contains(cur[x]));
                } else {
                    assert(prev.contains(cur[y]));
                }
            }
        } else {
            assert(cur == prev);
            assert forall|a: int, b: int| 0 <= a < b < cur.len() implies exists|i: int|
                0 <= i < cs.len() && cs[i] == #[trigger] cur[a] && forall|k: int|
                    0 <= k <= i ==> cs[k] != #[trigger] cur[b] by {
                let i = choose|i: int|
                    0 <= i < pl.len() && pl[i] == #[trigger] prev[a] && forall|k: int|
                        0 <= k <= i ==> pl[k] != #[trigger] prev[b];
                assert forall|k: int| 0 <= k <= i implies cs[k] != cur[b] by {
                    assert(pl[k] != prev[b]);
                }
            }
        }
    }
}

/// What the loaded ticker list promises, for the lines `ls` of a tickers
/// file: no ticker twice; every ticker valid; a ticker is listed exactly when
/// it is valid and some line normalizes to it; and each ticker's first line
/// comes before every line of the tickers listed after it.
pub proof fn lemma_tickers_of(ls: Seq<Seq<char>>)
    ensures
        tickers_of(ls).no_duplicates(),
        forall|k: int| 0 <= k < tickers_of(ls).len() ==> valid_ticker(#[trigger] tickers_of(ls)[k]),
        forall|t: Seq<char>|
            tickers_of(ls).contains(t) <==> (valid_ticker(t) && exists|i: int|
                0 <= i < ls.len() && #[trigger] normalized(ls[i]) == t),
        forall|a: int, b: int|
            0 <= a < b < tickers_of(ls).len() ==> exists|i: int|
                0 <= i < ls.len() && normalized(ls[i]) == #[trigger] tickers_of(ls)[a] && forall|
                    k: int,
                | 0 <= k <= i ==> normalized(ls[k]) != #[trigger] tickers_of(ls)[b],
{
    let cs = normalized_lines(ls);
    lemma_distinct_valid(cs);
    assert forall|i: int| 0 <= i < ls.len() implies #[trigger] normalized(ls[i]) == cs[i] by {}
    let r = tickers_of(ls);
    assert forall|t: Seq<char>|
        r.contains(t) <==> (valid_ticker(t) && exists|i: int|
            0 <= i < ls.len() && #[trigger] normalized(ls[i]) == t) by {
        if valid_ticker(t) && exists|i: int| 0 <= i < ls.len() && #[trigger] normalized(ls[i]) == t {
            let i = choose|i: int| 0 <= i < ls.len() && #[trigger] normalized(ls[i]) == t;
            assert(cs[i] == t);
        }
        if r.contains(t) {
            let i = choose|i: int| 0 <= i < cs.len() && #[trigger] cs[i] == t;
            assert(normalized(ls[i]) == t);
        }
    }
    assert forall|a: int, b: int| 0 <= a < b < r.len() implies exists|i: int|
        0 <= i < ls.len() && normalized(ls[i]) == #[trigger] r[a] && forall|k: int|
            0 <= k <= i ==> normalized(ls[k]) != #[trigger] r[b] by {
        let i = choose|i: int|
            0 <= i < cs.len() && cs[i] == #[trigger] r[a] && forall|k: int|
                0 <= k <= i ==> cs[k] != #[trigger] r[b];
        assert forall|k: int| 0 <= k <= i implies normalized(ls[k]) != r[b] by {
            assert(cs[k] != r[b]);
        }
        assert(normalized(ls[i]) == r[a]);
    }
}

/// A line of a tickers file, trimmed and in upper case. For an ASCII line
/// the result has no leading or trailing whitespace and no lower-case letter,
/// and normalizing it again leaves it unchanged.
pub fn normalize_ticker(line: &str) -> (r: String)
    ensures
        r@ == normalized(line@),
        vstd::utf8::is_ascii_chars(line@) ==> {
            &&& trim(r@) == r@
            &&& forall|k: int| 0 <= k < r@.len() ==> !('a' <= #[trigger] r@[k] <= 'z')
            &&& normalized(r@) == r@
        },
{
    let v = chars_of(line);
    let t = string_of(trim_chars(v.as_slice()).as_slice());
    proof {
        if vstd::utf8::is_ascii_chars(line@) {
            crate::ticker_laws::lemma_normalized_ascii(line@);
        }
    }
    to_uppercase(t.as_str())
}

/// Whether `ticker` is a valid ticker: not empty, and made of ASCII
/// upper-case letters, digits, `.` and `-` only.
pub fn is_valid_ticker(ticker: &str) -> (r: bool)
    ensures
        r == valid_ticker(ticker@),
        r == (ticker@.len() > 0 && forall|i: int|
            0 <= i < ticker@.len() ==> ('A' <= #[trigger] ticker@[i] && ticker@[i] <= 'Z') || (
            '0' <= ticker@[i] && ticker@[i] <= '9') || ticker@[i] == '.' || ticker@[i] == '-'),
{
    proof {
        lemma_ticker_chars(' ', ticker@);
    }
    let v = chars_of(ticker);
    if v.len() == 0 {
        return false;
    }
    let mut i: usize = 0;
    while i < v.len()
        invariant
            v@ == ticker@,
            i <= v@.len(),
            forall|k: int| 0 <= k < i ==> is_ticker_char(#[trigger] v@[k]),
        decreases v@.len() - i,
    {
        let c = v[i];
        if !(('A' <= c && c <= 'Z') || ('0' <= c && c <= '9') || c == '.' || c == '-') {
            assert(!is_ticker_char(v@[i as int]));
            return false;
        }
        i = i + 1;
    }
    true
}

/// The valid tickers among `candidates`, each at its first occurrence only.
pub fn select_tickers(candidates: &[String]) -> (r: Vec<String>)
    ensures
        r.deep_view() == distinct_valid(candidates.deep_view()),
{
    let ghost cs = candidates.deep_view();
    let mut seen = StringHashSet::new();
    let mut result: Vec<String> = Vec::new();
    let mut i: usize = 0;
    while i < candidates.len()
        invariant
            cs == candidates.deep_view(),
            i <= cs.len(),
            result.deep_view() == distinct_valid(cs.take(i as int)),
            forall|t: Seq<char>| #[trigger] seen@.contains(t) <==> result.deep_view().contains(t),
        decreases cs.len() - i,
    {
        assert(cs.take(i + 1).drop_last() =~= cs.take(i as int));
        assert(cs[i as int] == candidates@[i as int]@);
        let ticker = &candidates[i];
        if is_valid_ticker(ticker.as_str()) {
            let ghost before = result.deep_view();
            if seen.insert(ticker.clone()) {
                result.push(ticker.clone());
                assert(result.deep_view() =~= before.push(ticker@));
                assert forall|t: Seq<char>| #[trigger] seen@.contains(t) <==> result.deep_view().contains(t) by {
                    if t == ticker@ {
                        assert(result.deep_view()[before.len() as int] == t);
                    } else if before.contains(t) {
                        let k = choose|k: int| 0 <= k < before.len() && before[k] == t;
                        assert(result.deep_view()[k] == t);
                    } else if result.deep_view().contains(t) {
                        let k = choose|k: int| 0 <= k < result.deep_view().len() && result.deep_view()[k] == t;
                        if k < before.len() {
                            assert(before[k] == t);
                        }
                    }
                }
            }
        }
        assert(result.deep_view() =~= distinct_valid(cs.take(i + 1)));
        i = i + 1;
    }
    assert(cs.take(cs.len() as int) =~= cs);
    result
}

/// The tickers of a tickers file's text, in order of first occurrence: each
/// line trimmed and upper-cased, invalid lines skipped, duplicates dropped.
pub fn parse_tickers(input: &str) -> (r: Vec<String>)
    ensures
        r.deep_view() == tickers_of(lines(input@)),
{
    let v = chars_of(input);
    let ls = lines_chars(v.as_slice());
    let ghost all = char_seqs(ls@);
    let mut candidates: Vec<String> = Vec::new();
    let mut i: usize = 0;
    while i < ls.len()
        invariant
            all == char_seqs(ls@),
            all == lines(input@),
            i <= ls@.len(),
            candidates.deep_view() == normalized_lines(all.take(i as int)),
        decreases ls@.len() - i,
    {
        assert(ls@[i as int]@ == all[i as int]);
        let line = string_of(ls[i].as_slice());
        let ticker = normalize_ticker(line.as_str());
        let ghost before = candidates.deep_view();
        candidates.push(ticker);
        proof {
            let want = normalized_lines(all.take(i + 1));
            let got = candidates.deep_view();
            assert(before.len() == i);
            assert(want.len() == i + 1);
            assert forall|k: int| 0 <= k < i + 1 implies got[k] == want[k] by {
                if k < i {
                    assert(before[k] == normalized_lines(all.take(i as int))[k]);
                }
            }
            assert(got =~= want);
        }
        i = i + 1;
    }
    assert(all.take(ls@.len() as int) =~= all);
    select_tickers(candidates.as_slice())
}

/// The built-in tickers file, used when no file is given.
pub const DEFAULT_TICKERS: &'static str = "AAPL\nMSFT\nGOOGL\nAMZN\nNVDA\nMETA\nTSLA\nBRK.B\nJPM\nV\nJNJ\nWMT\nPG\nMA\nUNH\nHD\nDIS\nBAC\nXOM\nKO\nPEP\nCSCO\nORCL\nINTC\nAMD\nNFLX\nADBE\nCRM\nT\nVZ\n";

/// The tickers of a tickers file, given by its path and by what reading it
/// gave: the read error, or the file's tickers, or `EmptyOrInvalidFile` with
/// the path when the file holds no valid ticker.
pub fn load_tickers_from_file(path: String, content: Result<String, std::io::Error>) -> (r: Result<
    Vec<String>,
    TickerLoadError,
>)
    ensures
        match content {
            Err(e) => r matches Err(TickerLoadError::Io(e2)) && e2 == e,
            Ok(text) => if tickers_of(lines(text@)).len() == 0 {
                r matches Err(TickerLoadError::EmptyOrInvalidFile(p)) && p@ == path@
            } else {
                r matches Ok(ts) && ts.deep_view() == tickers_of(lines(text@))
            },
        },
{
    match content {
        Err(e) => Err(TickerLoadError::Io(e)),
        Ok(text) => {
            let tickers = parse_tickers(text.as_str());
            if tickers.len() == 0 {
                Err(TickerLoadError::EmptyOrInvalidFile(path))
            } else {
                Ok(tickers)
            }
        },
    }
}

/// The tickers to stream: those of the built-in list, or those of the given
/// file (see `load_tickers_from_file`).
pub fn load_tickers(source: TickerSource) -> (r: Result<Vec<String>, TickerLoadError>)
    ensures
        match source {
            TickerSource::Default => r matches Ok(ts) && ts.deep_view() == tickers_of(
                lines(DEFAULT_TICKERS@),
            ),
            TickerSource::File { path, content } => match content {
                Err(e) => r matches Err(TickerLoadError::Io(e2)) && e2 == e,
                Ok(text) => if tickers_of(lines(text@)).len() == 0 {
                    r matches Err(TickerLoadError::EmptyOrInvalidFile(p)) && p@ == path@
                } else {
                    r matches Ok(ts) && ts.deep_view() == tickers_of(lines(text@))
                },
            },
        },
{
    match source {
        TickerSource::Default => Ok(parse_tickers(DEFAULT_TICKERS)),
        TickerSource::File { path, content } => load_tickers_from_file(path, content),
    }
}

} // verus!
