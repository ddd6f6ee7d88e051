//! The `STREAM` command that a client sends the server over TCP:
//! `STREAM udp://<ip>:<port> <TICKER>,<TICKER>,...`.
use vstd::prelude::*;
use crate::decimal::{decimal, lemma_decimal_digits, lemma_parse_decimal, parse_unsigned, parse_unsigned_chars, push_decimal, is_digit};
use crate::ticker_loader::{is_ticker_char, normalize_ticker, normalized, valid_ticker};
use vstd::hash_set::StringHashSet;
use crate::text::{
    char_seqs, chars_equal, chars_of, copy_range, find_first_char, find_last,
    find_last_char, is_ws, join, lemma_find_first, lemma_find_first_at, lemma_find_last_at,
    lemma_split_join, lemma_trim_end_take, lemma_trim_start_skip, lines, lines_chars, push_char,
    push_str, split_chars, split_on, splitn, starts_with, string_of, trim, trim_chars,
};

verus! {

/// A client's streaming request: where to send quotes and for which tickers.
#[derive(Debug, Clone)]
pub struct Client {
    pub ip: String,
    pub port: u16,
    pub stocks: Vec<String>,
}

/// The mathematical model of a request.
pub struct ClientView {
    pub ip: Seq<char>,
    pub port: u16,
    pub stocks: Seq<Seq<char>>,
}

impl View for Client {
    type V = ClientView;

    open spec fn view(&self) -> ClientView {
        ClientView { ip: self.ip@, port: self.port, stocks: self.stocks.deep_view() }
    }
}

/// Why a command line is refused.
#[derive(Debug, Clone, Copy, PartialEq, Eq, Structural)]
pub enum CommandError {
    /// Not three space-separated parts starting with `STREAM`.
    BadCommand,
    /// The address does not start with `udp://`.
    MissingUdpPrefix,
    /// The address has no `:port`.
    MissingPort,
    /// The port is not a number from 0 to 65535.
    InvalidPort,
}

impl CommandError {
    /// The message that reports the error to the user.
    pub fn message(self) -> (r: &'static str)
        ensures
            r@ == match self {
                CommandError::BadCommand => "expected: STREAM udp://ip:port TICKER,..."@,
                CommandError::MissingUdpPrefix => "expected udp:// prefix"@,
                CommandError::MissingPort => "missing :port"@,
                CommandError::InvalidPort => "invalid port"@,
            },
    {
        match self {
            CommandError::BadCommand => "expected: STREAM udp://ip:port TICKER,...",
            CommandError::MissingUdpPrefix => "expected udp:// prefix",
            CommandError::MissingPort => "missing :port",
            CommandError::InvalidPort => "invalid port",
        }
    }
}

/// The command word.
pub open spec fn stream_word() -> Seq<char> {
    seq!['S', 'T', 'R', 'E', 'A', 'M']
}

/// The scheme that the address must carry.
pub open spec fn udp_scheme() -> Seq<char> {
    seq!['u', 'd', 'p', ':', '/', '/']
}

/// The trimmed pieces of `ps` that are not empty, in order.
pub open spec fn trimmed_nonempty(ps: Seq<Seq<char>>) -> Seq<Seq<char>>
    decreases ps.len(),
{
    if ps.len() == 0 {
        seq![]
    } else {
        let prev = trimmed_nonempty(ps.drop_last());
        let t = trim(ps.last());
        if t.len() > 0 {
            prev.push(t)
        } else {
            prev
        }
    }
}

/// The tickers of a comma-separated list, trimmed, empty ones left out.
pub open spec fn stock_list(s: Seq<char>) -> Seq<Seq<char>> {
    trimmed_nonempty(split_on(s, ','))
}

/// What parsing a command line gives.
pub open spec fn parse_command_spec(line: Seq<char>) -> Result<ClientView, CommandError> {
    let parts = splitn(line, 3, ' ');
    if parts.len() != 3 || parts[0] != stream_word() {
        Err(CommandError::BadCommand)
    } else if !starts_with(parts[1], udp_scheme()) {
        Err(CommandError::MissingUdpPrefix)
    } else {
        let url = parts[1].skip(6);
        match find_last(url, ':') {
            None => Err(CommandError::MissingPort),
            Some(i) => match parse_unsigned(url.skip(i + 1), 65535) {
                None => Err(CommandError::InvalidPort),
                Some(port) => Ok(
                    ClientView { ip: url.take(i), port: port as u16, stocks: stock_list(parts[2]) },
                ),
            },
        }
    }
}

/// The tickers of a comma-separated list of characters, trimmed, empty ones left out.
fn parse_stock_list(v: &[char]) -> (r: Vec<String>)
    ensures
        r.deep_view() == stock_list(v@),
{
    let pieces = split_chars(v, ',');
    let ghost ps = char_seqs(pieces@);
    let mut r: Vec<String> = Vec::new();
    let mut i: usize = 0;
    while i < pieces.len()
        invariant
            ps == char_seqs(pieces@),
            ps == split_on(v@, ','),
            i <= pieces@.len(),
            r.deep_view() == trimmed_nonempty(ps.take(i as int)),
        decreases pieces@.len() - i,
    {
        assert(ps.take(i + 1).drop_last() =~= ps.take(i as int));
        assert(pieces@[i as int]@ == ps[i as int]);
        let t = trim_chars(pieces[i].as_slice());
        if t.len() > 0 {
            let s = string_of(t.as_slice());
            r.push(s);
            assert(r.deep_view() =~= trimmed_nonempty(ps.take(i + 1)));
        } else {
            assert(r.deep_view() =~= trimmed_nonempty(ps.take(i + 1)));
        }
        i = i + 1;
    }
    assert(ps.take(pieces@.len() as int) =~= ps);
    r
}

/// Parses a `STREAM udp://<ip>:<port> <TICKER>,...` command line: the ip is
/// what stands between `udp://` and the last `:`, and the tickers are the
/// comma-separated parts of the rest, trimmed, empty ones left out.
pub fn parse_command(line: &str) -> (r: Result<Client, CommandError>)
    ensures
        match r {
            Ok(c) => parse_command_spec(line@) == Ok::<ClientView, CommandError>(c@),
            Err(e) => parse_command_spec(line@) == Err::<ClientView, CommandError>(e),
        },
{
    let v = chars_of(line);
    let n = v.len();
    proof {
        lemma_find_first(v@, ' ');
    }
    let i = match find_first_char(v.as_slice(), ' ') {
        None => {
            return Err(CommandError::BadCommand);
        },
        Some(i) => i,
    };
    let rest = copy_range(v.as_slice(), i + 1, n);
    assert(rest@ =~= v@.skip(i + 1));
    proof {
        lemma_find_first(rest@, ' ');
        reveal_with_fuel(splitn, 3);
    }
    let j = match find_first_char(rest.as_slice(), ' ') {
        None => {
            assert(splitn(v@, 3, ' ') =~= seq![v@.take(i as int), rest@]);
            return Err(CommandError::BadCommand);
        },
        Some(j) => j,
    };
    let part0 = copy_range(v.as_slice(), 0, i);
    let part1 = copy_range(rest.as_slice(), 0, j);
    let part2 = copy_range(rest.as_slice(), j + 1, rest.len());
    let ghost parts = splitn(v@, 3, ' ');
    assert(parts =~= seq![part0@, part1@, part2@]);
    let word = chars_of("STREAM");
    proof {
        reveal_strlit("STREAM");
        assert(word@ =~= stream_word());
    }
    if !chars_equal(part0.as_slice(), word.as_slice()) {
        return Err(CommandError::BadCommand);
    }
    let scheme = chars_of("udp://");
    proof {
        reveal_strlit("udp://");
        assert(scheme@ =~= udp_scheme());
    }
    if part1.len() < 6 {
        return Err(CommandError::MissingUdpPrefix);
    }
    let head = copy_range(part1.as_slice(), 0, 6);
    if !chars_equal(head.as_slice(), scheme.as_slice()) {
        return Err(CommandError::MissingUdpPrefix);
    }
    let url = copy_range(part1.as_slice(), 6, part1.len());
    assert(url@ =~= part1@.skip(6));
    proof {
        crate::text::lemma_find_last(url@, ':');
    }
    let k = match find_last_char(url.as_slice(), ':') {
        None => {
            return Err(CommandError::MissingPort);
        },
        Some(k) => k,
    };
    let port_chars = copy_range(url.as_slice(), k + 1, url.len());
    assert(port_chars@ =~= url@.skip(k + 1));
    let port = match parse_unsigned_chars(port_chars.as_slice(), 65535) {
        None => {
            return Err(CommandError::InvalidPort);
        },
        Some(p) => p as u16,
    };
    let ip_chars = copy_range(url.as_slice(), 0, k);
    assert(ip_chars@ =~= url@.take(k as int));
    let ip = string_of(ip_chars.as_slice());
    let stocks = parse_stock_list(part2.as_slice());
    Ok(Client { ip, port, stocks })
}

/// The loopback address that a client receives quotes on.
pub open spec fn loopback() -> Seq<char> {
    seq!['1', '2', '7', '.', '0', '.', '0', '.', '1']
}

/// The UDP address `<ip>:<port>`.
pub open spec fn addr_spec(ip: Seq<char>, port: u16) -> Seq<char> {
    ip.push(':') + decimal(port as nat)
}

/// The local UDP address `127.0.0.1:<port>`.
pub open spec fn udp_addr_spec(port: u16) -> Seq<char> {
    addr_spec(loopback(), port)
}

/// The command line `STREAM udp://<addr> <T1>,<T2>,...` and a newline.
pub open spec fn stream_command_spec(udp_addr: Seq<char>, stocks: Seq<Seq<char>>) -> Seq<char> {
    stream_word().push(' ') + udp_scheme() + udp_addr.push(' ') + join(stocks, ',').push('\n')
}

/// The local UDP address `127.0.0.1:<port>` that a client listens on.
pub fn local_udp_addr(port: u16) -> (r: String)
    ensures
        r@ == udp_addr_spec(port),
{
    let mut s = String::new();
    push_str(&mut s, "127.0.0.1:");
    proof {
        reveal_strlit("127.0.0.1:");
    }
    push_decimal(&mut s, port as u64);
    assert(s@ =~= udp_addr_spec(port));
    s
}

/// The UDP address `<ip>:<port>` that the server streams a client's quotes to.
pub fn udp_dest(ip: &str, port: u16) -> (r: String)
    ensures
        r@ == addr_spec(ip@, port),
{
    let mut s = String::new();
    push_str(&mut s, ip);
    push_char(&mut s, ':');
    push_decimal(&mut s, port as u64);
    assert(s@ =~= addr_spec(ip@, port));
    s
}

/// The command that asks the server to stream the quotes of `stocks` to
/// `udp_addr`: `STREAM udp://<udp_addr> <T1>,<T2>,...` and a newline.
pub fn stream_command(udp_addr: &str, stocks: &[String]) -> (r: String)
    ensures
        r@ == stream_command_spec(udp_addr@, stocks@.map_values(|t: String| t@)),
{
    let ghost items = stocks@.map_values(|t: String| t@);
    let mut s = String::new();
    push_str(&mut s, "STREAM udp://");
    proof {
        reveal_strlit("STREAM udp://");
    }
    push_str(&mut s, udp_addr);
    push_char(&mut s, ' ');
    let ghost head = s@;
    let mut i: usize = 0;
    while i < stocks.len()
        invariant
            items == stocks@.map_values(|t: String| t@),
            i <= stocks@.len(),
            s@ == head + join(items.take(i as int), ','),
        decreases stocks@.len() - i,
    {
        assert(items.take(i + 1).drop_last() =~= items.take(i as int));
        if i > 0 {
            push_char(&mut s, ',');
        }
        push_str(&mut s, stocks[i].as_str());
        i = i + 1;
        assert(s@ =~= head + join(items.take(i as int), ','));
    }
    assert(items.take(stocks@.len() as int) =~= items);
    push_char(&mut s, '\n');
    assert(s@ =~= stream_command_spec(udp_addr@, items));
    s
}

/// Whether a line of a client's tickers file names a ticker: after the
/// trim it is not empty and is not a `#` comment.
pub open spec fn client_line(l: Seq<char>) -> bool {
    trim(l).len() > 0 && trim(l)[0] != '#'
}

/// The tickers that a client asks for, from the lines `ls` of its tickers
/// file: each line that names a ticker, trimmed and in upper case, kept at
/// its first occurrence only.
pub open spec fn client_list(ls: Seq<Seq<char>>) -> Seq<Seq<char>>
    decreases ls.len(),
{
    if ls.len() == 0 {
        seq![]
    } else {
        let prev = client_list(ls.drop_last());
        let l = ls.last();
        if client_line(l) && !prev.contains(normalized(l)) {
            prev.push(normalized(l))
        } else {
            prev
        }
    }
}

/// Whether the line `l` names the ticker `t`: it is not blank and not a
/// `#` comment, and it normalizes to `t`.
pub open spec fn line_names(l: Seq<char>, t: Seq<char>) -> bool {
    client_line(l) && normalized(l) == t
}

/// What the client asks for, from the lines `ls` of its tickers file: no
/// ticker twice, and a ticker is asked for exactly when some line names it.
pub proof fn lemma_client_list(ls: Seq<Seq<char>>)
    ensures
        client_list(ls).no_duplicates(),
        forall|t: Seq<char>|
            client_list(ls).contains(t) <==> exists|i: int|
                0 <= i < ls.len() && #[trigger] line_names(ls[i], t),
    decreases ls.len(),
{
    if ls.len() > 0 {
        let pl = ls.drop_last();
        lemma_client_list(pl);
        let prev = client_list(pl);
        let cur = client_list(ls);
        let l = ls.last();
        let t = normalized(l);
        assert forall|i: int| 0 <= i < pl.len() implies pl[i] == ls[i] by {}
        assert(ls[ls.len() - 1] == l);
        let pushed = client_line(l) && !prev.contains(t);
        assert forall|u: Seq<char>|
            cur.contains(u) <==> exists|i: int| 0 <= i < ls.len() && #[trigger] line_names(ls[i], u) by {
            if cur.contains(u) {
                if prev.contains(u) {
                    let i = choose|i: int| 0 <= i < pl.len() && #[trigger] line_names(pl[i], u);
                    assert(ls[i] == pl[i]);
                    assert(line_names(ls[i], u));
                } else {
                    assert(pushed && u == t);
                    assert(line_names(ls[ls.len() - 1], u));
                }
            }
            if exists|i: int| 0 <= i < ls.len() && #[trigger] line_names(ls[i], u) {
                let i = choose|i: int| 0 <= i < ls.len() && #[trigger] line_names(ls[i], u);
                if i < pl.len() {
                    assert(pl[i] == ls[i]);
                    assert(line_names(pl[i], u));
                    assert(prev.contains(u));
                    let j = choose|j: int| 0 <= j < prev.len() && prev[j] == u;
                    assert(cur[j] == u);
                } else if prev.contains(u) {
                    let j = choose|j: int| 0 <= j < prev.len() && prev[j] == u;
                    assert(cur[j] == u);
                } else {
                    assert(cur[cur.len() - 1] == u);
                }
            }
        }
        if pushed {
            assert forall|x: int, y: int| 0 <= x < cur.len() && 0 <= y < cur.len() && x != y
                implies cur[x] != cur[y] by {
                if x < prev.len() && y < prev.len() {
                } else if x < prev.len() {
                    assert(prev.contains(cur[x]));
                } else {
                    assert(prev.contains(cur[y]));
                }
            }
        }
    } else {
        assert(client_list(ls).len() == 0);
    }
}

/// The tickers that a client asks for, read from the text of its tickers
/// file: one per line, case-insensitive (each line trimmed and upper-cased),
/// blank lines and `#` comments skipped, each ticker at its first occurrence
/// only.
pub fn client_tickers(content: &str) -> (r: Vec<String>)
    ensures
        r.deep_view() == client_list(lines(content@)),
        r.deep_view().no_duplicates(),
        forall|i: int|
            0 <= i < lines(content@).len() && client_line(#[trigger] lines(content@)[i])
                ==> r.deep_view().contains(normalized(lines(content@)[i])),
        forall|k: int|
            0 <= k < r.deep_view().len() ==> exists|i: int|
                0 <= i < lines(content@).len() && line_names(
                    #[trigger] lines(content@)[i],
                    #[trigger] r.deep_view()[k],
                ),
{
    proof {
        lemma_client_list(lines(content@));
        let ls = lines(content@);
        let cl = client_list(ls);
        assert forall|i: int| 0 <= i < ls.len() && client_line(#[trigger] ls[i]) implies cl.contains(
            normalized(ls[i]),
        ) by {
            assert(line_names(ls[i], normalized(ls[i])));
        }
        assert forall|k: int| 0 <= k < cl.len() implies exists|i: int|
            0 <= i < ls.len() && line_names(#[trigger] ls[i], #[trigger] cl[k]) by {
            assert(cl.contains(cl[k]));
        }
    }
    let v = chars_of(content);
    let ls = lines_chars(v.as_slice());
    let ghost all = char_seqs(ls@);
    let mut seen = StringHashSet::new();
    let mut result: Vec<String> = Vec::new();
    let mut i: usize = 0;
    while i < ls.len()
        invariant
            all == char_seqs(ls@),
            all == lines(content@),
            i <= ls@.len(),
            result.deep_view() == client_list(all.take(i as int)),
            forall|t: Seq<char>| #[trigger] seen@.contains(t) <==> result.deep_view().contains(t),
        decreases ls@.len() - i,
    {
        assert(ls@[i as int]@ == all[i as int]);
        assert(all.take(i + 1).drop_last() =~= all.take(i as int));
        assert(all.take(i + 1).last() == all[i as int]);
        let t = trim_chars(ls[i].as_slice());
        if t.len() > 0 && t[0] != '#' {
            let line = string_of(ls[i].as_slice());
            let ticker = normalize_ticker(line.as_str());
            let ghost before = result.deep_view();
            if seen.insert(ticker.clone()) {
                result.push(ticker);
                assert(result.deep_view() =~= before.push(ticker@));
                assert forall|u: Seq<char>| #[trigger] seen@.contains(u) <==> result.deep_view().contains(u) by {
                    if u == ticker@ {
                        assert(result.deep_view()[before.len() as int] == u);
                    } else if before.contains(u) {
                        let k = choose|k: int| 0 <= k < before.len() && before[k] == u;
                        assert(result.deep_view()[k] == u);
                    } else if result.deep_view().contains(u) {
                        let k = choose|k: int| 0 <= k < result.deep_view().len() && result.deep_view()[k] == u;
                        if k < before.len() {
                            assert(before[k] == u);
                        }
                    }
                }
            }
        }
        assert(result.deep_view() =~= client_list(all.take(i + 1)));
        i = i + 1;
    }
    assert(all.take(ls@.len() as int) =~= all);
    result
}

proof fn lemma_trimmed_nonempty_id(ps: Seq<Seq<char>>)
    requires
        forall|i: int| 0 <= i < ps.len() ==> (#[trigger] ps[i]).len() > 0 && trim(ps[i]) == ps[i],
    ensures
        trimmed_nonempty(ps) == ps,
    decreases ps.len(),
{
    if ps.len() > 0 {
        let prev = ps.drop_last();
        assert forall|i: int| 0 <= i < prev.len() implies (#[trigger] prev[i]).len() > 0 && trim(
            prev[i],
        ) == prev[i] by {
            assert(prev[i] == ps[i]);
        }
        lemma_trimmed_nonempty_id(prev);
        assert(ps[ps.len() - 1] == ps.last());
        assert(prev.push(ps.last()) =~= ps);
    }
}

/// The trim of a line and a newline is the line, when the line neither
/// starts nor ends with whitespace.
proof fn lemma_trim_newline(line: Seq<char>)
    requires
        line.len() > 0,
        !is_ws(line[0]),
        !is_ws(line.last()),
    ensures
        trim(line.push('\n')) == line,
{
    let cmd = line.push('\n');
    lemma_trim_start_skip(cmd, 0);
    assert(cmd.skip(0) =~= cmd);
    lemma_trim_end_take(cmd, cmd.len() - 1);
    assert(cmd.take(cmd.len() - 1) =~= line);
}

/// Splitting `a b c` at its first two spaces gives `a`, `b` and `c`, when
/// neither `a` nor `b` holds a space.
proof fn lemma_splitn_three(a: Seq<char>, b: Seq<char>, c: Seq<char>)
    requires
        !a.contains(' '),
        !b.contains(' '),
    ensures
        splitn(a.push(' ') + b.push(' ') + c, 3, ' ') == seq![a, b, c],
{
    let line = a.push(' ') + b.push(' ') + c;
    let n = a.len() as int;
    assert forall|k: int| 0 <= k < n implies line[k] != ' ' by {
        assert(line[k] == a[k]);
        if a[k] == ' ' {
            assert(a.contains(' '));
        }
    }
    assert(line[n] == ' ');
    lemma_find_first_at(line, ' ', n);
    let rest = line.skip(n + 1);
    assert(rest =~= b.push(' ') + c);
    assert forall|k: int| 0 <= k < b.len() implies rest[k] != ' ' by {
        assert(rest[k] == b[k]);
        if b[k] == ' ' {
            assert(b.contains(' '));
        }
    }
    assert(rest[b.len() as int] == ' ');
    lemma_find_first_at(rest, ' ', b.len() as int);
    reveal_with_fuel(splitn, 3);
    assert(line.take(n) =~= a);
    assert(rest.take(b.len() as int) =~= b);
    assert(rest.skip(b.len() as int + 1) =~= c);
}

/// The address `<ip>:<port>` holds no space when the ip holds none; its
/// last `:` is the one after the ip, and the rest reads as the port.
proof fn lemma_addr_parts(ip: Seq<char>, port: u16)
    requires
        !ip.contains(' '),
    ensures
        !addr_spec(ip, port).contains(' '),
        find_last(addr_spec(ip, port), ':') == Some(ip.len() as int),
        addr_spec(ip, port).take(ip.len() as int) == ip,
        parse_unsigned(addr_spec(ip, port).skip(ip.len() as int + 1), 65535) == Some(port as nat),
{
    let url = addr_spec(ip, port);
    let n = ip.len() as int;
    let digits = decimal(port as nat);
    lemma_decimal_digits(port as nat);
    assert forall|k: int| 0 <= k < url.len() implies url[k] != ' ' by {
        if k < n {
            assert(url[k] == ip[k]);
            if ip[k] == ' ' {
                assert(ip.contains(' '));
            }
        } else if k > n {
            assert(url[k] == digits[k - n - 1]);
            assert(is_digit(digits[k - n - 1]));
        }
    }
    assert(url[n] == ':');
    assert forall|k: int| n < k < url.len() implies url[k] != ':' by {
        assert(url[k] == digits[k - n - 1]);
        assert(is_digit(digits[k - n - 1]));
    }
    lemma_find_last_at(url, ':', n);
    assert(url.skip(n + 1) =~= digits);
    assert(url.take(n) =~= ip);
    lemma_parse_decimal(port as nat, 65535);
}

/// The command built for an address `<ip>:<port>` and a list of tickers is
/// accepted by the server's parser (after the trim of the received line), and
/// yields that ip, port and list of tickers, when the ip holds no space and
/// the tickers are not empty, trimmed, and hold no comma.
pub proof fn lemma_stream_command_accepted(ip: Seq<char>, port: u16, stocks: Seq<Seq<char>>)
    requires
        !ip.contains(' '),
        stocks.len() > 0,
        forall|i: int|
            0 <= i < stocks.len() ==> (#[trigger] stocks[i]).len() > 0 && trim(stocks[i])
                == stocks[i] && !stocks[i].contains(','),
    ensures
        parse_command_spec(trim(stream_command_spec(addr_spec(ip, port), stocks))) == Ok::<
            ClientView,
            CommandError,
        >(ClientView { ip, port, stocks }),
{
    let addr = addr_spec(ip, port);
    let body = join(stocks, ',');
    lemma_split_join(stocks, ',');
    lemma_trimmed_nonempty_id(stocks);
    lemma_join_ends(stocks, ',');
    lemma_addr_parts(ip, port);
    let a = stream_word();
    let b = udp_scheme() + addr;
    let line = a.push(' ') + b.push(' ') + body;
    assert(stream_command_spec(addr, stocks) =~= line.push('\n'));
    assert(line.last() == body.last());
    assert(stocks[stocks.len() - 1] == stocks.last());
    lemma_trimmed_last(stocks.last());
    lemma_trim_newline(line);
    assert(!a.contains(' ')) by {
        if a.contains(' ') {
            let k = choose|k: int| 0 <= k < a.len() && a[k] == ' ';
        }
    }
    assert(!b.contains(' ')) by {
        if b.contains(' ') {
            let k = choose|k: int| 0 <= k < b.len() && b[k] == ' ';
            if k >= 6 {
                assert(addr[k - 6] == ' ');
            }
        }
    }
    lemma_splitn_three(a, b, body);
    assert(b.take(6) =~= udp_scheme());
    assert(b.skip(6) =~= addr);
}

/// The join of non-empty trimmed items neither starts nor ends with whitespace.
proof fn lemma_join_ends(items: Seq<Seq<char>>, sep: char)
    requires
        items.len() > 0,
        forall|i: int|
            0 <= i < items.len() ==> (#[trigger] items[i]).len() > 0 && trim(items[i]) == items[i],
    ensures
        join(items, sep).len() > 0,
        join(items, sep).last() == items.last().last(),
    decreases items.len(),
{
    if items.len() == 1 {
        assert(items[0] == items.last());
    } else {
        assert(items[items.len() - 1] == items.last());
        let prev = items.drop_last();
        assert forall|i: int| 0 <= i < prev.len() implies (#[trigger] prev[i]).len() > 0 && trim(
            prev[i],
        ) == prev[i] by {
            assert(prev[i] == items[i]);
        }
        lemma_join_ends(prev, sep);
    }
}

/// What `trim_start` leaves is empty or starts with a non-whitespace character.
pub(crate) proof fn lemma_trim_start_first(x: Seq<char>)
    ensures
        crate::text::trim_start(x).len() == 0 || !is_ws(crate::text::trim_start(x)[0]),
    decreases x.len(),
{
    if x.len() > 0 && is_ws(x[0]) {
        lemma_trim_start_first(x.drop_first());
    }
}

/// What `trim_end` leaves is a prefix of its argument.
pub(crate) proof fn lemma_trim_end_prefix(x: Seq<char>)
    ensures
        crate::text::trim_end(x).len() <= x.len(),
        crate::text::trim_end(x) == x.take(crate::text::trim_end(x).len() as int),
    decreases x.len(),
{
    if x.len() > 0 && is_ws(x.last()) {
        lemma_trim_end_prefix(x.drop_last());
        assert(x.drop_last().take(crate::text::trim_end(x).len() as int) =~= x.take(
            crate::text::trim_end(x).len() as int,
        ));
    } else {
        assert(x.take(x.len() as int) =~= x);
    }
}

/// Trimming twice is trimming once.
pub proof fn lemma_trim_idempotent(x: Seq<char>)
    ensures
        trim(trim(x)) == trim(x),
{
    let a = crate::text::trim_start(x);
    let y = trim(x);
    lemma_trim_start_first(x);
    lemma_trim_end_prefix(a);
    lemma_trim_end_last(a);
    if y.len() > 0 {
        assert(y[0] == a[0]);
        lemma_trim_start_skip(y, 0);
        assert(y.skip(0) =~= y);
        lemma_trim_end_take(y, y.len() as int);
        assert(y.take(y.len() as int) =~= y);
    }
}

/// A valid ticker is not empty, is its own trim, and holds no comma.
pub proof fn lemma_valid_ticker_plain(t: Seq<char>)
    requires
        valid_ticker(t),
    ensures
        t.len() > 0,
        trim(t) == t,
        !t.contains(','),
        !t.contains(' '),
{
    assert forall|k: int| 0 <= k < t.len() implies !is_ws(t[k]) by {
        assert(is_ticker_char(t[k]));
    }
    lemma_trim_start_skip(t, 0);
    assert(t.skip(0) =~= t);
    lemma_trim_end_take(t, t.len() as int);
    assert(t.take(t.len() as int) =~= t);
    if t.contains(',') {
        let k = choose|k: int| 0 <= k < t.len() && t[k] == ',';
        assert(is_ticker_char(t[k]));
    }
    if t.contains(' ') {
        let k = choose|k: int| 0 <= k < t.len() && t[k] == ' ';
        assert(is_ticker_char(t[k]));
    }
}

/// The request that a client makes, for its loopback port and the tickers of
/// its tickers file, is accepted by the server with that address, port and
/// list of tickers, whenever the file is ASCII, lists a ticker, and no
/// listed ticker holds a comma.
pub proof fn lemma_client_request_accepted(content: Seq<char>, port: u16)
    requires
        vstd::utf8::is_ascii_chars(content),
        client_list(lines(content)).len() > 0,
        forall|i: int|
            0 <= i < client_list(lines(content)).len() ==> !(#[trigger] client_list(
                lines(content),
            )[i]).contains(','),
    ensures
        parse_command_spec(
            trim(stream_command_spec(udp_addr_spec(port), client_list(lines(content)))),
        ) == Ok::<ClientView, CommandError>(
            ClientView { ip: loopback(), port, stocks: client_list(lines(content)) },
        ),
{
    let ts = client_list(lines(content));
    crate::ticker_laws::lemma_lines_ascii(content);
    lemma_client_list_trimmed(lines(content));
    assert(!loopback().contains(' ')) by {
        if loopback().contains(' ') {
            let k = choose|k: int| 0 <= k < loopback().len() && loopback()[k] == ' ';
        }
    }
    lemma_stream_command_accepted(loopback(), port, ts);
}

/// The tickers listed from ASCII lines are not empty and are their own trim.
proof fn lemma_client_list_trimmed(ls: Seq<Seq<char>>)
    requires
        forall|k: int| 0 <= k < ls.len() ==> vstd::utf8::is_ascii_chars(#[trigger] ls[k]),
    ensures
        forall|k: int|
            0 <= k < client_list(ls).len() ==> (#[trigger] client_list(ls)[k]).len() > 0 && trim(
                client_list(ls)[k],
            ) == client_list(ls)[k],
    decreases ls.len(),
{
    if ls.len() > 0 {
        let prev = ls.drop_last();
        assert forall|k: int| 0 <= k < prev.len() implies vstd::utf8::is_ascii_chars(#[trigger] prev[k]) by {
            assert(prev[k] == ls[k]);
        }
        lemma_client_list_trimmed(prev);
        let l = ls.last();
        assert(ls[ls.len() - 1] == l);
        crate::ticker_laws::lemma_normalized_ascii(l);
        crate::ticker_laws::lemma_trim_ascii(l);
        assert(normalized(l).len() == trim(l).len());
        let r = client_list(ls);
        let pr = client_list(prev);
        assert forall|k: int| 0 <= k < r.len() implies (#[trigger] r[k]).len() > 0 && trim(r[k])
            == r[k] by {
            if k < pr.len() {
                assert(r[k] == pr[k]);
            } else {
                assert(r[k] == normalized(l));
            }
        }
    }
}

/// A non-empty trimmed sequence does not end with whitespace.
pub(crate) proof fn lemma_trimmed_last(t: Seq<char>)
    requires
        t.len() > 0,
        trim(t) == t,
    ensures
        !is_ws(t.last()),
{
    lemma_trim_end_last(crate::text::trim_start(t));
}

/// What `trim_end` leaves is empty or ends with a non-whitespace character.
pub(crate) proof fn lemma_trim_end_last(x: Seq<char>)
    ensures
        crate::text::trim_end(x).len() == 0 || !is_ws(crate::text::trim_end(x).last()),
    decreases x.len(),
{
    if x.len() > 0 && is_ws(x.last()) {
        lemma_trim_end_last(x.drop_last());
    }
}

} // verus!
