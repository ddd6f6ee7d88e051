//! What holds of ticker lists as a whole: normalizing is idempotent on ASCII
//! lines and leaves valid tickers alone, reading a written ticker list gives
//! it back, and a tickers file is read case-insensitively and without regard
//! to repeated lines.
use vstd::prelude::*;
use vstd::utf8::is_ascii_chars;
use crate::command::{
    lemma_trim_end_last, lemma_trim_end_prefix, lemma_trim_start_first, lemma_valid_ticker_plain,
};
use crate::text::{
    is_ws, join, lemma_split_join, lemma_trim_end_take, lemma_trim_start_skip, lines, split_on,
    strip_all_cr, strip_cr, trim, trim_end, trim_start,
};
use crate::ticker_loader::{
    ascii_upper_char, ascii_uppercase, distinct_valid, is_ticker_char, lemma_tickers_of,
    normalized, normalized_lines, tickers_of, valid_ticker,
};

verus! {

/// What trimming leaves of an ASCII sequence is ASCII.
pub(crate) proof fn lemma_trim_ascii(x: Seq<char>)
    requires
        is_ascii_chars(x),
    ensures
        is_ascii_chars(trim(x)),
{
    lemma_trim_start_ascii(x);
    lemma_trim_end_ascii(trim_start(x));
}

proof fn lemma_trim_start_ascii(x: Seq<char>)
    requires
        is_ascii_chars(x),
    ensures
        is_ascii_chars(trim_start(x)),
    decreases x.len(),
{
    if x.len() > 0 && is_ws(x[0]) {
        assert forall|i: int| 0 <= i < x.drop_first().len() implies '\0' <= #[trigger] x.drop_first()[i]
            <= '\u{7f}' by {
            assert(x.drop_first()[i] == x[i + 1]);
        }
        lemma_trim_start_ascii(x.drop_first());
    }
}

proof fn lemma_trim_end_ascii(x: Seq<char>)
    requires
        is_ascii_chars(x),
    ensures
        is_ascii_chars(trim_end(x)),
    decreases x.len(),
{
    if x.len() > 0 && is_ws(x.last()) {
        assert forall|i: int| 0 <= i < x.drop_last().len() implies '\0' <= #[trigger] x.drop_last()[i]
            <= '\u{7f}' by {
            assert(x.drop_last()[i] == x[i]);
        }
        lemma_trim_end_ascii(x.drop_last());
    }
}

/// What trimming leaves is empty, or starts and ends with a non-whitespace
/// character.
proof fn lemma_trim_ends(x: Seq<char>)
    ensures
        trim(x).len() == 0 || (!is_ws(trim(x)[0]) && !is_ws(trim(x).last())),
{
    let a = trim_start(x);
    lemma_trim_start_first(x);
    lemma_trim_end_prefix(a);
    lemma_trim_end_last(a);
    if trim(x).len() > 0 {
        assert(trim(x)[0] == a[0]);
    }
}

/// A sequence that is empty, or starts and ends with a non-whitespace
/// character, is its own trim.
proof fn lemma_trim_fixed(y: Seq<char>)
    requires
        y.len() == 0 || (!is_ws(y[0]) && !is_ws(y.last())),
    ensures
        trim(y) == y,
{
    lemma_trim_start_skip(y, 0);
    assert(y.skip(0) =~= y);
    if y.len() > 0 {
        assert(y[y.len() - 1] == y.last());
    }
    lemma_trim_end_take(y, y.len() as int);
    assert(y.take(y.len() as int) =~= y);
}

/// The ASCII upper case of a character: ASCII when the character is, never an
/// ASCII lower-case letter, and whitespace exactly when the character is.
proof fn lemma_ascii_upper_char(c: char)
    ensures
        c <= '\u{7f}' ==> ascii_upper_char(c) <= '\u{7f}',
        !('a' <= ascii_upper_char(c) <= 'z'),
        is_ws(ascii_upper_char(c)) == is_ws(c),
        !('a' <= c <= 'z') ==> ascii_upper_char(c) == c,
{
    if 'a' <= c <= 'z' {
        let n = (c as u32) - 32;
        assert(65 <= n <= 90);
        assert((n as char) as u32 == n);
    }
}

/// Normalizing an ASCII line gives an ASCII sequence with no leading or
/// trailing whitespace and no ASCII lower-case letter, which differs from the
/// trimmed line only in letter case and which normalizing again leaves
/// unchanged.
pub proof fn lemma_normalized_ascii(line: Seq<char>)
    requires
        is_ascii_chars(line),
    ensures
        is_ascii_chars(normalized(line)),
        trim(normalized(line)) == normalized(line),
        forall|k: int|
            0 <= k < normalized(line).len() ==> !('a' <= #[trigger] normalized(line)[k] <= 'z'),
        normalized(normalized(line)) == normalized(line),
        ascii_lowercase(normalized(line)) == ascii_lowercase(trim(line)),
{
    let y = trim(line);
    lemma_trim_ascii(line);
    lemma_trim_ends(line);
    let u = ascii_uppercase(y);
    assert(normalized(line) == u);
    assert forall|k: int| 0 <= k < u.len() implies '\0' <= #[trigger] u[k] <= '\u{7f}' && !('a'
        <= u[k] <= 'z') && is_ws(u[k]) == is_ws(y[k]) by {
        lemma_ascii_upper_char(y[k]);
    }
    if u.len() > 0 {
        assert(u[u.len() - 1] == u.last());
        assert(y[y.len() - 1] == y.last());
    }
    lemma_trim_fixed(u);
    assert forall|k: int| 0 <= k < u.len() implies #[trigger] ascii_uppercase(u)[k] == u[k] by {
        lemma_ascii_upper_char(u[k]);
    }
    assert(ascii_uppercase(u) =~= u);
    assert forall|k: int| 0 <= k < u.len() implies #[trigger] ascii_lowercase(u)[k]
        == ascii_lowercase(y)[k] by {
        let c = y[k];
        if 'a' <= c <= 'z' {
            let n = (c as u32) - 32;
            assert((n as char) as u32 == n);
            assert((((n + 32) as char) as u32) == n + 32);
            assert((c as u32) == n + 32);
        } else if 'A' <= c <= 'Z' {
        }
    }
    assert(ascii_lowercase(u) =~= ascii_lowercase(y));
}

/// A valid ticker normalizes to itself.
pub proof fn lemma_normalized_valid(t: Seq<char>)
    requires
        valid_ticker(t),
    ensures
        normalized(t) == t,
{
    lemma_valid_ticker_plain(t);
    assert forall|k: int| 0 <= k < t.len() implies '\0' <= #[trigger] t[k] <= '\u{7f}' && !('a'
        <= t[k] <= 'z') by {
        assert(is_ticker_char(t[k]));
    }
    assert forall|k: int| 0 <= k < t.len() implies #[trigger] ascii_uppercase(t)[k] == t[k] by {
        lemma_ascii_upper_char(t[k]);
    }
    assert(ascii_uppercase(t) =~= t);
}

/// Selecting from valid tickers without repeats keeps them all, in order.
proof fn lemma_distinct_valid_id(ts: Seq<Seq<char>>)
    requires
        ts.no_duplicates(),
        forall|k: int| 0 <= k < ts.len() ==> valid_ticker(#[trigger] ts[k]),
    ensures
        distinct_valid(ts) == ts,
    decreases ts.len(),
{
    if ts.len() > 0 {
        let prev = ts.drop_last();
        assert forall|k: int| 0 <= k < prev.len() implies valid_ticker(#[trigger] prev[k]) by {
            assert(prev[k] == ts[k]);
        }
        assert(prev.no_duplicates()) by {
            assert forall|i: int, j: int| 0 <= i < prev.len() && 0 <= j < prev.len() && i != j
                implies prev[i] != prev[j] by {
                assert(prev[i] == ts[i]);
                assert(prev[j] == ts[j]);
            }
        }
        lemma_distinct_valid_id(prev);
        assert(ts[ts.len() - 1] == ts.last());
        assert(!prev.contains(ts.last())) by {
            if prev.contains(ts.last()) {
                let j = choose|j: int| 0 <= j < prev.len() && prev[j] == ts.last();
                assert(ts[j] == ts[ts.len() - 1]);
            }
        }
        assert(prev.push(ts.last()) =~= ts);
    }
}

/// Normalizing each of a list of valid tickers leaves the list unchanged.
proof fn lemma_normalized_lines_valid(ts: Seq<Seq<char>>)
    requires
        forall|k: int| 0 <= k < ts.len() ==> valid_ticker(#[trigger] ts[k]),
    ensures
        normalized_lines(ts) == ts,
{
    assert forall|k: int| 0 <= k < ts.len() implies #[trigger] normalized_lines(ts)[k] == ts[k] by {
        lemma_normalized_valid(ts[k]);
    }
    assert(normalized_lines(ts) =~= ts);
}

/// The lines of valid tickers written one per line are those tickers.
proof fn lemma_lines_join_valid(ts: Seq<Seq<char>>)
    requires
        forall|k: int| 0 <= k < ts.len() ==> valid_ticker(#[trigger] ts[k]),
    ensures
        lines(join(ts, '\n')) == ts,
{
    if ts.len() == 0 {
        assert(join(ts, '\n') =~= Seq::<char>::empty());
        assert(split_on(Seq::<char>::empty(), '\n') =~= seq![Seq::<char>::empty()]);
        assert(lines(join(ts, '\n')) =~= ts);
    } else {
        assert forall|k: int| 0 <= k < ts.len() implies !(#[trigger] ts[k]).contains('\n')
            && ts[k].len() > 0 && ts[k].last() != '\r' by {
            lemma_valid_ticker_plain(ts[k]);
            if ts[k].contains('\n') {
                let i = choose|i: int| 0 <= i < ts[k].len() && ts[k][i] == '\n';
                assert(is_ticker_char(ts[k][i]));
            }
            assert(is_ticker_char(ts[k][ts[k].len() - 1]));
        }
        lemma_split_join(ts, '\n');
        let p = split_on(join(ts, '\n'), '\n');
        assert(p == ts);
        assert(ts[ts.len() - 1] == ts.last());
        let ended = strip_all_cr(p.take(p.len() - 1));
        assert forall|k: int| 0 <= k < ended.len() implies #[trigger] ended[k] == ts[k] by {
            assert(strip_cr(ts[k]) == ts[k]);
        }
        assert(ended.push(p.last()) =~= ts);
    }
}

/// Reading back a ticker list written one ticker per line gives that list:
/// the tickers of the tickers that a file lists, joined with newlines, are
/// the tickers that the file lists.
pub proof fn lemma_tickers_reread(content: Seq<char>)
    ensures
        tickers_of(lines(join(tickers_of(lines(content)), '\n'))) == tickers_of(lines(content)),
{
    let ts = tickers_of(lines(content));
    lemma_tickers_of(lines(content));
    lemma_lines_join_valid(ts);
    lemma_normalized_lines_valid(ts);
    lemma_distinct_valid_id(ts);
}

/// Splitting `a`, a separator and `b` gives the pieces of `a` and then those
/// of `b`.
proof fn lemma_split_on_concat(a: Seq<char>, b: Seq<char>, sep: char)
    ensures
        split_on(a.push(sep) + b, sep) == split_on(a, sep) + split_on(b, sep),
    decreases b.len(),
{
    let u = a.push(sep) + b;
    if b.len() == 0 {
        assert(u =~= a.push(sep));
        assert(a.push(sep).drop_last() =~= a);
        assert(split_on(b, sep) =~= seq![Seq::<char>::empty()]);
        assert(split_on(u, sep) =~= split_on(a, sep) + split_on(b, sep));
    } else {
        lemma_split_on_concat(a, b.drop_last(), sep);
        assert(u.drop_last() =~= a.push(sep) + b.drop_last());
        assert(u.last() == b.last());
        crate::text::lemma_split_on_nonempty(b.drop_last(), sep);
        crate::text::lemma_split_on_nonempty(a, sep);
        assert(split_on(u, sep) =~= split_on(a, sep) + split_on(b, sep));
    }
}

/// Leading whitespace of `s` and a character: that of `s`, unless `s` is all
/// whitespace.
proof fn lemma_trim_start_push(s: Seq<char>, c: char)
    ensures
        trim_start(s.push(c)) == (if trim_start(s).len() > 0 {
            trim_start(s).push(c)
        } else {
            trim_start(seq![c])
        }),
    decreases s.len(),
{
    if s.len() == 0 {
        assert(s.push(c) =~= seq![c]);
    } else if is_ws(s[0]) {
        lemma_trim_start_push(s.drop_first(), c);
        assert(s.push(c).drop_first() =~= s.drop_first().push(c));
        assert(s.push(c)[0] == s[0]);
    } else {
        assert(s.push(c)[0] == s[0]);
    }
}

/// A trailing whitespace character does not change the trim.
proof fn lemma_trim_push_ws(s: Seq<char>, c: char)
    requires
        is_ws(c),
    ensures
        trim(s.push(c)) == trim(s),
{
    lemma_trim_start_push(s, c);
    if trim_start(s).len() > 0 {
        assert(trim_start(s).push(c).last() == c);
        assert(trim_start(s).push(c).drop_last() =~= trim_start(s));
    } else {
        let e = Seq::<char>::empty();
        assert(seq![c][0] == c);
        assert(seq![c].drop_first() =~= e);
        assert(trim_start(e) == e);
        assert(trim_end(e) == e);
        assert(trim_start(s) =~= e);
    }
}

/// Dropping a carriage return at the end of a line does not change what the
/// line normalizes to.
proof fn lemma_normalized_strip_cr(l: Seq<char>)
    ensures
        normalized(strip_cr(l)) == normalized(l),
{
    if l.len() > 0 && l.last() == '\r' {
        lemma_trim_push_ws(l.drop_last(), '\r');
        assert(l.drop_last().push('\r') =~= l);
    }
}

/// The empty line normalizes to an empty, so invalid, ticker.
proof fn lemma_normalized_empty()
    ensures
        normalized(Seq::<char>::empty()).len() == 0,
{
    let e = Seq::<char>::empty();
    assert(trim_start(e) == e);
    assert(trim_end(e) == e);
    assert(is_ascii_chars(e));
}

/// The tickers of a text are those of its pieces between newlines, each
/// normalized.
proof fn lemma_tickers_pieces(a: Seq<char>)
    ensures
        distinct_valid(normalized_lines(split_on(a, '\n'))) == tickers_of(lines(a)),
{
    let p = split_on(a, '\n');
    crate::text::lemma_split_on_nonempty(a, '\n');
    let n = p.len();
    let ended = strip_all_cr(p.take(n - 1));
    let np = normalized_lines(p);
    assert(p.take(n - 1).push(p.last()) =~= p);
    assert forall|k: int| 0 <= k < n - 1 implies #[trigger] normalized_lines(ended)[k] == np[k] by {
        lemma_normalized_strip_cr(p[k]);
    }
    assert(np[n - 1] == normalized(p.last()));
    if p.last().len() == 0 {
        lemma_normalized_empty();
        assert(p.last() =~= Seq::<char>::empty());
        assert(np.drop_last() =~= normalized_lines(ended));
        assert(np[n - 1] == np.last());
    } else {
        let w = normalized_lines(ended.push(p.last()));
        assert forall|k: int| 0 <= k < n implies #[trigger] w[k] == np[k] by {
            if k < n - 1 {
                assert(ended.push(p.last())[k] == ended[k]);
                assert(normalized_lines(ended)[k] == np[k]);
            }
        }
        assert(np =~= w);
    }
}

/// Candidates after `cs` whose valid ones are all already selected from `cs`
/// change nothing in the selection.
proof fn lemma_distinct_valid_absorb(cs: Seq<Seq<char>>, ds: Seq<Seq<char>>)
    requires
        forall|k: int|
            0 <= k < ds.len() && valid_ticker(#[trigger] ds[k]) ==> distinct_valid(cs).contains(
                ds[k],
            ),
    ensures
        distinct_valid(cs + ds) == distinct_valid(cs),
    decreases ds.len(),
{
    if ds.len() == 0 {
        assert(cs + ds =~= cs);
    } else {
        let dl = ds.drop_last();
        assert forall|k: int| 0 <= k < dl.len() && valid_ticker(#[trigger] dl[k]) implies distinct_valid(
            cs,
        ).contains(dl[k]) by {
            assert(dl[k] == ds[k]);
        }
        lemma_distinct_valid_absorb(cs, dl);
        assert((cs + ds).drop_last() =~= cs + dl);
        assert((cs + ds).last() == ds[ds.len() - 1]);
    }
}

/// A tickers file read twice over, the second copy after a newline, lists the
/// same tickers as the file itself: repeated lines are dropped.
pub proof fn lemma_tickers_repeated(content: Seq<char>)
    ensures
        tickers_of(lines(content.push('\n') + content)) == tickers_of(lines(content)),
{
    let p = split_on(content, '\n');
    lemma_split_on_concat(content, content, '\n');
    crate::text::lemma_split_on_nonempty(content, '\n');
    let whole = p + p;
    assert(whole.take(whole.len() - 1) =~= p + p.take(p.len() - 1));
    let ended = strip_all_cr(p.take(p.len() - 1));
    assert(strip_all_cr(p + p.take(p.len() - 1)) =~= strip_all_cr(p) + ended);
    let both = lines(content.push('\n') + content);
    let ls = lines(content);
    assert(both =~= strip_all_cr(p) + ls);
    let np = normalized_lines(p);
    assert forall|k: int| 0 <= k < p.len() implies #[trigger] normalized_lines(strip_all_cr(p))[k]
        == np[k] by {
        lemma_normalized_strip_cr(p[k]);
    }
    assert(normalized_lines(strip_all_cr(p)) =~= np);
    assert(normalized_lines(both) =~= np + normalized_lines(ls));
    lemma_tickers_pieces(content);
    lemma_tickers_of(ls);
    let nl = normalized_lines(ls);
    assert forall|k: int| 0 <= k < nl.len() && valid_ticker(#[trigger] nl[k]) implies distinct_valid(
        np,
    ).contains(nl[k]) by {
        assert(normalized(ls[k]) == nl[k]);
    }
    lemma_distinct_valid_absorb(np, nl);
}

/// `c` with an ASCII upper-case letter turned into its lower-case letter (as
/// `char::to_ascii_lowercase`).
pub open spec fn ascii_lower_char(c: char) -> char {
    if 'A' <= c <= 'Z' {
        ((c as u32) + 32) as char
    } else {
        c
    }
}

/// `s` with each ASCII upper-case letter turned into its lower-case letter
/// (as `str::to_ascii_lowercase`).
pub open spec fn ascii_lowercase(s: Seq<char>) -> Seq<char> {
    s.map_values(|c: char| ascii_lower_char(c))
}

/// Each of `ls` in ASCII lower case.
pub open spec fn lowercase_lines(ls: Seq<Seq<char>>) -> Seq<Seq<char>> {
    ls.map_values(|l: Seq<char>| ascii_lowercase(l))
}

/// The ASCII lower case of a character keeps whether it is ASCII, whitespace,
/// a newline or a carriage return, and its ASCII upper case.
proof fn lemma_ascii_lower_char(c: char)
    ensures
        c <= '\u{7f}' ==> ascii_lower_char(c) <= '\u{7f}',
        is_ws(ascii_lower_char(c)) == is_ws(c),
        (ascii_lower_char(c) == '\n') == (c == '\n'),
        (ascii_lower_char(c) == '\r') == (c == '\r'),
        ascii_upper_char(ascii_lower_char(c)) == ascii_upper_char(c),
{
    if 'A' <= c <= 'Z' {
        let n = (c as u32) + 32;
        assert(97 <= n <= 122);
        assert((n as char) as u32 == n);
        let m = n - 32;
        assert((m as char) as u32 == m);
        assert(c as u32 == m);
    }
}

/// Splitting at newlines commutes with the ASCII lower case.
proof fn lemma_split_on_lower(s: Seq<char>)
    ensures
        split_on(ascii_lowercase(s), '\n') == lowercase_lines(split_on(s, '\n')),
    decreases s.len(),
{
    let e = Seq::<char>::empty();
    if s.len() == 0 {
        assert(ascii_lowercase(s) =~= e);
        assert(ascii_lowercase(e) =~= e);
        assert(lowercase_lines(seq![e]) =~= seq![e]);
    } else {
        let prev = split_on(s.drop_last(), '\n');
        lemma_split_on_lower(s.drop_last());
        crate::text::lemma_split_on_nonempty(s.drop_last(), '\n');
        let ls = ascii_lowercase(s);
        assert(ls.drop_last() =~= ascii_lowercase(s.drop_last()));
        assert(ls.last() == ascii_lower_char(s.last()));
        lemma_ascii_lower_char(s.last());
        let lp = lowercase_lines(prev);
        if s.last() == '\n' {
            assert(ascii_lowercase(e) =~= e);
            assert(lowercase_lines(prev.push(e)) =~= lp.push(e));
        } else {
            let upd = prev.update(prev.len() - 1, prev.last().push(s.last()));
            assert(ascii_lowercase(prev.last().push(s.last())) =~= lp.last().push(ls.last()));
            assert(lowercase_lines(upd) =~= lp.update(lp.len() - 1, lp.last().push(ls.last())));
        }
    }
}

/// The lines of a text in ASCII lower case are its lines in ASCII lower case.
proof fn lemma_lines_lower(s: Seq<char>)
    ensures
        lines(ascii_lowercase(s)) == lowercase_lines(lines(s)),
{
    let p = split_on(s, '\n');
    lemma_split_on_lower(s);
    crate::text::lemma_split_on_nonempty(s, '\n');
    let lp = lowercase_lines(p);
    let n = p.len();
    assert(lp.last() == ascii_lowercase(p.last()));
    let a = strip_all_cr(lp.take(n - 1));
    let b = lowercase_lines(strip_all_cr(p.take(n - 1)));
    assert forall|k: int| 0 <= k < n - 1 implies #[trigger] a[k] == b[k] by {
        let l = p[k];
        if l.len() > 0 {
            assert(l[l.len() - 1] == l.last());
            lemma_ascii_lower_char(l.last());
            assert(ascii_lowercase(l).last() == ascii_lower_char(l.last()));
            assert(ascii_lowercase(l).drop_last() =~= ascii_lowercase(l.drop_last()));
        }
    }
    assert(a =~= b);
    if p.last().len() == 0 {
        assert(lines(ascii_lowercase(s)) =~= lowercase_lines(lines(s)));
    } else {
        assert(lines(ascii_lowercase(s)) =~= lowercase_lines(lines(s)));
    }
}

/// The pieces of an ASCII text between separators are ASCII.
proof fn lemma_split_on_ascii(s: Seq<char>, sep: char)
    requires
        is_ascii_chars(s),
    ensures
        forall|k: int|
            0 <= k < split_on(s, sep).len() ==> is_ascii_chars(#[trigger] split_on(s, sep)[k]),
    decreases s.len(),
{
    if s.len() > 0 {
        let d = s.drop_last();
        assert forall|i: int| 0 <= i < d.len() implies '\0' <= #[trigger] d[i] <= '\u{7f}' by {
            assert(d[i] == s[i]);
        }
        lemma_split_on_ascii(d, sep);
        crate::text::lemma_split_on_nonempty(d, sep);
        let prev = split_on(d, sep);
        assert(s[s.len() - 1] == s.last());
        let q = prev.last().push(s.last());
        assert(prev[prev.len() - 1] == prev.last());
        assert forall|i: int| 0 <= i < q.len() implies '\0' <= #[trigger] q[i] <= '\u{7f}' by {
            if i < q.len() - 1 {
                assert(q[i] == prev.last()[i]);
            }
        }
    }
}

/// The lines of an ASCII text are ASCII.
pub(crate) proof fn lemma_lines_ascii(s: Seq<char>)
    requires
        is_ascii_chars(s),
    ensures
        forall|k: int| 0 <= k < lines(s).len() ==> is_ascii_chars(#[trigger] lines(s)[k]),
{
    let p = split_on(s, '\n');
    lemma_split_on_ascii(s, '\n');
    crate::text::lemma_split_on_nonempty(s, '\n');
    assert forall|k: int| 0 <= k < lines(s).len() implies is_ascii_chars(#[trigger] lines(s)[k]) by {
        if k < p.len() - 1 {
            let l = p[k];
            assert(lines(s)[k] == strip_cr(l));
            assert forall|i: int| 0 <= i < strip_cr(l).len() implies '\0' <= #[trigger] strip_cr(
                l,
            )[i] <= '\u{7f}' by {
                assert(strip_cr(l)[i] == l[i]);
            }
        } else {
            assert(lines(s)[k] == p.last());
            assert(p[p.len() - 1] == p.last());
        }
    }
}

/// Leading whitespace is the same in ASCII lower case.
proof fn lemma_trim_start_lower(s: Seq<char>)
    ensures
        trim_start(ascii_lowercase(s)) == ascii_lowercase(trim_start(s)),
    decreases s.len(),
{
    if s.len() > 0 {
        lemma_ascii_lower_char(s[0]);
        assert(ascii_lowercase(s)[0] == ascii_lower_char(s[0]));
        if is_ws(s[0]) {
            assert(ascii_lowercase(s).drop_first() =~= ascii_lowercase(s.drop_first()));
            lemma_trim_start_lower(s.drop_first());
        }
    }
}

/// Trailing whitespace is the same in ASCII lower case.
proof fn lemma_trim_end_lower(s: Seq<char>)
    ensures
        trim_end(ascii_lowercase(s)) == ascii_lowercase(trim_end(s)),
    decreases s.len(),
{
    if s.len() > 0 {
        lemma_ascii_lower_char(s.last());
        assert(ascii_lowercase(s).last() == ascii_lower_char(s.last()));
        if is_ws(s.last()) {
            assert(ascii_lowercase(s).drop_last() =~= ascii_lowercase(s.drop_last()));
            lemma_trim_end_lower(s.drop_last());
        }
    }
}

/// An ASCII line in lower case normalizes as the line does.
proof fn lemma_normalized_lower(l: Seq<char>)
    requires
        is_ascii_chars(l),
    ensures
        normalized(ascii_lowercase(l)) == normalized(l),
{
    lemma_trim_start_lower(l);
    lemma_trim_end_lower(trim_start(l));
    let y = trim(l);
    lemma_trim_ascii(l);
    let ly = ascii_lowercase(y);
    assert(trim(ascii_lowercase(l)) == ly);
    assert forall|k: int| 0 <= k < ly.len() implies '\0' <= #[trigger] ly[k] <= '\u{7f}'
        && ascii_upper_char(ly[k]) == ascii_upper_char(y[k]) by {
        lemma_ascii_lower_char(y[k]);
    }
    assert(ascii_uppercase(ly) =~= ascii_uppercase(y));
}

/// Tickers files are read case-insensitively: an ASCII tickers file in ASCII
/// lower case lists the same tickers as the file itself.
pub proof fn lemma_tickers_case_insensitive(content: Seq<char>)
    requires
        is_ascii_chars(content),
    ensures
        tickers_of(lines(ascii_lowercase(content))) == tickers_of(lines(content)),
{
    let ls = lines(content);
    lemma_lines_lower(content);
    lemma_lines_ascii(content);
    let a = normalized_lines(lowercase_lines(ls));
    let b = normalized_lines(ls);
    assert forall|k: int| 0 <= k < ls.len() implies #[trigger] a[k] == b[k] by {
        lemma_normalized_lower(ls[k]);
    }
    assert(a =~= b);
}

} // verus!
