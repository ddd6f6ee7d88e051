//! The stock quote record and its 28-byte big-endian wire format.
use vstd::prelude::*;
use vstd::utf8::*;
use vstd::string::*;
use crate::decimal::{decimal, is_digit, lemma_decimal_digits, lemma_parse_decimal, parse_unsigned, parse_unsigned_chars, push_decimal};
use crate::text::{char_seqs, chars_of, join, lemma_split_join, push_char, push_str, split_chars, split_on, string_of};
use crate::float_text::{float_text, is_float_text};
use crate::bytes::{be_bytes, be_value, lemma_be_bytes_len, lemma_be_value_bound, lemma_be_roundtrip, lemma_be_value_bytes, pow256, read_be, write_be};

verus! {

broadcast use vstd::utf8::group_utf8_lib;

/// A ticker symbol, such as `"AAPL"`.
pub type Ticker = String;

/// Size of the ticker field of a packet, in bytes (zero-padded on the right).
pub const TICKER_SIZE: usize = 8;

/// Size of a whole packet: ticker, price, volume and timestamp.
pub const PACKET_SIZE: usize = TICKER_SIZE + 8 + 4 + 8;

/// A snapshot of price, volume and time for one ticker.
///
/// The price is held as the IEEE-754 bit pattern of the `f64` price
/// (`f64::to_bits`): that is exactly what the wire format carries.
#[derive(Debug, Clone)]
pub struct StockQuote {
    /// The ticker symbol; at most `TICKER_SIZE` bytes of it go on the wire.
    pub ticker: String,
    /// Bit pattern of the `f64` price per share.
    pub price_bits: u64,
    /// Traded volume.
    pub volume: u32,
    /// Unix time of the quote, in seconds.
    pub timestamp: u64,
}

/// The mathematical model of a quote.
pub struct QuoteView {
    pub ticker: Seq<char>,
    pub price_bits: u64,
    pub volume: u32,
    pub timestamp: u64,
}

impl View for StockQuote {
    type V = QuoteView;

    open spec fn view(&self) -> QuoteView {
        QuoteView {
            ticker: self.ticker@,
            price_bits: self.price_bits,
            volume: self.volume,
            timestamp: self.timestamp,
        }
    }
}

/// The ticker field of a packet: the UTF-8 bytes of the ticker cut to
/// `TICKER_SIZE` bytes, padded with zero bytes when shorter.
pub open spec fn ticker_field(ticker: Seq<char>) -> Seq<u8> {
    let b = encode_utf8(ticker);
    if b.len() >= 8 {
        b.take(8)
    } else {
        b + Seq::new((8 - b.len()) as nat, |i: int| 0u8)
    }
}

/// The packet that encodes a quote.
pub open spec fn packet_bytes(q: QuoteView) -> Seq<u8> {
    ticker_field(q.ticker) + be_bytes(q.price_bits as nat, 8) + be_bytes(q.volume as nat, 4)
        + be_bytes(q.timestamp as nat, 8)
}

/// Number of leading bytes of `s` before its first zero byte (all of `s` when it has none).
pub open spec fn nonzero_prefix_len(s: Seq<u8>) -> nat
    decreases s.len(),
{
    if s.len() == 0 || s[0] == 0 {
        0
    } else {
        1 + nonzero_prefix_len(s.drop_first())
    }
}

/// The raw ticker bytes of a packet: its ticker field up to the first zero byte.
pub open spec fn raw_ticker(b: Seq<u8>) -> Seq<u8> {
    b.take(8).take(nonzero_prefix_len(b.take(8)) as int)
}

/// The quote that a byte buffer decodes to: `None` when the buffer is not
/// `PACKET_SIZE` bytes long or its raw ticker is not valid UTF-8.
pub open spec fn decode_packet(b: Seq<u8>) -> Option<QuoteView> {
    if b.len() != 28 || !valid_utf8(raw_ticker(b)) {
        None
    } else {
        Some(
            QuoteView {
                ticker: decode_utf8(raw_ticker(b)),
                price_bits: be_value(b.subrange(8, 16)) as u64,
                volume: be_value(b.subrange(16, 20)) as u32,
                timestamp: be_value(b.subrange(20, 28)) as u64,
            },
        )
    }
}

/// `std::str::from_utf8`: the string slice whose bytes are `bytes`, or
/// `None` when `bytes` is not well-formed UTF-8.
#[verifier::external_body]
fn str_from_utf8(bytes: &[u8]) -> (r: Option<&str>)
    ensures
        r is Some <==> valid_utf8(bytes@),
        r matches Some(s) ==> s.spec_bytes() == bytes@,
{
    match std::str::from_utf8(bytes) {
        Ok(s) => Some(s),
        Err(_) => None,
    }
}

proof fn lemma_nonzero_prefix(s: Seq<u8>, i: int)
    requires
        0 <= i <= s.len(),
        forall|k: int| 0 <= k < i ==> s[k] != 0,
        i == s.len() || s[i] == 0,
    ensures
        nonzero_prefix_len(s) == i,
    decreases s.len(),
{
    if i > 0 {
        lemma_nonzero_prefix(s.drop_first(), i - 1);
    }
}

/// Decoding the packet of a quote gives the quote back, whenever the UTF-8
/// encoding of its ticker fits in the ticker field and holds no zero byte.
pub proof fn lemma_packet_roundtrip(q: QuoteView)
    requires
        encode_utf8(q.ticker).len() <= TICKER_SIZE,
        !encode_utf8(q.ticker).contains(0u8),
    ensures
        decode_packet(packet_bytes(q)) == Some(q),
{
    let b = packet_bytes(q);
    let t = encode_utf8(q.ticker);
    lemma_be_bytes_len(q.price_bits as nat, 8);
    lemma_be_bytes_len(q.volume as nat, 4);
    lemma_be_bytes_len(q.timestamp as nat, 8);
    assert(b.take(8) =~= ticker_field(q.ticker));
    assert forall|k: int| 0 <= k < t.len() implies b.take(8)[k] != 0 by {
        assert(t[k] == b.take(8)[k]);
        if t[k] == 0 {
            assert(t.contains(0u8));
        }
    }
    lemma_nonzero_prefix(b.take(8), t.len() as int);
    assert(raw_ticker(b) =~= t);
    assert(b.subrange(8, 16) =~= be_bytes(q.price_bits as nat, 8));
    assert(b.subrange(16, 20) =~= be_bytes(q.volume as nat, 4));
    assert(b.subrange(20, 28) =~= be_bytes(q.timestamp as nat, 8));
    reveal_with_fuel(pow256, 9);
    lemma_be_roundtrip(q.price_bits as nat, 8);
    lemma_be_roundtrip(q.volume as nat, 4);
    lemma_be_roundtrip(q.timestamp as nat, 8);
}

/// No byte of the UTF-8 encoding of a character other than NUL is zero.
proof fn lemma_scalar_bytes_nonzero(c: char)
    requires
        c != '\0',
    ensures
        !encode_scalar(c as u32).contains(0u8),
{
    let s = c as u32;
    assert(1 <= s <= 0x7f ==> leading_byte_width_1(s) != 0) by (bit_vector);
    assert(leading_byte_width_2(s) != 0 && leading_byte_width_3(s) != 0 && leading_byte_width_4(s)
        != 0) by (bit_vector);
    assert(last_continuation_byte(s) != 0 && second_last_continuation_byte(s) != 0
        && third_last_continuation_byte(s) != 0) by (bit_vector);
    let e = encode_scalar(s);
    assert forall|k: int| 0 <= k < e.len() implies e[k] != 0u8 by {}
}

/// A ticker without a NUL character has no zero byte in its UTF-8 encoding.
pub proof fn lemma_utf8_no_zero(chars: Seq<char>)
    requires
        !chars.contains('\0'),
    ensures
        !encode_utf8(chars).contains(0u8),
    decreases chars.len(),
{
    if chars.len() > 0 {
        let rest = chars.drop_first();
        assert(!rest.contains('\0')) by {
            if rest.contains('\0') {
                let k = choose|k: int| 0 <= k < rest.len() && rest[k] == '\0';
                assert(chars[k + 1] == '\0');
            }
        }
        lemma_utf8_no_zero(rest);
        assert(chars[0] != '\0') by {
            if chars[0] == '\0' {
                assert(chars.contains('\0'));
            }
        }
        lemma_scalar_bytes_nonzero(chars[0]);
        let a = encode_scalar(chars[0] as u32);
        let b = encode_utf8(rest);
        assert forall|k: int| 0 <= k < (a + b).len() implies (a + b)[k] != 0u8 by {
            if k < a.len() {
                assert(a[k] != 0u8) by {
                    if a[k] == 0u8 {
                        assert(a.contains(0u8));
                    }
                }
            } else {
                assert((a + b)[k] == b[k - a.len()]);
                if b[k - a.len()] == 0u8 {
                    assert(b.contains(0u8));
                }
            }
        }
    }
}

/// Decoding the packet of a quote gives the quote back, whenever the UTF-8
/// encoding of its ticker fits in the ticker field and the ticker holds no
/// NUL character.
pub proof fn lemma_packet_roundtrip_ticker(q: QuoteView)
    requires
        encode_utf8(q.ticker).len() <= TICKER_SIZE,
        !q.ticker.contains('\0'),
    ensures
        decode_packet(packet_bytes(q)) == Some(q),
{
    lemma_utf8_no_zero(q.ticker);
    lemma_packet_roundtrip(q);
}

/// A buffer whose ticker field holds the UTF-8 bytes of a ticker without NUL
/// characters, padded with zero bytes, decodes to a quote with that ticker and
/// is re-encoded from it byte for byte.
pub proof fn lemma_packet_canonical(b: Seq<u8>, ticker: Seq<char>)
    requires
        b.len() == PACKET_SIZE,
        encode_utf8(ticker).len() <= TICKER_SIZE,
        !ticker.contains('\0'),
        b.take(8) == ticker_field(ticker),
    ensures
        decode_packet(b) is Some,
        decode_packet(b)->0.ticker == ticker,
        packet_bytes(decode_packet(b)->0) == b,
{
    let t = encode_utf8(ticker);
    lemma_utf8_no_zero(ticker);
    assert forall|k: int| 0 <= k < t.len() implies b.take(8)[k] != 0 by {
        assert(t[k] == b.take(8)[k]);
        if t[k] == 0 {
            assert(t.contains(0u8));
        }
    }
    lemma_nonzero_prefix(b.take(8), t.len() as int);
    assert(raw_ticker(b) =~= t);
    encode_utf8_valid_utf8(ticker);
    encode_utf8_decode_utf8(ticker);
    assert forall|k: int| raw_ticker(b).len() <= k < TICKER_SIZE implies b[k] == 0 by {
        assert(b[k] == b.take(8)[k]);
    }
    lemma_packet_reencode(b);
}

/// A packet whose ticker field is its raw ticker followed only by zero bytes
/// is re-encoded byte for byte from the quote it decodes to.
pub proof fn lemma_packet_reencode(b: Seq<u8>)
    requires
        decode_packet(b) is Some,
        forall|k: int| raw_ticker(b).len() <= k < TICKER_SIZE ==> b[k] == 0,
    ensures
        packet_bytes(decode_packet(b)->0) == b,
{
    let q = decode_packet(b)->0;
    let raw = raw_ticker(b);
    lemma_nonzero_prefix_bound(b.take(8));
    assert(encode_utf8(q.ticker) == raw);
    lemma_be_value_bound(b.subrange(8, 16));
    lemma_be_value_bound(b.subrange(16, 20));
    lemma_be_value_bound(b.subrange(20, 28));
    reveal_with_fuel(pow256, 9);
    lemma_be_value_bytes(b.subrange(8, 16));
    lemma_be_value_bytes(b.subrange(16, 20));
    lemma_be_value_bytes(b.subrange(20, 28));
    assert(ticker_field(q.ticker) =~= b.take(8));
    assert(b =~= b.take(8) + b.subrange(8, 16) + b.subrange(16, 20) + b.subrange(20, 28));
}

proof fn lemma_nonzero_prefix_bound(s: Seq<u8>)
    ensures
        nonzero_prefix_len(s) <= s.len(),
    decreases s.len(),
{
    if s.len() > 0 && s[0] != 0 {
        lemma_nonzero_prefix_bound(s.drop_first());
    }
}

impl StockQuote {
    /// Encodes the quote as a `PACKET_SIZE`-byte big-endian packet.
    pub fn to_bytes(&self) -> (r: [u8; PACKET_SIZE])
        ensures
            r@ == packet_bytes(self@),
    {
        let mut buf = [0u8; PACKET_SIZE];
        let tb = self.ticker.as_str().as_bytes();
        let len = if tb.len() < TICKER_SIZE {
            tb.len()
        } else {
            TICKER_SIZE
        };
        let mut i: usize = 0;
        while i < len
            invariant
                len <= 8,
                len <= tb@.len(),
                i <= len,
                buf@.len() == 28,
                forall|k: int| 0 <= k < i ==> buf@[k] == tb@[k],
                forall|k: int| i <= k < 28 ==> buf@[k] == 0,
            decreases len - i,
        {
            buf[i] = tb[i];
            i = i + 1;
        }
        assert(buf@.subrange(0, 8) =~= ticker_field(self.ticker@));
        write_be(&mut buf, 8, self.price_bits, 8);
        write_be(&mut buf, 16, self.volume as u64, 4);
        write_be(&mut buf, 20, self.timestamp, 8);
        proof {
            lemma_be_bytes_len(self.price_bits as nat, 8);
            lemma_be_bytes_len(self.volume as nat, 4);
            lemma_be_bytes_len(self.timestamp as nat, 8);
        }
        assert(buf@ =~= packet_bytes(self@));
        buf
    }

    /// Decodes a packet: `None` when `buf` is not `PACKET_SIZE` bytes long or
    /// its ticker (the bytes before the first zero in the ticker field) is not
    /// valid UTF-8.
    pub fn from_bytes(buf: &[u8]) -> (r: Option<StockQuote>)
        ensures
            match r {
                Some(q) => decode_packet(buf@) == Some(q@),
                None => decode_packet(buf@) is None,
            },
    {
        if buf.len() != PACKET_SIZE {
            return None;
        }
        let mut end: usize = 0;
        while end < TICKER_SIZE && buf[end] != 0
            invariant
                buf@.len() == 28,
                end <= 8,
                forall|k: int| 0 <= k < end ==> buf@[k] != 0,
            decreases 8 - end,
        {
            end = end + 1;
        }
        proof {
            lemma_nonzero_prefix(buf@.take(8), end as int);
        }
        let raw = vstd::slice::slice_subrange(buf, 0, end);
        assert(raw@ =~= raw_ticker(buf@));
        match str_from_utf8(raw) {
            None => None,
            Some(s) => {
                let ticker = s.to_owned();
                proof {
                    encode_utf8_decode_utf8(s@);
                }
                let price_bits = read_be(buf, 8, 8);
                let volume = read_be(buf, 16, 4);
                let timestamp = read_be(buf, 20, 8);
                proof {
                    lemma_be_value_bound(buf@.subrange(16, 20));
                    reveal_with_fuel(pow256, 5);
                }
                Some(
                    StockQuote {
                        ticker,
                        price_bits,
                        volume: volume as u32,
                        timestamp,
                    },
                )
            },
        }
    }
}

/// The fields of a quote in the text format `TICKER|PRICE|VOLUME|TIMESTAMP`,
/// with the price still as its text.
#[derive(Debug, Clone)]
pub struct TextQuote {
    pub ticker: String,
    pub price: String,
    pub volume: u32,
    pub timestamp: u64,
}

/// The mathematical model of the fields of a text quote.
pub struct TextQuoteView {
    pub ticker: Seq<char>,
    pub price: Seq<char>,
    pub volume: u32,
    pub timestamp: u64,
}

impl View for TextQuote {
    type V = TextQuoteView;

    open spec fn view(&self) -> TextQuoteView {
        TextQuoteView {
            ticker: self.ticker@,
            price: self.price@,
            volume: self.volume,
            timestamp: self.timestamp,
        }
    }
}

/// The text form `TICKER|PRICE|VOLUME|TIMESTAMP` of a quote whose price is
/// written as `price`.
pub open spec fn text_of(q: QuoteView, price: Seq<char>) -> Seq<char> {
    join(seq![q.ticker, price, decimal(q.volume as nat), decimal(q.timestamp as nat)], '|')
}

/// What reading the text form gives: `None` unless the text has exactly four
/// `|`-separated fields, the second one that `f64::from_str` accepts, the
/// third a `u32` and the fourth a `u64`.
pub open spec fn parse_text(s: Seq<char>) -> Option<TextQuoteView> {
    let parts = split_on(s, '|');
    if parts.len() != 4 || !float_text(parts[1]) {
        None
    } else {
        match (parse_unsigned(parts[2], u32::MAX as nat), parse_unsigned(parts[3], u64::MAX as nat)) {
            (Some(volume), Some(timestamp)) => Some(
                TextQuoteView {
                    ticker: parts[0],
                    price: parts[1],
                    volume: volume as u32,
                    timestamp: timestamp as u64,
                },
            ),
            _ => None,
        }
    }
}

impl StockQuote {
    /// The text form `TICKER|PRICE|VOLUME|TIMESTAMP` of the quote, with the
    /// price written as `price_text` (the `Display` form of the `f64` price).
    pub fn serialize(&self, price_text: &str) -> (r: String)
        ensures
            r@ == text_of(self@, price_text@),
    {
        let mut s = String::new();
        push_str(&mut s, self.ticker.as_str());
        push_char(&mut s, '|');
        push_str(&mut s, price_text);
        push_char(&mut s, '|');
        push_decimal(&mut s, self.volume as u64);
        push_char(&mut s, '|');
        push_decimal(&mut s, self.timestamp);
        proof {
            let items = seq![self.ticker@, price_text@, decimal(self.volume as nat), decimal(
                self.timestamp as nat,
            )];
            assert(items.drop_last().drop_last().drop_last() =~= seq![self.ticker@]);
            assert(items.drop_last().drop_last() =~= seq![self.ticker@, price_text@]);
            assert(items.drop_last() =~= seq![self.ticker@, price_text@, decimal(self.volume as nat)]);
            reveal_with_fuel(join, 4);
        }
        assert(s@ =~= text_of(self@, price_text@));
        s
    }

    /// Reads the text form `TICKER|PRICE|VOLUME|TIMESTAMP`: `None` unless
    /// there are exactly four fields, the price is a text that `f64::from_str`
    /// accepts, and the volume and timestamp are unsigned numbers that fit a
    /// `u32` and a `u64`. The price is handed back as that text.
    pub fn deserialize(s: &str) -> (r: Option<TextQuote>)
        ensures
            match r {
                Some(t) => parse_text(s@) == Some(t@),
                None => parse_text(s@) is None,
            },
    {
        let v = chars_of(s);
        let parts = split_chars(v.as_slice(), '|');
        let ghost ps = char_seqs(parts@);
        assert(ps.len() == parts@.len());
        if parts.len() != 4 {
            return None;
        }
        assert(parts@[2]@ == ps[2]);
        assert(parts@[3]@ == ps[3]);
        assert(parts@[0]@ == ps[0]);
        assert(parts@[1]@ == ps[1]);
        if !is_float_text(parts[1].as_slice()) {
            return None;
        }
        let volume = match parse_unsigned_chars(parts[2].as_slice(), 0xffff_ffff) {
            None => {
                return None;
            },
            Some(x) => x as u32,
        };
        let timestamp = match parse_unsigned_chars(parts[3].as_slice(), 0xffff_ffff_ffff_ffff) {
            None => {
                return None;
            },
            Some(x) => x,
        };
        Some(
            TextQuote {
                ticker: string_of(parts[0].as_slice()),
                price: string_of(parts[1].as_slice()),
                volume,
                timestamp,
            },
        )
    }
}

/// Reading the text form of a quote gives back its ticker, its price text,
/// volume and timestamp, when the ticker holds no `|` and `f64::from_str`
/// accepts the price text.
pub proof fn lemma_text_roundtrip(q: QuoteView, price: Seq<char>)
    requires
        !q.ticker.contains('|'),
        float_text(price),
    ensures
        parse_text(text_of(q, price)) == Some(
            TextQuoteView {
                ticker: q.ticker,
                price,
                volume: q.volume,
                timestamp: q.timestamp,
            },
        ),
{
    let dv = decimal(q.volume as nat);
    let dt = decimal(q.timestamp as nat);
    lemma_decimal_digits(q.volume as nat);
    lemma_decimal_digits(q.timestamp as nat);
    assert(!dv.contains('|')) by {
        if dv.contains('|') {
            let k = choose|k: int| 0 <= k < dv.len() && dv[k] == '|';
            assert(is_digit(dv[k]));
        }
    }
    assert(!dt.contains('|')) by {
        if dt.contains('|') {
            let k = choose|k: int| 0 <= k < dt.len() && dt[k] == '|';
            assert(is_digit(dt[k]));
        }
    }
    crate::float_text::lemma_float_text_no_bar(price);
    let items = seq![q.ticker, price, dv, dt];
    assert forall|i: int| 0 <= i < items.len() implies !(#[trigger] items[i]).contains('|') by {
        if i == 0 {
        } else if i == 1 {
        } else if i == 2 {
        } else {
        }
    }
    lemma_split_join(items, '|');
    lemma_parse_decimal(q.volume as nat, u32::MAX as nat);
    lemma_parse_decimal(q.timestamp as nat, u64::MAX as nat);
}

} // verus!
