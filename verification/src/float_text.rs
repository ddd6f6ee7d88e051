//! Which texts `f64`'s `FromStr` accepts, decided on characters alone: an
//! optional sign, then `inf`, `infinity` or `nan` in any case, or digits with
//! at most one `.` (at least one digit in all) and an optional exponent `e`
//! or `E`, an optional sign and at least one digit.
use vstd::prelude::*;
use crate::decimal::{all_digits, is_digit};
use crate::text::{chars_equal, copy_range, find_first, find_first_char, lemma_find_first};
use crate::ticker_laws::{ascii_lower_char, ascii_lowercase};

verus! {

/// `s` without one leading `+` or `-`.
pub open spec fn strip_sign(s: Seq<char>) -> Seq<char> {
    if s.len() > 0 && (s[0] == '+' || s[0] == '-') {
        s.drop_first()
    } else {
        s
    }
}

/// Digits with at most one `.` among them, and at least one digit.
pub open spec fn is_mantissa(m: Seq<char>) -> bool {
    match find_first(m, '.') {
        None => m.len() > 0 && all_digits(m),
        Some(d) => m.len() > 1 && all_digits(m.take(d)) && all_digits(m.skip(d + 1)),
    }
}

/// The part after an exponent mark: an optional sign and at least one digit.
pub open spec fn is_exponent(x: Seq<char>) -> bool {
    strip_sign(x).len() > 0 && all_digits(strip_sign(x))
}

/// A number in lower case: a mantissa, then optionally `e` and an exponent.
pub open spec fn is_number(b: Seq<char>) -> bool {
    match find_first(b, 'e') {
        None => is_mantissa(b),
        Some(k) => is_mantissa(b.take(k)) && is_exponent(b.skip(k + 1)),
    }
}

pub open spec fn inf_word() -> Seq<char> {
    seq!['i', 'n', 'f']
}

pub open spec fn infinity_word() -> Seq<char> {
    seq!['i', 'n', 'f', 'i', 'n', 'i', 't', 'y']
}

pub open spec fn nan_word() -> Seq<char> {
    seq!['n', 'a', 'n']
}

/// Whether `f64::from_str` accepts `s`: after an optional sign, the rest in
/// ASCII lower case is `inf`, `infinity`, `nan` or a number.
pub open spec fn float_text(s: Seq<char>) -> bool {
    let b = ascii_lowercase(strip_sign(s));
    b == inf_word() || b == infinity_word() || b == nan_word() || is_number(b)
}

/// `c` in ASCII lower case.
fn lower_char(c: char) -> (r: char)
    ensures
        r == ascii_lower_char(c),
{
    if 'A' <= c && c <= 'Z' {
        let b: u8 = c as u8;
        assert(b as u32 == c as u32) by {
            assert(65 <= c as u32 <= 90);
        }
        let r = (b + 32) as char;
        assert(r as u32 == (c as u32) + 32);
        r
    } else {
        c
    }
}

/// Whether every character of `v` is a decimal digit.
fn all_digit_chars(v: &[char]) -> (r: bool)
    ensures
        r == all_digits(v@),
{
    let mut i: usize = 0;
    while i < v.len()
        invariant
            i <= v@.len(),
            forall|k: int| 0 <= k < i ==> is_digit(#[trigger] v@[k]),
        decreases v@.len() - i,
    {
        if !('0' <= v[i] && v[i] <= '9') {
            assert(!is_digit(v@[i as int]));
            return false;
        }
        i = i + 1;
    }
    true
}

fn check_mantissa(m: &[char]) -> (r: bool)
    ensures
        r == is_mantissa(m@),
{
    proof {
        lemma_find_first(m@, '.');
    }
    match find_first_char(m, '.') {
        None => m.len() > 0 && all_digit_chars(m),
        Some(d) => {
            let n = m.len();
            assert(d < n);
            let head = copy_range(m, 0, d);
            let tail = copy_range(m, d + 1, m.len());
            assert(head@ =~= m@.take(d as int));
            assert(tail@ =~= m@.skip(d + 1));
            m.len() > 1 && all_digit_chars(head.as_slice()) && all_digit_chars(tail.as_slice())
        },
    }
}

fn check_exponent(x: &[char]) -> (r: bool)
    ensures
        r == is_exponent(x@),
{
    let start: usize = if x.len() > 0 && (x[0] == '+' || x[0] == '-') {
        1
    } else {
        0
    };
    let d = copy_range(x, start, x.len());
    assert(d@ =~= strip_sign(x@));
    d.len() > 0 && all_digit_chars(d.as_slice())
}

fn check_number(b: &[char]) -> (r: bool)
    ensures
        r == is_number(b@),
{
    proof {
        lemma_find_first(b@, 'e');
    }
    match find_first_char(b, 'e') {
        None => check_mantissa(b),
        Some(k) => {
            let n = b.len();
            assert(k < n);
            let head = copy_range(b, 0, k);
            let tail = copy_range(b, k + 1, b.len());
            assert(head@ =~= b@.take(k as int));
            assert(tail@ =~= b@.skip(k + 1));
            check_mantissa(head.as_slice()) && check_exponent(tail.as_slice())
        },
    }
}

/// Whether `f64::from_str` accepts the text `v` (see `float_text`).
pub fn is_float_text(v: &[char]) -> (r: bool)
    ensures
        r == float_text(v@),
{
    let start: usize = if v.len() > 0 && (v[0] == '+' || v[0] == '-') {
        1
    } else {
        0
    };
    let mut b: Vec<char> = Vec::new();
    let mut i: usize = start;
    while i < v.len()
        invariant
            start <= i <= v@.len(),
            b@ == ascii_lowercase(v@.subrange(start as int, i as int)),
        decreases v@.len() - i,
    {
        let c = lower_char(v[i]);
        b.push(c);
        i = i + 1;
        assert(b@ =~= ascii_lowercase(v@.subrange(start as int, i as int)));
    }
    assert(v@.subrange(start as int, v@.len() as int) =~= strip_sign(v@));
    let inf = ['i', 'n', 'f'];
    let infinity = ['i', 'n', 'f', 'i', 'n', 'i', 't', 'y'];
    let nan = ['n', 'a', 'n'];
    assert(inf@ =~= inf_word());
    assert(infinity@ =~= infinity_word());
    assert(nan@ =~= nan_word());
    chars_equal(b.as_slice(), &inf) || chars_equal(b.as_slice(), &infinity) || chars_equal(
        b.as_slice(),
        &nan,
    ) || check_number(b.as_slice())
}

/// The characters of a mantissa are digits and `.`.
proof fn lemma_mantissa_chars(m: Seq<char>)
    requires
        is_mantissa(m),
    ensures
        forall|i: int| 0 <= i < m.len() ==> is_digit(#[trigger] m[i]) || m[i] == '.',
{
    lemma_find_first(m, '.');
    if let Some(d) = find_first(m, '.') {
        assert forall|i: int| 0 <= i < m.len() implies is_digit(#[trigger] m[i]) || m[i] == '.' by {
            if i < d {
                assert(m.take(d)[i] == m[i]);
            } else if i > d {
                assert(m.skip(d + 1)[i - d - 1] == m[i]);
            }
        }
    }
}

/// The characters of an exponent are digits and signs.
proof fn lemma_exponent_chars(x: Seq<char>)
    requires
        is_exponent(x),
    ensures
        forall|i: int| 0 <= i < x.len() ==> is_digit(#[trigger] x[i]) || x[i] == '+' || x[i] == '-',
{
    assert forall|i: int| 0 <= i < x.len() implies is_digit(#[trigger] x[i]) || x[i] == '+' || x[i]
        == '-' by {
        if x.len() > 0 && (x[0] == '+' || x[0] == '-') {
            if i > 0 {
                assert(strip_sign(x)[i - 1] == x[i]);
            }
        } else {
            assert(strip_sign(x)[i] == x[i]);
        }
    }
}

/// A text that `f64::from_str` accepts holds no `|`.
pub proof fn lemma_float_text_no_bar(p: Seq<char>)
    requires
        float_text(p),
    ensures
        !p.contains('|'),
{
    let t = strip_sign(p);
    let b = ascii_lowercase(t);
    assert(!b.contains('|')) by {
        if b.contains('|') {
            let k = choose|k: int| 0 <= k < b.len() && b[k] == '|';
            if b == inf_word() || b == infinity_word() || b == nan_word() {
            } else {
                lemma_find_first(b, 'e');
                match find_first(b, 'e') {
                    None => {
                        lemma_mantissa_chars(b);
                    },
                    Some(e) => {
                        lemma_mantissa_chars(b.take(e));
                        lemma_exponent_chars(b.skip(e + 1));
                        if k < e {
                            assert(b.take(e)[k] == b[k]);
                        } else if k > e {
                            assert(b.skip(e + 1)[k - e - 1] == b[k]);
                        }
                    },
                }
            }
        }
    }
    if p.contains('|') {
        let k = choose|k: int| 0 <= k < p.len() && p[k] == '|';
        if p.len() > 0 && (p[0] == '+' || p[0] == '-') {
            assert(k > 0);
            assert(t[k - 1] == p[k]);
            assert(b[k - 1] == ascii_lower_char(t[k - 1]));
        } else {
            assert(t[k] == p[k]);
            assert(b[k] == ascii_lower_char(t[k]));
        }
    }
}

/// Whether every character of `s` is an ASCII digit.
pub open spec fn digit_chars(s: Seq<char>) -> bool {
    forall|i: int| 0 <= i < s.len() ==> '0' <= #[trigger] s[i] && s[i] <= '9'
}

/// The mantissa `a`, or `a.b` when `dot` holds.
pub open spec fn mantissa_text(a: Seq<char>, dot: bool, b: Seq<char>) -> Seq<char> {
    if dot {
        a.push('.') + b
    } else {
        a
    }
}

proof fn lemma_lower_fixed(s: Seq<char>)
    requires
        forall|i: int| 0 <= i < s.len() ==> !('A' <= #[trigger] s[i] && s[i] <= 'Z'),
    ensures
        ascii_lowercase(s) == s,
{
    assert(ascii_lowercase(s) =~= s);
}

proof fn lemma_digits_mantissa(a: Seq<char>, dot: bool, b: Seq<char>)
    requires
        digit_chars(a),
        digit_chars(b),
        dot ==> a.len() + b.len() > 0,
        !dot ==> a.len() > 0 && b.len() == 0,
    ensures
        is_mantissa(mantissa_text(a, dot, b)),
        forall|i: int|
            0 <= i < mantissa_text(a, dot, b).len() ==> {
                let c = #[trigger] mantissa_text(a, dot, b)[i];
                c == '.' || ('0' <= c && c <= '9')
            },
{
    let m = mantissa_text(a, dot, b);
    assert(all_digits(a)) by {
        assert forall|i: int| 0 <= i < a.len() implies is_digit(#[trigger] a[i]) by {}
    }
    assert(all_digits(b)) by {
        assert forall|i: int| 0 <= i < b.len() implies is_digit(#[trigger] b[i]) by {}
    }
    if dot {
        let n = a.len() as int;
        assert forall|k: int| 0 <= k < n implies m[k] != '.' by {
            assert(m[k] == a[k]);
        }
        assert(m[n] == '.');
        crate::text::lemma_find_first_at(m, '.', n);
        assert(m.take(n) =~= a);
        assert(m.skip(n + 1) =~= b);
        assert forall|i: int| 0 <= i < m.len() implies {
            let c = #[trigger] m[i];
            c == '.' || ('0' <= c && c <= '9')
        } by {
            if i < n {
                assert(m[i] == a[i]);
            } else if i > n {
                assert(m[i] == b[i - n - 1]);
            }
        }
    } else {
        crate::text::lemma_find_first_at(m, '.', m.len() as int);
    }
}

/// An exponent mark with its optional sign, in lower case.
spec fn lower_exp(exp: Seq<char>) -> Seq<char> {
    if exp.len() > 0 {
        seq!['e'] + exp.drop_first()
    } else {
        exp
    }
}

/// The exponent part is well formed: empty with no digits, or `e`/`E`, an
/// optional sign, and at least one digit.
spec fn exp_part(exp: Seq<char>, c: Seq<char>) -> bool {
    &&& exp.len() == 0 ==> c.len() == 0
    &&& exp.len() > 0 ==> c.len() > 0 && (exp[0] == 'e' || exp[0] == 'E') && (exp.len() == 1 || (
    exp.len() == 2 && (exp[1] == '+' || exp[1] == '-')))
}

proof fn lemma_lower_numeral(m: Seq<char>, exp: Seq<char>, c: Seq<char>)
    requires
        forall|i: int| 0 <= i < m.len() ==> #[trigger] m[i] == '.' || ('0' <= m[i] && m[i] <= '9'),
        digit_chars(c),
        exp_part(exp, c),
    ensures
        ascii_lowercase(m + exp + c) == m + lower_exp(exp) + c,
{
    let body = m + exp + c;
    let lb = m + lower_exp(exp) + c;
    let le = lower_exp(exp);
    assert forall|i: int| 0 <= i < body.len() implies #[trigger] ascii_lowercase(body)[i] == lb[i] by {
        if i < m.len() {
            assert(body[i] == m[i]);
            assert(lb[i] == m[i]);
        } else if i < m.len() + exp.len() {
            let j = i - m.len();
            assert(body[i] == exp[j]);
            assert(lb[i] == le[j]);
            if j == 0 {
                assert((((('E' as u32) + 32) as char) as u32) == ('e' as u32));
            }
        } else {
            let j = i - m.len() - exp.len();
            assert(body[i] == c[j]);
            assert(lb[i] == c[j]);
        }
    }
    assert(ascii_lowercase(body) =~= lb);
}

proof fn lemma_number_numeral(m: Seq<char>, exp: Seq<char>, c: Seq<char>)
    requires
        is_mantissa(m),
        forall|i: int| 0 <= i < m.len() ==> #[trigger] m[i] == '.' || ('0' <= m[i] && m[i] <= '9'),
        digit_chars(c),
        exp_part(exp, c),
    ensures
        is_number(m + lower_exp(exp) + c),
{
    let lb = m + lower_exp(exp) + c;
    assert forall|k: int| 0 <= k < m.len() implies lb[k] != 'e' by {
        assert(lb[k] == m[k]);
    }
    if exp.len() == 0 {
        assert(lb =~= m);
        crate::text::lemma_find_first_at(lb, 'e', lb.len() as int);
    } else {
        let k = m.len() as int;
        assert(lb[k] == 'e');
        crate::text::lemma_find_first_at(lb, 'e', k);
        assert(lb.take(k) =~= m);
        let x = lb.skip(k + 1);
        assert(x =~= exp.drop_first() + c);
        if exp.len() == 1 {
            assert(x =~= c);
        } else {
            assert(x[0] == exp[1]);
            assert(x.drop_first() =~= c);
        }
        assert(strip_sign(x) == c);
        assert(all_digits(c)) by {
            assert forall|i: int| 0 <= i < c.len() implies is_digit(#[trigger] c[i]) by {}
        }
    }
}

/// `f64::from_str` accepts every decimal numeral: an optional sign, then
/// digits `a`, optionally `.` and digits `b` (at least one digit in all),
/// then optionally an exponent mark `e` or `E` with an optional sign and at
/// least one digit `c`.
pub proof fn lemma_float_text_numeral(
    sign: Seq<char>,
    a: Seq<char>,
    dot: bool,
    b: Seq<char>,
    exp: Seq<char>,
    c: Seq<char>,
)
    requires
        sign_part(sign),
        numeral_parts(a, dot, b, exp, c),
    ensures
        float_text(sign + mantissa_text(a, dot, b) + exp + c),
{
    let m = mantissa_text(a, dot, b);
    lemma_digits_mantissa(a, dot, b);
    let body = m + exp + c;
    let s = sign + body;
    assert(sign + m + exp + c =~= s);
    assert(m.len() > 0);
    assert(body[0] == m[0]);
    if sign.len() == 0 {
        assert(s =~= body);
    } else {
        assert(s.drop_first() =~= body);
    }
    assert(strip_sign(s) == body);
    lemma_lower_numeral(m, exp, c);
    lemma_number_numeral(m, exp, c);
}

/// `f64::from_str` accepts `inf`, `infinity` and `nan` in any mix of upper
/// and lower case, with an optional sign.
pub proof fn lemma_float_text_words(sign: Seq<char>, w: Seq<char>)
    requires
        sign_part(sign),
        ascii_lowercase(w) == inf_word() || ascii_lowercase(w) == infinity_word()
            || ascii_lowercase(w) == nan_word(),
    ensures
        float_text(sign + w),
{
    let s = sign + w;
    assert(ascii_lowercase(w).len() == w.len());
    assert(inf_word().len() == 3 && infinity_word().len() == 8 && nan_word().len() == 3);
    assert(w.len() > 0);
    assert(ascii_lowercase(w)[0] == 'i' || ascii_lowercase(w)[0] == 'n');
    assert(ascii_lowercase(w)[0] == ascii_lower_char(w[0]));
    assert(w[0] != '+' && w[0] != '-');
    if sign.len() == 0 {
        assert(s =~= w);
    } else {
        assert(s.drop_first() =~= w);
    }
    assert(strip_sign(s) == w);
}

/// Whether `sign` is empty, `+` or `-`.
pub open spec fn sign_part(sign: Seq<char>) -> bool {
    sign == seq!['+'] || sign == seq!['-'] || sign.len() == 0
}

/// Whether digits `a`, an optional `.` and digits `b`, an exponent mark with
/// its optional sign `exp`, and digits `c` make a decimal numeral: at least
/// one mantissa digit, and exponent digits exactly when there is a mark.
pub open spec fn numeral_parts(a: Seq<char>, dot: bool, b: Seq<char>, exp: Seq<char>, c: Seq<char>) -> bool {
    &&& digit_chars(a)
    &&& digit_chars(b)
    &&& digit_chars(c)
    &&& dot ==> a.len() + b.len() > 0
    &&& !dot ==> a.len() > 0 && b.len() == 0
    &&& exp.len() == 0 ==> c.len() == 0
    &&& exp.len() > 0 ==> c.len() > 0 && (exp[0] == 'e' || exp[0] == 'E') && (exp.len() == 1 || (
    exp.len() == 2 && (exp[1] == '+' || exp[1] == '-')))
}

/// A character that ASCII lower case leaves as a digit, `.`, `+` or `-` was
/// that character; one it turns into `e` was `e` or `E`.
proof fn lemma_lower_back(c: char)
    ensures
        (('0' <= ascii_lower_char(c) && ascii_lower_char(c) <= '9') || ascii_lower_char(c) == '.'
            || ascii_lower_char(c) == '+' || ascii_lower_char(c) == '-') ==> ascii_lower_char(c)
            == c,
        ascii_lower_char(c) == 'e' ==> c == 'e' || c == 'E',
{
    if 'A' <= c && c <= 'Z' {
        let n = (c as u32) + 32;
        assert((n as char) as u32 == n);
    }
}

/// A mantissa is digits `a`, optionally `.` and digits `b`.
proof fn lemma_mantissa_shape(m: Seq<char>) -> (r: (Seq<char>, bool, Seq<char>))
    requires
        is_mantissa(m),
    ensures
        m == mantissa_text(r.0, r.1, r.2),
        numeral_parts(r.0, r.1, r.2, Seq::empty(), Seq::empty()),
{
    lemma_find_first(m, '.');
    match find_first(m, '.') {
        None => {
            assert forall|i: int| 0 <= i < m.len() implies '0' <= #[trigger] m[i] && m[i] <= '9' by {
                assert(is_digit(m[i]));
            }
            (m, false, Seq::empty())
        },
        Some(d) => {
            let a = m.take(d);
            let b = m.skip(d + 1);
            assert(m =~= a.push('.') + b);
            assert forall|i: int| 0 <= i < a.len() implies '0' <= #[trigger] a[i] && a[i] <= '9' by {
                assert(is_digit(a[i]));
            }
            assert forall|i: int| 0 <= i < b.len() implies '0' <= #[trigger] b[i] && b[i] <= '9' by {
                assert(is_digit(b[i]));
            }
            (a, true, b)
        },
    }
}

/// `body` equals its ASCII lower case over `lo..hi` when the lower case
/// there holds only digits, `.`, `+` and `-`.
proof fn lemma_lower_range(body: Seq<char>, lo: int, hi: int)
    requires
        0 <= lo <= hi <= body.len(),
        forall|i: int|
            lo <= i < hi ==> {
                let c = #[trigger] ascii_lowercase(body)[i];
                ('0' <= c && c <= '9') || c == '.' || c == '+' || c == '-'
            },
    ensures
        body.subrange(lo, hi) == ascii_lowercase(body).subrange(lo, hi),
{
    assert forall|i: int| lo <= i < hi implies body[i] == #[trigger] ascii_lowercase(body)[i] by {
        lemma_lower_back(body[i]);
    }
    assert(body.subrange(lo, hi) =~= ascii_lowercase(body).subrange(lo, hi));
}

/// A body whose lower case has no exponent mark and is a mantissa is that
/// mantissa, as digits, `.` and digits.
proof fn lemma_plain_shape(body: Seq<char>) -> (r: (Seq<char>, bool, Seq<char>))
    requires
        is_mantissa(ascii_lowercase(body)),
    ensures
        body == mantissa_text(r.0, r.1, r.2),
        numeral_parts(r.0, r.1, r.2, Seq::empty(), Seq::empty()),
{
    let lb = ascii_lowercase(body);
    let r = lemma_mantissa_shape(lb);
    lemma_mantissa_chars(lb);
    lemma_lower_range(body, 0, body.len() as int);
    assert(body =~= body.subrange(0, body.len() as int));
    assert(lb =~= lb.subrange(0, lb.len() as int));
    r
}

/// A body whose lower case has its first exponent mark at `k`, a mantissa
/// before it and an exponent after it, is a numeral with an exponent.
proof fn lemma_exp_shape(body: Seq<char>, k: int) -> (r: (Seq<char>, bool, Seq<char>, Seq<char>, Seq<char>))
    requires
        0 <= k < body.len(),
        ascii_lowercase(body)[k] == 'e',
        is_mantissa(ascii_lowercase(body).take(k)),
        is_exponent(ascii_lowercase(body).skip(k + 1)),
    ensures
        body == mantissa_text(r.0, r.1, r.2) + r.3 + r.4,
        numeral_parts(r.0, r.1, r.2, r.3, r.4),
{
    let lb = ascii_lowercase(body);
    let m = lb.take(k);
    let x = lb.skip(k + 1);
    let (a, dot, b) = lemma_mantissa_shape(m);
    lemma_mantissa_chars(m);
    lemma_exponent_chars(x);
    assert forall|i: int| 0 <= i < k implies {
        let c = #[trigger] ascii_lowercase(body)[i];
        ('0' <= c && c <= '9') || c == '.' || c == '+' || c == '-'
    } by {
        assert(m[i] == lb[i]);
    }
    lemma_lower_range(body, 0, k);
    assert forall|i: int| k + 1 <= i < body.len() implies {
        let c = #[trigger] ascii_lowercase(body)[i];
        ('0' <= c && c <= '9') || c == '.' || c == '+' || c == '-'
    } by {
        assert(x[i - k - 1] == lb[i]);
    }
    lemma_lower_range(body, k + 1, body.len() as int);
    lemma_lower_back(body[k]);
    assert(lb[k] == ascii_lower_char(body[k]));
    let mark = body[k];
    let xsigned = x.len() > 0 && (x[0] == '+' || x[0] == '-');
    let exp = if xsigned {
        seq![mark, x[0]]
    } else {
        seq![mark]
    };
    let c = strip_sign(x);
    if xsigned {
        assert(x =~= seq![x[0]] + c);
    } else {
        assert(x =~= c);
    }
    assert(body.subrange(0, k) =~= m);
    assert(body.subrange(k + 1, body.len() as int) =~= x);
    assert(body =~= m + seq![mark] + x);
    assert(body =~= m + exp + c);
    assert(digit_chars(c)) by {
        assert forall|i: int| 0 <= i < c.len() implies '0' <= #[trigger] c[i] && c[i] <= '9' by {
            assert(is_digit(c[i]));
        }
    }
    (a, dot, b, exp, c)
}

/// Every text that `f64::from_str` accepts (see `float_text`) is an optional
/// sign followed by `inf`, `infinity` or `nan` in any case, or by a decimal
/// numeral: the grammar accepts nothing else.
pub proof fn lemma_float_text_shape(s: Seq<char>)
    requires
        float_text(s),
    ensures
        (exists|sign: Seq<char>, w: Seq<char>|
            s == sign + w && sign_part(sign) && (ascii_lowercase(w) == inf_word() || ascii_lowercase(w)
                == infinity_word() || ascii_lowercase(w) == nan_word())) || (exists|
            sign: Seq<char>,
            a: Seq<char>,
            dot: bool,
            b: Seq<char>,
            exp: Seq<char>,
            c: Seq<char>,
        |
            s == sign + mantissa_text(a, dot, b) + exp + c && sign_part(sign) && numeral_parts(
                a,
                dot,
                b,
                exp,
                c,
            )),
{
    let signed = s.len() > 0 && (s[0] == '+' || s[0] == '-');
    let sign = if signed {
        seq![s[0]]
    } else {
        Seq::<char>::empty()
    };
    let body = strip_sign(s);
    assert(s =~= sign + body);
    assert(sign_part(sign));
    let lb = ascii_lowercase(body);
    if lb == inf_word() || lb == infinity_word() || lb == nan_word() {
        assert(s == sign + body && sign_part(sign));
    } else {
        assert(is_number(lb));
        lemma_find_first(lb, 'e');
        match find_first(lb, 'e') {
            None => {
                let (a, dot, b) = lemma_plain_shape(body);
                let e = Seq::<char>::empty();
                assert(s =~= sign + mantissa_text(a, dot, b) + e + e);
                assert(numeral_parts(a, dot, b, e, e));
            },
            Some(k) => {
                let (a, dot, b, exp, c) = lemma_exp_shape(body, k);
                assert(s =~= sign + mantissa_text(a, dot, b) + exp + c);
            },
        }
    }
}

} // verus!
