//! The line parser: one JSON object per line, with string fields
//! `timestamp`, `level` and `target`, an object field `fields`, and an
//! optional array field `spans` of span-context objects. Values inside
//! `fields` and span contexts are restricted to strings, booleans, 64-bit
//! integers and 64-bit floats; a line of any other shape fails to parse as
//! a whole (and is skipped by ingestion, never fatal).
//!
//! The grammar below is the reference: each parsing function is proved to
//! return exactly what the corresponding specification function denotes.
//! One corner is deliberately narrower than full JSON: an escape naming a
//! surrogate half (`\uD800`..`\uDFFF`) is not accepted, so a line using a
//! surrogate pair spells its character directly instead.

use vstd::prelude::*;

use crate::text::{chars_of, str_eq, string_of_range};
use crate::value::{EqF64, JsonMessage, PseudoMap, Value};

verus! {

broadcast use vstd::utf8::char_u32_cast;

/// The deep content of a [`Value`]: strings by their characters, floats by
/// bit pattern and literal text.
#[verifier::ext_equal]
pub enum ValueModel {
    S(Seq<char>),
    B(bool),
    I(i64),
    F(u64, Seq<char>),
}

pub open spec fn value_model(v: Value) -> ValueModel {
    match v {
        Value::S(s) => ValueModel::S(s@),
        Value::B(b) => ValueModel::B(b),
        Value::I(i) => ValueModel::I(i),
        Value::F(f) => ValueModel::F(f.bits, f.text@),
    }
}

pub open spec fn fields_model(f: Seq<(String, Value)>) -> Seq<(Seq<char>, ValueModel)> {
    f.map_values(|p: (String, Value)| (p.0@, value_model(p.1)))
}

/// Names what serde_json's number parser yields for one numeric token: the
/// IEEE-754 bit pattern (or nothing, for a value out of range) is a
/// function of the token text alone.
pub uninterp spec fn float_bits_of(s: Seq<char>) -> Option<u64>;

/// Relies on serde_json: `from_str::<Number>` on one numeric token and
/// `as_f64`. The outcome depends on the token text alone.
#[verifier::external_body]
fn parse_float_bits(token: &str) -> (r: Option<u64>)
    ensures
        r == float_bits_of(token@),
{
    match serde_json::from_str::<serde_json::Number>(token) {
        Ok(n) => n.as_f64().map(|f| f.to_bits()),
        Err(_) => None,
    }
}

pub open spec fn is_ws(c: char) -> bool {
    c == ' ' || c == '\t' || c == '\n' || c == '\r'
}

pub open spec fn is_digit(c: char) -> bool {
    '0' <= c && c <= '9'
}

pub open spec fn digit_val(c: char) -> int {
    c as u32 - 48
}

pub open spec fn is_hex(c: char) -> bool {
    is_digit(c) || ('a' <= c && c <= 'f') || ('A' <= c && c <= 'F')
}

pub open spec fn hex_val(c: char) -> int {
    if is_digit(c) {
        c as u32 - 48
    } else if 'a' <= c && c <= 'f' {
        c as u32 - 87
    } else {
        c as u32 - 55
    }
}

/// The first index at or after `i` holding a non-whitespace character.
pub open spec fn sp_ws(s: Seq<char>, i: int) -> int
    decreases s.len() - i,
        when 0 <= i <= s.len()
{
    if i < s.len() && is_ws(s[i]) {
        sp_ws(s, i + 1)
    } else {
        i
    }
}

/// The first index at or after `i` holding a non-digit character.
pub open spec fn sp_digits_end(s: Seq<char>, i: int) -> int
    decreases s.len() - i,
        when 0 <= i <= s.len()
{
    if i < s.len() && is_digit(s[i]) {
        sp_digits_end(s, i + 1)
    } else {
        i
    }
}

/// The value of the digit run `s[i..j]`.
pub open spec fn sp_digits_val(s: Seq<char>, i: int, j: int) -> nat
    decreases j - i,
{
    if j <= i {
        0
    } else {
        sp_digits_val(s, i, j - 1) * 10 + (if is_digit(s[j - 1]) {
            digit_val(s[j - 1])
        } else {
            0
        }) as nat
    }
}

/// A longer digit run never has a smaller value.
pub proof fn lemma_digits_val_mono(s: Seq<char>, i: int, j1: int, j2: int)
    requires
        i <= j1 <= j2,
    ensures
        sp_digits_val(s, i, j1) <= sp_digits_val(s, i, j2),
    decreases j2 - j1,
{
    if j1 < j2 {
        lemma_digits_val_mono(s, i, j1, j2 - 1);
        assert(sp_digits_val(s, i, j2) >= sp_digits_val(s, i, j2 - 1) * 10);
    }
}

/// The escape character named by the letter after a backslash, for the
/// one-letter escapes.
pub open spec fn esc_char(c: char) -> Option<char> {
    if c == '"' {
        Some('"')
    } else if c == '\\' {
        Some('\\')
    } else if c == '/' {
        Some('/')
    } else if c == 'b' {
        Some('\u{0008}')
    } else if c == 'f' {
        Some('\u{000C}')
    } else if c == 'n' {
        Some('\n')
    } else if c == 'r' {
        Some('\r')
    } else if c == 't' {
        Some('\t')
    } else {
        None
    }
}

pub open spec fn sp_hex4(s: Seq<char>, i: int) -> int {
    hex_val(s[i]) * 4096 + hex_val(s[i + 1]) * 256 + hex_val(s[i + 2]) * 16 + hex_val(s[i + 3])
}

pub open spec fn hex4_ok(s: Seq<char>, i: int) -> bool {
    i + 4 <= s.len() && is_hex(s[i]) && is_hex(s[i + 1]) && is_hex(s[i + 2]) && is_hex(s[i + 3])
}

/// The rest of a string literal starting just after `i - 1 == '"'` (or an
/// escape boundary): the decoded content and the index just past the
/// closing quote. A raw control character, a bad escape, an unterminated
/// literal, or a `\u` escape naming a surrogate half yields nothing.
pub open spec fn sp_string_rest(s: Seq<char>, i: int) -> Option<(Seq<char>, int)>
    decreases s.len() - i,
        when 0 <= i
{
    if i >= s.len() {
        None
    } else if s[i] == '"' {
        Some((Seq::empty(), i + 1))
    } else if s[i] == '\\' {
        if i + 1 >= s.len() {
            None
        } else if s[i + 1] == 'u' {
            if !hex4_ok(s, i + 2) {
                None
            } else {
                let u = sp_hex4(s, i + 2);
                if 0xD800 <= u && u < 0xE000 {
                    None
                } else {
                    match sp_string_rest(s, i + 6) {
                        Some((t, j)) => Some((seq![(u as u32) as char] + t, j)),
                        None => None,
                    }
                }
            }
        } else {
            match esc_char(s[i + 1]) {
                Some(c) => match sp_string_rest(s, i + 2) {
                    Some((t, j)) => Some((seq![c] + t, j)),
                    None => None,
                },
                None => None,
            }
        }
    } else if (s[i] as u32) < 0x20 {
        None
    } else {
        match sp_string_rest(s, i + 1) {
            Some((t, j)) => Some((seq![s[i]] + t, j)),
            None => None,
        }
    }
}

/// The lexical shape of a JSON number at `i`: whether it has a fraction or
/// exponent part, and the index just past it.
pub open spec fn sp_num_shape(s: Seq<char>, i: int) -> Option<(bool, int)> {
    let p0 = if i < s.len() && s[i] == '-' {
        i + 1
    } else {
        i
    };
    if p0 >= s.len() || !is_digit(s[p0]) {
        None
    } else {
        let p1 = if s[p0] == '0' {
            p0 + 1
        } else {
            sp_digits_end(s, p0)
        };
        let (frac_ok, p2) = if p1 < s.len() && s[p1] == '.' {
            let q = sp_digits_end(s, p1 + 1);
            (q > p1 + 1, q)
        } else {
            (true, p1)
        };
        if !frac_ok {
            None
        } else {
            let has_frac = p2 != p1;
            if p2 < s.len() && (s[p2] == 'e' || s[p2] == 'E') {
                let p3 = if p2 + 1 < s.len() && (s[p2 + 1] == '+' || s[p2 + 1] == '-') {
                    p2 + 2
                } else {
                    p2 + 1
                };
                let p4 = sp_digits_end(s, p3);
                if p4 == p3 {
                    None
                } else {
                    Some((true, p4))
                }
            } else {
                Some((has_frac, p2))
            }
        }
    }
}

/// A JSON number at `i`, with the distinction the ingestion format makes:
/// an integral token whose value fits a 64-bit signed integer is an
/// integer; anything else (a fraction, an exponent, an overflowing
/// magnitude, or a negative zero) is a 64-bit float carried as the bit
/// pattern of its token together with the token text.
pub open spec fn sp_number(s: Seq<char>, i: int) -> Option<(ValueModel, int)> {
    match sp_num_shape(s, i) {
        None => None,
        Some((hasfx, end)) => {
            let neg = s[i] == '-';
            let token = s.subrange(i, end);
            let d0 = if neg {
                i + 1
            } else {
                i
            };
            let float = hasfx || (neg && s[d0] == '0');
            if float {
                match float_bits_of(token) {
                    Some(b) => Some((ValueModel::F(b, token), end)),
                    None => None,
                }
            } else {
                let mag = sp_digits_val(s, d0, end);
                if neg {
                    if mag <= 0x8000000000000000 {
                        Some((ValueModel::I((-(mag as int)) as i64), end))
                    } else {
                        match float_bits_of(token) {
                            Some(b) => Some((ValueModel::F(b, token), end)),
                            None => None,
                        }
                    }
                } else {
                    if mag <= 0x7fffffffffffffff {
                        Some((ValueModel::I(mag as i64), end))
                    } else {
                        match float_bits_of(token) {
                            Some(b) => Some((ValueModel::F(b, token), end)),
                            None => None,
                        }
                    }
                }
            }
        },
    }
}

/// A value of one of the four accepted kinds: string, boolean, integer or
/// float. Nulls, arrays and nested objects are not values of the format.
pub open spec fn sp_value4(s: Seq<char>, i: int) -> Option<(ValueModel, int)> {
    if i >= s.len() {
        None
    } else if s[i] == '"' {
        match sp_string_rest(s, i + 1) {
            Some((t, j)) => Some((ValueModel::S(t), j)),
            None => None,
        }
    } else if s[i] == 't' {
        if i + 4 <= s.len() && s[i + 1] == 'r' && s[i + 2] == 'u' && s[i + 3] == 'e' {
            Some((ValueModel::B(true), i + 4))
        } else {
            None
        }
    } else if s[i] == 'f' {
        if i + 5 <= s.len() && s[i + 1] == 'a' && s[i + 2] == 'l' && s[i + 3] == 's' && s[i + 4]
            == 'e' {
            Some((ValueModel::B(false), i + 5))
        } else {
            None
        }
    } else if s[i] == '-' || is_digit(s[i]) {
        sp_number(s, i)
    } else {
        None
    }
}

/// The first non-whitespace index at or after `i`.
pub fn scan_ws(v: &Vec<char>, i: usize) -> (j: usize)
    requires
        i <= v@.len(),
    ensures
        j == sp_ws(v@, i as int),
        i <= j <= v@.len(),
        j < v@.len() ==> !is_ws(v@[j as int]),
{
    let n = v.len();
    let mut j = i;
    while j < n && (v[j] == ' ' || v[j] == '\t' || v[j] == '\n' || v[j] == '\r')
        invariant
            i <= j <= n,
            n == v@.len(),
            sp_ws(v@, i as int) == sp_ws(v@, j as int),
        decreases n - j,
    {
        j += 1;
    }
    j
}

/// The first non-digit index at or after `i`.
pub fn scan_digits(v: &Vec<char>, i: usize) -> (j: usize)
    requires
        i <= v@.len(),
    ensures
        j == sp_digits_end(v@, i as int),
        i <= j <= v@.len(),
{
    let n = v.len();
    let mut j = i;
    while j < n && '0' <= v[j] && v[j] <= '9'
        invariant
            i <= j <= n,
            n == v@.len(),
            sp_digits_end(v@, i as int) == sp_digits_end(v@, j as int),
        decreases n - j,
    {
        j += 1;
    }
    j
}

/// The value of the digit run `v[i..j]`, or nothing if it exceeds `u64`.
fn digits_value(v: &Vec<char>, i: usize, j: usize) -> (r: Option<u64>)
    requires
        i <= j <= v@.len(),
    ensures
        (match r {
            Some(x) => x == sp_digits_val(v@, i as int, j as int),
            None => sp_digits_val(v@, i as int, j as int) > u64::MAX,
        }),
{
    let mut acc: u64 = 0;
    let mut k = i;
    while k < j
        invariant
            i <= k <= j <= v@.len(),
            acc == sp_digits_val(v@, i as int, k as int),
        decreases j - k,
    {
        let c = v[k];
        let d: u64 = if '0' <= c && c <= '9' {
            (c as u32 as u64) - 48
        } else {
            0
        };
        let next = match acc.checked_mul(10) {
            Some(m) => m.checked_add(d),
            None => None,
        };
        match next {
            Some(x) => {
                acc = x;
            },
            None => {
                proof {
                    assert(sp_digits_val(v@, i as int, k as int + 1) > u64::MAX);
                    lemma_digits_val_mono(v@, i as int, k as int + 1, j as int);
                }
                return None;
            },
        }
        k += 1;
    }
    Some(acc)
}

/// Decodes the rest of a string literal (the opening quote already
/// consumed), appending the content to `out` and returning the index just
/// past the closing quote.
pub fn parse_string_rest(v: &Vec<char>, i: usize, out: &mut String) -> (r: Option<usize>)
    requires
        i <= v@.len(),
    ensures
        (r is Some) == (sp_string_rest(v@, i as int) is Some),
        (r matches Some(j) ==> sp_string_rest(v@, i as int) matches Some(p) && p.1 == j as int
            && final(out)@ == old(out)@ + p.0 && i < j <= v@.len()),
    decreases v@.len() - i,
{
    if i >= v.len() {
        return None;
    }
    let c = v[i];
    if c == '"' {
        proof {
            assert(old(out)@ + Seq::<char>::empty() =~= old(out)@);
        }
        return Some(i + 1);
    }
    if c == '\\' {
        if i + 1 >= v.len() {
            return None;
        }
        let e = v[i + 1];
        if e == 'u' {
            if v.len() - i < 6 {
                proof {
                    assert(!hex4_ok(v@, i as int + 2));
                }
                return None;
            }
            let (ok, u) = hex4(v, i + 2);
            if !ok {
                return None;
            }
            if 0xD800 <= u && u < 0xE000 {
                return None;
            }
            match char::from_u32(u) {
                Some(ch) => {
                    proof {
                        assert(u == sp_hex4(v@, i as int + 2));
                        assert(ch as u32 == u);
                        vstd::utf8::char_u32_cast(ch, u);
                        assert((u as char) == ch);
                        assert(((sp_hex4(v@, i as int + 2) as u32) as char) == ch);
                    }
                    out.push(ch);
                    let r = parse_string_rest(v, i + 6, out);
                    proof {
                        if r is Some {
                            let p = sp_string_rest(v@, i as int + 6).unwrap();
                            assert(out@ =~= old(out)@ + (seq![ch] + p.0));
                        }
                    }
                    return r;
                },
                None => {
                    proof {
                        assert(false);
                    }
                    return None;
                },
            }
        }
        let ec = match e {
            '"' => Some('"'),
            '\\' => Some('\\'),
            '/' => Some('/'),
            'b' => Some('\u{0008}'),
            'f' => Some('\u{000C}'),
            'n' => Some('\n'),
            'r' => Some('\r'),
            't' => Some('\t'),
            _ => None,
        };
        proof {
            assert(ec == esc_char(e));
        }
        match ec {
            Some(ch) => {
                out.push(ch);
                let r = parse_string_rest(v, i + 2, out);
                proof {
                    if r is Some {
                        let p = sp_string_rest(v@, i as int + 2).unwrap();
                        assert(out@ =~= old(out)@ + (seq![ch] + p.0));
                    }
                }
                return r;
            },
            None => {
                return None;
            },
        }
    }
    if (c as u32) < 0x20 {
        return None;
    }
    out.push(c);
    let r = parse_string_rest(v, i + 1, out);
    proof {
        if r is Some {
            let p = sp_string_rest(v@, i as int + 1).unwrap();
            assert(out@ =~= old(out)@ + (seq![c] + p.0));
        }
    }
    r
}

/// One hex digit's value.
fn hex_digit(c: char) -> (r: (bool, u32))
    ensures
        r.0 == is_hex(c),
        r.0 ==> r.1 == hex_val(c) && r.1 < 16,
{
    if '0' <= c && c <= '9' {
        (true, (c as u32) - 48)
    } else if 'a' <= c && c <= 'f' {
        (true, (c as u32) - 87)
    } else if 'A' <= c && c <= 'F' {
        (true, (c as u32) - 55)
    } else {
        (false, 0)
    }
}

/// Four hex digits at `i`, as a code-unit value.
fn hex4(v: &Vec<char>, i: usize) -> (r: (bool, u32))
    requires
        i + 4 <= v@.len(),
    ensures
        r.0 == hex4_ok(v@, i as int),
        r.0 ==> r.1 == sp_hex4(v@, i as int) && r.1 < 0x10000,
{
    let n = v.len();
    let (ok0, d0) = hex_digit(v[i]);
    let (ok1, d1) = hex_digit(v[i + 1]);
    let (ok2, d2) = hex_digit(v[i + 2]);
    let (ok3, d3) = hex_digit(v[i + 3]);
    if ok0 && ok1 && ok2 && ok3 {
        let u = d0 * 4096 + d1 * 256 + d2 * 16 + d3;
        (true, u)
    } else {
        (false, 0)
    }
}

/// A JSON number at `i`, parsed and classified.
pub fn parse_number(v: &Vec<char>, i: usize) -> (r: Option<(Value, usize)>)
    requires
        i <= v@.len(),
    ensures
        (r is Some) == (sp_number(v@, i as int) is Some),
        (r matches Some(p) ==> sp_number(v@, i as int) matches Some(q) && value_model(p.0) == q.0
            && q.1 == p.1 as int && i < p.1 <= v@.len()),
{
    let n = v.len();
    let neg = i < n && v[i] == '-';
    let p0 = if neg {
        i + 1
    } else {
        i
    };
    if p0 >= n || !('0' <= v[p0] && v[p0] <= '9') {
        return None;
    }
    let p1 = if v[p0] == '0' {
        p0 + 1
    } else {
        let t = scan_digits(v, p0 + 1);
        proof {
            assert(sp_digits_end(v@, p0 as int) == sp_digits_end(v@, p0 as int + 1));
        }
        t
    };
    let (has_frac, p2): (bool, usize) = if p1 < n && v[p1] == '.' {
        let q = scan_digits(v, p1 + 1);
        if q == p1 + 1 {
            return None;
        }
        (true, q)
    } else {
        (false, p1)
    };
    let (hasfx, end): (bool, usize) = if p2 < n && (v[p2] == 'e' || v[p2] == 'E') {
        let p3 = if p2 + 1 < n && (v[p2 + 1] == '+' || v[p2 + 1] == '-') {
            p2 + 2
        } else {
            p2 + 1
        };
        let p4 = scan_digits(v, p3);
        if p4 == p3 {
            return None;
        }
        (true, p4)
    } else {
        (has_frac, p2)
    };
    proof {
        assert(sp_num_shape(v@, i as int) == Some((hasfx, end as int)));
    }
    let token = string_of_range(v, i, end);
    let float = hasfx || (neg && v[p0] == '0');
    let mut int_val: Option<i64> = None;
    if !float {
        match digits_value(v, p0, end) {
            Some(mag) => {
                if neg {
                    if mag <= 9223372036854775808u64 {
                        let x: i64 = if mag == 9223372036854775808u64 {
                            i64::MIN
                        } else {
                            -(mag as i64)
                        };
                        int_val = Some(x);
                    }
                } else {
                    if mag <= 9223372036854775807u64 {
                        int_val = Some(mag as i64);
                    }
                }
            },
            None => {
                proof {
                    assert(sp_digits_val(v@, p0 as int, end as int) > 0x8000000000000000);
                }
            },
        }
    }
    match int_val {
        Some(x) => Some((Value::I(x), end)),
        None => match parse_float_bits(token.as_str()) {
            Some(b) => Some((Value::F(EqF64 { bits: b, text: token }), end)),
            None => None,
        },
    }
}

/// A value of one of the four accepted kinds.
pub fn parse_value4(v: &Vec<char>, i: usize) -> (r: Option<(Value, usize)>)
    requires
        i <= v@.len(),
    ensures
        (r is Some) == (sp_value4(v@, i as int) is Some),
        (r matches Some(p) ==> sp_value4(v@, i as int) matches Some(q) && value_model(p.0) == q.0
            && q.1 == p.1 as int && i < p.1 <= v@.len()),
{
    let n = v.len();
    if i >= n {
        return None;
    }
    let c = v[i];
    if c == '"' {
        let mut out = String::new();
        match parse_string_rest(v, i + 1, &mut out) {
            Some(j) => {
                proof {
                    let p = sp_string_rest(v@, i as int + 1).unwrap();
                    assert(out@ =~= p.0);
                }
                Some((Value::S(out), j))
            },
            None => None,
        }
    } else if c == 't' {
        if n - i >= 4 && v[i + 1] == 'r' && v[i + 2] == 'u' && v[i + 3] == 'e' {
            Some((Value::B(true), i + 4))
        } else {
            None
        }
    } else if c == 'f' {
        if n - i >= 5 && v[i + 1] == 'a' && v[i + 2] == 'l' && v[i + 3] == 's' && v[i + 4] == 'e' {
            Some((Value::B(false), i + 5))
        } else {
            None
        }
    } else if c == '-' || ('0' <= c && c <= '9') {
        parse_number(v, i)
    } else {
        None
    }
}

/// The end of an arbitrary JSON value at `i`, whose content is ignored:
/// unknown record fields may hold any JSON at all.
pub open spec fn sp_skip_value(s: Seq<char>, i: int) -> Option<int>
    decreases s.len() - i, 0int,
        when 0 <= i
{
    if i >= s.len() {
        None
    } else if s[i] == '"' {
        match sp_string_rest(s, i + 1) {
            Some((t, j)) => Some(j),
            None => None,
        }
    } else if s[i] == 't' {
        if i + 4 <= s.len() && s[i + 1] == 'r' && s[i + 2] == 'u' && s[i + 3] == 'e' {
            Some(i + 4)
        } else {
            None
        }
    } else if s[i] == 'f' {
        if i + 5 <= s.len() && s[i + 1] == 'a' && s[i + 2] == 'l' && s[i + 3] == 's' && s[i + 4]
            == 'e' {
            Some(i + 5)
        } else {
            None
        }
    } else if s[i] == 'n' {
        if i + 4 <= s.len() && s[i + 1] == 'u' && s[i + 2] == 'l' && s[i + 3] == 'l' {
            Some(i + 4)
        } else {
            None
        }
    } else if s[i] == '-' || is_digit(s[i]) {
        match sp_num_shape(s, i) {
            Some((hasfx, e)) => Some(e),
            None => None,
        }
    } else if s[i] == '[' {
        sp_skip_arr(s, i + 1, true)
    } else if s[i] == '{' {
        sp_skip_obj(s, i + 1, true)
    } else {
        None
    }
}

/// The end of the rest of an ignored array, after `[` or a comma.
pub open spec fn sp_skip_arr(s: Seq<char>, i: int, first: bool) -> Option<int>
    decreases s.len() - i, 1int,
        when 0 <= i <= s.len()
{
    let j = sp_ws(s, i);
    if j < i || j >= s.len() {
        None
    } else if first && s[j] == ']' {
        Some(j + 1)
    } else {
        match sp_skip_value(s, j) {
            None => None,
            Some(e) => if e <= j || e > s.len() {
                None
            } else {
                let k = sp_ws(s, e);
                if k < e || k >= s.len() {
                    None
                } else if s[k] == ',' {
                    sp_skip_arr(s, k + 1, false)
                } else if s[k] == ']' {
                    Some(k + 1)
                } else {
                    None
                }
            },
        }
    }
}

/// The end of the rest of an ignored object, after `{` or a comma.
pub open spec fn sp_skip_obj(s: Seq<char>, i: int, first: bool) -> Option<int>
    decreases s.len() - i, 1int,
        when 0 <= i <= s.len()
{
    let j = sp_ws(s, i);
    if j < i || j >= s.len() {
        None
    } else if first && s[j] == '}' {
        Some(j + 1)
    } else if s[j] != '"' {
        None
    } else {
        match sp_string_rest(s, j + 1) {
            None => None,
            Some((key, e1)) => if e1 <= j || e1 > s.len() {
                None
            } else {
                let c = sp_ws(s, e1);
                if c < e1 || c >= s.len() || s[c] != ':' {
                    None
                } else {
                    let vs = sp_ws(s, c + 1);
                    if vs < c + 1 || vs > s.len() {
                        None
                    } else {
                        match sp_skip_value(s, vs) {
                        None => None,
                        Some(e) => if e <= c || e > s.len() {
                            None
                        } else {
                            let k = sp_ws(s, e);
                            if k < e || k >= s.len() {
                                None
                            } else if s[k] == ',' {
                                sp_skip_obj(s, k + 1, false)
                            } else if s[k] == '}' {
                                Some(k + 1)
                            } else {
                                None
                            }
                        },
                        }
                    }
                }
            },
        }
    }
}

pub fn skip_value(v: &Vec<char>, i: usize) -> (r: Option<usize>)
    requires
        i <= v@.len(),
    ensures
        (r is Some) == (sp_skip_value(v@, i as int) is Some),
        (r matches Some(j) ==> sp_skip_value(v@, i as int) == Some(j as int) && i < j <= v@.len()),
    decreases v@.len() - i, 0int,
{
    let n = v.len();
    if i >= n {
        return None;
    }
    let c = v[i];
    if c == '"' {
        let mut sink = String::new();
        match parse_string_rest(v, i + 1, &mut sink) {
            Some(j) => Some(j),
            None => None,
        }
    } else if c == 't' {
        if n - i >= 4 && v[i + 1] == 'r' && v[i + 2] == 'u' && v[i + 3] == 'e' {
            Some(i + 4)
        } else {
            None
        }
    } else if c == 'f' {
        if n - i >= 5 && v[i + 1] == 'a' && v[i + 2] == 'l' && v[i + 3] == 's' && v[i + 4] == 'e' {
            Some(i + 5)
        } else {
            None
        }
    } else if c == 'n' {
        if n - i >= 4 && v[i + 1] == 'u' && v[i + 2] == 'l' && v[i + 3] == 'l' {
            Some(i + 4)
        } else {
            None
        }
    } else if c == '-' || ('0' <= c && c <= '9') {
        // the shape scan, shared with parse_number
        let neg = c == '-';
        let p0 = if neg {
            i + 1
        } else {
            i
        };
        if p0 >= n || !('0' <= v[p0] && v[p0] <= '9') {
            return None;
        }
        let p1 = if v[p0] == '0' {
            p0 + 1
        } else {
            let t = scan_digits(v, p0 + 1);
            proof {
                assert(sp_digits_end(v@, p0 as int) == sp_digits_end(v@, p0 as int + 1));
            }
            t
        };
        let (has_frac, p2): (bool, usize) = if p1 < n && v[p1] == '.' {
            let q = scan_digits(v, p1 + 1);
            if q == p1 + 1 {
                return None;
            }
            (true, q)
        } else {
            (false, p1)
        };
        if p2 < n && (v[p2] == 'e' || v[p2] == 'E') {
            let p3 = if p2 + 1 < n && (v[p2 + 1] == '+' || v[p2 + 1] == '-') {
                p2 + 2
            } else {
                p2 + 1
            };
            let p4 = scan_digits(v, p3);
            if p4 == p3 {
                return None;
            }
            Some(p4)
        } else {
            Some(p2)
        }
    } else if c == '[' {
        skip_arr(v, i + 1, true)
    } else if c == '{' {
        skip_obj(v, i + 1, true)
    } else {
        None
    }
}

fn skip_arr(v: &Vec<char>, i: usize, first: bool) -> (r: Option<usize>)
    requires
        i <= v@.len(),
    ensures
        (r is Some) == (sp_skip_arr(v@, i as int, first) is Some),
        (r matches Some(j) ==> sp_skip_arr(v@, i as int, first) == Some(j as int) && i <= j
            <= v@.len()),
    decreases v@.len() - i, 1int,
{
    let n = v.len();
    let j = scan_ws(v, i);
    if j >= n {
        return None;
    }
    if first && v[j] == ']' {
        return Some(j + 1);
    }
    match skip_value(v, j) {
        None => None,
        Some(e) => {
            let k = scan_ws(v, e);
            if k >= n {
                return None;
            }
            if v[k] == ',' {
                skip_arr(v, k + 1, false)
            } else if v[k] == ']' {
                Some(k + 1)
            } else {
                None
            }
        },
    }
}

fn skip_obj(v: &Vec<char>, i: usize, first: bool) -> (r: Option<usize>)
    requires
        i <= v@.len(),
    ensures
        (r is Some) == (sp_skip_obj(v@, i as int, first) is Some),
        (r matches Some(j) ==> sp_skip_obj(v@, i as int, first) == Some(j as int) && i <= j
            <= v@.len()),
    decreases v@.len() - i, 1int,
{
    let n = v.len();
    let j = scan_ws(v, i);
    if j >= n {
        return None;
    }
    if first && v[j] == '}' {
        return Some(j + 1);
    }
    if !(v[j] == '"') {
        return None;
    }
    let mut sink = String::new();
    match parse_string_rest(v, j + 1, &mut sink) {
        None => None,
        Some(e1) => {
            let c = scan_ws(v, e1);
            if c >= n || !(v[c] == ':') {
                return None;
            }
            let vs = scan_ws(v, c + 1);
            match skip_value(v, vs) {
                None => None,
                Some(e) => {
                    let k = scan_ws(v, e);
                    if k >= n {
                        return None;
                    }
                    if v[k] == ',' {
                        skip_obj(v, k + 1, false)
                    } else if v[k] == '}' {
                        Some(k + 1)
                    } else {
                        None
                    }
                },
            }
        },
    }
}

/// An ordered field object of the four accepted value kinds, at `s[i] == '{'`.
pub open spec fn sp_fields(s: Seq<char>, i: int) -> Option<(Seq<(Seq<char>, ValueModel)>, int)> {
    if i >= s.len() || s[i] != '{' {
        None
    } else {
        let j = sp_ws(s, i + 1);
        if j < i + 1 || j >= s.len() {
            None
        } else if s[j] == '}' {
            Some((Seq::empty(), j + 1))
        } else {
            sp_pairs(s, j)
        }
    }
}

/// The pairs of a field object, from the first key on.
pub open spec fn sp_pairs(s: Seq<char>, i: int) -> Option<(Seq<(Seq<char>, ValueModel)>, int)>
    decreases s.len() - i,
        when 0 <= i
{
    if i >= s.len() || s[i] != '"' {
        None
    } else {
        match sp_string_rest(s, i + 1) {
            None => None,
            Some((key, e1)) => if e1 <= i || e1 > s.len() {
                None
            } else {
                let c = sp_ws(s, e1);
                if c < e1 || c >= s.len() || s[c] != ':' {
                    None
                } else {
                    let vs = sp_ws(s, c + 1);
                    if vs < c + 1 || vs > s.len() {
                        None
                    } else {
                        match sp_value4(s, vs) {
                            None => None,
                            Some((val, e2)) => if e2 <= vs || e2 > s.len() {
                                None
                            } else {
                                let k = sp_ws(s, e2);
                                if k < e2 || k >= s.len() {
                                    None
                                } else if s[k] == ',' {
                                    let nx = sp_ws(s, k + 1);
                                    if nx <= i || nx > s.len() {
                                        None
                                    } else {
                                        match sp_pairs(s, nx) {
                                            Some((rest, e3)) => Some(
                                                (seq![(key, val)] + rest, e3),
                                            ),
                                            None => None,
                                        }
                                    }
                                } else if s[k] == '}' {
                                    Some((seq![(key, val)], k + 1))
                                } else {
                                    None
                                }
                            },
                        }
                    }
                }
            },
        }
    }
}

/// The span-context array: objects of the accepted value kinds.
pub open spec fn sp_spans(s: Seq<char>, i: int) -> Option<
    (Seq<Seq<(Seq<char>, ValueModel)>>, int),
> {
    if i >= s.len() || s[i] != '[' {
        None
    } else {
        let j = sp_ws(s, i + 1);
        if j < i + 1 || j >= s.len() {
            None
        } else if s[j] == ']' {
            Some((Seq::empty(), j + 1))
        } else {
            sp_ctxs(s, j)
        }
    }
}

/// The elements of the span-context array, from the first object on.
pub open spec fn sp_ctxs(s: Seq<char>, i: int) -> Option<(Seq<Seq<(Seq<char>, ValueModel)>>, int)>
    decreases s.len() - i,
        when 0 <= i
{
    match sp_fields(s, i) {
        None => None,
        Some((ctx, e)) => if e <= i || e > s.len() {
            None
        } else {
            let k = sp_ws(s, e);
            if k < e || k >= s.len() {
                None
            } else if s[k] == ',' {
                let nx = sp_ws(s, k + 1);
                if nx <= i || nx > s.len() {
                    None
                } else {
                    match sp_ctxs(s, nx) {
                        Some((rest, e2)) => Some((seq![ctx] + rest, e2)),
                        None => None,
                    }
                }
            } else if s[k] == ']' {
                Some((seq![ctx], k + 1))
            } else {
                None
            }
        },
    }
}

/// Parses a field object at `s[i] == '{'`.
pub fn parse_fields(v: &Vec<char>, i: usize) -> (r: Option<(PseudoMap<String, Value>, usize)>)
    requires
        i <= v@.len(),
    ensures
        (r is Some) == (sp_fields(v@, i as int) is Some),
        (r matches Some(p) ==> sp_fields(v@, i as int) matches Some(q) && fields_model(p.0@)
            == q.0 && q.1 == p.1 as int && i < p.1 <= v@.len()),
{
    let n = v.len();
    if i >= n || !(v[i] == '{') {
        return None;
    }
    let j = scan_ws(v, i + 1);
    if j >= n {
        return None;
    }
    if v[j] == '}' {
        let out: PseudoMap<String, Value> = PseudoMap::new();
        proof {
            assert(fields_model(out@) =~= Seq::<(Seq<char>, ValueModel)>::empty());
        }
        return Some((out, j + 1));
    }
    let mut out: PseudoMap<String, Value> = PseudoMap::new();
    let ghost base = out@;
    match parse_pairs_into(v, j, &mut out) {
        Some(e) => {
            proof {
                let q = sp_pairs(v@, j as int).unwrap();
                assert(fields_model(out@) =~= fields_model(Seq::empty()) + q.0);
                assert(fields_model(Seq::empty()) =~= Seq::<(Seq<char>, ValueModel)>::empty());
                assert(fields_model(out@) =~= q.0);
            }
            Some((out, e))
        },
        None => None,
    }
}

/// Parses the pairs of a field object from the first key on, appending
/// them in order to `out`.
fn parse_pairs_into(v: &Vec<char>, i: usize, out: &mut PseudoMap<String, Value>) -> (r: Option<
    usize,
>)
    requires
        i <= v@.len(),
    ensures
        (r is Some) == (sp_pairs(v@, i as int) is Some),
        (r matches Some(j) ==> sp_pairs(v@, i as int) matches Some(q) && fields_model(
            final(out)@,
        ) == fields_model(old(out)@) + q.0 && q.1 == j as int && i < j <= v@.len()),
    decreases v@.len() - i,
{
    let n = v.len();
    if i >= n || !(v[i] == '"') {
        return None;
    }
    let mut key = String::new();
    let e1 = match parse_string_rest(v, i + 1, &mut key) {
        Some(e1) => e1,
        None => {
            return None;
        },
    };
    let c = scan_ws(v, e1);
    if c >= n || !(v[c] == ':') {
        return None;
    }
    let vs = scan_ws(v, c + 1);
    let (val, e2) = match parse_value4(v, vs) {
        Some(p) => p,
        None => {
            return None;
        },
    };
    let k = scan_ws(v, e2);
    if k >= n {
        return None;
    }
    let ghost keyv = key@;
    let ghost valm = value_model(val);
    if v[k] == ',' {
        let nx = scan_ws(v, k + 1);
        out.vals.push((key, val));
        let ghost mid = out@;
        let r = parse_pairs_into(v, nx, out);
        proof {
            if r is Some {
                let q = sp_pairs(v@, nx as int).unwrap();
                let qall = sp_pairs(v@, i as int).unwrap();
                assert(mid =~= old(out)@.push((mid.last().0, mid.last().1)));
                assert(fields_model(mid) =~= fields_model(old(out)@) + seq![(keyv, valm)]);
                assert(fields_model(out@) =~= fields_model(mid) + q.0);
                assert(qall.0 =~= seq![(keyv, valm)] + q.0);
                assert(fields_model(out@) =~= fields_model(old(out)@) + qall.0);
            }
        }
        r
    } else if v[k] == '}' {
        out.vals.push((key, val));
        proof {
            let qall = sp_pairs(v@, i as int).unwrap();
            assert(fields_model(out@) =~= fields_model(old(out)@) + seq![(keyv, valm)]);
            assert(qall.0 =~= seq![(keyv, valm)]);
        }
        Some(k + 1)
    } else {
        None
    }
}

/// The deep content of a span-context list.
pub open spec fn spans_model(ss: Seq<PseudoMap<String, Value>>) -> Seq<
    Seq<(Seq<char>, ValueModel)>,
> {
    ss.map_values(|p: PseudoMap<String, Value>| fields_model(p@))
}

/// Parses the span-context array at `s[i] == '['`.
pub fn parse_spans(v: &Vec<char>, i: usize) -> (r: Option<(Vec<PseudoMap<String, Value>>, usize)>)
    requires
        i <= v@.len(),
    ensures
        (r is Some) == (sp_spans(v@, i as int) is Some),
        (r matches Some(p) ==> sp_spans(v@, i as int) matches Some(q) && spans_model(p.0@) == q.0
            && q.1 == p.1 as int && i < p.1 <= v@.len()),
{
    let n = v.len();
    if i >= n || !(v[i] == '[') {
        return None;
    }
    let j = scan_ws(v, i + 1);
    if j >= n {
        return None;
    }
    if v[j] == ']' {
        let out: Vec<PseudoMap<String, Value>> = Vec::new();
        proof {
            assert(spans_model(out@) =~= Seq::<Seq<(Seq<char>, ValueModel)>>::empty());
        }
        return Some((out, j + 1));
    }
    let mut out: Vec<PseudoMap<String, Value>> = Vec::new();
    match parse_ctxs_into(v, j, &mut out) {
        Some(e) => {
            proof {
                let q = sp_ctxs(v@, j as int).unwrap();
                assert(spans_model(out@) =~= spans_model(Seq::empty()) + q.0);
                assert(spans_model(Seq::empty()) =~= Seq::<Seq<(Seq<char>, ValueModel)>>::empty());
                assert(spans_model(out@) =~= q.0);
            }
            Some((out, e))
        },
        None => None,
    }
}

/// Parses the elements of the span-context array from the first object on,
/// appending them in order to `out`.
fn parse_ctxs_into(v: &Vec<char>, i: usize, out: &mut Vec<PseudoMap<String, Value>>) -> (r: Option<
    usize,
>)
    requires
        i <= v@.len(),
    ensures
        (r is Some) == (sp_ctxs(v@, i as int) is Some),
        (r matches Some(j) ==> sp_ctxs(v@, i as int) matches Some(q) && spans_model(final(out)@)
            == spans_model(old(out)@) + q.0 && q.1 == j as int && i < j <= v@.len()),
    decreases v@.len() - i,
{
    let n = v.len();
    let (ctx, e) = match parse_fields(v, i) {
        Some(p) => p,
        None => {
            return None;
        },
    };
    let k = scan_ws(v, e);
    if k >= n {
        return None;
    }
    let ghost ctxm = fields_model(ctx@);
    if v[k] == ',' {
        let nx = scan_ws(v, k + 1);
        out.push(ctx);
        let ghost mid = out@;
        let r = parse_ctxs_into(v, nx, out);
        proof {
            if r is Some {
                let q = sp_ctxs(v@, nx as int).unwrap();
                let qall = sp_ctxs(v@, i as int).unwrap();
                assert(spans_model(mid) =~= spans_model(old(out)@) + seq![ctxm]);
                assert(spans_model(out@) =~= spans_model(mid) + q.0);
                assert(qall.0 =~= seq![ctxm] + q.0);
                assert(spans_model(out@) =~= spans_model(old(out)@) + qall.0);
            }
        }
        r
    } else if v[k] == ']' {
        out.push(ctx);
        proof {
            let qall = sp_ctxs(v@, i as int).unwrap();
            assert(spans_model(out@) =~= spans_model(old(out)@) + seq![ctxm]);
            assert(qall.0 =~= seq![ctxm]);
        }
        Some(k + 1)
    } else {
        None
    }
}

/// The deep content of a whole parsed record.
#[verifier::ext_equal]
pub struct RecordDeep {
    pub timestamp: Seq<char>,
    pub level: Seq<char>,
    pub target: Seq<char>,
    pub fields: Seq<(Seq<char>, ValueModel)>,
    pub spans: Seq<Seq<(Seq<char>, ValueModel)>>,
}

pub open spec fn record_deep(r: crate::value::RecordModel) -> RecordDeep {
    RecordDeep {
        timestamp: r.timestamp,
        level: r.level,
        target: r.target,
        fields: fields_model(r.fields),
        spans: r.spans.map_values(|f: Seq<(String, Value)>| fields_model(f)),
    }
}

/// The record fields collected so far while walking the top-level object.
#[verifier::ext_equal]
pub struct PartialRec {
    pub ts: Option<Seq<char>>,
    pub lv: Option<Seq<char>>,
    pub tg: Option<Seq<char>>,
    pub fs: Option<Seq<(Seq<char>, ValueModel)>>,
    pub sp: Option<Seq<Seq<(Seq<char>, ValueModel)>>>,
}

/// The record denoted once the closing brace has been read at `i - 1`:
/// only trailing whitespace may remain, the four required fields must have
/// been seen, and a missing span list defaults to empty.
pub open spec fn sp_finish(s: Seq<char>, i: int, st: PartialRec) -> Option<RecordDeep> {
    if !(0 <= i <= s.len()) {
        None
    } else {
        let t = sp_ws(s, i);
        if t != s.len() {
            None
        } else {
            match (st.ts, st.lv, st.tg, st.fs) {
                (Some(ts), Some(lv), Some(tg), Some(fs)) => Some(
                    RecordDeep {
                        timestamp: ts,
                        level: lv,
                        target: tg,
                        fields: fs,
                        spans: match st.sp {
                            Some(x) => x,
                            None => Seq::empty(),
                        },
                    },
                ),
                _ => None,
            }
        }
    }
}

/// The top-level pairs from the first key on. Each required key takes its
/// typed value and may appear only once; an unknown key's value is read and
/// ignored, whatever JSON it holds.
pub open spec fn sp_msg_pairs(s: Seq<char>, i: int, st: PartialRec) -> Option<RecordDeep>
    decreases s.len() - i,
        when 0 <= i
{
    if i >= s.len() || s[i] != '"' {
        None
    } else {
        match sp_string_rest(s, i + 1) {
            None => None,
            Some((key, e1)) => if e1 <= i || e1 > s.len() {
                None
            } else {
                let c = sp_ws(s, e1);
                if c < e1 || c >= s.len() || s[c] != ':' {
                    None
                } else {
                    let vs = sp_ws(s, c + 1);
                    if vs < c + 1 || vs > s.len() {
                        None
                    } else {
                        let stepped: Option<(PartialRec, int)> = if key == "timestamp"@ {
                            if st.ts is Some || vs >= s.len() || s[vs] != '"' {
                                None
                            } else {
                                match sp_string_rest(s, vs + 1) {
                                    Some((t, e)) => Some((PartialRec { ts: Some(t), ..st }, e)),
                                    None => None,
                                }
                            }
                        } else if key == "level"@ {
                            if st.lv is Some || vs >= s.len() || s[vs] != '"' {
                                None
                            } else {
                                match sp_string_rest(s, vs + 1) {
                                    Some((t, e)) => Some((PartialRec { lv: Some(t), ..st }, e)),
                                    None => None,
                                }
                            }
                        } else if key == "target"@ {
                            if st.tg is Some || vs >= s.len() || s[vs] != '"' {
                                None
                            } else {
                                match sp_string_rest(s, vs + 1) {
                                    Some((t, e)) => Some((PartialRec { tg: Some(t), ..st }, e)),
                                    None => None,
                                }
                            }
                        } else if key == "fields"@ {
                            if st.fs is Some {
                                None
                            } else {
                                match sp_fields(s, vs) {
                                    Some((f, e)) => Some((PartialRec { fs: Some(f), ..st }, e)),
                                    None => None,
                                }
                            }
                        } else if key == "spans"@ {
                            if st.sp is Some {
                                None
                            } else {
                                match sp_spans(s, vs) {
                                    Some((x, e)) => Some((PartialRec { sp: Some(x), ..st }, e)),
                                    None => None,
                                }
                            }
                        } else {
                            match sp_skip_value(s, vs) {
                                Some(e) => Some((st, e)),
                                None => None,
                            }
                        };
                        match stepped {
                            None => None,
                            Some((st2, e2)) => if e2 <= vs || e2 > s.len() {
                                None
                            } else {
                                let k = sp_ws(s, e2);
                                if k < e2 || k >= s.len() {
                                    None
                                } else if s[k] == ',' {
                                    let nx = sp_ws(s, k + 1);
                                    if nx <= i || nx > s.len() {
                                        None
                                    } else {
                                        sp_msg_pairs(s, nx, st2)
                                    }
                                } else if s[k] == '}' {
                                    sp_finish(s, k + 1, st2)
                                } else {
                                    None
                                }
                            },
                        }
                    }
                }
            },
        }
    }
}

/// One whole line: optional whitespace, the top-level object, optional
/// trailing whitespace, nothing else.
pub open spec fn sp_message(s: Seq<char>) -> Option<RecordDeep> {
    let i = sp_ws(s, 0);
    if i >= s.len() || s[i] != '{' {
        None
    } else {
        let j = sp_ws(s, i + 1);
        if j < i + 1 || j >= s.len() {
            None
        } else {
            let st0 = PartialRec { ts: None, lv: None, tg: None, fs: None, sp: None };
            if s[j] == '}' {
                sp_finish(s, j + 1, st0)
            } else {
                sp_msg_pairs(s, j, st0)
            }
        }
    }
}

/// The record fields collected so far, as owned values.
struct PartialMsg {
    ts: Option<String>,
    lv: Option<String>,
    tg: Option<String>,
    fs: Option<PseudoMap<String, Value>>,
    sp: Option<Vec<PseudoMap<String, Value>>>,
}

spec fn partial_view(p: PartialMsg) -> PartialRec {
    PartialRec {
        ts: match p.ts {
            Some(t) => Some(t@),
            None => None,
        },
        lv: match p.lv {
            Some(t) => Some(t@),
            None => None,
        },
        tg: match p.tg {
            Some(t) => Some(t@),
            None => None,
        },
        fs: match p.fs {
            Some(f) => Some(fields_model(f@)),
            None => None,
        },
        sp: match p.sp {
            Some(x) => Some(spans_model(x@)),
            None => None,
        },
    }
}

fn finish_msg(v: &Vec<char>, i: usize, st: PartialMsg) -> (r: Option<JsonMessage>)
    requires
        i <= v@.len(),
    ensures
        (match r {
            Some(rec) => sp_finish(v@, i as int, partial_view(st)) == Some(record_deep(rec@)),
            None => sp_finish(v@, i as int, partial_view(st)) is None,
        }),
{
    let t = scan_ws(v, i);
    if t != v.len() {
        return None;
    }
    let PartialMsg { ts, lv, tg, fs, sp } = st;
    match (ts, lv, tg, fs) {
        (Some(timestamp), Some(level), Some(target), Some(fields)) => {
            let spans = match sp {
                Some(x) => x,
                None => Vec::new(),
            };
            let rec = JsonMessage { timestamp, level, fields, target, spans };
            proof {
                assert(record_deep(rec@) =~~= sp_finish(
                    v@,
                    i as int,
                    partial_view(st),
                ).unwrap());
            }
            Some(rec)
        },
        _ => None,
    }
}

fn parse_msg_pairs(v: &Vec<char>, i: usize, st: PartialMsg) -> (r: Option<JsonMessage>)
    requires
        i <= v@.len(),
    ensures
        (match r {
            Some(rec) => sp_msg_pairs(v@, i as int, partial_view(st)) == Some(record_deep(rec@)),
            None => sp_msg_pairs(v@, i as int, partial_view(st)) is None,
        }),
    decreases v@.len() - i,
{
    let n = v.len();
    if i >= n || !(v[i] == '"') {
        return None;
    }
    let mut key = String::new();
    let e1 = match parse_string_rest(v, i + 1, &mut key) {
        Some(e1) => e1,
        None => {
            return None;
        },
    };
    let c = scan_ws(v, e1);
    if c >= n || !(v[c] == ':') {
        return None;
    }
    let vs = scan_ws(v, c + 1);
    let stepped: Option<(PartialMsg, usize)> = if str_eq(key.as_str(), "timestamp") {
        if st.ts.is_some() || vs >= n || !(v[vs] == '"') {
            None
        } else {
            let mut t = String::new();
            match parse_string_rest(v, vs + 1, &mut t) {
                Some(e) => Some((PartialMsg { ts: Some(t), ..st }, e)),
                None => None,
            }
        }
    } else if str_eq(key.as_str(), "level") {
        if st.lv.is_some() || vs >= n || !(v[vs] == '"') {
            None
        } else {
            let mut t = String::new();
            match parse_string_rest(v, vs + 1, &mut t) {
                Some(e) => Some((PartialMsg { lv: Some(t), ..st }, e)),
                None => None,
            }
        }
    } else if str_eq(key.as_str(), "target") {
        if st.tg.is_some() || vs >= n || !(v[vs] == '"') {
            None
        } else {
            let mut t = String::new();
            match parse_string_rest(v, vs + 1, &mut t) {
                Some(e) => Some((PartialMsg { tg: Some(t), ..st }, e)),
                None => None,
            }
        }
    } else if str_eq(key.as_str(), "fields") {
        if st.fs.is_some() {
            None
        } else {
            match parse_fields(v, vs) {
                Some((f, e)) => Some((PartialMsg { fs: Some(f), ..st }, e)),
                None => None,
            }
        }
    } else if str_eq(key.as_str(), "spans") {
        if st.sp.is_some() {
            None
        } else {
            match parse_spans(v, vs) {
                Some((x, e)) => Some((PartialMsg { sp: Some(x), ..st }, e)),
                None => None,
            }
        }
    } else {
        match skip_value(v, vs) {
            Some(e) => Some((st, e)),
            None => None,
        }
    };
    match stepped {
        None => None,
        Some((st2, e2)) => {
            let k = scan_ws(v, e2);
            if k >= n {
                return None;
            }
            if v[k] == ',' {
                let nx = scan_ws(v, k + 1);
                parse_msg_pairs(v, nx, st2)
            } else if v[k] == '}' {
                finish_msg(v, k + 1, st2)
            } else {
                None
            }
        },
    }
}

/// Parses one log line. The result is pinned exactly by the grammar: the
/// line denotes a record if and only if one is returned, and then the
/// returned record's content is the denoted one.
pub fn parse_json_message(line: &str) -> (r: Option<JsonMessage>)
    ensures
        (match r {
            Some(rec) => sp_message(line@) == Some(record_deep(rec@)),
            None => sp_message(line@) is None,
        }),
{
    let v = chars_of(line);
    let n = v.len();
    let i = scan_ws(&v, 0);
    if i >= n || !(v[i] == '{') {
        return None;
    }
    let j = scan_ws(&v, i + 1);
    if j >= n {
        return None;
    }
    let st0 = PartialMsg { ts: None, lv: None, tg: None, fs: None, sp: None };
    if v[j] == '}' {
        finish_msg(&v, j + 1, st0)
    } else {
        parse_msg_pairs(&v, j, st0)
    }
}

} // verus!
