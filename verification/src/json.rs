//! A verified reader for the JSON-shaped payload syntax: objects of named
//! fields with the full lexical latitude of the format — whitespace, any
//! field order, extra fields (whose values may be nested), string escapes
//! including `\uXXXX` and surrogate pairs, and numbers with sign,
//! fraction and exponent. The payload decoders sit on top of this and
//! pick out the fields each message type requires.
//!
//! Values are classified just as far as the payloads need: a string, an
//! integer-valued number, `null`, or anything else (booleans, fractional
//! or exponent numbers, nested objects and arrays), which is carried
//! opaquely and skipped.

use vstd::prelude::*;
use vstd::string::StrSliceExecFns;

use crate::text::{
    digit_run_end, digit_val, digits_val, is_digit, lemma_digit_run_end_bounds, lit_at, match_lit,
    spec_digit_val, text_is,
};

verus! {

// ------------------------------------------------------------------
// Lexical pieces
// ------------------------------------------------------------------

/// The format's insignificant whitespace.
pub open spec fn is_ws(c: char) -> bool {
    c == ' ' || c == '\t' || c == '\n' || c == '\r'
}

/// The first index at or after `i` whose character is not whitespace.
pub open spec fn ws_end(s: Seq<char>, i: int) -> int
    decreases s.len() - i,
{
    if i < 0 || i >= s.len() || !is_ws(s[i]) {
        i
    } else {
        ws_end(s, i + 1)
    }
}

pub proof fn lemma_ws_end_bounds(s: Seq<char>, i: int)
    requires
        0 <= i <= s.len(),
    ensures
        i <= ws_end(s, i) <= s.len(),
        ws_end(s, i) < s.len() ==> !is_ws(s[ws_end(s, i)]),
    decreases s.len() - i,
{
    if i < s.len() && is_ws(s[i]) {
        lemma_ws_end_bounds(s, i + 1);
    }
}

/// Skip whitespace.
pub fn skip_ws(s: &Vec<char>, i: usize) -> (r: usize)
    requires
        i <= s@.len(),
    ensures
        r == ws_end(s@, i as int),
        i <= r <= s@.len(),
{
    proof {
        lemma_ws_end_bounds(s@, i as int);
    }
    let mut j: usize = i;
    while j < s.len() && (s[j] == ' ' || s[j] == '\t' || s[j] == '\n' || s[j] == '\r')
        invariant
            i <= j <= s@.len(),
            ws_end(s@, i as int) == ws_end(s@, j as int),
        decreases s@.len() - j,
    {
        j = j + 1;
    }
    j
}

/// The value of one hexadecimal digit.
pub open spec fn hex_val(c: char) -> Option<u32> {
    match spec_digit_val(c) {
        Some(d) => Some(d as u32),
        None => {
            if c == 'a' || c == 'A' {
                Some(10u32)
            } else if c == 'b' || c == 'B' {
                Some(11u32)
            } else if c == 'c' || c == 'C' {
                Some(12u32)
            } else if c == 'd' || c == 'D' {
                Some(13u32)
            } else if c == 'e' || c == 'E' {
                Some(14u32)
            } else if c == 'f' || c == 'F' {
                Some(15u32)
            } else {
                None
            }
        },
    }
}

fn hex_digit(c: char) -> (r: Option<u32>)
    ensures
        r == hex_val(c),
{
    match digit_val(c) {
        Some(d) => Some(d as u32),
        None => match c {
            'a' | 'A' => Some(10),
            'b' | 'B' => Some(11),
            'c' | 'C' => Some(12),
            'd' | 'D' => Some(13),
            'e' | 'E' => Some(14),
            'f' | 'F' => Some(15),
            _ => None,
        },
    }
}

/// Four hexadecimal digits starting at `i`, as a value.
pub open spec fn hex4(s: Seq<char>, i: int) -> Option<u32> {
    if i < 0 || i + 4 > s.len() {
        None
    } else {
        match (hex_val(s[i]), hex_val(s[i + 1]), hex_val(s[i + 2]), hex_val(s[i + 3])) {
            (Some(a), Some(b), Some(c), Some(d)) => Some(
                ((a * 4096 + b * 256 + c * 16 + d) as u32),
            ),
            _ => None,
        }
    }
}

fn parse_hex4(s: &Vec<char>, i: usize) -> (r: Option<u32>)
    requires
        i <= s@.len(),
    ensures
        r == hex4(s@, i as int),
{
    if s.len() < 4 || i > s.len() - 4 {
        return None;
    }
    match (hex_digit(s[i]), hex_digit(s[i + 1]), hex_digit(s[i + 2]), hex_digit(s[i + 3])) {
        (Some(a), Some(b), Some(c), Some(d)) => Some(a * 4096 + b * 256 + c * 16 + d),
        _ => None,
    }
}

/// What a simple escape denotes.
pub open spec fn esc_char(c: char) -> Option<char> {
    if c == '"' {
        Some('"')
    } else if c == '\\' {
        Some('\\')
    } else if c == '/' {
        Some('/')
    } else if c == 'b' {
        Some('\u{0008}')
    } else if c == 'f' {
        Some('\u{000C}')
    } else if c == 'n' {
        Some('\n')
    } else if c == 'r' {
        Some('\r')
    } else if c == 't' {
        Some('\t')
    } else {
        None
    }
}

fn esc_char_of(c: char) -> (r: Option<char>)
    ensures
        r == esc_char(c),
{
    match c {
        '"' => Some('"'),
        '\\' => Some('\\'),
        '/' => Some('/'),
        'b' => Some('\u{0008}'),
        'f' => Some('\u{000C}'),
        'n' => Some('\n'),
        'r' => Some('\r'),
        't' => Some('\t'),
        _ => None,
    }
}

/// Relies on `char::from_u32` of std: its documentation says it returns
/// `Some` exactly for valid `char` values — everything up to `0x10FFFF`
/// except the surrogate range — and then denotes the code point given.
pub assume_specification[ char::from_u32 ](i: u32) -> (r: Option<char>)
    ensures
        (r is Some) == (i < 0xD800 || (0xE000 <= i && i <= 0x10FFFF)),
        r matches Some(c) ==> c == i as char,
;

/// The character a surrogate pair denotes.
pub open spec fn surrogate_char(h: u32, l: u32) -> char {
    ((0x10000 + (h - 0xD800) * 0x400 + (l - 0xDC00)) as u32) as char
}

/// The rest of a string, from just after the opening quote: its decoded
/// characters and the index after the closing quote.
pub open spec fn str_tail(s: Seq<char>, i: int) -> Option<(Seq<char>, int)>
    decreases s.len() - i,
{
    if i < 0 || i >= s.len() {
        None
    } else if s[i] == '"' {
        Some((Seq::empty(), i + 1))
    } else if s[i] == '\\' {
        if i + 1 >= s.len() {
            None
        } else if s[i + 1] == 'u' {
            match hex4(s, i + 2) {
                Some(h) => {
                    if 0xD800 <= h < 0xDC00 {
                        if i + 8 <= s.len() && s[i + 6] == '\\' && s[i + 7] == 'u' {
                            match hex4(s, i + 8) {
                                Some(l) => {
                                    if 0xDC00 <= l < 0xE000 {
                                        match str_tail(s, i + 12) {
                                            Some((rest, e)) => Some(
                                                (seq![surrogate_char(h, l)] + rest, e),
                                            ),
                                            None => None,
                                        }
                                    } else {
                                        None
                                    }
                                },
                                None => None,
                            }
                        } else {
                            None
                        }
                    } else if 0xDC00 <= h < 0xE000 {
                        None
                    } else {
                        match str_tail(s, i + 6) {
                            Some((rest, e)) => Some((seq![h as char] + rest, e)),
                            None => None,
                        }
                    }
                },
                None => None,
            }
        } else {
            match esc_char(s[i + 1]) {
                Some(c) => match str_tail(s, i + 2) {
                    Some((rest, e)) => Some((seq![c] + rest, e)),
                    None => None,
                },
                None => None,
            }
        }
    } else {
        match str_tail(s, i + 1) {
            Some((rest, e)) => Some((seq![s[i]] + rest, e)),
            None => None,
        }
    }
}

pub proof fn lemma_str_tail_bounds(s: Seq<char>, i: int)
    requires
        0 <= i,
    ensures
        str_tail(s, i) matches Some(p) ==> i < p.1 <= s.len(),
    decreases s.len() - i,
{
    if 0 <= i < s.len() && s[i] != '"' {
        if s[i] == '\\' && i + 1 < s.len() {
            if s[i + 1] == 'u' {
                if i + 6 <= s.len() {
                    lemma_str_tail_bounds(s, i + 6);
                }
                if i + 12 <= s.len() {
                    lemma_str_tail_bounds(s, i + 12);
                }
            } else {
                lemma_str_tail_bounds(s, i + 2);
            }
        } else {
            lemma_str_tail_bounds(s, i + 1);
        }
    }
}

/// Decode the rest of a string. Exactly [`str_tail`].
fn parse_str_tail(s: &Vec<char>, i: usize) -> (r: Option<(Vec<char>, usize)>)
    requires
        i <= s@.len(),
    ensures
        match str_tail(s@, i as int) {
            Some(p) => r matches Some(q) && q.0@ == p.0 && q.1 as int == p.1,
            None => r is None,
        },
    decreases s@.len() - i,
{
    proof {
        lemma_str_tail_bounds(s@, i as int);
    }
    if i >= s.len() {
        return None;
    }
    let c = s[i];
    if c == '"' {
        return Some((Vec::new(), i + 1));
    }
    if c == '\\' {
        if i + 1 >= s.len() {
            return None;
        }
        let e = s[i + 1];
        if e == 'u' {
            match parse_hex4(s, i + 2) {
                Some(h) => {
                    if 0xD800 <= h && h < 0xDC00 {
                        if s.len() >= 8 && i <= s.len() - 8 && s[i + 6] == '\\' && s[i + 7] == 'u' {
                            match parse_hex4(s, i + 8) {
                                Some(l) => {
                                    if 0xDC00 <= l && l < 0xE000 {
                                        match parse_str_tail(s, i + 12) {
                                            Some((mut rest, end)) => {
                                                let code: u32 = 0x10000 + (h - 0xD800) * 0x400 + (
                                                l - 0xDC00);
                                                let ch = match char::from_u32(code) {
                                                    Some(ch) => ch,
                                                    None => ' ',
                                                };
                                                proof {
                                                    assert(ch == surrogate_char(h, l));
                                                }
                                                rest.insert(0, ch);
                                                proof {
                                                    assert(rest@ =~= seq![surrogate_char(h, l)]
                                                        + str_tail(
                                                        s@,
                                                        i + 12,
                                                    )->Some_0.0);
                                                }
                                                Some((rest, end))
                                            },
                                            None => None,
                                        }
                                    } else {
                                        None
                                    }
                                },
                                None => None,
                            }
                        } else {
                            None
                        }
                    } else if 0xDC00 <= h && h < 0xE000 {
                        None
                    } else {
                        match parse_str_tail(s, i + 6) {
                            Some((mut rest, end)) => {
                                let ch = match char::from_u32(h) {
                                    Some(ch) => ch,
                                    None => ' ',
                                };
                                proof {
                                    assert(ch == h as char);
                                }
                                rest.insert(0, ch);
                                proof {
                                    assert(rest@ =~= seq![h as char] + str_tail(
                                        s@,
                                        i + 6,
                                    )->Some_0.0);
                                }
                                Some((rest, end))
                            },
                            None => None,
                        }
                    }
                },
                None => None,
            }
        } else {
            match esc_char_of(e) {
                Some(ec) => match parse_str_tail(s, i + 2) {
                    Some((mut rest, end)) => {
                        rest.insert(0, ec);
                        proof {
                            assert(rest@ =~= seq![ec] + str_tail(s@, i + 2)->Some_0.0);
                        }
                        Some((rest, end))
                    },
                    None => None,
                },
                None => None,
            }
        }
    } else {
        match parse_str_tail(s, i + 1) {
            Some((mut rest, end)) => {
                rest.insert(0, c);
                proof {
                    assert(rest@ =~= seq![c] + str_tail(s@, i + 1)->Some_0.0);
                }
                Some((rest, end))
            },
            None => None,
        }
    }
}

// ------------------------------------------------------------------
// Numbers
// ------------------------------------------------------------------

/// How the payloads read a value: a string, an integer-valued number,
/// `null`, or anything else the format allows.
pub ghost enum JsonVal {
    Str(Seq<char>),
    Int(int),
    Null,
    Other,
}

/// A number token starting at `i`: optional minus, digits, then optional
/// fraction and exponent. Without fraction and exponent it denotes the
/// integer; with either it is carried opaquely.
pub open spec fn num_token(s: Seq<char>, i: int) -> Option<(JsonVal, int)> {
    let neg = 0 <= i < s.len() && s[i] == '-';
    let d0 = if neg {
        i + 1
    } else {
        i
    };
    let d1 = digit_run_end(s, d0);
    if d1 == d0 {
        None
    } else {
        let has_frac = d1 < s.len() && s[d1] == '.';
        let f1 = if has_frac {
            digit_run_end(s, d1 + 1)
        } else {
            d1
        };
        if has_frac && f1 == d1 + 1 {
            None
        } else {
            let has_exp = f1 < s.len() && (s[f1] == 'e' || s[f1] == 'E');
            let es = if has_exp && f1 + 1 < s.len() && (s[f1 + 1] == '+' || s[f1 + 1] == '-') {
                f1 + 2
            } else {
                f1 + 1
            };
            let e1 = if has_exp {
                digit_run_end(s, es)
            } else {
                f1
            };
            if has_exp && e1 == es {
                None
            } else {
                let end = if has_exp {
                    e1
                } else {
                    f1
                };
                if !has_frac && !has_exp {
                    let v = digits_val(s.subrange(d0, d1)) as int;
                    Some(
                        (
                            JsonVal::Int(
                                if neg {
                                    -v
                                } else {
                                    v
                                },
                            ),
                            end,
                        ),
                    )
                } else {
                    Some((JsonVal::Other, end))
                }
            }
        }
    }
}

pub proof fn lemma_num_token_bounds(s: Seq<char>, i: int)
    requires
        0 <= i <= s.len(),
    ensures
        num_token(s, i) matches Some(p) ==> i < p.1 <= s.len(),
{
    let neg = i < s.len() && s[i] == '-';
    let d0 = if neg {
        i + 1
    } else {
        i
    };
    if d0 <= s.len() {
        lemma_digit_run_end_bounds(s, d0);
        let d1 = digit_run_end(s, d0);
        if d1 < s.len() && s[d1] == '.' {
            lemma_digit_run_end_bounds(s, d1 + 1);
        }
        let f1 = if d1 < s.len() && s[d1] == '.' {
            digit_run_end(s, d1 + 1)
        } else {
            d1
        };
        if f1 < s.len() && (s[f1] == 'e' || s[f1] == 'E') {
            let es = if f1 + 1 < s.len() && (s[f1 + 1] == '+' || s[f1 + 1] == '-') {
                f1 + 2
            } else {
                f1 + 1
            };
            if es <= s.len() {
                lemma_digit_run_end_bounds(s, es);
            }
        }
    }
}

// ------------------------------------------------------------------
// Values, objects and arrays
// ------------------------------------------------------------------

/// Clamp a continuation index into the open range the termination
/// measure needs; the parse-bounds lemma shows the clamp never fires on
/// a result the grammar actually produces.
pub open spec fn bump(i: int, j: int, n: int) -> int {
    if j <= i {
        i + 1
    } else if j > n {
        n
    } else {
        j
    }
}

/// A value starting at or after `i` (leading whitespace skipped): its
/// classification and the index one past it.
pub open spec fn json_value(s: Seq<char>, i: int) -> Option<(JsonVal, int)>
    decreases s.len() - i, 0int,
{
    if i < 0 || i >= s.len() {
        None
    } else if is_ws(s[i]) {
        json_value(s, i + 1)
    } else if s[i] == '"' {
        match str_tail(s, i + 1) {
            Some((t, e)) => Some((JsonVal::Str(t), e)),
            None => None,
        }
    } else if s[i] == '-' || is_digit(s[i]) {
        num_token(s, i)
    } else if s[i] == 'n' {
        if lit_at(s, i, "null"@) {
            Some((JsonVal::Null, i + 4))
        } else {
            None
        }
    } else if s[i] == 't' {
        if lit_at(s, i, "true"@) {
            Some((JsonVal::Other, i + 4))
        } else {
            None
        }
    } else if s[i] == 'f' {
        if lit_at(s, i, "false"@) {
            Some((JsonVal::Other, i + 5))
        } else {
            None
        }
    } else if s[i] == '{' {
        match obj_tail(s, i + 1) {
            Some((fields, e)) => Some((JsonVal::Other, e)),
            None => None,
        }
    } else if s[i] == '[' {
        match arr_tail(s, i + 1) {
            Some(e) => Some((JsonVal::Other, e)),
            None => None,
        }
    } else {
        None
    }
}

/// The rest of an object, from just after `{`: its fields in order and
/// the index after the closing brace.
pub open spec fn obj_tail(s: Seq<char>, i: int) -> Option<(Seq<(Seq<char>, JsonVal)>, int)>
    decreases s.len() - i, 1int,
{
    if i < 0 || i >= s.len() {
        None
    } else if is_ws(s[i]) {
        obj_tail(s, i + 1)
    } else if s[i] == '}' {
        Some((Seq::empty(), i + 1))
    } else if s[i] == '"' {
        match str_tail(s, i + 1) {
            Some((key, j)) => {
                let j2 = ws_end(s, j);
                if 0 <= j2 < s.len() && s[j2] == ':' {
                    match json_value(s, bump(i, j2 + 1, s.len() as int)) {
                        Some((v, j3)) => {
                            let j4 = ws_end(s, j3);
                            if 0 <= j4 < s.len() && s[j4] == ',' {
                                match obj_tail(s, bump(i, j4 + 1, s.len() as int)) {
                                    Some((rest, e)) => Some((seq![(key, v)] + rest, e)),
                                    None => None,
                                }
                            } else if 0 <= j4 < s.len() && s[j4] == '}' {
                                Some((seq![(key, v)], j4 + 1))
                            } else {
                                None
                            }
                        },
                        None => None,
                    }
                } else {
                    None
                }
            },
            None => None,
        }
    } else {
        None
    }
}

/// The rest of an array, from just after `[`: the index after the
/// closing bracket.
pub open spec fn arr_tail(s: Seq<char>, i: int) -> Option<int>
    decreases s.len() - i, 1int,
{
    if i < 0 || i >= s.len() {
        None
    } else if is_ws(s[i]) {
        arr_tail(s, i + 1)
    } else if s[i] == ']' {
        Some(i + 1)
    } else {
        match json_value(s, i) {
            Some((v, j)) => {
                let j2 = ws_end(s, j);
                if 0 <= j2 < s.len() && s[j2] == ',' {
                    arr_tail(s, bump(i, j2 + 1, s.len() as int))
                } else if 0 <= j2 < s.len() && s[j2] == ']' {
                    Some(j2 + 1)
                } else {
                    None
                }
            },
            None => None,
        }
    }
}

/// Parse results stay inside the text and move forward, so the clamps in
/// the definitions above never fire on them.
pub proof fn lemma_parse_bounds(s: Seq<char>, i: int)
    requires
        0 <= i,
    ensures
        json_value(s, i) matches Some(p) ==> i < p.1 <= s.len(),
        obj_tail(s, i) matches Some(q) ==> i < q.1 <= s.len(),
        arr_tail(s, i) matches Some(e) ==> i < e <= s.len(),
    decreases s.len() - i,
{
    if 0 <= i < s.len() {
        if is_ws(s[i]) {
            lemma_parse_bounds(s, i + 1);
        } else {
            // A value starting here stays inside the text.
            if s[i] == '"' {
                lemma_str_tail_bounds(s, i + 1);
            } else if s[i] == '-' || is_digit(s[i]) {
                lemma_num_token_bounds(s, i);
            } else if s[i] == '{' || s[i] == '[' {
                lemma_parse_bounds(s, i + 1);
            } else {
                reveal_strlit("null");
                reveal_strlit("true");
                reveal_strlit("false");
                assert("null"@.len() == 4 && "true"@.len() == 4 && "false"@.len() == 5);
            }
            assert(json_value(s, i) matches Some(p) ==> i < p.1 <= s.len());
            // An object member starting here stays inside the text.
            if s[i] == '"' {
                match str_tail(s, i + 1) {
                    Some((key, j)) => {
                        lemma_str_tail_bounds(s, i + 1);
                        lemma_ws_end_bounds(s, j);
                        let j2 = ws_end(s, j);
                        if 0 <= j2 < s.len() && s[j2] == ':' {
                            let k = bump(i, j2 + 1, s.len() as int);
                            lemma_parse_bounds(s, k);
                            match json_value(s, k) {
                                Some((v, j3)) => {
                                    lemma_ws_end_bounds(s, j3);
                                    let j4 = ws_end(s, j3);
                                    if 0 <= j4 < s.len() && s[j4] == ',' {
                                        lemma_parse_bounds(s, bump(i, j4 + 1, s.len() as int));
                                    }
                                },
                                None => {},
                            }
                        }
                    },
                    None => {},
                }
            }
            // An array element starting here stays inside the text.
            if s[i] != ']' {
                match json_value(s, i) {
                    Some((v, j)) => {
                        lemma_ws_end_bounds(s, j);
                        let j2 = ws_end(s, j);
                        if 0 <= j2 < s.len() && s[j2] == ',' {
                            lemma_parse_bounds(s, bump(i, j2 + 1, s.len() as int));
                        }
                    },
                    None => {},
                }
            }
        }
    }
}

// ------------------------------------------------------------------
// Executable parsing
// ------------------------------------------------------------------

/// A parsed field value, classified as far as the payloads need. An
/// integer is held exactly when it fits the machine: non-negative in a
/// `u64`, negative in an `i64`, anything beyond as `BigInt`.
pub enum FieldValue {
    Text(Vec<char>),
    UInt(u64),
    NInt(i64),
    BigInt,
    Null,
    Other,
}

/// Does the parsed value `f` represent the value `v` of the grammar?
pub open spec fn value_rep(v: JsonVal, f: FieldValue) -> bool {
    match v {
        JsonVal::Str(t) => f matches FieldValue::Text(x) && x@ == t,
        JsonVal::Int(n) => {
            if 0 <= n <= u64::MAX {
                f matches FieldValue::UInt(x) && x == n as u64
            } else if i64::MIN <= n < 0 {
                f matches FieldValue::NInt(x) && x == n as i64
            } else {
                f is BigInt
            }
        },
        JsonVal::Null => f is Null,
        JsonVal::Other => f is Other,
    }
}

/// Do the parsed fields represent the grammar's field list?
pub open spec fn fields_rep(fs: Seq<(Seq<char>, JsonVal)>, v: Seq<(Vec<char>, FieldValue)>) -> bool {
    &&& v.len() == fs.len()
    &&& forall|k: int|
        0 <= k < fs.len() ==> (#[trigger] v[k]).0@ == fs[k].0 && value_rep(fs[k].1, v[k].1)
}

/// Parse a number token. Exactly [`num_token`].
fn parse_num(s: &Vec<char>, i: usize) -> (r: Option<(FieldValue, usize)>)
    requires
        i <= s@.len(),
    ensures
        match num_token(s@, i as int) {
            Some(p) => r matches Some(q) && value_rep(p.0, q.0) && q.1 as int == p.1,
            None => r is None,
        },
{
    let neg = i < s.len() && s[i] == '-';
    let d0 = if neg {
        i + 1
    } else {
        i
    };
    let (acc, d1) = crate::text::parse_u64_loose(s, d0);
    if d1 == d0 {
        return None;
    }
    proof {
        lemma_digit_run_end_bounds(s@, d0 as int);
    }
    let has_frac = d1 < s.len() && s[d1] == '.';
    let f1 = if has_frac {
        let (_, f1) = crate::text::parse_u64_loose(s, d1 + 1);
        f1
    } else {
        d1
    };
    if has_frac && f1 == d1 + 1 {
        return None;
    }
    proof {
        if has_frac {
            lemma_digit_run_end_bounds(s@, d1 + 1);
        }
    }
    let has_exp = f1 < s.len() && (s[f1] == 'e' || s[f1] == 'E');
    let end: usize = if has_exp {
        let es = if f1 + 1 < s.len() && (s[f1 + 1] == '+' || s[f1 + 1] == '-') {
            f1 + 2
        } else {
            f1 + 1
        };
        let (_, e1) = crate::text::parse_u64_loose(s, es);
        if e1 == es {
            return None;
        }
        e1
    } else {
        f1
    };
    let fv = if !has_frac && !has_exp {
        match acc {
            Some(a) => {
                if !neg {
                    FieldValue::UInt(a)
                } else if a == 0 {
                    FieldValue::UInt(0)
                } else if a <= i64::MAX as u64 {
                    FieldValue::NInt(-(a as i64))
                } else if a == 9223372036854775808u64 {
                    FieldValue::NInt(i64::MIN)
                } else {
                    FieldValue::BigInt
                }
            },
            None => FieldValue::BigInt,
        }
    } else {
        FieldValue::Other
    };
    Some((fv, end))
}

/// Parse a value. Exactly [`json_value`].
fn parse_value(s: &Vec<char>, i: usize) -> (r: Option<(FieldValue, usize)>)
    requires
        i <= s@.len(),
    ensures
        match json_value(s@, i as int) {
            Some(p) => r matches Some(q) && value_rep(p.0, q.0) && q.1 as int == p.1,
            None => r is None,
        },
    decreases s@.len() - i, 0int,
{
    if i >= s.len() {
        return None;
    }
    let c = s[i];
    if c == ' ' || c == '\t' || c == '\n' || c == '\r' {
        return parse_value(s, i + 1);
    }
    if c == '"' {
        return match parse_str_tail(s, i + 1) {
            Some((t, e)) => Some((FieldValue::Text(t), e)),
            None => None,
        };
    }
    if c == '-' || digit_val(c).is_some() {
        return parse_num(s, i);
    }
    if c == 'n' {
        if match_lit(s, i, "null") {
            proof {
                reveal_strlit("null");
            }
            return Some((FieldValue::Null, i + 4));
        }
        return None;
    }
    if c == 't' {
        if match_lit(s, i, "true") {
            proof {
                reveal_strlit("true");
            }
            return Some((FieldValue::Other, i + 4));
        }
        return None;
    }
    if c == 'f' {
        if match_lit(s, i, "false") {
            proof {
                reveal_strlit("false");
            }
            return Some((FieldValue::Other, i + 5));
        }
        return None;
    }
    if c == '{' {
        return match parse_obj_tail(s, i + 1) {
            Some((fields, e)) => Some((FieldValue::Other, e)),
            None => None,
        };
    }
    if c == '[' {
        return match parse_arr_tail(s, i + 1) {
            Some(e) => Some((FieldValue::Other, e)),
            None => None,
        };
    }
    None
}

/// Parse the rest of an object. Exactly [`obj_tail`].
fn parse_obj_tail(s: &Vec<char>, i: usize) -> (r: Option<(Vec<(Vec<char>, FieldValue)>, usize)>)
    requires
        i <= s@.len(),
    ensures
        match obj_tail(s@, i as int) {
            Some(p) => r matches Some(q) && fields_rep(p.0, q.0@) && q.1 as int == p.1,
            None => r is None,
        },
    decreases s@.len() - i, 1int,
{
    if i >= s.len() {
        return None;
    }
    let c = s[i];
    if c == ' ' || c == '\t' || c == '\n' || c == '\r' {
        return parse_obj_tail(s, i + 1);
    }
    if c == '}' {
        let empty: Vec<(Vec<char>, FieldValue)> = Vec::new();
        return Some((empty, i + 1));
    }
    if c != '"' {
        return None;
    }
    match parse_str_tail(s, i + 1) {
        None => None,
        Some((key, j)) => {
            proof {
                lemma_str_tail_bounds(s@, i + 1);
            }
            let j2 = skip_ws(s, j);
            if !(j2 < s.len() && s[j2] == ':') {
                return None;
            }
            match parse_value(s, j2 + 1) {
                None => None,
                Some((v, j3)) => {
                    proof {
                        lemma_parse_bounds(s@, j2 + 1);
                    }
                    let j4 = skip_ws(s, j3);
                    if j4 < s.len() && s[j4] == ',' {
                        match parse_obj_tail(s, j4 + 1) {
                            None => None,
                            Some((mut rest, e)) => {
                                let ghost fs_rest = obj_tail(s@, j4 + 1)->Some_0.0;
                                let ghost key_s = str_tail(s@, i + 1)->Some_0.0;
                                let ghost v_s = json_value(s@, j2 + 1)->Some_0.0;
                                let ghost old_rest = rest@;
                                rest.insert(0, (key, v));
                                proof {
                                    assert(rest@ =~= seq![(key, v)] + old_rest);
                                    assert forall|k: int|
                                        0 <= k < (seq![(key_s, v_s)] + fs_rest).len() implies (
                                    #[trigger] rest@[k]).0@ == (seq![(key_s, v_s)] + fs_rest)[k].0
                                        && value_rep(
                                        (seq![(key_s, v_s)] + fs_rest)[k].1,
                                        rest@[k].1,
                                    ) by {
                                        if k > 0 {
                                            assert(rest@[k] == old_rest[k - 1]);
                                            assert((seq![(key_s, v_s)] + fs_rest)[k] == fs_rest[k
                                                - 1]);
                                        }
                                    }
                                }
                                Some((rest, e))
                            },
                        }
                    } else if j4 < s.len() && s[j4] == '}' {
                        let mut one: Vec<(Vec<char>, FieldValue)> = Vec::new();
                        one.push((key, v));
                        proof {
                            let ghost key_s = str_tail(s@, i + 1)->Some_0.0;
                            let ghost v_s = json_value(s@, j2 + 1)->Some_0.0;
                            assert(one@ =~= seq![(key, v)]);
                            assert(fields_rep(seq![(key_s, v_s)], one@));
                        }
                        Some((one, j4 + 1))
                    } else {
                        None
                    }
                },
            }
        },
    }
}

/// Parse the rest of an array. Exactly [`arr_tail`].
fn parse_arr_tail(s: &Vec<char>, i: usize) -> (r: Option<usize>)
    requires
        i <= s@.len(),
    ensures
        match arr_tail(s@, i as int) {
            Some(e) => r matches Some(x) && x as int == e,
            None => r is None,
        },
    decreases s@.len() - i, 1int,
{
    if i >= s.len() {
        return None;
    }
    let c = s[i];
    if c == ' ' || c == '\t' || c == '\n' || c == '\r' {
        return parse_arr_tail(s, i + 1);
    }
    if c == ']' {
        return Some(i + 1);
    }
    match parse_value(s, i) {
        None => None,
        Some((_, j)) => {
            proof {
                lemma_parse_bounds(s@, i as int);
            }
            let j2 = skip_ws(s, j);
            if j2 < s.len() && s[j2] == ',' {
                parse_arr_tail(s, j2 + 1)
            } else if j2 < s.len() && s[j2] == ']' {
                Some(j2 + 1)
            } else {
                None
            }
        },
    }
}

// ------------------------------------------------------------------
// Payloads and field lookup
// ------------------------------------------------------------------

/// A whole payload: one object, nothing but whitespace around it, read
/// to its field list.
pub open spec fn payload_fields(s: Seq<char>) -> Option<Seq<(Seq<char>, JsonVal)>> {
    let i = ws_end(s, 0);
    if 0 <= i < s.len() && s[i] == '{' {
        match obj_tail(s, i + 1) {
            Some((fs, j)) => {
                if ws_end(s, j) == s.len() {
                    Some(fs)
                } else {
                    None
                }
            },
            None => None,
        }
    } else {
        None
    }
}

/// Parse a whole payload. Exactly [`payload_fields`].
pub fn parse_payload(s: &Vec<char>) -> (r: Option<Vec<(Vec<char>, FieldValue)>>)
    ensures
        match payload_fields(s@) {
            Some(fs) => r matches Some(v) && fields_rep(fs, v@),
            None => r is None,
        },
{
    let i = skip_ws(s, 0);
    if !(i < s.len() && s[i] == '{') {
        return None;
    }
    match parse_obj_tail(s, i + 1) {
        None => None,
        Some((fields, j)) => {
            proof {
                lemma_parse_bounds(s@, i + 1);
            }
            let j2 = skip_ws(s, j);
            if j2 == s.len() {
                Some(fields)
            } else {
                None
            }
        },
    }
}

/// The value of a named field; with a repeated name the last occurrence
/// counts.
pub open spec fn lookup(fields: Seq<(Seq<char>, JsonVal)>, key: Seq<char>) -> Option<JsonVal>
    decreases fields.len(),
{
    if fields.len() == 0 {
        None
    } else if fields.last().0 == key {
        Some(fields.last().1)
    } else {
        lookup(fields.drop_last(), key)
    }
}

/// Find a named field among parsed fields. Exactly [`lookup`].
pub(crate) fn get_field<'a>(
    fields: &'a Vec<(Vec<char>, FieldValue)>,
    key: &str,
    Ghost(fs): Ghost<Seq<(Seq<char>, JsonVal)>>,
) -> (r: Option<&'a FieldValue>)
    requires
        fields_rep(fs, fields@),
    ensures
        match lookup(fs, key@) {
            Some(v) => r matches Some(f) && value_rep(v, *f),
            None => r is None,
        },
{
    let mut idx = fields.len();
    proof {
        assert(fs.take(fields@.len() as int) =~= fs);
    }
    while idx > 0
        invariant
            idx <= fields@.len(),
            fields_rep(fs, fields@),
            lookup(fs, key@) == lookup(fs.take(idx as int), key@),
        decreases idx,
    {
        proof {
            assert(fs.take(idx as int).drop_last() =~= fs.take(idx - 1));
            assert(fs.take(idx as int).last() == fs[idx - 1]);
        }
        let pair = &fields[idx - 1];
        if text_is(&pair.0, key) {
            return Some(&pair.1);
        }
        idx = idx - 1;
    }
    proof {
        assert(fs.take(0) =~= Seq::<(Seq<char>, JsonVal)>::empty());
    }
    None
}

} // verus!
