//! The wire format of message payloads. Payloads are JSON-shaped objects
//! with stable field names per message type: every command payload
//! carries the target entity id as a string field, `Deposit`/`Withdraw`
//! additionally a numeric `amount`, the `Opened` event a
//! `processed_time`, and the `Recorded` checkpoint a `recorded_position`
//! and `processed_time`.
//!
//! Decoding reads any payload the format allows — whitespace, any field
//! order, extra fields, string escapes — and picks out the required
//! fields; amounts and positions must be integers, since nothing here
//! may hold a floating-point number. Encoding emits one canonical form,
//! escaping identifiers, and decoding inverts it exactly: the round-trip
//! lemmas at the end state this for every payload shape and every
//! identifier.

use vstd::prelude::*;

use crate::json::{
    bump, esc_char, fields_rep, get_field, hex4, is_ws, json_value, lemma_parse_bounds, lookup,
    obj_tail, parse_payload, payload_fields, str_tail, ws_end, FieldValue, JsonVal,
};
use crate::text::{
    append_str, copy_text, dec_str, digits_val, int_str, is_digit, lemma_dec_str_digits,
    lemma_digit_run_end_is, lemma_digits_val_dec_str, lemma_int_str_val, lit_at, push_i64,
    push_u64,
};

verus! {

/// A payload that could not be decoded into the required fields.
/// Permanent for the message concerned: retrying a structurally invalid
/// message cannot succeed.
#[derive(Clone, Copy, Debug, PartialEq, Eq, Structural)]
pub struct DecodeError;

// ------------------------------------------------------------------
// Escaping
// ------------------------------------------------------------------

/// A lower-case hexadecimal digit.
pub open spec fn hex_char(d: int) -> char {
    seq![
        '0',
        '1',
        '2',
        '3',
        '4',
        '5',
        '6',
        '7',
        '8',
        '9',
        'a',
        'b',
        'c',
        'd',
        'e',
        'f',
    ][d]
}

fn hex_char_of(d: u32) -> (c: char)
    requires
        d < 16,
    ensures
        c == hex_char(d as int),
{
    match d {
        0u32 => '0',
        1u32 => '1',
        2u32 => '2',
        3u32 => '3',
        4u32 => '4',
        5u32 => '5',
        6u32 => '6',
        7u32 => '7',
        8u32 => '8',
        9u32 => '9',
        10u32 => 'a',
        11u32 => 'b',
        12u32 => 'c',
        13u32 => 'd',
        14u32 => 'e',
        _ => 'f',
    }
}

proof fn lemma_hex_char_val(d: int)
    requires
        0 <= d < 16,
    ensures
        crate::json::hex_val(hex_char(d)) == Some(d as u32),
{
}

/// How one character is written inside a string: quote and backslash get
/// a backslash escape, control characters a `\u00XX` escape, everything
/// else stands for itself.
pub open spec fn esc_one(c: char) -> Seq<char> {
    if c == '"' {
        seq!['\\', '"']
    } else if c == '\\' {
        seq!['\\', '\\']
    } else if (c as u32) < 0x20 {
        seq!['\\', 'u', '0', '0', hex_char(((c as u32) / 16) as int), hex_char(((c as u32) % 16) as int)]
    } else {
        seq![c]
    }
}

/// A text written as a string body, character by character.
pub open spec fn esc_str(t: Seq<char>) -> Seq<char>
    decreases t.len(),
{
    if t.len() == 0 {
        Seq::empty()
    } else {
        esc_str(t.drop_last()) + esc_one(t.last())
    }
}

/// The string body decomposes from the front as well.
proof fn lemma_esc_str_front(t: Seq<char>)
    requires
        t.len() > 0,
    ensures
        esc_str(t) == esc_one(t[0]) + esc_str(t.drop_first()),
    decreases t.len(),
{
    if t.len() == 1 {
        assert(t.drop_last() =~= Seq::<char>::empty());
        assert(t.drop_first() =~= Seq::<char>::empty());
        assert(esc_str(t) =~= esc_one(t[0]) + esc_str(t.drop_first()));
    } else {
        lemma_esc_str_front(t.drop_last());
        assert(t.drop_last()[0] == t[0]);
        assert(t.drop_last().drop_first() =~= t.drop_first().drop_last());
        assert(t.drop_first().last() == t.last());
        assert(esc_str(t) == esc_str(t.drop_last()) + esc_one(t.last()));
        assert(esc_one(t[0]) + esc_str(t.drop_first()) =~= esc_one(t[0]) + (esc_str(
            t.drop_first().drop_last(),
        ) + esc_one(t.last())));
        assert(esc_str(t) =~= esc_one(t[0]) + esc_str(t.drop_first()));
    }
}

/// Append a text to `out` as an escaped string body.
pub fn push_escaped(out: &mut Vec<char>, t: &Vec<char>)
    ensures
        final(out)@ == old(out)@ + esc_str(t@),
{
    let n = t.len();
    let mut i: usize = 0;
    while i < n
        invariant
            i <= n,
            n == t@.len(),
            out@ == old(out)@ + esc_str(t@.subrange(0, i as int)),
        decreases n - i,
    {
        let c = t[i];
        let u = c as u32;
        if c == '"' {
            out.push('\\');
            out.push('"');
        } else if c == '\\' {
            out.push('\\');
            out.push('\\');
        } else if u < 0x20 {
            out.push('\\');
            out.push('u');
            out.push('0');
            out.push('0');
            out.push(hex_char_of(u / 16));
            out.push(hex_char_of(u % 16));
        } else {
            out.push(c);
        }
        i = i + 1;
        proof {
            assert(t@.subrange(0, i as int).drop_last() =~= t@.subrange(0, i - 1));
            assert(t@.subrange(0, i as int).last() == t@[i - 1]);
            assert(out@ =~= old(out)@ + esc_str(t@.subrange(0, i as int)));
        }
    }
    proof {
        assert(t@.subrange(0, n as int) =~= t@);
    }
}

// ------------------------------------------------------------------
// Payload shapes
// ------------------------------------------------------------------

/// Payload of an `Open` or `Close` command: the target entity id alone.
pub open spec fn cmd_payload(id: Seq<char>) -> Seq<char> {
    "{\"account_id\":\""@ + esc_str(id) + "\"}"@
}

/// Payload of a `Deposit` or `Withdraw` command: entity id and amount.
pub open spec fn amount_payload(id: Seq<char>, amount: u64) -> Seq<char> {
    "{\"account_id\":\""@ + esc_str(id) + "\",\"amount\":"@ + dec_str(amount as nat) + "}"@
}

/// A possibly absent timestamp on the wire.
pub open spec fn time_str(t: Option<i64>) -> Seq<char> {
    match t {
        Some(v) => int_str(v as int),
        None => "null"@,
    }
}

/// Payload of an `Opened` event: entity id and processed time.
pub open spec fn opened_payload(id: Seq<char>, t: Option<i64>) -> Seq<char> {
    "{\"account_id\":\""@ + esc_str(id) + "\",\"processed_time\":"@ + time_str(t) + "}"@
}

/// Payload of a `Recorded` checkpoint event: recorded position and
/// processed time.
pub open spec fn recorded_payload(p: i64, t: Option<i64>) -> Seq<char> {
    "{\"recorded_position\":"@ + int_str(p as int) + ",\"processed_time\":"@ + time_str(t) + "}"@
}

// ------------------------------------------------------------------
// Encoders
// ------------------------------------------------------------------

/// Encode an `Open`/`Close` command payload.
pub fn encode_cmd_payload(id: &Vec<char>) -> (r: Vec<char>)
    ensures
        r@ == cmd_payload(id@),
{
    let mut r: Vec<char> = Vec::new();
    append_str(&mut r, "{\"account_id\":\"");
    push_escaped(&mut r, id);
    append_str(&mut r, "\"}");
    proof {
        assert(r@ =~= cmd_payload(id@));
    }
    r
}

/// Encode a `Deposit`/`Withdraw` command payload.
pub fn encode_amount_payload(id: &Vec<char>, amount: u64) -> (r: Vec<char>)
    ensures
        r@ == amount_payload(id@, amount),
{
    let mut r: Vec<char> = Vec::new();
    append_str(&mut r, "{\"account_id\":\"");
    push_escaped(&mut r, id);
    append_str(&mut r, "\",\"amount\":");
    push_u64(&mut r, amount);
    append_str(&mut r, "}");
    proof {
        assert(r@ =~= amount_payload(id@, amount));
    }
    r
}

fn push_time(out: &mut Vec<char>, t: Option<i64>)
    ensures
        final(out)@ == old(out)@ + time_str(t),
{
    match t {
        Some(v) => push_i64(out, v),
        None => append_str(out, "null"),
    }
}

/// Encode an `Opened` event payload.
pub fn encode_opened_payload(id: &Vec<char>, t: Option<i64>) -> (r: Vec<char>)
    ensures
        r@ == opened_payload(id@, t),
{
    let mut r: Vec<char> = Vec::new();
    append_str(&mut r, "{\"account_id\":\"");
    push_escaped(&mut r, id);
    append_str(&mut r, "\",\"processed_time\":");
    push_time(&mut r, t);
    append_str(&mut r, "}");
    proof {
        assert(r@ =~= opened_payload(id@, t));
    }
    r
}

/// Encode a `Recorded` checkpoint payload.
pub fn encode_recorded_payload(p: i64, t: Option<i64>) -> (r: Vec<char>)
    ensures
        r@ == recorded_payload(p, t),
{
    let mut r: Vec<char> = Vec::new();
    append_str(&mut r, "{\"recorded_position\":");
    push_i64(&mut r, p);
    append_str(&mut r, ",\"processed_time\":");
    push_time(&mut r, t);
    append_str(&mut r, "}");
    proof {
        assert(r@ =~= recorded_payload(p, t));
    }
    r
}

// ------------------------------------------------------------------
// Decoders
// ------------------------------------------------------------------

/// Decode an `Open`/`Close` command payload to its entity id: any
/// payload the format allows that carries a string `account_id` field.
pub open spec fn dec_cmd_payload(s: Seq<char>) -> Option<Seq<char>> {
    match payload_fields(s) {
        Some(fs) => match lookup(fs, "account_id"@) {
            Some(JsonVal::Str(id)) => Some(id),
            _ => None,
        },
        None => None,
    }
}

/// Decode a `Deposit`/`Withdraw` command payload to id and amount: the
/// `amount` must be an integer a `u64` can hold, since nothing here may
/// carry a floating-point number.
pub open spec fn dec_amount_payload(s: Seq<char>) -> Option<(Seq<char>, u64)> {
    match payload_fields(s) {
        Some(fs) => match (lookup(fs, "account_id"@), lookup(fs, "amount"@)) {
            (Some(JsonVal::Str(id)), Some(JsonVal::Int(n))) => {
                if 0 <= n <= u64::MAX {
                    Some((id, n as u64))
                } else {
                    None
                }
            },
            _ => None,
        },
        None => None,
    }
}

/// A timestamp field: an integer an `i64` can hold; anything else —
/// absent, `null`, or of another shape — counts as no timestamp.
pub open spec fn dec_time(v: Option<JsonVal>) -> Option<i64> {
    match v {
        Some(JsonVal::Int(t)) => {
            if i64::MIN <= t <= i64::MAX {
                Some(t as i64)
            } else {
                None
            }
        },
        _ => None,
    }
}

/// Decode an `Opened` event payload to id and processed time.
pub open spec fn dec_opened_payload(s: Seq<char>) -> Option<(Seq<char>, Option<i64>)> {
    match payload_fields(s) {
        Some(fs) => match lookup(fs, "account_id"@) {
            Some(JsonVal::Str(id)) => Some((id, dec_time(lookup(fs, "processed_time"@)))),
            _ => None,
        },
        None => None,
    }
}

/// Decode a `Recorded` checkpoint payload to position and processed
/// time; the `recorded_position` must be an integer an `i64` can hold.
pub open spec fn dec_recorded_payload(s: Seq<char>) -> Option<(i64, Option<i64>)> {
    match payload_fields(s) {
        Some(fs) => match lookup(fs, "recorded_position"@) {
            Some(JsonVal::Int(p)) => {
                if i64::MIN <= p <= i64::MAX {
                    Some((p as i64, dec_time(lookup(fs, "processed_time"@))))
                } else {
                    None
                }
            },
            _ => None,
        },
        None => None,
    }
}

fn time_field(fields: &Vec<(Vec<char>, FieldValue)>, Ghost(fs): Ghost<Seq<(Seq<char>, JsonVal)>>)
    -> (r: Option<i64>)
    requires
        fields_rep(fs, fields@),
    ensures
        r == dec_time(lookup(fs, "processed_time"@)),
{
    match get_field(fields, "processed_time", Ghost(fs)) {
        Some(FieldValue::UInt(x)) => {
            if *x <= i64::MAX as u64 {
                Some(*x as i64)
            } else {
                None
            }
        },
        Some(FieldValue::NInt(x)) => Some(*x),
        _ => None,
    }
}

/// Decode an `Open`/`Close` command payload.
pub fn decode_cmd_payload(data: &Vec<char>) -> (r: Result<Vec<char>, DecodeError>)
    ensures
        match dec_cmd_payload(data@) {
            Some(id) => r matches Ok(v) && v@ == id,
            None => r is Err,
        },
{
    match parse_payload(data) {
        None => Err(DecodeError),
        Some(fields) => {
            let ghost fs = payload_fields(data@)->Some_0;
            match get_field(&fields, "account_id", Ghost(fs)) {
                Some(FieldValue::Text(id)) => Ok(copy_text(id)),
                _ => Err(DecodeError),
            }
        },
    }
}

/// Decode a `Deposit`/`Withdraw` command payload.
pub fn decode_amount_payload(data: &Vec<char>) -> (r: Result<(Vec<char>, u64), DecodeError>)
    ensures
        match dec_amount_payload(data@) {
            Some(p) => r matches Ok(v) && v.0@ == p.0 && v.1 == p.1,
            None => r is Err,
        },
{
    match parse_payload(data) {
        None => Err(DecodeError),
        Some(fields) => {
            let ghost fs = payload_fields(data@)->Some_0;
            let id = match get_field(&fields, "account_id", Ghost(fs)) {
                Some(FieldValue::Text(id)) => copy_text(id),
                _ => {
                    return Err(DecodeError);
                },
            };
            match get_field(&fields, "amount", Ghost(fs)) {
                Some(FieldValue::UInt(a)) => Ok((id, *a)),
                _ => Err(DecodeError),
            }
        },
    }
}

/// Decode an `Opened` event payload.
pub fn decode_opened_payload(data: &Vec<char>) -> (r: Result<(Vec<char>, Option<i64>), DecodeError>)
    ensures
        match dec_opened_payload(data@) {
            Some(p) => r matches Ok(v) && v.0@ == p.0 && v.1 == p.1,
            None => r is Err,
        },
{
    match parse_payload(data) {
        None => Err(DecodeError),
        Some(fields) => {
            let ghost fs = payload_fields(data@)->Some_0;
            let id = match get_field(&fields, "account_id", Ghost(fs)) {
                Some(FieldValue::Text(id)) => copy_text(id),
                _ => {
                    return Err(DecodeError);
                },
            };
            let t = time_field(&fields, Ghost(fs));
            Ok((id, t))
        },
    }
}

/// Decode a `Recorded` checkpoint payload.
pub fn decode_recorded_payload(data: &Vec<char>) -> (r: Result<(i64, Option<i64>), DecodeError>)
    ensures
        match dec_recorded_payload(data@) {
            Some(p) => r matches Ok(v) && v.0 == p.0 && v.1 == p.1,
            None => r is Err,
        },
{
    match parse_payload(data) {
        None => Err(DecodeError),
        Some(fields) => {
            let ghost fs = payload_fields(data@)->Some_0;
            let p = match get_field(&fields, "recorded_position", Ghost(fs)) {
                Some(FieldValue::UInt(x)) => {
                    if *x <= i64::MAX as u64 {
                        *x as i64
                    } else {
                        return Err(DecodeError);
                    }
                },
                Some(FieldValue::NInt(x)) => *x,
                _ => {
                    return Err(DecodeError);
                },
            };
            let t = time_field(&fields, Ghost(fs));
            Ok((p, t))
        },
    }
}

// ------------------------------------------------------------------
// Round trips
// ------------------------------------------------------------------

/// Reading a string body of plain characters (as the canonical field
/// names are) yields those characters.
proof fn lemma_str_tail_key(s: Seq<char>, i: int, key: Seq<char>)
    requires
        0 <= i,
        i + key.len() < s.len(),
        forall|k: int| 0 <= k < key.len() ==> s[i + k] == #[trigger] key[k],
        forall|k: int| 0 <= k < key.len() ==> #[trigger] key[k] != '"' && key[k] != '\\',
        s[i + key.len()] == '"',
    ensures
        str_tail(s, i) == Some((key, i + key.len() + 1)),
    decreases key.len(),
{
    if key.len() == 0 {
    } else {
        let rest = key.drop_first();
        assert forall|k: int| 0 <= k < rest.len() implies s[(i + 1) + k] == #[trigger] rest[k] by {
            assert(rest[k] == key[k + 1]);
        }
        assert forall|k: int| 0 <= k < rest.len() implies #[trigger] rest[k] != '"' && rest[k]
            != '\\' by {
            assert(rest[k] == key[k + 1]);
        }
        lemma_str_tail_key(s, i + 1, rest);
        assert(s[i] == key[0]);
        assert(seq![key[0]] + rest =~= key);
    }
}

/// Reading back an escaped string body yields the original text.
proof fn lemma_str_tail_escaped(s: Seq<char>, i: int, t: Seq<char>)
    requires
        0 <= i,
        i + esc_str(t).len() < s.len(),
        forall|k: int| 0 <= k < esc_str(t).len() ==> s[i + k] == #[trigger] esc_str(t)[k],
        s[i + esc_str(t).len()] == '"',
    ensures
        str_tail(s, i) == Some((t, i + esc_str(t).len() + 1)),
    decreases t.len(),
{
    if t.len() == 0 {
    } else {
        let c = t[0];
        let rest = t.drop_first();
        lemma_esc_str_front(t);
        let step = esc_one(c).len();
        assert forall|k: int| 0 <= k < esc_str(rest).len() implies s[(i + step) + k]
            == #[trigger] esc_str(rest)[k] by {
            assert(esc_str(t)[step + k] == esc_str(rest)[k]);
            assert(s[i + (step + k)] == esc_str(t)[step + k]);
        }
        assert forall|k: int| 0 <= k < step implies s[i + k] == #[trigger] esc_one(c)[k] by {
            assert(esc_str(t)[k] == esc_one(c)[k]);
        }
        lemma_str_tail_escaped(s, i + step, rest);
        if c == '"' || c == '\\' {
            assert(s[i + 0] == esc_one(c)[0] && s[i + 1] == esc_one(c)[1]);
            assert(s[i] == '\\' && s[i + 1] == c);
            assert(esc_char(c) == Some(c));
        } else if (c as u32) < 0x20 {
            let u: u32 = c as u32;
            assert(s[i + 0] == esc_one(c)[0] && s[i + 1] == esc_one(c)[1] && s[i + 2] == esc_one(
                c,
            )[2] && s[i + 3] == esc_one(c)[3] && s[i + 4] == esc_one(c)[4] && s[i + 5] == esc_one(
                c,
            )[5]);
            assert(s[i] == '\\' && s[i + 1] == 'u' && s[i + 2] == '0' && s[i + 3] == '0');
            assert(s[i + 4] == hex_char(((u / 16) as int)) && s[i + 5] == hex_char(
                ((u % 16) as int),
            ));
            lemma_hex_char_val((u / 16) as int);
            lemma_hex_char_val((u % 16) as int);
            assert(hex4(s, i + 2) == Some(u)) by {
                assert(crate::json::hex_val(s[i + 2]) == Some(0u32));
                assert(crate::json::hex_val(s[i + 3]) == Some(0u32));
                assert((((u / 16) as int) as u32) == u / 16);
                assert((((u % 16) as int) as u32) == u % 16);
                assert((0int) * 4096 + (0int) * 256 + ((u / 16) as int) * 16 + ((u % 16) as int)
                    == u as int);
            }
            vstd::utf8::char_u32_cast(c, u);
            assert((u as char) == c);
        } else {
            assert(esc_one(c)[0] == c);
            assert(s[i + 0] == esc_one(c)[0]);
        }
        assert(seq![c] + rest =~= t);
    }
}

/// What a timestamp writes on the wire, as the grammar reads it.
pub open spec fn time_val(t: Option<i64>) -> JsonVal {
    match t {
        Some(v) => JsonVal::Int(v as int),
        None => JsonVal::Null,
    }
}

/// Reading back a decimal integer yields the integer.
proof fn lemma_json_value_int_at(s: Seq<char>, i: int, v: int)
    requires
        -0x8000_0000_0000_0000 <= v <= u64::MAX,
        0 <= i,
        i + int_str(v).len() <= s.len(),
        forall|k: int| 0 <= k < int_str(v).len() ==> s[i + k] == #[trigger] int_str(v)[k],
        ({
            let e = i + int_str(v).len();
            e == s.len() || (!is_digit(s[e]) && s[e] != '.' && s[e] != 'e' && s[e] != 'E')
        }),
    ensures
        json_value(s, i) == Some((JsonVal::Int(v), i + int_str(v).len())),
{
    let w = int_str(v);
    let e = i + w.len();
    if v >= 0 {
        lemma_dec_str_digits(v as nat);
        assert(s[i] == w[0]);
        assert(is_digit(s[i]));
        assert forall|k: int| i <= k < e implies is_digit(#[trigger] s[k]) by {
            assert(s[k] == w[k - i]);
        }
        lemma_digit_run_end_is(s, i, e);
        assert(s.subrange(i, e) =~= w);
        lemma_digits_val_dec_str(v as nat);
    } else {
        let m = (-v) as nat;
        lemma_dec_str_digits(m);
        assert(s[i] == w[0]);
        assert(w[0] == '-');
        assert forall|k: int| i + 1 <= k < e implies is_digit(#[trigger] s[k]) by {
            assert(s[k] == w[k - i]);
            assert(w[k - i] == dec_str(m)[k - i - 1]);
        }
        lemma_digit_run_end_is(s, i + 1, e);
        assert forall|k: int| 0 <= k < dec_str(m).len() implies s.subrange(i + 1, e)[k]
            == dec_str(m)[k] by {
            assert(s[i + 1 + k] == w[1 + k]);
            assert(w[1 + k] == dec_str(m)[k]);
        }
        assert(s.subrange(i + 1, e) =~= dec_str(m));
        lemma_digits_val_dec_str(m);
    }
}

/// Reading back a written timestamp yields it.
proof fn lemma_json_value_time_at(s: Seq<char>, i: int, t: Option<i64>)
    requires
        0 <= i,
        i + time_str(t).len() <= s.len(),
        forall|k: int| 0 <= k < time_str(t).len() ==> s[i + k] == #[trigger] time_str(t)[k],
        ({
            let e = i + time_str(t).len();
            e == s.len() || (!is_digit(s[e]) && s[e] != '.' && s[e] != 'e' && s[e] != 'E')
        }),
    ensures
        json_value(s, i) == Some((time_val(t), i + time_str(t).len())),
{
    match t {
        Some(v) => {
            lemma_json_value_int_at(s, i, v as int);
        },
        None => {
            reveal_strlit("null");
            assert("null"@.len() == 4);
            assert(s[i + 0] == time_str(t)[0] && s[i + 1] == time_str(t)[1] && s[i + 2] == time_str(
                t,
            )[2] && s[i + 3] == time_str(t)[3]);
            assert(s[i] == 'n' && s[i + 1] == 'u' && s[i + 2] == 'l' && s[i + 3] == 'l');
            assert(lit_at(s, i, "null"@)) by {
                assert(s.subrange(i, i + 4) =~= "null"@);
            }
        },
    }
}

/// Reading an object member written canonically: the key (plain, no
/// whitespace around the colon), then a value ending at `j3`, then
/// either a comma and the rest of the object, or the closing brace.
proof fn lemma_obj_member(s: Seq<char>, i: int, key: Seq<char>, v: JsonVal, j3: int)
    requires
        0 <= i < s.len(),
        s[i] == '"',
        i + 1 + key.len() < s.len(),
        forall|k: int| 0 <= k < key.len() ==> s[i + 1 + k] == #[trigger] key[k],
        forall|k: int| 0 <= k < key.len() ==> #[trigger] key[k] != '"' && key[k] != '\\',
        s[i + 1 + key.len()] == '"',
        i + 2 + key.len() < s.len(),
        s[i + 2 + key.len()] == ':',
        json_value(s, i + 3 + key.len()) == Some((v, j3)),
        i + 3 + key.len() <= s.len(),
        0 <= j3 < s.len(),
        !is_ws(s[j3]),
    ensures
        s[j3] == ',' ==> obj_tail(s, i) == (match obj_tail(s, j3 + 1) {
            Some((rest, e)) => Some((seq![(key, v)] + rest, e)),
            None => None,
        }),
        s[j3] == '}' ==> obj_tail(s, i) == Some((seq![(key, v)], j3 + 1)),
{
    lemma_str_tail_key(s, i + 1, key);
    lemma_parse_bounds(s, i + 3 + key.len());
    let j = i + 2 + key.len();
    assert(ws_end(s, j) == j);
    assert(bump(i, j + 1, s.len() as int) == i + 3 + key.len());
    assert(ws_end(s, j3) == j3);
    if s[j3] == ',' {
        assert(bump(i, j3 + 1, s.len() as int) == j3 + 1);
    }
}

proof fn lemma_key_account_id()
    ensures
        "account_id"@.len() == 10,
        "{\"account_id\":\""@.len() == 15,
        "{\"account_id\":\""@.subrange(2, 12) == "account_id"@,
        forall|k: int|
            0 <= k < 10 ==> #[trigger] "account_id"@[k] != '"' && "account_id"@[k] != '\\',
{
    reveal_strlit("account_id");
    reveal_strlit("{\"account_id\":\"");
    let p = "{\"account_id\":\""@;
    let key = "account_id"@;
    assert forall|k: int| 0 <= k < 10 implies #[trigger] key[k] != '"' && key[k] != '\\' && p[2
        + k] == key[k] by {
        if k == 0 {
        } else if k == 1 {
        } else if k == 2 {
        } else if k == 3 {
        } else if k == 4 {
        } else if k == 5 {
        } else if k == 6 {
        } else if k == 7 {
        } else if k == 8 {
        } else {
        }
    }
    assert(p.subrange(2, 12) =~= key);
}

proof fn lemma_key_amount()
    ensures
        "amount"@.len() == 6,
        "\",\"amount\":"@.len() == 11,
        "\",\"amount\":"@.subrange(3, 9) == "amount"@,
        forall|k: int| 0 <= k < 6 ==> #[trigger] "amount"@[k] != '"' && "amount"@[k] != '\\',
{
    reveal_strlit("amount");
    reveal_strlit("\",\"amount\":");
    let q = "\",\"amount\":"@;
    let key = "amount"@;
    assert forall|k: int| 0 <= k < 6 implies #[trigger] key[k] != '"' && key[k] != '\\' && q[3 + k]
        == key[k] by {
        if k == 0 {
        } else if k == 1 {
        } else if k == 2 {
        } else if k == 3 {
        } else if k == 4 {
        } else {
        }
    }
    assert(q.subrange(3, 9) =~= key);
}

proof fn lemma_key_processed_time()
    ensures
        "processed_time"@.len() == 14,
        "\",\"processed_time\":"@.len() == 19,
        ",\"processed_time\":"@.len() == 18,
        "\",\"processed_time\":"@.subrange(3, 17) == "processed_time"@,
        ",\"processed_time\":"@.subrange(2, 16) == "processed_time"@,
        forall|k: int|
            0 <= k < 14 ==> #[trigger] "processed_time"@[k] != '"' && "processed_time"@[k] != '\\',
{
    reveal_strlit("processed_time");
    reveal_strlit("\",\"processed_time\":");
    reveal_strlit(",\"processed_time\":");
    let q1 = "\",\"processed_time\":"@;
    let q2 = ",\"processed_time\":"@;
    let key = "processed_time"@;
    assert forall|k: int| 0 <= k < 14 implies #[trigger] key[k] != '"' && key[k] != '\\' && q1[3
        + k] == key[k] && q2[2 + k] == key[k] by {
        if k == 0 {
        } else if k == 1 {
        } else if k == 2 {
        } else if k == 3 {
        } else if k == 4 {
        } else if k == 5 {
        } else if k == 6 {
        } else if k == 7 {
        } else if k == 8 {
        } else if k == 9 {
        } else if k == 10 {
        } else if k == 11 {
        } else if k == 12 {
        } else {
        }
    }
    assert(q1.subrange(3, 17) =~= key);
    assert(q2.subrange(2, 16) =~= key);
}

proof fn lemma_key_recorded_position()
    ensures
        "recorded_position"@.len() == 17,
        "{\"recorded_position\":"@.len() == 21,
        "{\"recorded_position\":"@.subrange(2, 19) == "recorded_position"@,
        forall|k: int|
            0 <= k < 17 ==> #[trigger] "recorded_position"@[k] != '"' && "recorded_position"@[k]
                != '\\',
{
    reveal_strlit("recorded_position");
    reveal_strlit("{\"recorded_position\":");
    let p = "{\"recorded_position\":"@;
    let key = "recorded_position"@;
    assert forall|k: int| 0 <= k < 17 implies #[trigger] key[k] != '"' && key[k] != '\\' && p[2
        + k] == key[k] by {
        if k == 0 {
        } else if k == 1 {
        } else if k == 2 {
        } else if k == 3 {
        } else if k == 4 {
        } else if k == 5 {
        } else if k == 6 {
        } else if k == 7 {
        } else if k == 8 {
        } else if k == 9 {
        } else if k == 10 {
        } else if k == 11 {
        } else if k == 12 {
        } else if k == 13 {
        } else if k == 14 {
        } else if k == 15 {
        } else {
        }
    }
    assert(p.subrange(2, 19) =~= key);
}

/// Encoding an `Open`/`Close` command payload and decoding it back
/// yields the same entity id, whatever characters it holds.
#[verifier::rlimit(60)]
pub proof fn lemma_cmd_payload_round_trip(id: Seq<char>)
    ensures
        dec_cmd_payload(cmd_payload(id)) == Some(id),
{
    let p = "{\"account_id\":\""@;
    let key = "account_id"@;
    let s = cmd_payload(id);
    reveal_strlit("{\"account_id\":\"");
    reveal_strlit("\"}");
    lemma_key_account_id();
    assert("\"}"@.len() == 2);
    assert(s.len() == 15 + esc_str(id).len() + 2);
    assert(s[0] == p[0] && p[0] == '{');
    assert(ws_end(s, 0) == 0);
    assert(s[1] == p[1] && p[1] == '"');
    assert forall|k: int| 0 <= k < key.len() implies s[2 + k] == #[trigger] key[k] by {
        assert(s[2 + k] == p[2 + k]);
        assert(p[2 + k] == p.subrange(2, 12)[k]);
    }
    assert(s[12] == p[12] && p[12] == '"');
    assert(s[13] == p[13] && p[13] == ':');
    assert(s[14] == p[14] && p[14] == '"');
    let v0: int = 15;
    assert forall|k: int| 0 <= k < esc_str(id).len() implies s[v0 + k] == #[trigger] esc_str(
        id,
    )[k] by {}
    let j3 = v0 + esc_str(id).len() + 1;
    assert(s[v0 + esc_str(id).len()] == "\"}"@[0] && "\"}"@[0] == '"');
    assert(s[j3] == "\"}"@[1] && "\"}"@[1] == '}');
    lemma_str_tail_escaped(s, v0, id);
    assert(json_value(s, 14) == Some((JsonVal::Str(id), j3)));
    lemma_obj_member(s, 1, key, JsonVal::Str(id), j3);
    let fields = seq![(key, JsonVal::Str(id))];
    assert(obj_tail(s, 1) == Some((fields, j3 + 1)));
    assert(ws_end(s, j3 + 1) == s.len());
    assert(payload_fields(s) == Some(fields));
    assert(lookup(fields, "account_id"@) == Some(JsonVal::Str(id)));
}

/// Encoding a `Deposit`/`Withdraw` command payload and decoding it back
/// yields the same entity id and amount.
#[verifier::rlimit(80)]
pub proof fn lemma_amount_payload_round_trip(id: Seq<char>, amount: u64)
    ensures
        dec_amount_payload(amount_payload(id, amount)) == Some((id, amount)),
{
    let p = "{\"account_id\":\""@;
    let q = "\",\"amount\":"@;
    let key1 = "account_id"@;
    let key2 = "amount"@;
    let d = dec_str(amount as nat);
    let s = amount_payload(id, amount);
    reveal_strlit("{\"account_id\":\"");
    reveal_strlit("\",\"amount\":");
    reveal_strlit("}");
    lemma_key_account_id();
    lemma_key_amount();
    assert("}"@.len() == 1);
    assert(s.len() == 15 + esc_str(id).len() + 11 + d.len() + 1);
    assert(s[0] == p[0] && p[0] == '{');
    assert(ws_end(s, 0) == 0);
    assert(s[1] == p[1] && p[1] == '"');
    assert forall|k: int| 0 <= k < key1.len() implies s[2 + k] == #[trigger] key1[k] by {
        assert(s[2 + k] == p[2 + k]);
        assert(p[2 + k] == p.subrange(2, 12)[k]);
    }
    assert(s[12] == p[12] && p[12] == '"');
    assert(s[13] == p[13] && p[13] == ':');
    assert(s[14] == p[14] && p[14] == '"');
    let v0: int = 15;
    let elen = esc_str(id).len() as int;
    assert forall|k: int| 0 <= k < elen implies s[v0 + k] == #[trigger] esc_str(id)[k] by {}
    assert(s[v0 + elen] == q[0] && q[0] == '"');
    let j3 = v0 + elen + 1;
    assert(s[j3] == q[1] && q[1] == ',');
    lemma_str_tail_escaped(s, v0, id);
    assert(json_value(s, 14) == Some((JsonVal::Str(id), j3)));
    let i2 = j3 + 1;
    assert(s[i2] == q[2] && q[2] == '"');
    assert forall|k: int| 0 <= k < key2.len() implies s[i2 + 1 + k] == #[trigger] key2[k] by {
        assert(s[i2 + 1 + k] == q[3 + k]);
        assert(q[3 + k] == q.subrange(3, 9)[k]);
    }
    assert(s[i2 + 1 + key2.len()] == q[9] && q[9] == '"');
    assert(s[i2 + 2 + key2.len()] == q[10] && q[10] == ':');
    let d0 = i2 + 3 + key2.len();
    assert(int_str(amount as int) == d);
    assert forall|k: int| 0 <= k < d.len() implies s[d0 + k] == #[trigger] int_str(amount as int)[k]
        by {
        assert(s[d0 + k] == d[k]);
    }
    let j6 = d0 + d.len();
    assert(s[j6] == '}');
    lemma_json_value_int_at(s, d0, amount as int);
    lemma_obj_member(s, i2, key2, JsonVal::Int(amount as int), j6);
    assert(obj_tail(s, i2) == Some((seq![(key2, JsonVal::Int(amount as int))], j6 + 1)));
    lemma_obj_member(s, 1, key1, JsonVal::Str(id), j3);
    let fields = seq![(key1, JsonVal::Str(id))] + seq![(key2, JsonVal::Int(amount as int))];
    assert(obj_tail(s, 1) == Some((fields, j6 + 1)));
    assert(ws_end(s, j6 + 1) == s.len());
    assert(payload_fields(s) == Some(fields));
    reveal_strlit("account_id");
    reveal_strlit("amount");
    assert(key1 != key2) by {
        assert(key1.len() == 10 && key2.len() == 6);
    }
    assert(fields.last() == (key2, JsonVal::Int(amount as int)));
    assert(fields.drop_last() =~= seq![(key1, JsonVal::Str(id))]);
    assert(lookup(fields, "amount"@) == Some(JsonVal::Int(amount as int)));
    assert(lookup(fields, key1) == lookup(seq![(key1, JsonVal::Str(id))], key1));
    assert(seq![(key1, JsonVal::Str(id))].last() == (key1, JsonVal::Str(id)));
    assert(lookup(fields, "account_id"@) == Some(JsonVal::Str(id)));
}

/// Encoding an `Opened` event payload and decoding it back yields the
/// same entity id and processed time.
#[verifier::rlimit(80)]
pub proof fn lemma_opened_payload_round_trip(id: Seq<char>, t: Option<i64>)
    ensures
        dec_opened_payload(opened_payload(id, t)) == Some((id, t)),
{
    let p = "{\"account_id\":\""@;
    let q = "\",\"processed_time\":"@;
    let key1 = "account_id"@;
    let key2 = "processed_time"@;
    let w = time_str(t);
    let s = opened_payload(id, t);
    reveal_strlit("{\"account_id\":\"");
    reveal_strlit("\",\"processed_time\":");
    reveal_strlit("}");
    lemma_key_account_id();
    lemma_key_processed_time();
    assert("}"@.len() == 1);
    assert(s.len() == 15 + esc_str(id).len() + 19 + w.len() + 1);
    assert(s[0] == p[0] && p[0] == '{');
    assert(ws_end(s, 0) == 0);
    assert(s[1] == p[1] && p[1] == '"');
    assert forall|k: int| 0 <= k < key1.len() implies s[2 + k] == #[trigger] key1[k] by {
        assert(s[2 + k] == p[2 + k]);
        assert(p[2 + k] == p.subrange(2, 12)[k]);
    }
    assert(s[12] == p[12] && p[12] == '"');
    assert(s[13] == p[13] && p[13] == ':');
    assert(s[14] == p[14] && p[14] == '"');
    let v0: int = 15;
    let elen = esc_str(id).len() as int;
    assert forall|k: int| 0 <= k < elen implies s[v0 + k] == #[trigger] esc_str(id)[k] by {}
    assert(s[v0 + elen] == q[0] && q[0] == '"');
    let j3 = v0 + elen + 1;
    assert(s[j3] == q[1] && q[1] == ',');
    lemma_str_tail_escaped(s, v0, id);
    assert(json_value(s, 14) == Some((JsonVal::Str(id), j3)));
    let i2 = j3 + 1;
    assert(s[i2] == q[2] && q[2] == '"');
    assert forall|k: int| 0 <= k < key2.len() implies s[i2 + 1 + k] == #[trigger] key2[k] by {
        assert(s[i2 + 1 + k] == q[3 + k]);
        assert(q[3 + k] == q.subrange(3, 17)[k]);
    }
    assert(s[i2 + 1 + key2.len()] == q[17] && q[17] == '"');
    assert(s[i2 + 2 + key2.len()] == q[18] && q[18] == ':');
    let w0 = i2 + 3 + key2.len();
    assert forall|k: int| 0 <= k < w.len() implies s[w0 + k] == #[trigger] w[k] by {}
    let j6 = w0 + w.len();
    assert(s[j6] == '}');
    lemma_json_value_time_at(s, w0, t);
    lemma_obj_member(s, i2, key2, time_val(t), j6);
    assert(obj_tail(s, i2) == Some((seq![(key2, time_val(t))], j6 + 1)));
    lemma_obj_member(s, 1, key1, JsonVal::Str(id), j3);
    let fields = seq![(key1, JsonVal::Str(id))] + seq![(key2, time_val(t))];
    assert(obj_tail(s, 1) == Some((fields, j6 + 1)));
    assert(ws_end(s, j6 + 1) == s.len());
    assert(payload_fields(s) == Some(fields));
    reveal_strlit("account_id");
    reveal_strlit("processed_time");
    assert(key1 != key2) by {
        assert(key1.len() == 10 && key2.len() == 14);
    }
    assert(fields.last() == (key2, time_val(t)));
    assert(fields.drop_last() =~= seq![(key1, JsonVal::Str(id))]);
    assert(lookup(fields, "processed_time"@) == Some(time_val(t)));
    assert(lookup(fields, key1) == lookup(seq![(key1, JsonVal::Str(id))], key1));
    assert(seq![(key1, JsonVal::Str(id))].last() == (key1, JsonVal::Str(id)));
    assert(lookup(fields, "account_id"@) == Some(JsonVal::Str(id)));
    assert(dec_time(Some(time_val(t))) == t);
}

/// Encoding a `Recorded` checkpoint payload and decoding it back yields
/// the same recorded position and processed time.
#[verifier::rlimit(80)]
pub proof fn lemma_recorded_payload_round_trip(pv: i64, t: Option<i64>)
    ensures
        dec_recorded_payload(recorded_payload(pv, t)) == Some((pv, t)),
{
    let p = "{\"recorded_position\":"@;
    let q = ",\"processed_time\":"@;
    let key1 = "recorded_position"@;
    let key2 = "processed_time"@;
    let d = int_str(pv as int);
    let w = time_str(t);
    let s = recorded_payload(pv, t);
    reveal_strlit("{\"recorded_position\":");
    reveal_strlit(",\"processed_time\":");
    reveal_strlit("}");
    lemma_key_recorded_position();
    lemma_key_processed_time();
    lemma_int_str_val(pv);
    assert("}"@.len() == 1);
    assert(s.len() == 21 + d.len() + 18 + w.len() + 1);
    assert(s[0] == p[0] && p[0] == '{');
    assert(ws_end(s, 0) == 0);
    assert(s[1] == p[1] && p[1] == '"');
    assert forall|k: int| 0 <= k < key1.len() implies s[2 + k] == #[trigger] key1[k] by {
        assert(s[2 + k] == p[2 + k]);
        assert(p[2 + k] == p.subrange(2, 19)[k]);
    }
    assert(s[19] == p[19] && p[19] == '"');
    assert(s[20] == p[20] && p[20] == ':');
    let d0: int = 21;
    assert forall|k: int| 0 <= k < d.len() implies s[d0 + k] == #[trigger] int_str(pv as int)[k]
        by {}
    let j3 = d0 + d.len();
    assert(s[j3] == q[0] && q[0] == ',');
    lemma_json_value_int_at(s, d0, pv as int);
    lemma_obj_member(s, 1, key1, JsonVal::Int(pv as int), j3);
    let i2 = j3 + 1;
    assert(s[i2] == q[1] && q[1] == '"');
    assert forall|k: int| 0 <= k < key2.len() implies s[i2 + 1 + k] == #[trigger] key2[k] by {
        assert(s[i2 + 1 + k] == q[2 + k]);
        assert(q[2 + k] == q.subrange(2, 16)[k]);
    }
    assert(s[i2 + 1 + key2.len()] == q[16] && q[16] == '"');
    assert(s[i2 + 2 + key2.len()] == q[17] && q[17] == ':');
    let w0 = i2 + 3 + key2.len();
    assert forall|k: int| 0 <= k < w.len() implies s[w0 + k] == #[trigger] w[k] by {}
    let j6 = w0 + w.len();
    assert(s[j6] == '}');
    lemma_json_value_time_at(s, w0, t);
    lemma_obj_member(s, i2, key2, time_val(t), j6);
    assert(obj_tail(s, i2) == Some((seq![(key2, time_val(t))], j6 + 1)));
    let fields = seq![(key1, JsonVal::Int(pv as int))] + seq![(key2, time_val(t))];
    assert(obj_tail(s, 1) == Some((fields, j6 + 1)));
    assert(ws_end(s, j6 + 1) == s.len());
    assert(payload_fields(s) == Some(fields));
    reveal_strlit("recorded_position");
    reveal_strlit("processed_time");
    assert(key1 != key2) by {
        assert(key1.len() == 17 && key2.len() == 14);
    }
    assert(fields.last() == (key2, time_val(t)));
    assert(fields.drop_last() =~= seq![(key1, JsonVal::Int(pv as int))]);
    assert(lookup(fields, "processed_time"@) == Some(time_val(t)));
    assert(lookup(fields, key1) == lookup(seq![(key1, JsonVal::Int(pv as int))], key1));
    assert(seq![(key1, JsonVal::Int(pv as int))].last() == (key1, JsonVal::Int(pv as int)));
    assert(lookup(fields, "recorded_position"@) == Some(JsonVal::Int(pv as int)));
    assert(dec_time(Some(time_val(t))) == t);
}

} // verus!

