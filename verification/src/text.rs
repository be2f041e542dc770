//! Text primitives. All text handled by the verified core is a `Vec<char>`
//! (viewed as `Seq<char>`): identifiers, stream names, message types and
//! payloads. This module provides conversion from string literals, equality
//! and concatenation helpers, and a decimal codec for unsigned and signed
//! integers together with the lemmas that make encode/decode round trips
//! provable.

use vstd::prelude::*;
use vstd::string::StrSliceExecFns;

verus! {

/// Copy a string slice into a vector of its characters.
pub fn text(s: &str) -> (r: Vec<char>)
    ensures
        r@ == s@,
{
    let n = s.unicode_len();
    let mut r: Vec<char> = Vec::new();
    let mut i: usize = 0;
    while i < n
        invariant
            i <= n,
            n == s@.len(),
            r@ == s@.subrange(0, i as int),
        decreases n - i,
    {
        r.push(s.get_char(i));
        i = i + 1;
        proof {
            assert(r@ =~= s@.subrange(0, i as int));
        }
    }
    proof {
        assert(r@ =~= s@);
    }
    r
}

/// Character-wise equality of two texts.
pub fn text_eq(a: &Vec<char>, b: &Vec<char>) -> (r: bool)
    ensures
        r == (a@ == b@),
{
    if a.len() != b.len() {
        proof {
            assert(a@ != b@) by {
                assert(a@.len() != b@.len());
            }
        }
        return false;
    }
    let n = a.len();
    let mut i: usize = 0;
    while i < n
        invariant
            i <= n,
            n == a@.len() && n == b@.len(),
            forall|k: int| 0 <= k < i ==> a@[k] == b@[k],
        decreases n - i,
    {
        if a[i] != b[i] {
            return false;
        }
        i = i + 1;
    }
    proof {
        assert(a@ =~= b@);
    }
    true
}

/// Append a text to the end of `out`.
pub fn append_text(out: &mut Vec<char>, s: &Vec<char>)
    ensures
        final(out)@ == old(out)@ + s@,
{
    let n = s.len();
    let mut i: usize = 0;
    while i < n
        invariant
            i <= n,
            n == s@.len(),
            out@ == old(out)@ + s@.subrange(0, i as int),
        decreases n - i,
    {
        out.push(s[i]);
        i = i + 1;
        proof {
            assert(out@ =~= old(out)@ + s@.subrange(0, i as int));
        }
    }
    proof {
        assert(out@ =~= old(out)@ + s@);
    }
}

/// Append the characters of a string slice to the end of `out`.
pub fn append_str(out: &mut Vec<char>, s: &str)
    ensures
        final(out)@ == old(out)@ + s@,
{
    let n = s.unicode_len();
    let mut i: usize = 0;
    while i < n
        invariant
            i <= n,
            n == s@.len(),
            out@ == old(out)@ + s@.subrange(0, i as int),
        decreases n - i,
    {
        out.push(s.get_char(i));
        i = i + 1;
        proof {
            assert(out@ =~= old(out)@ + s@.subrange(0, i as int));
        }
    }
    proof {
        assert(out@ =~= old(out)@ + s@);
    }
}

/// A fresh copy of a text.
pub fn copy_text(s: &Vec<char>) -> (r: Vec<char>)
    ensures
        r@ == s@,
{
    let mut r: Vec<char> = Vec::new();
    append_text(&mut r, s);
    proof {
        assert(r@ =~= s@);
    }
    r
}

/// Does `l` occur in `s` starting at index `i`?
pub open spec fn lit_at(s: Seq<char>, i: int, l: Seq<char>) -> bool {
    0 <= i && i + l.len() <= s.len() && s.subrange(i, i + l.len()) == l
}

/// Check whether the characters of `lit` occur in `s` starting at `i`.
pub fn match_lit(s: &Vec<char>, i: usize, lit: &str) -> (r: bool)
    ensures
        r == lit_at(s@, i as int, lit@),
{
    let n = lit.unicode_len();
    if s.len() < n || i > s.len() - n {
        proof {
            assert(!lit_at(s@, i as int, lit@));
        }
        return false;
    }
    let mut j: usize = 0;
    while j < n
        invariant
            j <= n,
            n == lit@.len(),
            i + n <= s@.len(),
            s@.len() <= usize::MAX,
            forall|k: int| 0 <= k < j ==> s@[i + k] == lit@[k],
        decreases n - j,
    {
        if s[i + j] != lit.get_char(j) {
            proof {
                assert(s@.subrange(i as int, i + lit@.len())[j as int] != lit@[j as int]);
            }
            return false;
        }
        j = j + 1;
    }
    proof {
        assert(s@.subrange(i as int, i + lit@.len()) =~= lit@);
    }
    true
}

/// Check whether a text equals the characters of a string slice.
pub fn text_is(t: &Vec<char>, lit: &str) -> (r: bool)
    ensures
        r == (t@ == lit@),
{
    let n = lit.unicode_len();
    if t.len() != n {
        return false;
    }
    let r = match_lit(t, 0, lit);
    proof {
        if lit_at(t@, 0, lit@) {
            assert(t@ =~= t@.subrange(0, lit@.len() as int));
        }
        if t@ == lit@ {
            assert(t@.subrange(0, lit@.len() as int) =~= lit@);
        }
    }
    r
}

// ------------------------------------------------------------------
// Decimal digits
// ------------------------------------------------------------------

/// The numeric value of a decimal digit character, if it is one.
pub open spec fn spec_digit_val(c: char) -> Option<u64> {
    if c == '0' {
        Some(0u64)
    } else if c == '1' {
        Some(1u64)
    } else if c == '2' {
        Some(2u64)
    } else if c == '3' {
        Some(3u64)
    } else if c == '4' {
        Some(4u64)
    } else if c == '5' {
        Some(5u64)
    } else if c == '6' {
        Some(6u64)
    } else if c == '7' {
        Some(7u64)
    } else if c == '8' {
        Some(8u64)
    } else if c == '9' {
        Some(9u64)
    } else {
        None
    }
}

pub open spec fn is_digit(c: char) -> bool {
    spec_digit_val(c) is Some
}

/// The digit character for a value below ten.
pub open spec fn digit_char(d: int) -> char {
    seq!['0', '1', '2', '3', '4', '5', '6', '7', '8', '9'][d]
}

pub fn digit_val(c: char) -> (r: Option<u64>)
    ensures
        r == spec_digit_val(c),
{
    match c {
        '0' => Some(0),
        '1' => Some(1),
        '2' => Some(2),
        '3' => Some(3),
        '4' => Some(4),
        '5' => Some(5),
        '6' => Some(6),
        '7' => Some(7),
        '8' => Some(8),
        '9' => Some(9),
        _ => None,
    }
}

pub fn char_of_digit(d: u64) -> (c: char)
    requires
        d < 10,
    ensures
        c == digit_char(d as int),
{
    match d {
        0u64 => '0',
        1u64 => '1',
        2u64 => '2',
        3u64 => '3',
        4u64 => '4',
        5u64 => '5',
        6u64 => '6',
        7u64 => '7',
        8u64 => '8',
        _ => '9',
    }
}

/// The value of a digit character that is known to be one.
pub open spec fn digit_of(c: char) -> nat {
    spec_digit_val(c)->Some_0 as nat
}

pub proof fn lemma_digit_char_val(d: int)
    requires
        0 <= d < 10,
    ensures
        is_digit(digit_char(d)),
        digit_of(digit_char(d)) == d,
{
}

// ------------------------------------------------------------------
// Unsigned decimal encoding
// ------------------------------------------------------------------

/// The decimal representation of a natural number, most significant digit
/// first, with no leading zeros (a single `'0'` for zero).
pub open spec fn dec_str(n: nat) -> Seq<char>
    decreases n,
{
    if n < 10 {
        seq![digit_char(n as int)]
    } else {
        dec_str(n / 10) + seq![digit_char((n % 10) as int)]
    }
}

/// Append the decimal representation of `n` to `out`.
pub fn push_u64(out: &mut Vec<char>, n: u64)
    ensures
        final(out)@ == old(out)@ + dec_str(n as nat),
    decreases n,
{
    if n < 10 {
        out.push(char_of_digit(n));
        proof {
            assert(out@ =~= old(out)@ + dec_str(n as nat));
        }
    } else {
        push_u64(out, n / 10);
        out.push(char_of_digit(n % 10));
        proof {
            assert(out@ =~= old(out)@ + dec_str(n as nat));
        }
    }
}

/// Every character of a decimal representation is a digit.
pub proof fn lemma_dec_str_digits(n: nat)
    ensures
        dec_str(n).len() >= 1,
        forall|k: int| 0 <= k < dec_str(n).len() ==> is_digit(#[trigger] dec_str(n)[k]),
    decreases n,
{
    if n < 10 {
        lemma_digit_char_val(n as int);
    } else {
        lemma_dec_str_digits(n / 10);
        lemma_digit_char_val((n % 10) as int);
        assert forall|k: int| 0 <= k < dec_str(n).len() implies is_digit(
            #[trigger] dec_str(n)[k],
        ) by {
            if k < dec_str(n / 10).len() {
                assert(dec_str(n)[k] == dec_str(n / 10)[k]);
            } else {
                assert(dec_str(n)[k] == digit_char((n % 10) as int));
            }
        }
    }
}

/// The value of a digit sequence read most significant digit first.
pub open spec fn digits_val(s: Seq<char>) -> nat
    decreases s.len(),
{
    if s.len() == 0 {
        0
    } else {
        digits_val(s.drop_last()) * 10 + digit_of(s.last())
    }
}

/// Reading back the decimal representation yields the original number.
pub proof fn lemma_digits_val_dec_str(n: nat)
    ensures
        digits_val(dec_str(n)) == n,
    decreases n,
{
    if n < 10 {
        lemma_digit_char_val(n as int);
        assert(dec_str(n).drop_last() =~= Seq::<char>::empty());
        assert(digits_val(Seq::<char>::empty()) == 0);
        assert(digits_val(dec_str(n)) == digits_val(dec_str(n).drop_last()) * 10 + digit_of(
            dec_str(n).last(),
        ));
    } else {
        lemma_digits_val_dec_str(n / 10);
        lemma_digit_char_val((n % 10) as int);
        assert(dec_str(n).drop_last() =~= dec_str(n / 10));
        assert(dec_str(n).last() == digit_char((n % 10) as int));
        assert(digits_val(dec_str(n)) == digits_val(dec_str(n).drop_last()) * 10 + digit_of(
            dec_str(n).last(),
        ));
    }
}

/// The first index at or after `i` whose character is not a digit.
pub open spec fn digit_run_end(s: Seq<char>, i: int) -> int
    decreases s.len() - i,
{
    if i < 0 || i >= s.len() || !is_digit(s[i]) {
        i
    } else {
        digit_run_end(s, i + 1)
    }
}

pub proof fn lemma_digit_run_end_bounds(s: Seq<char>, i: int)
    requires
        0 <= i <= s.len(),
    ensures
        i <= digit_run_end(s, i) <= s.len(),
        forall|k: int| i <= k < digit_run_end(s, i) ==> is_digit(s[k]),
        digit_run_end(s, i) < s.len() ==> !is_digit(s[digit_run_end(s, i)]),
    decreases s.len() - i,
{
    if i < s.len() && is_digit(s[i]) {
        lemma_digit_run_end_bounds(s, i + 1);
    }
}

/// If everything from `i` up to `j` is a digit and `j` is past the run's
/// end marker (the end of the text or a non-digit), the run ends at `j`.
pub proof fn lemma_digit_run_end_is(s: Seq<char>, i: int, j: int)
    requires
        0 <= i <= j <= s.len(),
        forall|k: int| i <= k < j ==> is_digit(#[trigger] s[k]),
        j == s.len() || !is_digit(s[j]),
    ensures
        digit_run_end(s, i) == j,
    decreases j - i,
{
    if i < j {
        lemma_digit_run_end_is(s, i + 1, j);
    }
}

/// A digit run's value grows (weakly) as the run extends.
pub proof fn lemma_digits_val_prefix(s: Seq<char>, j: int)
    requires
        0 <= j <= s.len(),
    ensures
        digits_val(s.subrange(0, j)) <= digits_val(s),
    decreases s.len() - j,
{
    if j < s.len() {
        lemma_digits_val_prefix(s, j + 1);
        let a = s.subrange(0, j);
        let b = s.subrange(0, j + 1);
        assert(b.drop_last() =~= a);
        assert(digits_val(b) == digits_val(a) * 10 + digit_of(b.last()));
        assert(digits_val(a) * 10 >= digits_val(a));
    } else {
        assert(s.subrange(0, j) =~= s);
    }
}

/// Parse a maximal run of decimal digits starting at `i`.
///
/// Returns the value and the index one past the run, `None` if there is no
/// digit at `i` or the run's value does not fit in a `u64`.
pub fn parse_u64(s: &Vec<char>, i: usize) -> (r: Option<(u64, usize)>)
    requires
        i <= s@.len(),
    ensures
        ({
            let end = digit_run_end(s@, i as int);
            let run = s@.subrange(i as int, end);
            if end == i {
                r is None
            } else if digits_val(run) > u64::MAX {
                r is None
            } else {
                r == Some((digits_val(run) as u64, end as usize))
            }
        }),
{
    proof {
        lemma_digit_run_end_bounds(s@, i as int);
    }
    let ghost end = digit_run_end(s@, i as int);
    if i == s.len() {
        return None;
    }
    if digit_val(s[i]).is_none() {
        return None;
    }
    let mut acc: u64 = 0;
    let mut j: usize = i;
    while j < s.len() && digit_val(s[j]).is_some()
        invariant
            i <= j <= s@.len(),
            end == digit_run_end(s@, i as int),
            j <= end,
            forall|k: int| i <= k < j ==> is_digit(s@[k]),
            acc == digits_val(s@.subrange(i as int, j as int)),
        decreases s@.len() - j,
    {
        proof {
            lemma_digit_run_end_bounds(s@, i as int);
        }
        let d = digit_val(s[j]).unwrap();
        if acc > (u64::MAX - d) / 10 {
            // The full run's value is at least this prefix's value, which
            // already exceeds what fits.
            proof {
                let run = s@.subrange(i as int, end);
                let pre = s@.subrange(i as int, j + 1);
                assert(pre.drop_last() =~= s@.subrange(i as int, j as int));
                assert(digits_val(pre) == acc * 10 + d);
                assert(acc * 10 + d > u64::MAX) by {
                    assert(acc >= (u64::MAX - d) / 10 + 1);
                    assert(acc * 10 >= ((u64::MAX - d) / 10 + 1) * 10) by (nonlinear_arith)
                        requires
                            acc >= (u64::MAX - d) / 10 + 1,
                    ;
                }
                assert(pre =~= run.subrange(0, j + 1 - i));
                lemma_digits_val_prefix(run, j + 1 - i);
            }
            return None;
        }
        proof {
            assert(acc * 10 + d <= u64::MAX) by {
                assert(acc <= (u64::MAX - d) / 10);
                assert(acc * 10 <= ((u64::MAX - d) / 10) * 10) by (nonlinear_arith)
                    requires
                        acc <= (u64::MAX - d) / 10,
                ;
            }
            assert(s@.subrange(i as int, j + 1).drop_last() =~= s@.subrange(i as int, j as int));
        }
        acc = acc * 10 + d;
        j = j + 1;
    }
    proof {
        lemma_digit_run_end_is(s@, i as int, j as int);
    }
    Some((acc, j))
}

/// Scan a maximal run of decimal digits starting at `i`, always reporting
/// the index one past the run; the value comes back only when it fits in
/// a `u64`.
pub fn parse_u64_loose(s: &Vec<char>, i: usize) -> (r: (Option<u64>, usize))
    requires
        i <= s@.len(),
    ensures
        r.1 as int == digit_run_end(s@, i as int),
        ({
            let v = digits_val(s@.subrange(i as int, digit_run_end(s@, i as int)));
            if v <= u64::MAX {
                r.0 == Some(v as u64)
            } else {
                r.0 is None
            }
        }),
{
    proof {
        lemma_digit_run_end_bounds(s@, i as int);
    }
    let ghost end = digit_run_end(s@, i as int);
    let mut acc: u64 = 0;
    let mut big = false;
    let mut j: usize = i;
    while j < s.len() && digit_val(s[j]).is_some()
        invariant
            i <= j <= s@.len(),
            end == digit_run_end(s@, i as int),
            j <= end,
            forall|k: int| i <= k < j ==> is_digit(s@[k]),
            ({
                let v = digits_val(s@.subrange(i as int, j as int));
                if big {
                    v > u64::MAX
                } else {
                    v <= u64::MAX && acc == v
                }
            }),
        decreases s@.len() - j,
    {
        proof {
            lemma_digit_run_end_bounds(s@, i as int);
            assert(s@.subrange(i as int, j + 1).drop_last() =~= s@.subrange(i as int, j as int));
        }
        let d = digit_val(s[j]).unwrap();
        if big || acc > (u64::MAX - d) / 10 {
            proof {
                let pre = s@.subrange(i as int, j as int);
                let now = s@.subrange(i as int, j + 1);
                if !big {
                    assert(acc * 10 + d > u64::MAX) by {
                        assert(acc >= (u64::MAX - d) / 10 + 1);
                        assert(acc * 10 >= ((u64::MAX - d) / 10 + 1) * 10) by (nonlinear_arith)
                            requires
                                acc >= (u64::MAX - d) / 10 + 1,
                        ;
                    }
                }
                assert(digits_val(now) == digits_val(pre) * 10 + d);
                assert(digits_val(pre) * 10 >= digits_val(pre));
            }
            big = true;
        } else {
            proof {
                assert(acc * 10 + d <= u64::MAX) by {
                    assert(acc <= (u64::MAX - d) / 10);
                    assert(acc * 10 <= ((u64::MAX - d) / 10) * 10) by (nonlinear_arith)
                        requires
                            acc <= (u64::MAX - d) / 10,
                    ;
                }
            }
            acc = acc * 10 + d;
        }
        j = j + 1;
    }
    proof {
        lemma_digit_run_end_is(s@, i as int, j as int);
    }
    if big {
        (None, j)
    } else {
        (Some(acc), j)
    }
}

// ------------------------------------------------------------------
// Signed decimal encoding
// ------------------------------------------------------------------

/// The decimal representation of an integer, with a leading minus sign
/// when negative.
pub open spec fn int_str(n: int) -> Seq<char> {
    if n >= 0 {
        dec_str(n as nat)
    } else {
        seq!['-'] + dec_str((-n) as nat)
    }
}

/// Append the decimal representation of `n` to `out`.
pub fn push_i64(out: &mut Vec<char>, n: i64)
    ensures
        final(out)@ == old(out)@ + int_str(n as int),
{
    if n >= 0 {
        push_u64(out, n as u64);
    } else {
        out.push('-');
        if n == i64::MIN {
            push_u64(out, 9223372036854775808u64);
        } else {
            push_u64(out, (-n) as u64);
        }
        proof {
            assert(out@ =~= old(out)@ + int_str(n as int));
        }
    }
}

/// Parse an optionally minus-signed run of decimal digits starting at `i`.
///
/// Returns the value and the index one past the run, `None` if there is no
/// digit (after the optional sign) or the value does not fit in an `i64`.
pub fn parse_i64(s: &Vec<char>, i: usize) -> (r: Option<(i64, usize)>)
    requires
        i <= s@.len(),
    ensures
        ({
            let neg = i < s@.len() && s@[i as int] == '-';
            let start = if neg { i + 1 } else { i as int };
            let end = digit_run_end(s@, start);
            let v = digits_val(s@.subrange(start, end)) as int;
            if end == start {
                r is None
            } else if neg && -v >= i64::MIN {
                r == Some(((-v) as i64, end as usize))
            } else if !neg && v <= i64::MAX {
                r == Some((v as i64, end as usize))
            } else {
                r is None
            }
        }),
{
    if i < s.len() && s[i] == '-' {
        match parse_u64(s, i + 1) {
            None => None,
            Some((mag, end)) => {
                if mag <= i64::MAX as u64 {
                    Some((-(mag as i64), end))
                } else if mag == 9223372036854775808u64 {
                    Some((i64::MIN, end))
                } else {
                    None
                }
            },
        }
    } else {
        match parse_u64(s, i) {
            None => None,
            Some((v, end)) => {
                if v <= i64::MAX as u64 {
                    Some((v as i64, end))
                } else {
                    None
                }
            },
        }
    }
}

/// Round trip for the signed encoding: the representation of an `i64` is a
/// sign-and-digit run whose value is the number itself.
pub proof fn lemma_int_str_val(n: i64)
    ensures
        n >= 0 ==> digits_val(int_str(n as int)) == n,
        n < 0 ==> int_str(n as int)[0] == '-' && digits_val(
            int_str(n as int).subrange(1, int_str(n as int).len() as int),
        ) == -(n as int),
        int_str(n as int).len() >= 1,
{
    if n >= 0 {
        lemma_digits_val_dec_str(n as nat);
        lemma_dec_str_digits(n as nat);
    } else {
        lemma_digits_val_dec_str((-(n as int)) as nat);
        lemma_dec_str_digits((-(n as int)) as nat);
        assert(int_str(n as int).subrange(1, int_str(n as int).len() as int) =~= dec_str(
            (-(n as int)) as nat,
        ));
    }
}

} // verus!
