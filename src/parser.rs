//! The recursive-descent parser: its grammar as spec functions over bytes, and the parser proved
//! to follow it.
use vstd::prelude::*;
use vstd::utf8::*;

use crate::container::{entry_views, upsert_entry, views, Container, Decimal};
use crate::error::{Error, ParseError};
use crate::model::{ascii_chars, is_digit, keys_unique, upsert, Failure, Value};
use crate::roundtrip::{lemma_parsed_value, lemma_writable_wf};
use crate::text::push_char;

verus! {

/// How deeply arrays and objects may nest.
pub const NEST_LIMIT: u16 = 5000;

pub type Step = Result<(Value, int), Failure>;

/// Space, and the control bytes from tab to carriage return.
pub open spec fn is_ws(b: u8) -> bool {
    b == 32 || (9 <= b && b <= 13)
}

/// The 1-based line of the byte at offset `p`: one more than the newlines before it.
pub open spec fn line_at(s: Seq<u8>, p: int) -> int
    decreases p,
{
    if p <= 0 {
        1
    } else if s[p - 1] == 10 {
        line_at(s, p - 1) + 1
    } else {
        line_at(s, p - 1)
    }
}

/// The column counter after `p` bytes are read: it starts at 1, a newline sets it to 0, any other
/// byte adds 1.
pub open spec fn column_at(s: Seq<u8>, p: int) -> int
    decreases p,
{
    if p <= 0 {
        1
    } else if s[p - 1] == 10 {
        0
    } else {
        column_at(s, p - 1) + 1
    }
}

/// The first offset from `p` on that holds no whitespace byte.
pub open spec fn skip_ws(s: Seq<u8>, p: int) -> int
    decreases s.len() - p,
{
    if 0 <= p < s.len() && is_ws(s[p]) {
        skip_ws(s, p + 1)
    } else {
        p
    }
}

/// The failure for the byte at offset `i`, reported once it has been read.
pub open spec fn unexpected(s: Seq<u8>, i: int) -> Failure {
    Failure::UnexpectedToken(s[i] as char, line_at(s, i + 1), column_at(s, i + 1))
}

/// Reads the byte `b` at offset `p`, no whitespace skipped; gives the offset after it.
pub open spec fn expect_byte(s: Seq<u8>, p: int, b: u8) -> Result<int, Failure> {
    if p < 0 || p >= s.len() {
        Err(Failure::EndOfBuffer)
    } else if s[p] == b {
        Ok(p + 1)
    } else {
        Err(unexpected(s, p))
    }
}

pub open spec fn then_expect(s: Seq<u8>, r: Result<int, Failure>, b: u8) -> Result<int, Failure> {
    match r {
        Ok(p) => expect_byte(s, p, b),
        Err(e) => Err(e),
    }
}

/// The rest of the keyword that the byte `lead` began, read from offset `p`.
pub open spec fn keyword_rest(s: Seq<u8>, p: int, lead: u8) -> Result<int, Failure> {
    if lead == 116 {
        // true
        then_expect(s, then_expect(s, expect_byte(s, p, 114), 117), 101)
    } else if lead == 102 {
        // false
        then_expect(s, then_expect(s, then_expect(s, expect_byte(s, p, 97), 108), 115), 101)
    } else {
        // null
        then_expect(s, then_expect(s, expect_byte(s, p, 117), 108), 108)
    }
}

pub open spec fn keyword_value(lead: u8) -> Value {
    if lead == 116 {
        Value::Boolean(true)
    } else if lead == 102 {
        Value::Boolean(false)
    } else {
        Value::Null
    }
}

/// The character that an escape `\b` stands for; `None` where `b` starts no escape.
pub open spec fn unescape(b: u8) -> Option<char> {
    if b == 34 {
        Some('"')
    } else if b == 92 {
        Some('\\')
    } else if b == 110 {
        Some('\n')
    } else if b == 114 {
        Some('\r')
    } else if b == 116 {
        Some('\t')
    } else if b == 48 {
        Some('\0')
    } else {
        None
    }
}

/// The value of the hexadecimal digit `b`, either case.
pub open spec fn hex_value(b: u8) -> Option<int> {
    if 48 <= b <= 57 {
        Some(b - 48)
    } else if 97 <= b <= 102 {
        Some(b - 87)
    } else if 65 <= b <= 70 {
        Some(b - 55)
    } else {
        None
    }
}

/// The failure at offset `i` where the byte there is not what was wanted.
pub open spec fn wanted_at(s: Seq<u8>, i: int) -> Failure {
    if i >= s.len() {
        Failure::EndOfBuffer
    } else {
        unexpected(s, i)
    }
}

/// The escape `{h}` or `{hh}` after `\u`, from offset `p`: one or two hexadecimal digits in
/// braces. Gives the character of that code and whether there were two digits.
pub open spec fn code_escape(s: Seq<u8>, p: int) -> Result<(char, bool), Failure> {
    if p < 0 || p >= s.len() || s[p] != 123 {
        Err(wanted_at(s, p))
    } else if p + 1 >= s.len() || hex_value(s[p + 1]) is None {
        Err(wanted_at(s, p + 1))
    } else if p + 2 >= s.len() {
        Err(Failure::EndOfBuffer)
    } else if s[p + 2] == 125 {
        Ok((((hex_value(s[p + 1])->0) as u8) as char, false))
    } else if hex_value(s[p + 2]) is None {
        Err(unexpected(s, p + 2))
    } else if p + 3 >= s.len() || s[p + 3] != 125 {
        Err(wanted_at(s, p + 3))
    } else {
        Ok((((hex_value(s[p + 1])->0 * 16 + hex_value(s[p + 2])->0) as u8) as char, true))
    }
}

/// The rest of a string after its opening quote: `start` begins the raw run not yet decoded, `p`
/// is the next byte, `acc` holds what was decoded. Gives the characters and the offset after the
/// closing quote.
pub open spec fn string_rest(s: Seq<u8>, start: int, p: int, acc: Seq<char>) -> Result<(Seq<char>, int), Failure>
    decreases s.len() - p,
{
    if p < 0 || start < 0 || start > p || p >= s.len() {
        Err(Failure::EndOfBuffer)
    } else if s[p] == 34 {
        let raw = s.subrange(start, p);
        if valid_utf8(raw) {
            Ok((acc + decode_utf8(raw), p + 1))
        } else {
            Err(Failure::InvalidUtf8)
        }
    } else if s[p] == 92 {
        let raw = s.subrange(start, p);
        if !valid_utf8(raw) {
            Err(Failure::InvalidUtf8)
        } else if p + 1 >= s.len() {
            Err(Failure::EndOfBuffer)
        } else if s[p + 1] == 117 {
            match code_escape(s, p + 2) {
                Ok((c, two)) => {
                    let next = if two { p + 6 } else { p + 5 };
                    string_rest(s, next, next, acc + decode_utf8(raw) + seq![c])
                },
                Err(e) => Err(e),
            }
        } else {
            match unescape(s[p + 1]) {
                Some(c) => string_rest(s, p + 2, p + 2, acc + decode_utf8(raw) + seq![c]),
                None => Err(unexpected(s, p + 1)),
            }
        }
    } else {
        string_rest(s, start, p + 1, acc)
    }
}

/// A byte that ends a number: whitespace, a comma or a closing bracket.
pub open spec fn ends_number(b: u8) -> bool {
    is_ws(b) || b == 44 || b == 93 || b == 125
}

pub open spec fn is_exp_marker(b: u8) -> bool {
    b == 101 || b == 69
}

/// Scans a number token from offset `p`; `dot` once a `.` or an exponent marker was read, `exp`
/// once an exponent marker was read, `prev` the byte before `p`. Gives the offset at which the
/// token ends (its terminator is not consumed) and whether it is a real number.
pub open spec fn scan_number(s: Seq<u8>, p: int, dot: bool, exp: bool, prev: u8) -> Result<(int, bool), Failure>
    decreases s.len() - p,
{
    if p < 0 {
        Err(Failure::EndOfBuffer)
    } else if p >= s.len() || ends_number(s[p]) {
        if is_digit(prev) {
            Ok((p, dot))
        } else {
            Err(Failure::InvalidNumberParse('\0'))
        }
    } else {
        let c = s[p];
        if c == 46 {
            if dot || prev == 45 {
                Err(Failure::InvalidNumberParse('.'))
            } else {
                scan_number(s, p + 1, true, exp, c)
            }
        } else if is_exp_marker(c) {
            if exp || prev == 45 {
                Err(Failure::InvalidNumberParse(c as char))
            } else {
                scan_number(s, p + 1, true, true, c)
            }
        } else if c == 43 || c == 45 {
            if is_exp_marker(prev) {
                scan_number(s, p + 1, dot, exp, c)
            } else {
                Err(unexpected(s, p))
            }
        } else if is_digit(c) {
            scan_number(s, p + 1, dot, exp, c)
        } else {
            Err(Failure::InvalidNumberParse(c as char))
        }
    }
}

/// The number that decimal digits write.
pub open spec fn digits_value(d: Seq<u8>) -> int
    decreases d.len(),
{
    if d.len() == 0 {
        0
    } else {
        digits_value(d.drop_last()) * 10 + (d.last() - 48)
    }
}

/// The number whose first byte, a digit or `-`, stands at offset `q`.
pub open spec fn number_at(s: Seq<u8>, q: int) -> Step {
    match scan_number(s, q + 1, false, false, s[q]) {
        Err(e) => Err(e),
        Ok((e, is_real)) => {
            let tok = s.subrange(q, e);
            if is_real {
                Ok((Value::Decimal(ascii_chars(tok)), e))
            } else if s[q] == 45 {
                let m = digits_value(s.subrange(q + 1, e));
                if m > 0x8000_0000_0000_0000 {
                    Err(Failure::InvalidNumberParse('-'))
                } else {
                    Ok((Value::Number(-m), e))
                }
            } else {
                let m = digits_value(tok);
                if m > u64::MAX {
                    Err(Failure::InvalidNumberParse(s[q] as char))
                } else {
                    Ok((Value::Unsigned(m), e))
                }
            }
        },
    }
}

/// The token a real number is written with: what the number grammar accepts in full, with a
/// `.` or an exponent.
pub open spec fn is_real_token(t: Seq<char>) -> bool {
    let b = Seq::new(t.len(), |i: int| t[i] as u8);
    &&& t.len() > 0
    &&& is_ascii_chars(t)
    &&& (is_digit(b[0]) || b[0] == 45)
    &&& scan_number(b, 1, false, false, b[0]) == Ok::<(int, bool), Failure>((t.len() as int, true))
}

/// A byte that can begin a value.
pub open spec fn is_value_lead(b: u8) -> bool {
    b == 34 || b == 91 || b == 123 || is_digit(b) || b == 45 || b == 116 || b == 102 || b == 110
}

/// The value whose first byte stands at offset `q`, inside `d` open containers. Gives the value
/// and the offset after it.
pub open spec fn value_at(s: Seq<u8>, q: int, d: int) -> Step
    decreases s.len() - q, 0nat,
{
    if q < 0 || q >= s.len() {
        Err(Failure::EndOfBuffer)
    } else {
        let b = s[q];
        if b == 34 {
            match string_rest(s, q + 1, q + 1, seq![]) {
                Ok((t, p)) => Ok((Value::Str(t), p)),
                Err(e) => Err(e),
            }
        } else if b == 91 {
            if d + 1 > NEST_LIMIT {
                Err(Failure::NestedDepthExceeded(d + 1))
            } else {
                array_rest(s, q + 1, d + 1, seq![], true)
            }
        } else if b == 123 {
            if d + 1 > NEST_LIMIT {
                Err(Failure::NestedDepthExceeded(d + 1))
            } else {
                object_rest(s, q + 1, d + 1, seq![], true)
            }
        } else if is_digit(b) || b == 45 {
            number_at(s, q)
        } else if b == 116 || b == 102 || b == 110 {
            match keyword_rest(s, q + 1, b) {
                Ok(p) => Ok((keyword_value(b), p)),
                Err(e) => Err(e),
            }
        } else {
            Err(unexpected(s, q))
        }
    }
}

/// The rest of an array from offset `p`, inside `d` open containers (its own included), `items`
/// read so far, `first` while none was.
pub open spec fn array_rest(s: Seq<u8>, p: int, d: int, items: Seq<Value>, first: bool) -> Step
    decreases s.len() - p, 1nat,
{
    let q = skip_ws(s, p);
    if p < 0 || q < p || q >= s.len() {
        Err(Failure::EndOfBuffer)
    } else if s[q] == 93 && first {
        Ok((Value::Array(items), q + 1))
    } else if s[q] == 125 {
        Err(Failure::ContainerMismatch('[', '}'))
    } else if !is_value_lead(s[q]) {
        Err(unexpected(s, q))
    } else {
        match value_at(s, q, d) {
            Err(e) => Err(e),
            Ok((v, p2)) => {
                let r = skip_ws(s, p2);
                if p2 <= p || r < p2 || r >= s.len() {
                    Err(Failure::EndOfBuffer)
                } else if s[r] == 44 {
                    array_rest(s, r + 1, d, items.push(v), false)
                } else if s[r] == 93 {
                    Ok((Value::Array(items.push(v)), r + 1))
                } else if s[r] == 125 {
                    Err(Failure::ContainerMismatch('[', '}'))
                } else {
                    Err(unexpected(s, r))
                }
            },
        }
    }
}

/// The rest of an object from offset `p`, as `array_rest` for arrays.
pub open spec fn object_rest(s: Seq<u8>, p: int, d: int, entries: Seq<(Seq<char>, Value)>, first: bool) -> Step
    decreases s.len() - p, 1nat,
{
    let q = skip_ws(s, p);
    if p < 0 || q < p || q >= s.len() {
        Err(Failure::EndOfBuffer)
    } else if s[q] == 125 && first {
        Ok((Value::Object(entries), q + 1))
    } else if s[q] == 93 {
        Err(Failure::ContainerMismatch('{', ']'))
    } else if s[q] != 34 {
        // Where a key should be, a value closed by `]` is a bracket mismatch.
        if is_value_lead(s[q]) {
            match value_at(s, q, d) {
                Ok((_, p2)) => {
                    let r = skip_ws(s, p2);
                    if 0 <= r < s.len() && s[r] == 93 {
                        Err(Failure::ContainerMismatch('{', ']'))
                    } else {
                        Err(unexpected(s, q))
                    }
                },
                Err(_) => Err(unexpected(s, q)),
            }
        } else {
            Err(unexpected(s, q))
        }
    } else {
        match string_rest(s, q + 1, q + 1, seq![]) {
            Err(e) => Err(e),
            Ok((key, p1)) => {
                let c = skip_ws(s, p1);
                if c < 0 || c >= s.len() {
                    Err(Failure::EndOfBuffer)
                } else if s[c] != 58 {
                    Err(unexpected(s, c))
                } else {
                    let v0 = skip_ws(s, c + 1);
                    if v0 < 0 || v0 >= s.len() {
                        Err(Failure::EndOfBuffer)
                    } else if s[v0] == 125 {
                        Err(Failure::InvalidKeyValueFormat(key))
                    } else if s[v0] == 93 {
                        Err(Failure::ContainerMismatch('{', ']'))
                    } else if v0 <= p {
                        Err(Failure::EndOfBuffer)
                    } else {
                        match value_at(s, v0, d) {
                            Err(e) => Err(e),
                            Ok((v, p2)) => {
                                let r = skip_ws(s, p2);
                                let next = upsert(entries, key, v);
                                if p2 <= p || r < p2 || r >= s.len() {
                                    Err(Failure::EndOfBuffer)
                                } else if s[r] == 44 {
                                    object_rest(s, r + 1, d, next, false)
                                } else if s[r] == 125 {
                                    Ok((Value::Object(next), r + 1))
                                } else if s[r] == 93 {
                                    Err(Failure::ContainerMismatch('{', ']'))
                                } else {
                                    Err(unexpected(s, r))
                                }
                            },
                        }
                    }
                }
            },
        }
    }
}

/// What parsing the whole text `s` gives: one value, with nothing but whitespace around it.
pub open spec fn parse_spec(s: Seq<u8>) -> Result<Value, Failure> {
    let q = skip_ws(s, 0);
    if q >= s.len() {
        Err(Failure::EndOfBuffer)
    } else {
        match value_at(s, q, 0) {
            Err(e) => Err(e),
            Ok((v, p)) => {
                let r = skip_ws(s, p);
                if r < s.len() {
                    Err(unexpected(s, r))
                } else {
                    Ok(v)
                }
            },
        }
    }
}

} // verus!

verus! {

/// Whitespace, as the grammar has it.
fn is_ws_byte(b: u8) -> (r: bool)
    ensures
        r == is_ws(b),
{
    b == 32 || (9 <= b && b <= 13)
}

fn is_digit_byte(b: u8) -> (r: bool)
    ensures
        r == is_digit(b),
{
    48 <= b && b <= 57
}

fn is_lead_byte(b: u8) -> (r: bool)
    ensures
        r == is_value_lead(b),
{
    b == 34 || b == 91 || b == 123 || is_digit_byte(b) || b == 45 || b == 116 || b == 102 || b == 110
}

proof fn lemma_position_bounds(s: Seq<u8>, p: int)
    requires
        0 <= p <= s.len(),
    ensures
        1 <= line_at(s, p) <= p + 1,
        0 <= column_at(s, p) <= p + 1,
    decreases p,
{
    if p > 0 {
        lemma_position_bounds(s, p - 1);
    }
}

proof fn lemma_skip_ws_bounds(s: Seq<u8>, p: int)
    requires
        0 <= p <= s.len(),
    ensures
        p <= skip_ws(s, p) <= s.len(),
        skip_ws(s, p) < s.len() ==> !is_ws(s[skip_ws(s, p)]),
    decreases s.len() - p,
{
    if p < s.len() && is_ws(s[p]) {
        lemma_skip_ws_bounds(s, p + 1);
    }
}

/// The bytes of `b`, all ASCII, are valid UTF-8 and decode one character each.
pub(crate) proof fn lemma_ascii_utf8(b: Seq<u8>)
    requires
        forall|i: int| 0 <= i < b.len() ==> b[i] < 128,
    ensures
        valid_utf8(b),
        decode_utf8(b) == ascii_chars(b),
{
    let c = ascii_chars(b);
    assert(is_ascii_chars(c));
    is_ascii_chars_encode_utf8(c);
    assert(encode_utf8(c) =~= b);
    encode_utf8_valid_utf8(c);
    encode_utf8_decode_utf8(c);
}

proof fn lemma_digits_prefix(d: Seq<u8>, i: int)
    requires
        0 <= i < d.len(),
    ensures
        digits_value(d.subrange(0, i + 1)) == digits_value(d.subrange(0, i)) * 10 + (d[i] - 48),
{
    assert(d.subrange(0, i + 1).drop_last() =~= d.subrange(0, i));
}

proof fn lemma_digits_monotone(d: Seq<u8>, i: int, j: int)
    requires
        0 <= i <= j <= d.len(),
        forall|k: int| 0 <= k < d.len() ==> is_digit(#[trigger] d[k]),
    ensures
        0 <= digits_value(d.subrange(0, i)) <= digits_value(d.subrange(0, j)),
    decreases j - i,
{
    if i < j {
        lemma_digits_monotone(d, i, j - 1);
        lemma_digits_prefix(d, j - 1);
        lemma_digits_nonneg(d.subrange(0, j - 1));
    } else {
        lemma_digits_nonneg(d.subrange(0, i));
    }
}

pub(crate) proof fn lemma_digits_nonneg(d: Seq<u8>)
    requires
        forall|k: int| 0 <= k < d.len() ==> is_digit(#[trigger] d[k]),
    ensures
        digits_value(d) >= 0,
    decreases d.len(),
{
    if d.len() > 0 {
        lemma_digits_nonneg(d.drop_last());
    }
}

pub(crate) proof fn lemma_scan_ge(s: Seq<u8>, p: int, dot: bool, exp: bool, prev: u8)
    requires
        0 <= p,
        scan_number(s, p, dot, exp, prev) is Ok,
    ensures
        scan_number(s, p, dot, exp, prev)->Ok_0.0 >= p,
    decreases s.len() - p,
{
    if p < s.len() && !ends_number(s[p]) {
        let c = s[p];
        if c == 46 {
            lemma_scan_ge(s, p + 1, true, exp, c);
        } else if is_exp_marker(c) {
            lemma_scan_ge(s, p + 1, true, true, c);
        } else {
            lemma_scan_ge(s, p + 1, dot, exp, c);
        }
    }
}

/// A number token scans the same within the text and alone.
pub(crate) proof fn lemma_scan_slice(s: Seq<u8>, start: int, end: int, p: int, dot: bool, exp: bool, prev: u8)
    requires
        0 <= start < p <= end <= s.len(),
        scan_number(s, p, dot, exp, prev) is Ok,
        scan_number(s, p, dot, exp, prev)->Ok_0.0 == end,
    ensures
        scan_number(s.subrange(start, end), p - start, dot, exp, prev) == Ok::<(int, bool), Failure>(
            (end - start, scan_number(s, p, dot, exp, prev)->Ok_0.1),
        ),
    decreases end - p,
{
    let t = s.subrange(start, end);
    if p < s.len() && !ends_number(s[p]) {
        let c = s[p];
        let nd = if c == 46 || is_exp_marker(c) { true } else { dot };
        let ne = if is_exp_marker(c) { true } else { exp };
        if (c == 46 && !(dot || prev == 45)) || (is_exp_marker(c) && !(exp || prev == 45)) || ((c == 43 || c == 45) && is_exp_marker(prev)) || is_digit(c) {
            assert(scan_number(s, p, dot, exp, prev) == scan_number(s, p + 1, nd, ne, c));
            lemma_scan_ge(s, p + 1, nd, ne, c);
            assert(t[p - start] == c);
            lemma_scan_slice(s, start, end, p + 1, nd, ne, c);
        }
    }
}

/// The number that the decimal digits `d` write, where it fits in 64 bits.
fn digits_to_u64(d: &[u8]) -> (r: Option<u64>)
    requires
        forall|k: int| 0 <= k < d@.len() ==> is_digit(#[trigger] d@[k]),
    ensures
        r is Some <==> digits_value(d@) <= u64::MAX,
        r is Some ==> r->0 == digits_value(d@),
{
    let mut acc: u64 = 0;
    let mut i: usize = 0;
    while i < d.len()
        invariant
            i <= d@.len(),
            forall|k: int| 0 <= k < d@.len() ==> is_digit(#[trigger] d@[k]),
            acc == digits_value(d@.subrange(0, i as int)),
        decreases d@.len() - i,
    {
        proof {
            lemma_digits_prefix(d@, i as int);
        }
        let digit = (d[i] - 48) as u64;
        if acc > (u64::MAX - digit) / 10 {
            proof {
                lemma_digits_monotone(d@, i as int + 1, d@.len() as int);
                assert(d@.subrange(0, d@.len() as int) =~= d@);
            }
            return None;
        }
        acc = acc * 10 + digit;
        i = i + 1;
    }
    assert(d@.subrange(0, d@.len() as int) =~= d@);
    Some(acc)
}

fn unescape_byte(b: u8) -> (r: Option<char>)
    ensures
        r == unescape(b),
{
    if b == 34 {
        Some('"')
    } else if b == 92 {
        Some('\\')
    } else if b == 110 {
        Some('\n')
    } else if b == 114 {
        Some('\r')
    } else if b == 116 {
        Some('\t')
    } else if b == 48 {
        Some('\0')
    } else {
        None
    }
}

fn hex_digit(b: u8) -> (r: Option<u8>)
    ensures
        match hex_value(b) {
            Some(d) => r == Some(d as u8),
            None => r is None,
        },
{
    if 48 <= b && b <= 57 {
        Some(b - 48)
    } else if 97 <= b && b <= 102 {
        Some(b - 87)
    } else if 65 <= b && b <= 70 {
        Some(b - 55)
    } else {
        None
    }
}

/// A parser over one text, with its cursor.
pub struct Parser<'a> {
    container: &'a [u8],
    offset: usize,
    curr_line: usize,
    curr_column: usize,
    len: usize,
    nested_count: u16,
}

impl<'a> Parser<'a> {
    /// The bytes being parsed.
    pub closed spec fn bytes(&self) -> Seq<u8> {
        self.container@
    }

    /// How many bytes have been read.
    pub closed spec fn pos(&self) -> int {
        self.offset as int
    }

    /// How many containers are open.
    pub closed spec fn depth(&self) -> int {
        self.nested_count as int
    }

    pub closed spec fn wf(&self) -> bool {
        &&& self.len == self.container@.len()
        &&& self.len < usize::MAX
        &&& self.offset <= self.len
        &&& self.curr_line == line_at(self.container@, self.offset as int)
        &&& self.curr_column == column_at(self.container@, self.offset as int)
        &&& self.nested_count <= NEST_LIMIT
    }

    /// Same text and depth as `old`, and well formed.
    pub closed spec fn follows(&self, old: &Self) -> bool {
        &&& self.wf()
        &&& self.container@ == old.container@
        &&& self.nested_count == old.nested_count
    }

    /// Creates a parser at the start of `str_stream`.
    pub fn new(str_stream: &'a str) -> (r: Self)
        requires
            encode_utf8(str_stream@).len() < usize::MAX,
        ensures
            r.wf(),
            r.bytes() == encode_utf8(str_stream@),
            r.pos() == 0,
            r.depth() == 0,
    {
        let container = str_stream.as_bytes();
        Parser {
            container,
            offset: 0,
            curr_line: 1,
            curr_column: 1,
            len: container.len(),
            nested_count: 0,
        }
    }

    /// Reads the next byte, whatever it is; `None` at the end of the text.
    fn get_next_byte(&mut self) -> (r: Option<u8>)
        requires
            old(self).wf(),
        ensures
            final(self).follows(old(self)),
            old(self).offset < old(self).len ==> r == Some(old(self).container@[old(self).offset as int])
                && final(self).offset == old(self).offset + 1,
            old(self).offset >= old(self).len ==> r is None && final(self).offset == old(self).offset,
    {
        if self.offset < self.len {
            let chr = self.container[self.offset];
            proof {
                lemma_position_bounds(self.container@, self.offset as int + 1);
            }
            self.offset = self.offset + 1;
            if chr == 10 {
                self.curr_line = self.curr_line + 1;
                self.curr_column = 0;
            } else {
                self.curr_column = self.curr_column + 1;
            }
            Some(chr)
        } else {
            None
        }
    }

    /// Skips whitespace, then reads the next byte; `None` at the end of the text.
    pub fn get_byte(&mut self) -> (r: Option<u8>)
        requires
            old(self).wf(),
        ensures
            final(self).follows(old(self)),
            ({
                let q = skip_ws(old(self).bytes(), old(self).pos());
                &&& old(self).pos() <= q <= old(self).bytes().len()
                &&& q < old(self).bytes().len() ==> !is_ws(old(self).bytes()[q])
                &&& q >= old(self).bytes().len() ==> r is None && final(self).pos() == q
                &&& q < old(self).bytes().len() ==> r == Some(old(self).bytes()[q]) && final(self).pos() == q + 1
            }),
    {
        let ghost s = self.container@;
        let ghost p0 = self.offset as int;
        proof {
            lemma_skip_ws_bounds(s, p0);
        }
        while self.offset < self.len && is_ws_byte(self.container[self.offset])
            invariant
                self.follows(old(self)),
                s == self.container@,
                p0 <= self.offset,
                skip_ws(s, self.offset as int) == skip_ws(s, p0),
            decreases self.len - self.offset,
        {
            self.get_next_byte();
        }
        self.get_next_byte()
    }

    /// Relies on `core::str::from_utf8`: it accepts exactly the valid UTF-8 byte runs and
    /// decodes them.
    #[verifier::external_body]
    pub fn slice_to_utf8(slice: &[u8]) -> (r: Result<&str, Error>)
        ensures
            r is Ok <==> valid_utf8(slice@),
            r is Ok ==> r->Ok_0@ == decode_utf8(slice@),
            r is Err ==> r->Err_0@ == Failure::InvalidUtf8,
    {
        match core::str::from_utf8(slice) {
            Ok(sl) => Ok(sl),
            Err(_) => Err(Error::Parsing(ParseError::InvalidUTF8Parsing)),
        }
    }

    /// Decodes the run `[start, end)` of the text and appends it to `acc`.
    fn flush(&self, acc: &mut String, start: usize, end: usize) -> (r: Result<(), ParseError>)
        requires
            self.wf(),
            start <= end <= self.len,
        ensures
            r is Ok <==> valid_utf8(self.bytes().subrange(start as int, end as int)),
            r is Ok ==> final(acc)@ == old(acc)@ + decode_utf8(self.bytes().subrange(start as int, end as int)),
            r is Err ==> r->Err_0@ == Failure::InvalidUtf8,
    {
        match Self::slice_to_utf8(&self.container[start..end]) {
            Ok(t) => {
                acc.append(t);
                Ok(())
            },
            Err(_) => Err(ParseError::InvalidUTF8Parsing),
        }
    }

    /// Reads the braces and the one or two hexadecimal digits of a `\\u` escape that was just
    /// read, and gives the character of that code.
    fn read_code_escape(&mut self) -> (r: Result<char, ParseError>)
        requires
            old(self).wf(),
        ensures
            final(self).follows(old(self)),
            match code_escape(old(self).bytes(), old(self).pos()) {
                Ok((c, two)) => r is Ok && r->Ok_0 == c && final(self).pos() == old(self).pos() + (if two {
                    4int
                } else {
                    3int
                }),
                Err(e) => r is Err && r->Err_0@ == e,
            },
    {
        match self.get_next_byte() {
            None => {
                return Err(ParseError::EndOfBuffer);
            },
            Some(b) => {
                if b != 123 {
                    return Err(ParseError::UnexpectedToken(b as char, self.curr_line, self.curr_column));
                }
            },
        }
        let d1 = match self.get_next_byte() {
            None => {
                return Err(ParseError::EndOfBuffer);
            },
            Some(b) => match hex_digit(b) {
                Some(d) => d,
                None => {
                    return Err(ParseError::UnexpectedToken(b as char, self.curr_line, self.curr_column));
                },
            },
        };
        match self.get_next_byte() {
            None => Err(ParseError::EndOfBuffer),
            Some(125) => Ok(d1 as char),
            Some(b) => match hex_digit(b) {
                None => Err(ParseError::UnexpectedToken(b as char, self.curr_line, self.curr_column)),
                Some(d2) => match self.get_next_byte() {
                    None => Err(ParseError::EndOfBuffer),
                    Some(125) => Ok((d1 * 16 + d2) as char),
                    Some(x) => Err(ParseError::UnexpectedToken(x as char, self.curr_line, self.curr_column)),
                },
            },
        }
    }

    /// Reads a string whose opening quote was just read, up to its closing quote.
    fn read_string_in_quotes(&mut self) -> (r: Result<String, ParseError>)
        requires
            old(self).wf(),
        ensures
            final(self).follows(old(self)),
            match string_rest(old(self).bytes(), old(self).pos(), old(self).pos(), seq![]) {
                Ok((t, p)) => r is Ok && r->Ok_0@ == t && final(self).pos() == p,
                Err(e) => r is Err && r->Err_0@ == e,
            },
            r is Ok ==> final(self).pos() > old(self).pos(),
    {
        let ghost s = self.container@;
        let ghost p0 = self.offset as int;
        let mut start = self.offset;
        let mut final_string = String::new();
        loop
            invariant
                self.follows(old(self)),
                s == self.container@,
                p0 == old(self).offset,
                p0 <= start <= self.offset,
                string_rest(s, start as int, self.offset as int, final_string@) == string_rest(s, p0, p0, seq![]),
            decreases self.len - self.offset,
        {
            let b = self.get_next_byte();
            match b {
                None => {
                    return Err(ParseError::EndOfBuffer);
                },
                Some(92) => {
                    match self.flush(&mut final_string, start, self.offset - 1) {
                        Ok(()) => {},
                        Err(e) => {
                            return Err(e);
                        },
                    }
                    match self.get_next_byte() {
                        None => {
                            return Err(ParseError::EndOfBuffer);
                        },
                        Some(117) => {
                            match self.read_code_escape() {
                                Ok(ch) => {
                                    let ghost before = final_string@;
                                    push_char(&mut final_string, ch);
                                    assert(before.push(ch) =~= before + seq![ch]);
                                },
                                Err(e) => {
                                    return Err(e);
                                },
                            }
                        },
                        Some(c) => {
                            match unescape_byte(c) {
                                Some(ch) => {
                                    let ghost before = final_string@;
                                    push_char(&mut final_string, ch);
                                    assert(before.push(ch) =~= before + seq![ch]);
                                },
                                None => {
                                    return Err(ParseError::UnexpectedToken(c as char, self.curr_line, self.curr_column));
                                },
                            }
                        },
                    }
                    start = self.offset;
                },
                Some(34) => {
                    match self.flush(&mut final_string, start, self.offset - 1) {
                        Ok(()) => {},
                        Err(e) => {
                            return Err(e);
                        },
                    }
                    return Ok(final_string);
                },
                Some(_) => {},
            }
        }
    }

    /// Reads a number whose first byte `lead` was just read; the byte that ends it is left
    /// unread.
    fn read_number(&mut self, lead: u8) -> (r: Result<Container, ParseError>)
        requires
            old(self).wf(),
            old(self).offset >= 1,
            old(self).container@[old(self).offset - 1] == lead,
            is_digit(lead) || lead == 45,
        ensures
            final(self).follows(old(self)),
            match number_at(old(self).bytes(), old(self).pos() - 1) {
                Ok((v, p)) => r is Ok && r->Ok_0@ == v && final(self).pos() == p,
                Err(e) => r is Err && r->Err_0@ == e,
            },
            r is Ok ==> final(self).pos() >= old(self).pos(),
    {
        let ghost s = self.container@;
        let start = self.offset - 1;
        let mut dot = false;
        let mut exp = false;
        let mut prev = lead;
        loop
            invariant
                self.follows(old(self)),
                s == self.container@,
                start + 1 == old(self).offset,
                start < self.offset,
                lead == s[start as int],
                exp ==> dot,
                is_exp_marker(prev) ==> exp,
                prev == s[self.offset - 1],
                scan_number(s, self.offset as int, dot, exp, prev) == scan_number(s, start + 1, false, false, lead),
                forall|k: int| start <= k < self.offset ==> s[k] < 128,
                !dot ==> forall|k: int| start < k < self.offset ==> is_digit(#[trigger] s[k]),
            ensures
                self.follows(old(self)),
                s == self.container@,
                start + 1 == old(self).offset,
                start < self.offset,
                lead == s[start as int],
                exp ==> dot,
                prev == s[self.offset - 1],
                scan_number(s, self.offset as int, dot, exp, prev) == scan_number(s, start + 1, false, false, lead),
                forall|k: int| start <= k < self.offset ==> s[k] < 128,
                !dot ==> forall|k: int| start < k < self.offset ==> is_digit(#[trigger] s[k]),
                self.offset >= self.len || ends_number(s[self.offset as int]),
            decreases self.len - self.offset,
        {
            if self.offset >= self.len {
                break;
            }
            let c = self.container[self.offset];
            if c == 32 || (9 <= c && c <= 13) || c == 44 || c == 93 || c == 125 {
                break;
            }
            self.get_next_byte();
            if c == 46 {
                if dot || prev == 45 {
                    return Err(ParseError::InvalidNumberParse('.'));
                }
                dot = true;
            } else if c == 101 || c == 69 {
                if exp || prev == 45 {
                    return Err(ParseError::InvalidNumberParse(c as char));
                }
                dot = true;
                exp = true;
            } else if c == 43 || c == 45 {
                if !(prev == 101 || prev == 69) {
                    return Err(ParseError::UnexpectedToken(c as char, self.curr_line, self.curr_column));
                }
            } else if !is_digit_byte(c) {
                return Err(ParseError::InvalidNumberParse(c as char));
            }
            prev = c;
        }
        if !is_digit_byte(prev) {
            return Err(ParseError::InvalidNumberParse('\0'));
        }
        let end = self.offset;
        let token = &self.container[start..end];
        if dot {
            proof {
                lemma_ascii_utf8(token@);
            }
            match Self::slice_to_utf8(token) {
                Ok(t) => {
                    proof {
                        assert(is_real_token(t@)) by {
                            let b = Seq::new(t@.len(), |i: int| t@[i] as u8);
                            assert(b =~= token@);
                            lemma_scan_slice(s, start as int, end as int, start + 1, false, false, lead);
                        }
                    }
                    Ok(Container::Decimal(Decimal::from_token(t.to_owned())))
                },
                Err(_) => Err(ParseError::InvalidUTF8Parsing),
            }
        } else if lead == 45 {
            match digits_to_u64(&self.container[start + 1..end]) {
                Some(m) => {
                    if m > 0x8000_0000_0000_0000 {
                        Err(ParseError::InvalidNumberParse('-'))
                    } else if m == 0x8000_0000_0000_0000 {
                        Ok(Container::Number(i64::MIN))
                    } else {
                        Ok(Container::Number(-(m as i64)))
                    }
                },
                None => Err(ParseError::InvalidNumberParse('-')),
            }
        } else {
            match digits_to_u64(token) {
                Some(m) => Ok(Container::Unsigned(m)),
                None => Err(ParseError::InvalidNumberParse(lead as char)),
            }
        }
    }

    /// Same text as `old`, and well formed.
    pub closed spec fn same_text(&self, old: &Self) -> bool {
        &&& self.wf()
        &&& self.container@ == old.container@
    }

    /// Reads the byte `b`, no whitespace skipped.
    fn expect_next(&mut self, b: u8) -> (r: Result<(), ParseError>)
        requires
            old(self).wf(),
        ensures
            final(self).follows(old(self)),
            match expect_byte(old(self).bytes(), old(self).pos(), b) {
                Ok(q) => r is Ok && final(self).pos() == q,
                Err(e) => r is Err && r->Err_0@ == e,
            },
    {
        match self.get_next_byte() {
            None => Err(ParseError::EndOfBuffer),
            Some(c) => {
                if c == b {
                    Ok(())
                } else {
                    Err(ParseError::UnexpectedToken(c as char, self.curr_line, self.curr_column))
                }
            },
        }
    }

    /// Reads the rest of the keyword that `lead` began: `true`, `false` or `null`.
    fn read_keyword(&mut self, lead: u8) -> (r: Result<Container, ParseError>)
        requires
            old(self).wf(),
        ensures
            final(self).follows(old(self)),
            match keyword_rest(old(self).bytes(), old(self).pos(), lead) {
                Ok(p) => r is Ok && r->Ok_0@ == keyword_value(lead) && final(self).pos() == p,
                Err(e) => r is Err && r->Err_0@ == e,
            },
    {
        if lead == 116 {
            match self.expect_next(114) { Ok(()) => {}, Err(e) => { return Err(e); } }
            match self.expect_next(117) { Ok(()) => {}, Err(e) => { return Err(e); } }
            match self.expect_next(101) { Ok(()) => {}, Err(e) => { return Err(e); } }
            Ok(Container::Boolean(true))
        } else if lead == 102 {
            match self.expect_next(97) { Ok(()) => {}, Err(e) => { return Err(e); } }
            match self.expect_next(108) { Ok(()) => {}, Err(e) => { return Err(e); } }
            match self.expect_next(115) { Ok(()) => {}, Err(e) => { return Err(e); } }
            match self.expect_next(101) { Ok(()) => {}, Err(e) => { return Err(e); } }
            Ok(Container::Boolean(false))
        } else {
            match self.expect_next(117) { Ok(()) => {}, Err(e) => { return Err(e); } }
            match self.expect_next(108) { Ok(()) => {}, Err(e) => { return Err(e); } }
            match self.expect_next(108) { Ok(()) => {}, Err(e) => { return Err(e); } }
            Ok(Container::Null)
        }
    }

    /// Reads the value whose first byte `lead` was just read.
    fn read_value(&mut self, lead: u8) -> (r: Result<Container, ParseError>)
        requires
            old(self).wf(),
            old(self).offset >= 1,
            old(self).container@[old(self).offset - 1] == lead,
        ensures
            final(self).same_text(old(self)),
            match value_at(old(self).bytes(), old(self).pos() - 1, old(self).depth()) {
                Ok((v, p)) => r is Ok && r->Ok_0@ == v && final(self).pos() == p && final(self).depth() == old(self).depth(),
                Err(e) => r is Err && r->Err_0@ == e,
            },
            r is Ok ==> final(self).pos() >= old(self).pos(),
        decreases old(self).len - old(self).offset, 1nat,
    {
        if lead == 34 {
            match self.read_string_in_quotes() {
                Ok(t) => Ok(Container::String(t)),
                Err(e) => Err(e),
            }
        } else if lead == 91 {
            self.read_array()
        } else if lead == 123 {
            self.read_objects()
        } else if is_digit_byte(lead) || lead == 45 {
            self.read_number(lead)
        } else if lead == 116 || lead == 102 || lead == 110 {
            self.read_keyword(lead)
        } else {
            Err(ParseError::UnexpectedToken(lead as char, self.curr_line, self.curr_column))
        }
    }

    /// Reads an array whose `[` was just read.
    fn read_array(&mut self) -> (r: Result<Container, ParseError>)
        requires
            old(self).wf(),
            old(self).offset >= 1,
            old(self).container@[old(self).offset - 1] == 91,
        ensures
            final(self).same_text(old(self)),
            match value_at(old(self).bytes(), old(self).pos() - 1, old(self).depth()) {
                Ok((v, p)) => r is Ok && r->Ok_0@ == v && final(self).pos() == p && final(self).depth() == old(self).depth(),
                Err(e) => r is Err && r->Err_0@ == e,
            },
            r is Ok ==> final(self).pos() >= old(self).pos(),
        decreases old(self).len - old(self).offset, 0nat,
    {
        let ghost s = self.container@;
        let ghost p0 = self.offset as int;
        let ghost d = self.nested_count as int;
        if self.nested_count >= NEST_LIMIT {
            return Err(ParseError::NestedDepthExceeded(self.nested_count + 1));
        }
        self.nested_count = self.nested_count + 1;
        let mut items: Vec<Container> = Vec::new();
        let mut first = true;
        assert(views(items@) =~= seq![]);
        assert(value_at(s, p0 - 1, d) == array_rest(s, p0, d + 1, seq![], true));
        loop
            invariant
                value_at(s, p0 - 1, d) == array_rest(s, p0, d + 1, seq![], true),
                self.wf(),
                s == self.container@,
                s == old(self).container@,
                self.len == old(self).len,
                p0 == old(self).offset,
                d == old(self).nested_count,
                self.nested_count == d + 1,
                p0 <= self.offset,
                array_rest(s, self.offset as int, d + 1, views(items@), first) == array_rest(s, p0, d + 1, seq![], true),
            decreases self.len - self.offset,
        {
            match self.get_byte() {
                None => {
                    return Err(ParseError::EndOfBuffer);
                },
                Some(b) => {
                    if b == 93 && first {
                        self.nested_count = self.nested_count - 1;
                        return Ok(Container::Array(items));
                    }
                    if b == 125 {
                        return Err(ParseError::ContainerParanthesisMismatch { opening_container: '[', closing_container: '}' });
                    }
                    if !is_lead_byte(b) {
                        return Err(ParseError::UnexpectedToken(b as char, self.curr_line, self.curr_column));
                    }
                    let v = match self.read_value(b) {
                        Ok(v) => v,
                        Err(e) => {
                            return Err(e);
                        },
                    };
                    match self.get_byte() {
                        None => {
                            return Err(ParseError::EndOfBuffer);
                        },
                        Some(c) => {
                            let ghost before = views(items@);
                            if c == 44 {
                                items.push(v);
                                assert(views(items@) =~= before.push(items@.last()@));
                                first = false;
                            } else if c == 93 {
                                items.push(v);
                                assert(views(items@) =~= before.push(items@.last()@));
                                self.nested_count = self.nested_count - 1;
                                return Ok(Container::Array(items));
                            } else if c == 125 {
                                return Err(ParseError::ContainerParanthesisMismatch { opening_container: '[', closing_container: '}' });
                            } else {
                                return Err(ParseError::UnexpectedToken(c as char, self.curr_line, self.curr_column));
                            }
                        },
                    }
                },
            }
        }
    }

    /// Reads an object whose `{` was just read.
    fn read_objects(&mut self) -> (r: Result<Container, ParseError>)
        requires
            old(self).wf(),
            old(self).offset >= 1,
            old(self).container@[old(self).offset - 1] == 123,
        ensures
            final(self).same_text(old(self)),
            match value_at(old(self).bytes(), old(self).pos() - 1, old(self).depth()) {
                Ok((v, p)) => r is Ok && r->Ok_0@ == v && final(self).pos() == p && final(self).depth() == old(self).depth(),
                Err(e) => r is Err && r->Err_0@ == e,
            },
            r is Ok ==> final(self).pos() >= old(self).pos(),
        decreases old(self).len - old(self).offset, 0nat,
    {
        let ghost s = self.container@;
        let ghost p0 = self.offset as int;
        let ghost d = self.nested_count as int;
        if self.nested_count >= NEST_LIMIT {
            return Err(ParseError::NestedDepthExceeded(self.nested_count + 1));
        }
        self.nested_count = self.nested_count + 1;
        let mut entries: Vec<(String, Container)> = Vec::new();
        let mut first = true;
        assert(entry_views(entries@) =~= seq![]);
        assert(value_at(s, p0 - 1, d) == object_rest(s, p0, d + 1, seq![], true));
        loop
            invariant
                value_at(s, p0 - 1, d) == object_rest(s, p0, d + 1, seq![], true),
                self.wf(),
                s == self.container@,
                s == old(self).container@,
                self.len == old(self).len,
                p0 == old(self).offset,
                d == old(self).nested_count,
                self.nested_count == d + 1,
                p0 <= self.offset,
                keys_unique(entry_views(entries@)),
                object_rest(s, self.offset as int, d + 1, entry_views(entries@), first) == object_rest(s, p0, d + 1, seq![], true),
            decreases self.len - self.offset,
        {
            match self.get_byte() {
                None => {
                    return Err(ParseError::EndOfBuffer);
                },
                Some(b) => {
                    if b == 125 && first {
                        self.nested_count = self.nested_count - 1;
                        return Ok(Container::Object(entries));
                    }
                    if b == 93 {
                        return Err(ParseError::ContainerParanthesisMismatch { opening_container: '{', closing_container: ']' });
                    }
                    if b != 34 {
                        let line = self.curr_line;
                        let column = self.curr_column;
                        if is_lead_byte(b) {
                            if let Ok(_) = self.read_value(b) {
                                if let Some(93) = self.get_byte() {
                                    return Err(ParseError::ContainerParanthesisMismatch {
                                        opening_container: '{',
                                        closing_container: ']',
                                    });
                                }
                            }
                        }
                        return Err(ParseError::UnexpectedToken(b as char, line, column));
                    }
                    let key = match self.read_string_in_quotes() {
                        Ok(k) => k,
                        Err(e) => {
                            return Err(e);
                        },
                    };
                    match self.get_byte() {
                        None => {
                            return Err(ParseError::EndOfBuffer);
                        },
                        Some(c) => {
                            if c != 58 {
                                return Err(ParseError::UnexpectedToken(c as char, self.curr_line, self.curr_column));
                            }
                        },
                    }
                    let x = match self.get_byte() {
                        None => {
                            return Err(ParseError::EndOfBuffer);
                        },
                        Some(x) => x,
                    };
                    if x == 125 {
                        return Err(ParseError::InvalidKeyValueFormat { reading_key: key });
                    }
                    if x == 93 {
                        return Err(ParseError::ContainerParanthesisMismatch { opening_container: '{', closing_container: ']' });
                    }
                    let v = match self.read_value(x) {
                        Ok(v) => v,
                        Err(e) => {
                            return Err(e);
                        },
                    };
                    upsert_entry(&mut entries, key, v);
                    match self.get_byte() {
                        None => {
                            return Err(ParseError::EndOfBuffer);
                        },
                        Some(c) => {
                            if c == 44 {
                                first = false;
                            } else if c == 125 {
                                self.nested_count = self.nested_count - 1;
                                return Ok(Container::Object(entries));
                            } else if c == 93 {
                                return Err(ParseError::ContainerParanthesisMismatch { opening_container: '{', closing_container: ']' });
                            } else {
                                return Err(ParseError::UnexpectedToken(c as char, self.curr_line, self.curr_column));
                            }
                        },
                    }
                },
            }
        }
    }

    /// Parses the whole text: one value, with only whitespace around it.
    pub fn parse_str(&mut self) -> (r: Result<Container, Error>)
        requires
            old(self).wf(),
            old(self).pos() == 0,
            old(self).depth() == 0,
        ensures
            match parse_spec(old(self).bytes()) {
                Ok(v) => r is Ok && r->Ok_0@ == v,
                Err(e) => r is Err && r->Err_0@ == e,
            },
            r is Ok ==> r->Ok_0@.wf(),
    {
        proof {
            let s = self.container@;
            if parse_spec(s) is Ok {
                lemma_parsed_value(s, skip_ws(s, 0), 0);
                lemma_writable_wf(parse_spec(s)->Ok_0);
            }
        }
        let answer = match self.get_byte() {
            None => {
                return Err(Error::Parsing(ParseError::EndOfBuffer));
            },
            Some(b) => match self.read_value(b) {
                Ok(v) => v,
                Err(e) => {
                    return Err(Error::Parsing(e));
                },
            },
        };
        match self.get_byte() {
            Some(chr) => Err(Error::Parsing(ParseError::UnexpectedToken(chr as char, self.curr_line, self.curr_column))),
            None => Ok(answer),
        }
    }
}

/// Parses `input_str` as one value with only whitespace around it.
pub fn parse_str(input_str: &str) -> (r: Result<Container, Error>)
    requires
        encode_utf8(input_str@).len() < usize::MAX,
    ensures
        match parse_spec(encode_utf8(input_str@)) {
            Ok(v) => r is Ok && r->Ok_0@ == v,
            Err(e) => r is Err && r->Err_0@ == e,
        },
        r is Ok ==> r->Ok_0@.wf(),
{
    Parser::new(input_str).parse_str()
}

/// Parses `input_str`, as `parse_str` does.
pub fn read_str(input_str: &str) -> (r: Result<Container, Error>)
    requires
        encode_utf8(input_str@).len() < usize::MAX,
    ensures
        match parse_spec(encode_utf8(input_str@)) {
            Ok(v) => r is Ok && r->Ok_0@ == v,
            Err(e) => r is Err && r->Err_0@ == e,
        },
        r is Ok ==> r->Ok_0@.wf(),
{
    parse_str(input_str)
}

} // verus!
