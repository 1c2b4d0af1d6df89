//! Text written by the serializer parses back to the value it was written from.
use vstd::prelude::*;
use vstd::utf8::*;

use crate::dump::{
    hex_char, hex_text, is_control,
    digit_char, digits_text, dump, dump_entries, dump_entry, dump_items, entries_height, escape, escape_char,
    height, items_height, lemma_entry_height, lemma_item_height, quoted,
};
use crate::model::{
    ascii_chars, entries_wf, has_key, is_digit, is_first_key, items_wf, key_index, keys_unique, lemma_upsert_wf, upsert,
    Failure, Value,
};
use crate::parser::{
    array_rest, code_escape, hex_value, digits_value, ends_number, is_exp_marker, is_real_token, is_value_lead, is_ws, keyword_rest,
    lemma_digits_nonneg, lemma_scan_ge, lemma_scan_slice, number_at, object_rest, parse_spec, scan_number, skip_ws,
    string_rest, value_at, NEST_LIMIT,
};

verus! {

proof fn lemma_encode_concat(a: Seq<char>, b: Seq<char>)
    ensures
        encode_utf8(a + b) == encode_utf8(a) + encode_utf8(b),
    decreases a.len(),
{
    if a.len() == 0 {
        assert(a + b =~= b);
        assert(encode_utf8(a) =~= seq![]);
        assert(encode_utf8(a) + encode_utf8(b) =~= encode_utf8(b));
    } else {
        assert((a + b).drop_first() =~= a.drop_first() + b);
        lemma_encode_concat(a.drop_first(), b);
        assert(encode_utf8(a + b) =~= encode_utf8(a) + encode_utf8(b));
    }
}

/// ASCII characters encode as one byte each.
proof fn lemma_encode_ascii(t: Seq<char>)
    requires
        is_ascii_chars(t),
    ensures
        encode_utf8(t) == Seq::new(t.len(), |i: int| t[i] as u8),
{
    is_ascii_chars_encode_utf8(t);
    assert(encode_utf8(t) =~= Seq::new(t.len(), |i: int| t[i] as u8));
}

proof fn lemma_escape_concat(a: Seq<char>, b: Seq<char>)
    ensures
        escape(a + b) == escape(a) + escape(b),
    decreases b.len(),
{
    if b.len() == 0 {
        assert(a + b =~= a);
        assert(escape(b) =~= seq![]);
        assert(escape(a) + escape(b) =~= escape(a));
    } else {
        assert((a + b).drop_last() =~= a + b.drop_last());
        assert((a + b).last() == b.last());
        lemma_escape_concat(a, b.drop_last());
        assert(escape(a + b) =~= escape(a) + escape(b));
    }
}

/// No byte of a character other than a quote or a backslash is a quote or a backslash.
proof fn lemma_plain_bytes(c: char)
    requires
        c != '"',
        c != '\\',
    ensures
        forall|i: int| 0 <= i < encode_utf8(seq![c]).len() ==> #[trigger] encode_utf8(seq![c])[i] != 34
            && encode_utf8(seq![c])[i] != 92,
{
    let u = c as u32;
    let e = seq![c];
    assert(e[0] == c);
    assert(e.drop_first().len() == 0);
    assert(encode_utf8(e.drop_first()) == Seq::<u8>::empty());
    assert(encode_utf8(e) =~= encode_scalar(u));
    if has_width_1_encoding(u) {
        assert(u != 34 && u != 92);
        assert(leading_byte_width_1(u) != 34 && leading_byte_width_1(u) != 92) by (bit_vector)
            requires
                u <= 0x7f,
                u != 34,
                u != 92,
        ;
    } else {
        assert(forall|x: u32| #![auto] (0xC0 | ((x >> 6) & 0x1F) as u8) >= 0x80u8) by (bit_vector);
        assert(forall|x: u32| #![auto] (0xE0 | ((x >> 12) & 0x0F) as u8) >= 0x80u8) by (bit_vector);
        assert(forall|x: u32| #![auto] (0xF0 | ((x >> 18) & 0x7) as u8) >= 0x80u8) by (bit_vector);
        assert(forall|x: u32| #![auto] (0x80 | (x & 0x3F) as u8) >= 0x80u8) by (bit_vector);
        assert(forall|x: u32| #![auto] (0x80 | ((x >> 6) & 0x3F) as u8) >= 0x80u8) by (bit_vector);
        assert(forall|x: u32| #![auto] (0x80 | ((x >> 12) & 0x3F) as u8) >= 0x80u8) by (bit_vector);
    }
}

proof fn lemma_string_skip(s: Seq<u8>, start: int, p: int, k: int, acc: Seq<char>)
    requires
        0 <= start <= p,
        0 <= k,
        p + k < s.len(),
        forall|i: int| p <= i < p + k ==> s[i] != 34 && s[i] != 92,
    ensures
        string_rest(s, start, p, acc) == string_rest(s, start, p + k, acc),
    decreases k,
{
    if k > 0 {
        lemma_string_skip(s, start, p + 1, k - 1, acc);
    }
}

proof fn lemma_escape_single(c: char)
    ensures
        escape(seq![c]) == escape_char(c),
{
    assert(seq![c].drop_last() =~= Seq::<char>::empty());
    assert(escape(Seq::<char>::empty()) =~= Seq::<char>::empty());
    assert(escape(seq![c]) =~= escape_char(c));
}

/// The bytes of a `\\u{..}` escape, where they stand in `s` at `p`, decode to the character.
proof fn lemma_code_escape(s: Seq<u8>, p: int, c: char)
    requires
        is_control(c),
        0 <= p,
        p + encode_utf8(escape_char(c)).len() <= s.len(),
        s.subrange(p, p + encode_utf8(escape_char(c)).len()) == encode_utf8(escape_char(c)),
    ensures
        s[p] == 92,
        s[p + 1] == 117,
        code_escape(s, p + 2) is Ok,
        code_escape(s, p + 2)->Ok_0.0 == c,
        encode_utf8(escape_char(c)).len() == (if code_escape(s, p + 2)->Ok_0.1 { 6int } else { 5int }),
{
    reveal(escape_char);
    let n = c as u32 as int;
    let e = escape_char(c);
    assert(e == seq!['\\', 'u', '{'] + hex_text(n) + seq!['}']);
    assert forall|i: int| 0 <= i < e.len() implies '\0' <= #[trigger] e[i] <= '\u{7f}' by {
        if n < 16 {
            assert(e[i] == seq!['\\', 'u', '{', hex_char(n), '}'][i]);
        } else {
            assert(e[i] == seq!['\\', 'u', '{', hex_char(n / 16), hex_char(n % 16), '}'][i]);
        }
    }
    assert(is_ascii_chars(e));
    lemma_encode_ascii(e);
    let b = encode_utf8(e);
    assert forall|i: int| 0 <= i < b.len() implies s[p + i] == b[i] by {
        assert(s.subrange(p, p + b.len())[i] == s[p + i]);
    }
    assert(e[0] == '\\' && e[1] == 'u' && e[2] == '{');
    assert(b[0] == e[0] as u8 && b[1] == e[1] as u8 && b[2] == e[2] as u8);
    assert(s[p] == 92 && s[p + 1] == 117 && s[p + 2] == 123);
    if n < 16 {
        assert(b.len() == 5);
        assert(e[3] == hex_char(n));
        assert(b[3] == e[3] as u8);
        assert(e[4] == '}' && b[4] == e[4] as u8);
        assert(s[p + 3] == hex_char(n) as u8);
        assert(s[p + 4] == 125);
        assert(hex_value(s[p + 3]) == Some(n));
        assert(((n as u8) as char) == c);
    } else {
        assert(b.len() == 6);
        assert(e[3] == hex_char(n / 16));
        assert(e[4] == hex_char(n % 16));
        assert(b[3] == e[3] as u8);
        assert(b[4] == e[4] as u8);
        assert(e[5] == '}' && b[5] == e[5] as u8);
        assert(s[p + 3] == hex_char(n / 16) as u8);
        assert(s[p + 4] == hex_char(n % 16) as u8);
        assert(s[p + 5] == 125);
        assert(hex_value(s[p + 3]) == Some(n / 16));
        assert(hex_value(s[p + 4]) == Some(n % 16));
        assert(n / 16 * 16 + n % 16 == n);
        assert(((n as u8) as char) == c);
    }
}

/// The bytes of `escape(t)` followed by a quote decode to `t`; `run` is the raw run read so far
/// from `start`.
proof fn lemma_string_body(s: Seq<u8>, start: int, p: int, acc: Seq<char>, run: Seq<char>, t: Seq<char>)
    requires
        0 <= start <= p,
        s.subrange(start, p) == encode_utf8(run),
        p + encode_utf8(escape(t)).len() < s.len(),
        s.subrange(p, p + encode_utf8(escape(t)).len()) == encode_utf8(escape(t)),
        s[p + encode_utf8(escape(t)).len()] == 34,
    ensures
        string_rest(s, start, p, acc) == Ok::<(Seq<char>, int), crate::model::Failure>(
            (acc + run + t, p + encode_utf8(escape(t)).len() + 1),
        ),
    decreases t.len(),
{
    let n = encode_utf8(escape(t)).len();
    encode_utf8_valid_utf8(run);
    encode_utf8_decode_utf8(run);
    if t.len() == 0 {
        assert(escape(t) =~= Seq::<char>::empty());
        assert(encode_utf8(Seq::<char>::empty()) =~= Seq::<u8>::empty());
        assert(acc + run + t =~= acc + run);
    } else {
        let c = t[0];
        let rest = t.drop_first();
        assert(seq![c] + rest =~= t);
        lemma_escape_concat(seq![c], rest);
        lemma_escape_single(c);
        lemma_encode_concat(escape_char(c), escape(rest));
        let head = encode_utf8(escape_char(c));
        let m = head.len() as int;
        let n2 = encode_utf8(escape(rest)).len() as int;
        assert(n == m + n2);
        assert(s.subrange(p, p + m) =~= head) by {
            assert(s.subrange(p, p + n).subrange(0, m) =~= s.subrange(p, p + m));
        }
        assert(s.subrange(p + m, p + m + n2) =~= encode_utf8(escape(rest))) by {
            assert(s.subrange(p, p + n).subrange(m, n as int) =~= s.subrange(p + m, p + m + n2));
        }
        reveal(escape_char);
        if c == '"' || c == '\\' || c == '\n' || c == '\r' || c == '\t' || c == '\0' {
            assert(is_ascii_chars(escape_char(c)));
            lemma_encode_ascii(escape_char(c));
            assert(m == 2);
            assert(s[p] == head[0]);
            assert(s[p + 1] == head[1]);
            assert(s[p] == 92);
            assert(crate::parser::unescape(s[p + 1]) == Some(c));
            assert(s.subrange(p + 2, p + 2) =~= encode_utf8(Seq::<char>::empty()));
            lemma_string_body(s, p + 2, p + 2, acc + run + seq![c], Seq::<char>::empty(), rest);
            assert(acc + run + seq![c] + Seq::<char>::empty() + rest =~= acc + run + t);
        } else if is_control(c) {
            lemma_code_escape(s, p, c);
            let next = p + m;
            assert(s.subrange(next, next) =~= encode_utf8(Seq::<char>::empty())) by {
                assert(encode_utf8(Seq::<char>::empty()) =~= Seq::<u8>::empty());
            }
            lemma_string_body(s, next, next, acc + run + seq![c], Seq::<char>::empty(), rest);
            assert(acc + run + seq![c] + Seq::<char>::empty() + rest =~= acc + run + t);
        } else {
            assert(escape_char(c) == seq![c]);
            lemma_plain_bytes(c);
            assert(m >= 1) by {
                assert(seq![c].drop_first() =~= Seq::<char>::empty());
            }
            assert forall|i: int| p <= i < p + m implies s[i] != 34 && s[i] != 92 by {
                assert(s[i] == head[i - p]);
            }
            lemma_string_skip(s, start, p, m, acc);
            lemma_encode_concat(run, seq![c]);
            assert(s.subrange(start, p + m) =~= encode_utf8(run + seq![c])) by {
                assert(s.subrange(start, p + m) =~= s.subrange(start, p) + s.subrange(p, p + m));
            }
            lemma_string_body(s, start, p + m, acc, run + seq![c], rest);
            assert(acc + (run + seq![c]) + rest =~= acc + run + t);
        }
    }
}

/// The bytes of a character sequence that is all ASCII.
pub open spec fn ascii_bytes(t: Seq<char>) -> Seq<u8> {
    Seq::new(t.len(), |i: int| t[i] as u8)
}

proof fn lemma_digits_text(n: nat)
    ensures
        digits_text(n).len() >= 1,
        is_ascii_chars(digits_text(n)),
        forall|i: int| 0 <= i < digits_text(n).len() ==> is_digit(#[trigger] ascii_bytes(digits_text(n))[i]),
        digits_value(ascii_bytes(digits_text(n))) == n,
    decreases n,
{
    let t = digits_text(n);
    let b = ascii_bytes(t);
    if n < 10 {
        assert(b.drop_last() =~= Seq::<u8>::empty());
        assert(digits_value(Seq::<u8>::empty()) == 0);
        assert(b[0] == 48 + n);
        assert(digits_value(b) == digits_value(b.drop_last()) * 10 + (b.last() - 48));
    } else {
        lemma_digits_text(n / 10);
        let t0 = digits_text(n / 10);
        assert(t == t0.push(digit_char((n % 10) as int)));
        assert(b.drop_last() =~= ascii_bytes(t0));
        assert(b.last() == 48 + n % 10);
        assert forall|i: int| 0 <= i < t.len() implies is_digit(#[trigger] b[i]) by {
            if i < t.len() - 1 {
                assert(b[i] == b.drop_last()[i]);
            }
        }
        assert(digits_value(b) == digits_value(b.drop_last()) * 10 + (b.last() - 48));
        assert(digits_value(b.drop_last()) == n / 10);
        assert(n == (n / 10) * 10 + n % 10);
    }
}

/// A run of digits up to a byte that ends numbers scans as a whole number.
proof fn lemma_scan_digits(s: Seq<u8>, p: int, e: int, dot: bool, exp: bool, prev: u8)
    requires
        0 <= p <= e <= s.len(),
        forall|i: int| p <= i < e ==> is_digit(#[trigger] s[i]),
        e == s.len() || ends_number(s[e]),
        p < e || is_digit(prev),
    ensures
        scan_number(s, p, dot, exp, prev) == Ok::<(int, bool), Failure>((e, dot)),
    decreases e - p,
{
    if p < e {
        lemma_scan_digits(s, p + 1, e, dot, exp, s[p]);
    }
}

/// A number token scans the same where it stands in a text, before a byte that ends numbers.
proof fn lemma_scan_embed(s: Seq<u8>, b: Seq<u8>, q: int, p: int, dot: bool, exp: bool, prev: u8)
    requires
        0 < p <= b.len(),
        0 <= q,
        q + b.len() <= s.len(),
        s.subrange(q, q + b.len()) == b,
        q + b.len() == s.len() || ends_number(s[q + b.len()]),
        scan_number(b, p, dot, exp, prev) is Ok,
        scan_number(b, p, dot, exp, prev)->Ok_0.0 == b.len(),
    ensures
        scan_number(s, q + p, dot, exp, prev) == Ok::<(int, bool), Failure>(
            (q + b.len(), scan_number(b, p, dot, exp, prev)->Ok_0.1),
        ),
    decreases b.len() - p,
{
    if p < b.len() {
        let c = b[p];
        assert(s[q + p] == c);
        if !ends_number(c) {
            let nd = if c == 46 || is_exp_marker(c) { true } else { dot };
            let ne = if is_exp_marker(c) { true } else { exp };
            assert(scan_number(b, p, dot, exp, prev) == scan_number(b, p + 1, nd, ne, c));
            lemma_scan_embed(s, b, q, p + 1, nd, ne, c);
        }
    }
}

/// What parsing can give: an integer of the kind its sign decides, a real-number token, objects
/// with unique keys, at every level.
pub open spec fn writable(v: Value) -> bool
    decreases v,
{
    match v {
        Value::Number(n) => i64::MIN <= n <= 0,
        Value::Unsigned(n) => 0 <= n <= u64::MAX,
        Value::Decimal(t) => is_real_token(t),
        Value::Array(items) => writable_items(items),
        Value::Object(entries) => keys_unique(entries) && writable_entries(entries),
        _ => true,
    }
}

pub open spec fn writable_items(x: Seq<Value>) -> bool
    decreases x,
{
    x.len() == 0 || (writable_items(x.drop_last()) && writable(x.last()))
}

pub open spec fn writable_entries(x: Seq<(Seq<char>, Value)>) -> bool
    decreases x,
{
    x.len() == 0 || (writable_entries(x.drop_last()) && writable(x.last().1))
}

proof fn lemma_writable_items(x: Seq<Value>)
    requires
        writable_items(x),
    ensures
        forall|i: int| 0 <= i < x.len() ==> #[trigger] writable(x[i]),
    decreases x.len(),
{
    if x.len() > 0 {
        lemma_writable_items(x.drop_last());
        assert forall|i: int| 0 <= i < x.len() implies #[trigger] writable(x[i]) by {
            if i < x.len() - 1 {
                assert(x.drop_last()[i] == x[i]);
            }
        }
    }
}

proof fn lemma_writable_entries(x: Seq<(Seq<char>, Value)>)
    requires
        writable_entries(x),
    ensures
        forall|i: int| 0 <= i < x.len() ==> #[trigger] writable(x[i].1),
    decreases x.len(),
{
    if x.len() > 0 {
        lemma_writable_entries(x.drop_last());
        assert forall|i: int| 0 <= i < x.len() implies #[trigger] writable(x[i].1) by {
            if i < x.len() - 1 {
                assert(x.drop_last()[i] == x[i]);
            }
        }
    }
}

/// The compact text of `v`, as bytes.
pub open spec fn compact(v: Value, dd: int) -> Seq<u8> {
    encode_utf8(dump(v, false, 0, dd))
}

proof fn lemma_split(s: Seq<u8>, p: int, a: Seq<u8>, b: Seq<u8>)
    requires
        0 <= p,
        p + a.len() + b.len() <= s.len(),
        s.subrange(p, p + a.len() + b.len()) == a + b,
    ensures
        s.subrange(p, p + a.len()) == a,
        s.subrange(p + a.len(), p + a.len() + b.len()) == b,
{
    assert forall|i: int| 0 <= i < a.len() implies s.subrange(p, p + a.len())[i] == a[i] by {
        assert(s.subrange(p, p + a.len() + b.len())[i] == (a + b)[i]);
    }
    assert forall|i: int| 0 <= i < b.len() implies s.subrange(p + a.len(), p + a.len() + b.len())[i] == b[i] by {
        assert(s.subrange(p, p + a.len() + b.len())[a.len() + i] == (a + b)[a.len() + i]);
        assert((a + b)[a.len() + i] == b[i]);
        assert(s.subrange(p, p + a.len() + b.len())[a.len() + i] == s[p + a.len() + i]);
        assert(s.subrange(p + a.len(), p + a.len() + b.len())[i] == s[p + a.len() + i]);
    }
    assert(s.subrange(p, p + a.len()) =~= a);
    assert(s.subrange(p + a.len(), p + a.len() + b.len()) =~= b);
}

proof fn lemma_encode_char(c: char)
    requires
        '\0' <= c <= '\u{7f}',
    ensures
        encode_utf8(seq![c]) == seq![c as u8],
{
    assert(is_ascii_chars(seq![c]));
    lemma_encode_ascii(seq![c]);
    assert(encode_utf8(seq![c]) =~= seq![c as u8]);
}

/// The first byte of a compact text can begin a value.
proof fn lemma_lead(v: Value, dd: int)
    requires
        writable(v),
    ensures
        compact(v, dd).len() >= 1,
        is_value_lead(compact(v, dd)[0]),
        (compact(v, dd)[0] == 34) == (v is Str),
{
    let t = dump(v, false, 0, dd);
    match v {
        Value::Number(n) => {
            lemma_digits_text((-n) as nat);
            lemma_encode_char('-');
            lemma_encode_concat(seq!['-'], digits_text((-n) as nat));
        },
        Value::Unsigned(n) => {
            lemma_digits_text(n as nat);
            lemma_encode_ascii(digits_text(n as nat));
            assert(is_digit(ascii_bytes(digits_text(n as nat))[0]));
        },
        Value::Decimal(tok) => {
            lemma_encode_ascii(tok);
            assert(compact(v, dd) =~= ascii_bytes(tok));
        },
        Value::Str(x) => {
            lemma_encode_char('"');
            lemma_encode_concat(seq!['"'], escape(x) + seq!['"']);
            assert(quoted(x) =~= seq!['"'] + (escape(x) + seq!['"']));
        },
        Value::Array(items) => {
            lemma_encode_char('[');
            if items.len() == 0 {
                lemma_encode_ascii(seq!['[', ']']);
            } else {
                lemma_encode_concat(seq!['['], crate::dump::dump_items(items, false, 0, dd) + seq![']']);
                assert(t =~= seq!['['] + (crate::dump::dump_items(items, false, 0, dd) + seq![']']));
            }
        },
        Value::Object(entries) => {
            lemma_encode_char('{');
            if entries.len() == 0 {
                lemma_encode_ascii(seq!['{', '}']);
            } else {
                lemma_encode_concat(seq!['{'], dump_entries(entries, false, 0, dd) + seq!['}']);
                assert(t =~= seq!['{'] + (dump_entries(entries, false, 0, dd) + seq!['}']));
            }
        },
        Value::Null => {
            lemma_encode_ascii(t);
        },
        Value::Boolean(b) => {
            lemma_encode_ascii(t);
        },
    }
}

/// A byte that may follow a value in compact text: a comma or a closing bracket.
pub open spec fn ends_value(b: u8) -> bool {
    b == 44 || b == 93 || b == 125
}

proof fn lemma_bytes_at(s: Seq<u8>, q: int, e: Seq<u8>)
    requires
        0 <= q,
        q + e.len() <= s.len(),
        s.subrange(q, q + e.len()) == e,
    ensures
        forall|i: int| 0 <= i < e.len() ==> s[q + i] == e[i],
{
    assert forall|i: int| 0 <= i < e.len() implies s[q + i] == e[i] by {
        assert(s.subrange(q, q + e.len())[i] == s[q + i]);
    }
}

proof fn lemma_items_front(x: Seq<Value>, dd: int)
    requires
        x.len() >= 1,
    ensures
        dump_items(x, false, 0, dd) == dump(x[0], false, 0, dd + 1) + (if x.len() > 1 {
            seq![','] + dump_items(x.drop_first(), false, 0, dd)
        } else {
            Seq::<char>::empty()
        }),
    decreases x.len(),
{
    if x.len() == 1 {
        assert(dump_items(x, false, 0, dd) =~= dump(x[0], false, 0, dd + 1));
    } else {
        lemma_items_front(x.drop_last(), dd);
        let y = x.drop_first();
        if x.len() == 2 {
            assert(dump_items(y, false, 0, dd) =~= dump(x[1], false, 0, dd + 1));
        } else {
            assert(y.drop_last() =~= x.drop_last().drop_first());
        }
        assert(dump_items(x, false, 0, dd) =~= dump(x[0], false, 0, dd + 1) + (seq![','] + dump_items(y, false, 0, dd)));
    }
}

proof fn lemma_entries_front(x: Seq<(Seq<char>, Value)>, dd: int)
    requires
        x.len() >= 1,
    ensures
        dump_entries(x, false, 0, dd) == dump_entry(x[0], false, 0, dd) + (if x.len() > 1 {
            seq![','] + dump_entries(x.drop_first(), false, 0, dd)
        } else {
            Seq::<char>::empty()
        }),
    decreases x.len(),
{
    if x.len() == 1 {
        assert(dump_entries(x, false, 0, dd) =~= dump_entry(x[0], false, 0, dd));
    } else {
        lemma_entries_front(x.drop_last(), dd);
        let y = x.drop_first();
        if x.len() == 2 {
            assert(dump_entries(y, false, 0, dd) =~= dump_entry(x[1], false, 0, dd));
        } else {
            assert(y.drop_last() =~= x.drop_last().drop_first());
        }
        assert(dump_entries(x, false, 0, dd) =~= dump_entry(x[0], false, 0, dd) + (seq![','] + dump_entries(
            y,
            false,
            0,
            dd,
        )));
    }
}

/// The compact text of `v`, where it stands in `s` at `q` before a comma, a closing bracket or
/// the end, parses back to `v`.
proof fn lemma_value_round_trip(v: Value, s: Seq<u8>, q: int, d: int, dd: int)
    requires
        writable(v),
        0 <= d,
        d + height(v) <= NEST_LIMIT,
        0 <= q,
        q + compact(v, dd).len() <= s.len(),
        s.subrange(q, q + compact(v, dd).len()) == compact(v, dd),
        q + compact(v, dd).len() == s.len() || ends_value(s[q + compact(v, dd).len()]),
    ensures
        value_at(s, q, d) == Ok::<(Value, int), Failure>((v, q + compact(v, dd).len())),
    decreases v, 0int,
{
    let t = dump(v, false, 0, dd);
    let e = compact(v, dd);
    lemma_bytes_at(s, q, e);
    match v {
        Value::Null => {
            lemma_encode_ascii(t);
            assert(e.len() == 4 && e[0] == 110 && e[1] == 117 && e[2] == 108 && e[3] == 108);
            assert(s[q] == 110 && s[q + 1] == 117 && s[q + 2] == 108 && s[q + 3] == 108);
        },
        Value::Boolean(b) => {
            lemma_encode_ascii(t);
            if b {
                assert(e.len() == 4 && e[0] == 116 && e[1] == 114 && e[2] == 117 && e[3] == 101);
                assert(s[q] == 116 && s[q + 1] == 114 && s[q + 2] == 117 && s[q + 3] == 101);
            } else {
                assert(e.len() == 5 && e[0] == 102 && e[1] == 97 && e[2] == 108 && e[3] == 115 && e[4] == 101);
                assert(s[q] == 102 && s[q + 1] == 97 && s[q + 2] == 108 && s[q + 3] == 115 && s[q + 4] == 101);
            }
        },
        Value::Number(n) => {
            let m = (-n) as nat;
            let digits = digits_text(m);
            lemma_digits_text(m);
            assert(is_ascii_chars(t));
            lemma_encode_ascii(t);
            assert forall|i: int| q + 1 <= i < q + e.len() implies is_digit(#[trigger] s[i]) by {
                assert(s[i] == e[i - q]);
                assert(t[i - q] == digits[i - q - 1]);
                assert(ascii_bytes(digits)[i - q - 1] == digits[i - q - 1] as u8);
            }
            assert(t[0] == '-');
            assert(e[0] == 45);
            assert(s[q] == e[0]);
            lemma_scan_digits(s, q + 1, q + e.len(), false, false, 45);
            assert forall|i: int| 0 <= i < digits.len() implies s.subrange(q + 1, q + e.len() as int)[i]
                == ascii_bytes(digits)[i] by {
                assert(s[q + 1 + i] == e[1 + i]);
                assert(t[1 + i] == digits[i]);
            }
            assert(s.subrange(q + 1, q + e.len() as int) =~= ascii_bytes(digits));
        },
        Value::Unsigned(n) => {
            lemma_digits_text(n as nat);
            lemma_encode_ascii(t);
            assert(e =~= ascii_bytes(t));
            assert forall|i: int| q + 1 <= i < q + e.len() implies is_digit(#[trigger] s[i]) by {
                assert(s[i] == e[i - q]);
            }
            assert(is_digit(ascii_bytes(t)[0]));
            assert(s[q] == e[0]);
            lemma_scan_digits(s, q + 1, q + e.len(), false, false, s[q]);
            assert(s.subrange(q, q + e.len() as int) =~= ascii_bytes(t));
        },
        Value::Decimal(tok) => {
            lemma_encode_ascii(tok);
            let b = ascii_bytes(tok);
            assert(e =~= b);
            assert(b =~= Seq::new(tok.len(), |i: int| tok[i] as u8));
            lemma_scan_embed(s, b, q, 1, false, false, b[0]);
            assert(ascii_chars(s.subrange(q, q + b.len())) =~= tok);
        },
        Value::Str(x) => {
            let k = encode_utf8(escape(x));
            lemma_encode_char('"');
            lemma_encode_concat(seq!['"'], escape(x));
            lemma_encode_concat(seq!['"'] + escape(x), seq!['"']);
            assert(e =~= seq![34u8] + k + seq![34u8]);
            lemma_split(s, q, seq![34u8] + k, seq![34u8]);
            lemma_split(s, q, seq![34u8], k);
            assert(s.subrange(q + 1, q + 1) =~= encode_utf8(Seq::<char>::empty())) by {
                assert(encode_utf8(Seq::<char>::empty()) =~= Seq::<u8>::empty());
            }
            assert(e[1 + k.len() as int] == 34);
            assert(s[q + 1 + k.len()] == e[1 + k.len() as int]);
            lemma_string_body(s, q + 1, q + 1, Seq::<char>::empty(), Seq::<char>::empty(), x);
            assert(Seq::<char>::empty() + Seq::<char>::empty() + x =~= x);
        },
        Value::Array(items) => {
            lemma_encode_char('[');
            if items.len() == 0 {
                lemma_encode_ascii(t);
                assert(items =~= Seq::<Value>::empty());
                assert(s[q] == e[0] && s[q + 1] == e[1]);
                assert(e[0] == 91 && e[1] == 93);
                assert(skip_ws(s, q + 1) == q + 1);
                assert(height(v) >= 1);
            } else {
                let rest = dump_items(items, false, 0, dd) + seq![']'];
                assert(t =~= seq!['['] + rest);
                lemma_encode_concat(seq!['['], rest);
                lemma_split(s, q, seq![91u8], encode_utf8(rest));
                assert(items.subrange(0, items.len() as int) =~= items);
                assert(items.take(0) =~= Seq::<Value>::empty());
                assert(decreases_to!(v => v->Array_0));
                lemma_writable_items(items);
                lemma_items_round_trip(items, 0, s, q + 1, d + 1, dd);
                assert(e =~= seq![91u8] + encode_utf8(rest));
                assert(s[q] == e[0]);
                assert(height(v) >= 1);
            }
        },
        Value::Object(entries) => {
            lemma_encode_char('{');
            if entries.len() == 0 {
                lemma_encode_ascii(t);
                assert(entries =~= Seq::<(Seq<char>, Value)>::empty());
                assert(s[q] == e[0] && s[q + 1] == e[1]);
                assert(e[0] == 123 && e[1] == 125);
                assert(skip_ws(s, q + 1) == q + 1);
                assert(height(v) >= 1);
            } else {
                let rest = dump_entries(entries, false, 0, dd) + seq!['}'];
                assert(t =~= seq!['{'] + rest);
                lemma_encode_concat(seq!['{'], rest);
                lemma_split(s, q, seq![123u8], encode_utf8(rest));
                assert(entries.subrange(0, entries.len() as int) =~= entries);
                assert(entries.take(0) =~= Seq::<(Seq<char>, Value)>::empty());
                assert(decreases_to!(v => v->Object_0));
                assert(keys_unique(entries));
                lemma_writable_entries(entries);
                lemma_entries_round_trip(entries, 0, s, q + 1, d + 1, dd);
                assert(e =~= seq![123u8] + encode_utf8(rest));
                assert(s[q] == e[0]);
                assert(height(v) >= 1);
            }
        },
    }
}

/// The elements from the `k`-th on, with their commas and the closing bracket, parse back.
proof fn lemma_items_round_trip(items: Seq<Value>, k: int, s: Seq<u8>, p: int, d: int, dd: int)
    requires
        0 <= k < items.len(),
        forall|i: int| 0 <= i < items.len() ==> #[trigger] writable(items[i]),
        0 <= d,
        d + items_height(items) <= NEST_LIMIT,
        0 <= p,
        p + encode_utf8(dump_items(items.subrange(k, items.len() as int), false, 0, dd) + seq![']']).len() <= s.len(),
        s.subrange(
            p,
            p + encode_utf8(dump_items(items.subrange(k, items.len() as int), false, 0, dd) + seq![']']).len(),
        ) == encode_utf8(dump_items(items.subrange(k, items.len() as int), false, 0, dd) + seq![']']),
    ensures
        array_rest(s, p, d, items.take(k), k == 0) == Ok::<(Value, int), Failure>(
            (
                Value::Array(items),
                p + encode_utf8(dump_items(items.subrange(k, items.len() as int), false, 0, dd) + seq![']']).len(),
            ),
        ),
    decreases items, items.len() - k,
{
    let n = items.len() as int;
    let x = items.subrange(k, n);
    let e = encode_utf8(dump_items(x, false, 0, dd) + seq![']']);
    let v = items[k];
    let lv = compact(v, dd + 1);
    lemma_items_front(x, dd);
    assert(x[0] == v);
    let tail = if k + 1 < n {
        seq![','] + (dump_items(x.drop_first(), false, 0, dd) + seq![']'])
    } else {
        seq![']']
    };
    assert(dump_items(x, false, 0, dd) + seq![']'] =~= dump(v, false, 0, dd + 1) + tail);
    lemma_encode_concat(dump(v, false, 0, dd + 1), tail);
    let te = encode_utf8(tail);
    lemma_split(s, p, lv, te);
    lemma_lead(v, dd + 1);
    lemma_bytes_at(s, p, lv);
    lemma_bytes_at(s, p + lv.len(), te);
    let r = p + lv.len();
    if k + 1 < n {
        lemma_encode_char(',');
        lemma_encode_concat(seq![','], dump_items(x.drop_first(), false, 0, dd) + seq![']']);
    } else {
        lemma_encode_char(']');
    }
    assert(te[0] == 44 || te[0] == 93);
    assert(s[r] == te[0]);
    lemma_item_height(items, k);
    assert(decreases_to!(items => items[k]));
    lemma_value_round_trip(v, s, p, d, dd + 1);
    assert(skip_ws(s, p) == p);
    assert(skip_ws(s, r) == r);
    assert(items.take(k).push(v) =~= items.take(k + 1));
    if k + 1 < n {
        let rest = dump_items(x.drop_first(), false, 0, dd) + seq![']'];
        lemma_split(s, r, seq![44u8], encode_utf8(rest));
        assert(x.drop_first() =~= items.subrange(k + 1, n));
        lemma_items_round_trip(items, k + 1, s, r + 1, d, dd);
    } else {
        assert(items.take(k + 1) =~= items);
    }
}

/// The entries from the `k`-th on, with their commas and the closing brace, parse back.
proof fn lemma_entries_round_trip(entries: Seq<(Seq<char>, Value)>, k: int, s: Seq<u8>, p: int, d: int, dd: int)
    requires
        0 <= k < entries.len(),
        keys_unique(entries),
        forall|i: int| 0 <= i < entries.len() ==> #[trigger] writable(entries[i].1),
        0 <= d,
        d + entries_height(entries) <= NEST_LIMIT,
        0 <= p,
        p + encode_utf8(dump_entries(entries.subrange(k, entries.len() as int), false, 0, dd) + seq!['}']).len()
            <= s.len(),
        s.subrange(
            p,
            p + encode_utf8(dump_entries(entries.subrange(k, entries.len() as int), false, 0, dd) + seq!['}']).len(),
        ) == encode_utf8(dump_entries(entries.subrange(k, entries.len() as int), false, 0, dd) + seq!['}']),
    ensures
        object_rest(s, p, d, entries.take(k), k == 0) == Ok::<(Value, int), Failure>(
            (
                Value::Object(entries),
                p + encode_utf8(dump_entries(entries.subrange(k, entries.len() as int), false, 0, dd) + seq!['}']).len(),
            ),
        ),
    decreases entries, entries.len() - k,
{
    let n = entries.len() as int;
    let x = entries.subrange(k, n);
    let key = entries[k].0;
    let v = entries[k].1;
    let kb = encode_utf8(escape(key));
    let lv = compact(v, dd + 1);
    lemma_entries_front(x, dd);
    assert(x[0] == entries[k]);
    let tail = if k + 1 < n {
        seq![','] + (dump_entries(x.drop_first(), false, 0, dd) + seq!['}'])
    } else {
        seq!['}']
    };
    let head = seq!['"'] + escape(key) + seq!['"', ':'];
    assert(dump_entries(x, false, 0, dd) + seq!['}'] =~= head + dump(v, false, 0, dd + 1) + tail);
    lemma_encode_char('"');
    lemma_encode_ascii(seq!['"', ':']);
    lemma_encode_concat(seq!['"'], escape(key));
    lemma_encode_concat(seq!['"'] + escape(key), seq!['"', ':']);
    lemma_encode_concat(head, dump(v, false, 0, dd + 1));
    lemma_encode_concat(head + dump(v, false, 0, dd + 1), tail);
    let te = encode_utf8(tail);
    let hb = seq![34u8] + kb + seq![34u8, 58u8];
    assert(encode_utf8(head) =~= hb);
    lemma_split(s, p, hb + lv, te);
    lemma_split(s, p, hb, lv);
    lemma_split(s, p, seq![34u8] + kb, seq![34u8, 58u8]);
    lemma_split(s, p, seq![34u8], kb);
    lemma_bytes_at(s, p, hb);
    lemma_lead(v, dd + 1);
    lemma_bytes_at(s, p + hb.len(), lv);
    lemma_bytes_at(s, p + hb.len() + lv.len(), te);
    let c = p + 1 + kb.len() + 1;
    let v0 = c + 1;
    let r = v0 + lv.len();
    assert(s[c] == 58);
    assert(s.subrange(p + 1, p + 1) =~= encode_utf8(Seq::<char>::empty())) by {
        assert(encode_utf8(Seq::<char>::empty()) =~= Seq::<u8>::empty());
    }
    lemma_string_body(s, p + 1, p + 1, Seq::<char>::empty(), Seq::<char>::empty(), key);
    assert(Seq::<char>::empty() + Seq::<char>::empty() + key =~= key);
    if k + 1 < n {
        lemma_encode_char(',');
        lemma_encode_concat(seq![','], dump_entries(x.drop_first(), false, 0, dd) + seq!['}']);
    } else {
        lemma_encode_char('}');
    }
    assert(te[0] == 44 || te[0] == 125);
    assert(s[r] == te[0]);
    lemma_entry_height(entries, k);
    assert(decreases_to!(entries => entries[k]));
    assert(decreases_to!(entries[k] => entries[k].1));
    lemma_value_round_trip(v, s, v0, d, dd + 1);
    assert(hb[0] == 34);
    assert(s[p] == 34);
    assert(skip_ws(s, p) == p);
    assert(skip_ws(s, p + 1 + kb.len() + 1) == c);
    assert(skip_ws(s, v0) == v0);
    assert(skip_ws(s, r) == r);
    assert(!has_key(entries.take(k), key)) by {
        if has_key(entries.take(k), key) {
            let j = choose|j: int| 0 <= j < entries.take(k).len() && entries.take(k)[j].0 == key;
            assert(entries[j].0 == entries[k].0);
        }
    }
    assert(upsert(entries.take(k), key, v) =~= entries.take(k + 1));
    if k + 1 < n {
        let rest = dump_entries(x.drop_first(), false, 0, dd) + seq!['}'];
        lemma_split(s, r, seq![44u8], encode_utf8(rest));
        assert(x.drop_first() =~= entries.subrange(k + 1, n));
        lemma_entries_round_trip(entries, k + 1, s, r + 1, d, dd);
    } else {
        assert(entries.take(k + 1) =~= entries);
    }
}

/// A number token holds ASCII bytes only, and digits only where it is no real number.
proof fn lemma_scan_shape(s: Seq<u8>, p: int, dot: bool, exp: bool, prev: u8)
    requires
        0 <= p,
        scan_number(s, p, dot, exp, prev) is Ok,
    ensures
        p <= scan_number(s, p, dot, exp, prev)->Ok_0.0 <= s.len() || scan_number(s, p, dot, exp, prev)->Ok_0.0 == p,
        forall|i: int| p <= i < scan_number(s, p, dot, exp, prev)->Ok_0.0 ==> s[i] < 128,
        dot ==> scan_number(s, p, dot, exp, prev)->Ok_0.1,
        !scan_number(s, p, dot, exp, prev)->Ok_0.1 && !is_exp_marker(prev) ==> forall|i: int|
            p <= i < scan_number(s, p, dot, exp, prev)->Ok_0.0 ==> is_digit(#[trigger] s[i]),
    decreases s.len() - p,
{
    if p < s.len() && !ends_number(s[p]) {
        let c = s[p];
        let nd = if c == 46 || is_exp_marker(c) { true } else { dot };
        let ne = if is_exp_marker(c) { true } else { exp };
        assert(scan_number(s, p, dot, exp, prev) == scan_number(s, p + 1, nd, ne, c));
        lemma_scan_shape(s, p + 1, nd, ne, c);
        lemma_scan_ge(s, p + 1, nd, ne, c);
        if !scan_number(s, p, dot, exp, prev)->Ok_0.1 && !is_exp_marker(prev) {
            assert(is_digit(c));
        }
    }
}

proof fn lemma_parsed_number(s: Seq<u8>, q: int)
    requires
        0 <= q < s.len(),
        is_digit(s[q]) || s[q] == 45,
        number_at(s, q) is Ok,
    ensures
        writable(number_at(s, q)->Ok_0.0),
        height(number_at(s, q)->Ok_0.0) == 0,
{
    let lead = s[q];
    let r = scan_number(s, q + 1, false, false, lead);
    lemma_scan_shape(s, q + 1, false, false, lead);
    lemma_scan_ge(s, q + 1, false, false, lead);
    let e = r->Ok_0.0;
    let tok = s.subrange(q, e);
    if r->Ok_0.1 {
        let t = ascii_chars(tok);
        assert forall|i: int| 0 <= i < t.len() implies '\0' <= #[trigger] t[i] <= '\u{7f}' by {
            assert(tok[i] < 128);
        }
        let b = Seq::new(t.len(), |i: int| t[i] as u8);
        assert(b =~= tok);
        lemma_scan_slice(s, q, e, q + 1, false, false, lead);
    } else if lead == 45 {
        let d = s.subrange(q + 1, e);
        assert forall|k: int| 0 <= k < d.len() implies is_digit(#[trigger] d[k]) by {
            assert(d[k] == s[q + 1 + k]);
        }
        lemma_digits_nonneg(d);
    } else {
        assert forall|k: int| 0 <= k < tok.len() implies is_digit(#[trigger] tok[k]) by {
            if k > 0 {
                assert(tok[k] == s[q + k]);
            }
        }
        lemma_digits_nonneg(tok);
    }
}

proof fn lemma_update_entries(x: Seq<(Seq<char>, Value)>, i: int, y: (Seq<char>, Value))
    requires
        0 <= i < x.len(),
        writable_entries(x),
        writable(y.1),
    ensures
        writable_entries(x.update(i, y)),
        entries_height(x.update(i, y)) <= (if entries_height(x) > height(y.1) {
            entries_height(x)
        } else {
            height(y.1)
        }),
    decreases x.len(),
{
    let z = x.update(i, y);
    if i < x.len() - 1 {
        lemma_update_entries(x.drop_last(), i, y);
        assert(z.drop_last() =~= x.drop_last().update(i, y));
    } else {
        assert(z.drop_last() =~= x.drop_last());
    }
}

/// Binding a key keeps keys unique and values writable, and adds no depth beyond the value's.
proof fn lemma_upsert(x: Seq<(Seq<char>, Value)>, key: Seq<char>, v: Value)
    requires
        keys_unique(x),
        writable_entries(x),
        writable(v),
    ensures
        keys_unique(upsert(x, key, v)),
        writable_entries(upsert(x, key, v)),
        entries_height(upsert(x, key, v)) <= (if entries_height(x) > height(v) {
            entries_height(x)
        } else {
            height(v)
        }),
{
    lemma_upsert_wf(x, key, v);
    if has_key(x, key) {
        let j = choose|j: int| 0 <= j < x.len() && x[j].0 == key;
        assert(is_first_key(x, key, j)) by {
            assert forall|k: int| 0 <= k < j implies x[k].0 != key by {
                if x[k].0 == key {
                    assert(k == j);
                }
            }
        }
        let i = key_index(x, key);
        assert(is_first_key(x, key, i));
        lemma_update_entries(x, i, (key, v));
    } else {
        assert(upsert(x, key, v).drop_last() =~= x);
    }
}

/// What parsing can give is well formed.
pub(crate) proof fn lemma_writable_wf(v: Value)
    requires
        writable(v),
    ensures
        v.wf(),
    decreases v,
{
    match v {
        Value::Array(items) => {
            assert(decreases_to!(v => v->Array_0));
            lemma_writable_items_wf(items);
        },
        Value::Object(entries) => {
            assert(decreases_to!(v => v->Object_0));
            lemma_writable_entries_wf(entries);
        },
        _ => {},
    }
}

proof fn lemma_writable_items_wf(x: Seq<Value>)
    requires
        writable_items(x),
    ensures
        items_wf(x),
    decreases x,
{
    if x.len() > 0 {
        lemma_writable_items_wf(x.drop_last());
        lemma_writable_wf(x.last());
    }
}

proof fn lemma_writable_entries_wf(x: Seq<(Seq<char>, Value)>)
    requires
        writable_entries(x),
    ensures
        entries_wf(x),
    decreases x,
{
    if x.len() > 0 {
        lemma_writable_entries_wf(x.drop_last());
        assert(decreases_to!(x => x[x.len() - 1]));
        assert(decreases_to!(x[x.len() - 1] => x[x.len() - 1].1));
        lemma_writable_wf(x.last().1);
    }
}

pub(crate) proof fn lemma_parsed_value(s: Seq<u8>, q: int, d: int)
    requires
        0 <= d <= NEST_LIMIT,
        value_at(s, q, d) is Ok,
    ensures
        writable(value_at(s, q, d)->Ok_0.0),
        d + height(value_at(s, q, d)->Ok_0.0) <= NEST_LIMIT,
    decreases s.len() - q, 0nat,
{
    let b = s[q];
    if b == 91 {
        assert(writable_items(Seq::<Value>::empty()));
        assert(items_height(Seq::<Value>::empty()) == 0);
        lemma_parsed_array(s, q + 1, d + 1, Seq::<Value>::empty(), true);
    } else if b == 123 {
        assert(writable_entries(Seq::<(Seq<char>, Value)>::empty()));
        assert(entries_height(Seq::<(Seq<char>, Value)>::empty()) == 0);
        lemma_parsed_object(s, q + 1, d + 1, Seq::<(Seq<char>, Value)>::empty(), true);
    } else if is_digit(b) || b == 45 {
        lemma_parsed_number(s, q);
    }
}

proof fn lemma_parsed_array(s: Seq<u8>, p: int, d: int, items: Seq<Value>, first: bool)
    requires
        1 <= d <= NEST_LIMIT,
        writable_items(items),
        d + items_height(items) <= NEST_LIMIT,
        array_rest(s, p, d, items, first) is Ok,
    ensures
        writable(array_rest(s, p, d, items, first)->Ok_0.0),
        d - 1 + height(array_rest(s, p, d, items, first)->Ok_0.0) <= NEST_LIMIT,
    decreases s.len() - p, 1nat,
{
    let q = skip_ws(s, p);
    if !(s[q] == 93 && first) {
        let v = value_at(s, q, d)->Ok_0.0;
        let p2 = value_at(s, q, d)->Ok_0.1;
        let r = skip_ws(s, p2);
        lemma_parsed_value(s, q, d);
        let next = items.push(v);
        assert(next.drop_last() =~= items);
        if s[r] == 44 {
            lemma_parsed_array(s, r + 1, d, next, false);
        }
    }
}

proof fn lemma_parsed_object(s: Seq<u8>, p: int, d: int, entries: Seq<(Seq<char>, Value)>, first: bool)
    requires
        1 <= d <= NEST_LIMIT,
        keys_unique(entries),
        writable_entries(entries),
        d + entries_height(entries) <= NEST_LIMIT,
        object_rest(s, p, d, entries, first) is Ok,
    ensures
        writable(object_rest(s, p, d, entries, first)->Ok_0.0),
        d - 1 + height(object_rest(s, p, d, entries, first)->Ok_0.0) <= NEST_LIMIT,
    decreases s.len() - p, 1nat,
{
    let q = skip_ws(s, p);
    if !(s[q] == 125 && first) {
        let key = string_rest(s, q + 1, q + 1, seq![])->Ok_0.0;
        let p1 = string_rest(s, q + 1, q + 1, seq![])->Ok_0.1;
        let c = skip_ws(s, p1);
        let v0 = skip_ws(s, c + 1);
        let v = value_at(s, v0, d)->Ok_0.0;
        let p2 = value_at(s, v0, d)->Ok_0.1;
        let r = skip_ws(s, p2);
        lemma_parsed_value(s, v0, d);
        lemma_upsert(entries, key, v);
        if s[r] == 44 {
            lemma_parsed_object(s, r + 1, d, upsert(entries, key, v), false);
        }
    }
}

/// Compact text does not depend on the indentation width or the depth it is asked at.
pub proof fn lemma_compact_any_layout(v: Value, w: int, depth: int)
    ensures
        dump(v, false, w, depth) == dump(v, false, 0, 0),
    decreases v,
{
    match v {
        Value::Array(items) => {
            assert(decreases_to!(v => v->Array_0));
            lemma_compact_items(items, w, depth);
        },
        Value::Object(entries) => {
            assert(decreases_to!(v => v->Object_0));
            lemma_compact_entries(entries, w, depth);
        },
        _ => {},
    }
}

proof fn lemma_compact_items(x: Seq<Value>, w: int, depth: int)
    ensures
        dump_items(x, false, w, depth) == dump_items(x, false, 0, 0),
    decreases x,
{
    if x.len() > 0 {
        lemma_compact_items(x.drop_last(), w, depth);
        lemma_compact_any_layout(x.last(), w, depth + 1);
        lemma_compact_any_layout(x.last(), 0, 1);
    }
}

proof fn lemma_compact_entries(x: Seq<(Seq<char>, Value)>, w: int, depth: int)
    ensures
        dump_entries(x, false, w, depth) == dump_entries(x, false, 0, 0),
    decreases x,
{
    if x.len() > 0 {
        lemma_compact_entries(x.drop_last(), w, depth);
        assert(decreases_to!(x => x[x.len() - 1]));
        assert(decreases_to!(x[x.len() - 1] => x[x.len() - 1].1));
        lemma_compact_any_layout(x.last().1, w, depth + 1);
        lemma_compact_any_layout(x.last().1, 0, 1);
        assert(dump_entry(x.last(), false, w, depth) =~= dump_entry(x.last(), false, 0, 0));
    }
}

/// Parsing the compact text of a value that parsing gave, at any indentation width and depth,
/// yields that value again.
pub proof fn lemma_parse_dump_round_trip(text: Seq<u8>, w: int, depth: int)
    requires
        parse_spec(text) is Ok,
    ensures
        parse_spec(encode_utf8(dump(parse_spec(text)->Ok_0, false, w, depth))) == parse_spec(text),
{
    let q = skip_ws(text, 0);
    let v = parse_spec(text)->Ok_0;
    lemma_compact_any_layout(v, w, depth);
    lemma_parsed_value(text, q, 0);
    let s = compact(v, 0);
    lemma_lead(v, 0);
    assert(s.subrange(0, s.len() as int) =~= s);
    lemma_value_round_trip(v, s, 0, 0, 0);
    assert(skip_ws(s, 0) == 0);
    assert(skip_ws(s, s.len() as int) == s.len());
}

proof fn lemma_array_closed_by_brace(v: Value)
    requires
        writable(v),
        1 + height(v) <= NEST_LIMIT,
    ensures
        parse_spec(encode_utf8(seq!['['] + dump(v, false, 0, 1) + seq!['}'])) == Err::<Value, Failure>(
            Failure::ContainerMismatch('[', '}'),
        ),
{
    let t = dump(v, false, 0, 1);
    let lv = compact(v, 1);
    lemma_lead(v, 1);
    lemma_encode_char('[');
    lemma_encode_char('}');
    lemma_encode_char('{');
    lemma_encode_char(']');
    lemma_encode_char(':');
    lemma_encode_char('"');
    // An array closed by a brace.
    let a = encode_utf8(seq!['['] + t + seq!['}']);
    lemma_encode_concat(seq!['['], t);
    lemma_encode_concat(seq!['['] + t, seq!['}']);
    assert(a =~= seq![91u8] + lv + seq![125u8]);
    assert(a.subrange(0, a.len() as int) =~= a);
    lemma_split(a, 0, seq![91u8] + lv, seq![125u8]);
    lemma_split(a, 0, seq![91u8], lv);
    lemma_bytes_at(a, 1, lv);
    assert(a[0] == 91);
    assert(a[1 + lv.len() as int] == 125);
    lemma_value_round_trip(v, a, 1, 1, 1);
    assert(skip_ws(a, 0) == 0);
    assert(skip_ws(a, 1) == 1);
    assert(skip_ws(a, 1 + lv.len() as int) == 1 + lv.len());
}

/// How `{"key":v]` is laid out in bytes.
proof fn lemma_entry_bracket_layout(v: Value, key: Seq<char>)
    requires
        writable(v),
    ensures
        ({
            let o = encode_utf8(seq!['{'] + quoted(key) + seq![':'] + dump(v, false, 0, 1) + seq![']']);
            let kb = encode_utf8(escape(key));
            let lv = compact(v, 1);
            let c: int = 3 + kb.len() as int;
            &&& o.len() == c + 1 + lv.len() + 1
            &&& o[0] == 123 && o[1] == 34 && o[c - 1] == 34 && o[c] == 58 && o[c + 1 + lv.len()] == 93
            &&& o.subrange(2, c - 1) == kb
            &&& o.subrange(c + 1, c + 1 + lv.len()) == lv
        }),
{
    let t = dump(v, false, 0, 1);
    let lv = compact(v, 1);
    lemma_encode_char(']');
    let kb = encode_utf8(escape(key));
    let o = encode_utf8(seq!['{'] + quoted(key) + seq![':'] + t + seq![']']);
    lemma_encode_concat(seq!['{', '"'], escape(key));
    lemma_encode_ascii(seq!['{', '"']);
    lemma_encode_ascii(seq!['"', ':']);
    lemma_encode_concat(seq!['{', '"'] + escape(key), seq!['"', ':']);
    lemma_encode_concat(seq!['{', '"'] + escape(key) + seq!['"', ':'], t);
    lemma_encode_concat(seq!['{', '"'] + escape(key) + seq!['"', ':'] + t, seq![']']);
    assert(seq!['{'] + quoted(key) + seq![':'] + t + seq![']'] =~= seq!['{', '"'] + escape(key) + seq!['"', ':'] + t
        + seq![']']);
    let hb = seq![123u8, 34u8] + kb + seq![34u8, 58u8];
    assert(o =~= hb + lv + seq![93u8]);
    assert(o.subrange(0, o.len() as int) =~= o);
    lemma_split(o, 0, hb + lv, seq![93u8]);
    lemma_split(o, 0, hb, lv);
    lemma_split(o, 0, seq![123u8, 34u8] + kb, seq![34u8, 58u8]);
    lemma_split(o, 0, seq![123u8, 34u8], kb);
    lemma_bytes_at(o, 0, hb);
    let c: int = 2 + kb.len() as int + 1;
    assert(o[0] == 123 && o[1] == 34);
    assert(o[c - 1] == 34);
    assert(o[c] == 58);
    assert(o[c + 1 + lv.len() as int] == 93);
}

/// The bytes of `{"key":v]`: where the key's string ends, where the value ends, and what stands
/// around them.
proof fn lemma_entry_bracket_bytes(v: Value, key: Seq<char>) -> (r: (int, int))
    requires
        writable(v),
        1 + height(v) <= NEST_LIMIT,
    ensures
        ({
            let o = encode_utf8(seq!['{'] + quoted(key) + seq![':'] + dump(v, false, 0, 1) + seq![']']);
            let (c, e) = r;
            &&& 0 < c && c + 1 < e && e + 1 == o.len()
            &&& o[0] == 123 && o[1] == 34 && o[c] == 58 && o[e] == 93
            &&& string_rest(o, 2, 2, seq![]) == Ok::<(Seq<char>, int), Failure>((key, c))
            &&& value_at(o, c + 1, 1) == Ok::<(Value, int), Failure>((v, e))
            &&& skip_ws(o, 0) == 0 && skip_ws(o, 1) == 1 && skip_ws(o, c) == c
            &&& skip_ws(o, c + 1) == c + 1 && skip_ws(o, e) == e
        }),
{
    lemma_entry_bracket_layout(v, key);
    lemma_lead(v, 1);
    let lv = compact(v, 1);
    let kb = encode_utf8(escape(key));
    let o = encode_utf8(seq!['{'] + quoted(key) + seq![':'] + dump(v, false, 0, 1) + seq![']']);
    let c: int = 3 + kb.len() as int;
    let v0: int = c + 1;
    assert(o.subrange(2, 2) =~= encode_utf8(Seq::<char>::empty())) by {
        assert(encode_utf8(Seq::<char>::empty()) =~= Seq::<u8>::empty());
    }
    lemma_string_body(o, 2, 2, Seq::<char>::empty(), Seq::<char>::empty(), key);
    assert(Seq::<char>::empty() + Seq::<char>::empty() + key =~= key);
    lemma_value_round_trip(v, o, v0, 1, 1);
    lemma_bytes_at(o, v0, lv);
    assert(skip_ws(o, 0) == 0);
    assert(skip_ws(o, 1) == 1);
    assert(skip_ws(o, c) == c);
    assert(skip_ws(o, v0) == v0);
    assert(skip_ws(o, v0 + lv.len() as int) == v0 + lv.len());
    (c, v0 + lv.len())
}

proof fn lemma_object_closed_by_bracket(v: Value, key: Seq<char>)
    requires
        writable(v),
        1 + height(v) <= NEST_LIMIT,
    ensures
        parse_spec(encode_utf8(seq!['{'] + quoted(key) + seq![':'] + dump(v, false, 0, 1) + seq![']']))
            == Err::<Value, Failure>(Failure::ContainerMismatch('{', ']')),
{
    let (c, e) = lemma_entry_bracket_bytes(v, key);
    let o = encode_utf8(seq!['{'] + quoted(key) + seq![':'] + dump(v, false, 0, 1) + seq![']']);
    assert(object_rest(o, 1, 1, seq![], true) == Err::<(Value, int), Failure>(Failure::ContainerMismatch('{', ']')));
}

proof fn lemma_object_value_closed_by_bracket(v: Value)
    requires
        writable(v),
        !(v is Str),
        1 + height(v) <= NEST_LIMIT,
    ensures
        parse_spec(encode_utf8(seq!['{'] + dump(v, false, 0, 1) + seq![']'])) == Err::<Value, Failure>(
            Failure::ContainerMismatch('{', ']'),
        ),
{
    let t = dump(v, false, 0, 1);
    let lv = compact(v, 1);
    lemma_lead(v, 1);
    lemma_encode_char('{');
    lemma_encode_char(']');
    let a = encode_utf8(seq!['{'] + t + seq![']']);
    lemma_encode_concat(seq!['{'], t);
    lemma_encode_concat(seq!['{'] + t, seq![']']);
    assert(a =~= seq![123u8] + lv + seq![93u8]);
    assert(a.subrange(0, a.len() as int) =~= a);
    lemma_split(a, 0, seq![123u8] + lv, seq![93u8]);
    lemma_split(a, 0, seq![123u8], lv);
    lemma_bytes_at(a, 1, lv);
    assert(a[0] == 123);
    assert(a[1 + lv.len() as int] == 93);
    lemma_value_round_trip(v, a, 1, 1, 1);
    assert(skip_ws(a, 0) == 0);
    assert(skip_ws(a, 1) == 1);
    assert(skip_ws(a, 1 + lv.len() as int) == 1 + lv.len());
}

proof fn lemma_empty_mismatch()
    ensures
        parse_spec(encode_utf8(seq!['[', '}'])) == Err::<Value, Failure>(Failure::ContainerMismatch('[', '}')),
        parse_spec(encode_utf8(seq!['{', ']'])) == Err::<Value, Failure>(Failure::ContainerMismatch('{', ']')),
{
    lemma_encode_ascii(seq!['[', '}']);
    lemma_encode_ascii(seq!['{', ']']);
    let a = encode_utf8(seq!['[', '}']);
    let o = encode_utf8(seq!['{', ']']);
    assert(a[0] == 91 && a[1] == 125 && a.len() == 2);
    assert(o[0] == 123 && o[1] == 93 && o.len() == 2);
    assert(skip_ws(a, 0) == 0 && skip_ws(a, 1) == 1);
    assert(skip_ws(o, 0) == 0 && skip_ws(o, 1) == 1);
}

/// An array closed by a brace, or an object closed by a bracket, fails and names both brackets:
/// after a value, after an entry, or with nothing inside.
pub proof fn lemma_mismatched_closer(v: Value, key: Seq<char>)
    requires
        writable(v),
        1 + height(v) <= NEST_LIMIT,
    ensures
        parse_spec(encode_utf8(seq!['['] + dump(v, false, 0, 1) + seq!['}'])) == Err::<Value, Failure>(
            Failure::ContainerMismatch('[', '}'),
        ),
        parse_spec(encode_utf8(seq!['{'] + quoted(key) + seq![':'] + dump(v, false, 0, 1) + seq![']']))
            == Err::<Value, Failure>(Failure::ContainerMismatch('{', ']')),
        !(v is Str) ==> parse_spec(encode_utf8(seq!['{'] + dump(v, false, 0, 1) + seq![']']))
            == Err::<Value, Failure>(Failure::ContainerMismatch('{', ']')),
        parse_spec(encode_utf8(seq!['[', '}'])) == Err::<Value, Failure>(Failure::ContainerMismatch('[', '}')),
        parse_spec(encode_utf8(seq!['{', ']'])) == Err::<Value, Failure>(Failure::ContainerMismatch('{', ']')),
{
    lemma_array_closed_by_brace(v);
    lemma_object_closed_by_bracket(v, key);
    if !(v is Str) {
        lemma_object_value_closed_by_bracket(v);
    }
    lemma_empty_mismatch();
}

} // verus!
