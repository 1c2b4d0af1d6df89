//! Writing a value tree back as text.
use vstd::prelude::*;

use crate::container::{entry_views, views, Container};
use crate::model::Value;
use crate::text::push_char;

verus! {

/// The character of the decimal digit `d`.
pub open spec fn digit_char(d: int) -> char {
    ((48 + d) as u8) as char
}

/// The decimal digits of `n`, without leading zeros.
pub open spec fn digits_text(n: nat) -> Seq<char>
    decreases n,
{
    if n < 10 {
        seq![digit_char(n as int)]
    } else {
        digits_text(n / 10).push(digit_char((n % 10) as int))
    }
}

/// A control character, C0 or C1, other than those with an escape of their own.
pub open spec fn is_control(c: char) -> bool {
    let n = c as u32;
    &&& (n < 0x20 || (0x7f <= n && n <= 0x9f))
    &&& c != '\n' && c != '\r' && c != '\t' && c != '\0'
}

/// The lowercase hexadecimal digit `d`.
pub open spec fn hex_char(d: int) -> char {
    if d < 10 {
        ((48 + d) as u8) as char
    } else {
        ((87 + d) as u8) as char
    }
}

/// The lowercase hexadecimal digits of `n`, below 256, without leading zeros.
pub open spec fn hex_text(n: int) -> Seq<char> {
    if n < 16 {
        seq![hex_char(n)]
    } else {
        seq![hex_char(n / 16), hex_char(n % 16)]
    }
}

/// How a character is written inside quotes: a quote, a backslash, a newline, a return, a tab
/// and NUL by a backslash and a letter, other control characters as `\u{..}`, in hexadecimal.
#[verifier::opaque]
pub open spec fn escape_char(c: char) -> Seq<char> {
    if c == '"' {
        seq!['\\', '"']
    } else if c == '\\' {
        seq!['\\', '\\']
    } else if c == '\n' {
        seq!['\\', 'n']
    } else if c == '\r' {
        seq!['\\', 'r']
    } else if c == '\t' {
        seq!['\\', 't']
    } else if c == '\0' {
        seq!['\\', '0']
    } else if is_control(c) {
        seq!['\\', 'u', '{'] + hex_text(c as u32 as int) + seq!['}']
    } else {
        seq![c]
    }
}

/// How a text is written inside quotes.
pub open spec fn escape(t: Seq<char>) -> Seq<char>
    decreases t.len(),
{
    if t.len() == 0 {
        seq![]
    } else {
        escape(t.drop_last()) + escape_char(t.last())
    }
}

/// A text within quotes.
pub open spec fn quoted(t: Seq<char>) -> Seq<char> {
    seq!['"'] + escape(t) + seq!['"']
}

pub open spec fn spaces(n: int) -> Seq<char> {
    Seq::new(n as nat, |i: int| ' ')
}

/// The text of `v`: compact, or `pretty` with `w` spaces per level of indentation, `depth`
/// levels in.
pub open spec fn dump(v: Value, pretty: bool, w: int, depth: int) -> Seq<char>
    decreases v,
{
    match v {
        Value::Null => seq!['n', 'u', 'l', 'l'],
        Value::Number(n) => if n > 0 {
            digits_text(n as nat)
        } else {
            seq!['-'] + digits_text((-n) as nat)
        },
        Value::Unsigned(n) => digits_text(n as nat),
        Value::Decimal(t) => t,
        Value::Boolean(b) => if b {
            seq!['t', 'r', 'u', 'e']
        } else {
            seq!['f', 'a', 'l', 's', 'e']
        },
        Value::Str(t) => quoted(t),
        Value::Array(items) => if items.len() == 0 {
            seq!['[', ']']
        } else if !pretty {
            seq!['['] + dump_items(items, pretty, w, depth) + seq![']']
        } else {
            seq!['[', '\n'] + dump_items(items, pretty, w, depth) + seq!['\n'] + spaces((depth - 1) * w) + seq![']']
        },
        Value::Object(entries) => if entries.len() == 0 {
            seq!['{', '}']
        } else if !pretty {
            seq!['{'] + dump_entries(entries, pretty, w, depth) + seq!['}']
        } else {
            seq!['{', '\n'] + dump_entries(entries, pretty, w, depth) + seq!['\n'] + spaces((depth - 1) * w) + seq!['}']
        },
    }
}

/// What stands between two children.
pub open spec fn separator(pretty: bool) -> Seq<char> {
    if pretty {
        seq![',', '\n']
    } else {
        seq![',']
    }
}

/// What stands before a child.
pub open spec fn margin(pretty: bool, w: int, depth: int) -> Seq<char> {
    if pretty {
        spaces(depth * w)
    } else {
        seq![]
    }
}

/// The elements of an array, one level deeper, with separators between them.
pub open spec fn dump_items(items: Seq<Value>, pretty: bool, w: int, depth: int) -> Seq<char>
    decreases items,
{
    if items.len() == 0 {
        seq![]
    } else {
        let last = margin(pretty, w, depth) + dump(items.last(), pretty, w, depth + 1);
        if items.len() == 1 {
            last
        } else {
            dump_items(items.drop_last(), pretty, w, depth) + separator(pretty) + last
        }
    }
}

/// One entry of an object: its key, a colon, its value.
pub open spec fn dump_entry(e: (Seq<char>, Value), pretty: bool, w: int, depth: int) -> Seq<char>
    decreases e,
{
    margin(pretty, w, depth) + quoted(e.0) + (if pretty {
        seq![':', ' ']
    } else {
        seq![':']
    }) + dump(e.1, pretty, w, depth + 1)
}

/// The entries of an object, one level deeper, with separators between them.
pub open spec fn dump_entries(entries: Seq<(Seq<char>, Value)>, pretty: bool, w: int, depth: int) -> Seq<char>
    decreases entries,
{
    if entries.len() == 0 {
        seq![]
    } else {
        let last = dump_entry(entries.last(), pretty, w, depth);
        if entries.len() == 1 {
            last
        } else {
            dump_entries(entries.drop_last(), pretty, w, depth) + separator(pretty) + last
        }
    }
}

/// A non-empty array or object: in pretty form it spans several lines, and its closing bracket
/// is indented one level less than its children.
pub open spec fn spans_lines(v: Value) -> bool {
    match v {
        Value::Array(items) => items.len() > 0,
        Value::Object(entries) => entries.len() > 0,
        _ => false,
    }
}

/// How many levels of containers `v` holds.
pub open spec fn height(v: Value) -> nat
    decreases v,
{
    match v {
        Value::Array(items) => 1 + items_height(items),
        Value::Object(entries) => 1 + entries_height(entries),
        _ => 0,
    }
}

pub open spec fn items_height(items: Seq<Value>) -> nat
    decreases items,
{
    if items.len() == 0 {
        0
    } else {
        let h = height(items.last());
        let rest = items_height(items.drop_last());
        if h > rest {
            h
        } else {
            rest
        }
    }
}

pub open spec fn entries_height(entries: Seq<(Seq<char>, Value)>) -> nat
    decreases entries,
{
    if entries.len() == 0 {
        0
    } else {
        let h = height(entries.last().1);
        let rest = entries_height(entries.drop_last());
        if h > rest {
            h
        } else {
            rest
        }
    }
}

pub(crate) proof fn lemma_item_height(items: Seq<Value>, i: int)
    requires
        0 <= i < items.len(),
    ensures
        height(items[i]) <= items_height(items),
    decreases items.len(),
{
    if i < items.len() - 1 {
        lemma_item_height(items.drop_last(), i);
    }
}

pub(crate) proof fn lemma_entry_height(entries: Seq<(Seq<char>, Value)>, i: int)
    requires
        0 <= i < entries.len(),
    ensures
        height(entries[i].1) <= entries_height(entries),
    decreases entries.len(),
{
    if i < entries.len() - 1 {
        lemma_entry_height(entries.drop_last(), i);
    }
}

/// Appends the decimal digits of `n`.
pub(crate) fn push_digits(out: &mut String, n: u64)
    ensures
        final(out)@ == old(out)@ + digits_text(n as nat),
    decreases n,
{
    if n >= 10 {
        push_digits(out, n / 10);
    }
    push_char(out, ((48 + n % 10) as u8) as char);
    assert(out@ =~= old(out)@ + digits_text(n as nat));
}

/// Appends `depth * w` spaces.
fn push_spaces(out: &mut String, depth: usize, w: usize)
    ensures
        final(out)@ == old(out)@ + spaces(depth * w),
{
    let mut i: usize = 0;
    while i < depth
        invariant
            i <= depth,
            out@ == old(out)@ + spaces(i * w),
        decreases depth - i,
    {
        let mut j: usize = 0;
        while j < w
            invariant
                i < depth,
                j <= w,
                out@ == old(out)@ + spaces(i * w + j),
            decreases w - j,
        {
            push_char(out, ' ');
            assert(out@ =~= old(out)@ + spaces(i * w + j + 1));
            j = j + 1;
        }
        assert((i + 1) * w == i * w + w) by (nonlinear_arith);
        i = i + 1;
    }
}

/// The lowercase hexadecimal digit `d`.
fn hex_digit_char(d: u32) -> (r: char)
    requires
        d < 16,
    ensures
        r == hex_char(d as int),
{
    if d < 10 {
        ((48 + d) as u8) as char
    } else {
        ((87 + d) as u8) as char
    }
}

/// Appends `c` as it is written inside quotes.
fn push_escaped(out: &mut String, c: char)
    ensures
        final(out)@ == old(out)@ + escape_char(c),
{
    reveal(escape_char);
    let ghost start = out@;
    if c == '"' {
        push_char(out, '\\');
        push_char(out, '"');
    } else if c == '\\' {
        push_char(out, '\\');
        push_char(out, '\\');
    } else if c == '\n' {
        push_char(out, '\\');
        push_char(out, 'n');
    } else if c == '\r' {
        push_char(out, '\\');
        push_char(out, 'r');
    } else if c == '\t' {
        push_char(out, '\\');
        push_char(out, 't');
    } else if c == '\0' {
        push_char(out, '\\');
        push_char(out, '0');
    } else if (c as u32) < 0x20 || (0x7f <= (c as u32) && (c as u32) <= 0x9f) {
        let n = c as u32;
        push_char(out, '\\');
        push_char(out, 'u');
        push_char(out, '{');
        if n < 16 {
            push_char(out, hex_digit_char(n));
        } else {
            push_char(out, hex_digit_char(n / 16));
            push_char(out, hex_digit_char(n % 16));
        }
        push_char(out, '}');
    } else {
        push_char(out, c);
    }
    assert(out@ =~= start + escape_char(c));
}

/// Appends `t` within quotes.
fn push_quoted(out: &mut String, t: &str)
    ensures
        final(out)@ == old(out)@ + quoted(t@),
{
    push_char(out, '"');
    let ghost start = out@;
    for c in it: t.chars()
        invariant
            it.seq() == t@,
            out@ == start + escape(t@.take(it.index())),
    {
        let ghost k = it.index();
        push_escaped(out, c);
        assert(t@.take(k + 1).drop_last() =~= t@.take(k));
    }
    assert(t@.take(t@.len() as int) =~= t@);
    push_char(out, '"');
    assert(out@ =~= old(out)@ + quoted(t@));
}

impl Container {
    /// The text of this value: compact, or, with `indent`, one child per line, `indent_size`
    /// spaces per level, `depth` levels in.
    pub fn dump_object(&self, indent: bool, indent_size: usize, depth: usize) -> (r: String)
        requires
            indent && spans_lines(self@) ==> depth >= 1,
            depth + height(self@) <= usize::MAX,
        ensures
            r@ == dump(self@, indent, indent_size as int, depth as int),
    {
        let mut out = String::new();
        self.write_to(&mut out, indent, indent_size, depth);
        assert(out@ =~= dump(self@, indent, indent_size as int, depth as int));
        out
    }

    fn write_to(&self, out: &mut String, indent: bool, w: usize, depth: usize)
        requires
            indent && spans_lines(self@) ==> depth >= 1,
            depth + height(self@) <= usize::MAX,
        ensures
            final(out)@ == old(out)@ + dump(self@, indent, w as int, depth as int),
        decreases self@,
    {
        let ghost start = out@;
        match self {
            Container::Null => {
                push_char(out, 'n');
                push_char(out, 'u');
                push_char(out, 'l');
                push_char(out, 'l');
            },
            Container::Number(n) => {
                if *n > 0 {
                    push_digits(out, *n as u64);
                } else {
                    push_char(out, '-');
                    let m: u64 = if *n == i64::MIN {
                        0x8000_0000_0000_0000
                    } else {
                        (-*n) as u64
                    };
                    push_digits(out, m);
                }
            },
            Container::Unsigned(n) => {
                push_digits(out, *n);
            },
            Container::Decimal(d) => {
                out.append(d.text());
            },
            Container::Boolean(b) => {
                if *b {
                    push_char(out, 't');
                    push_char(out, 'r');
                    push_char(out, 'u');
                    push_char(out, 'e');
                } else {
                    push_char(out, 'f');
                    push_char(out, 'a');
                    push_char(out, 'l');
                    push_char(out, 's');
                    push_char(out, 'e');
                }
            },
            Container::String(t) => {
                push_quoted(out, t.as_str());
            },
            Container::Array(items) => {
                let ghost vs = views(items@);
                if items.len() == 0 {
                    push_char(out, '[');
                    push_char(out, ']');
                } else {
                    push_char(out, '[');
                    if indent {
                        push_char(out, '\n');
                    }
                    let ghost open = out@;
                    let mut i: usize = 0;
                    while i < items.len()
                        invariant
                            i <= items@.len(),
                            vs == views(items@),
                            self@ == Value::Array(vs),
                            items@.len() > 0,
                            indent ==> depth >= 1,
                            depth + 1 + items_height(vs) <= usize::MAX,
                            out@ == open + dump_items(vs.take(i as int), indent, w as int, depth as int),
                        decreases items@.len() - i,
                    {
                        let ghost before = out@;
                        if i > 0 {
                            push_char(out, ',');
                            if indent {
                                push_char(out, '\n');
                            }
                        }
                        let ghost mid = out@;
                        if indent {
                            push_spaces(out, depth, w);
                        }
                        proof {
                            lemma_item_height(vs, i as int);
                            assert(decreases_to!(self@ => self@->Array_0));
                            assert(decreases_to!(vs => vs[i as int]));
                            assert(vs[i as int] == items@[i as int]@);
                        }
                        let ghost mid2 = out@;
                        items[i].write_to(out, indent, w, depth + 1);
                        proof {
                            let sub = vs.take(i as int + 1);
                            assert(sub.drop_last() =~= vs.take(i as int));
                            assert(sub.last() == items@[i as int]@);
                            assert(mid2 + dump(items@[i as int]@, indent, w as int, depth + 1) =~= mid + margin(indent, w as int, depth as int) + dump(sub.last(), indent, w as int, depth as int + 1));
                            if i > 0 {
                                assert(mid =~= before + separator(indent));
                            } else {
                                assert(vs.take(0) =~= seq![]);
                            }
                            assert(out@ =~= open + dump_items(sub, indent, w as int, depth as int));
                        }
                        i = i + 1;
                    }
                    assert(vs.take(items@.len() as int) =~= vs);
                    if indent {
                        push_char(out, '\n');
                        push_spaces(out, depth - 1, w);
                    }
                    push_char(out, ']');
                }
                assert(out@ =~= start + dump(self@, indent, w as int, depth as int));
            },
            Container::Object(entries) => {
                let ghost es = entry_views(entries@);
                if entries.len() == 0 {
                    push_char(out, '{');
                    push_char(out, '}');
                } else {
                    push_char(out, '{');
                    if indent {
                        push_char(out, '\n');
                    }
                    let ghost open = out@;
                    let mut i: usize = 0;
                    while i < entries.len()
                        invariant
                            i <= entries@.len(),
                            es == entry_views(entries@),
                            self@ == Value::Object(es),
                            entries@.len() > 0,
                            indent ==> depth >= 1,
                            depth + 1 + entries_height(es) <= usize::MAX,
                            out@ == open + dump_entries(es.take(i as int), indent, w as int, depth as int),
                        decreases entries@.len() - i,
                    {
                        let ghost before = out@;
                        if i > 0 {
                            push_char(out, ',');
                            if indent {
                                push_char(out, '\n');
                            }
                        }
                        let ghost mid = out@;
                        if indent {
                            push_spaces(out, depth, w);
                        }
                        push_quoted(out, entries[i].0.as_str());
                        push_char(out, ':');
                        if indent {
                            push_char(out, ' ');
                        }
                        proof {
                            lemma_entry_height(es, i as int);
                            assert(decreases_to!(self@ => self@->Object_0));
                            assert(decreases_to!(es => es[i as int]));
                            assert(decreases_to!(es[i as int] => es[i as int].1));
                            assert(es[i as int].1 == entries@[i as int].1@);
                        }
                        let ghost mid2 = out@;
                        entries[i].1.write_to(out, indent, w, depth + 1);
                        proof {
                            let sub = es.take(i as int + 1);
                            assert(sub.drop_last() =~= es.take(i as int));
                            assert(sub.last() == (entries@[i as int].0@, entries@[i as int].1@));
                            assert(out@ =~= mid + dump_entry(sub.last(), indent, w as int, depth as int));
                            if i > 0 {
                                assert(mid =~= before + separator(indent));
                            } else {
                                assert(es.take(0) =~= seq![]);
                            }
                            assert(out@ =~= open + dump_entries(sub, indent, w as int, depth as int));
                        }
                        i = i + 1;
                    }
                    assert(es.take(entries@.len() as int) =~= es);
                    if indent {
                        push_char(out, '\n');
                        push_spaces(out, depth - 1, w);
                    }
                    push_char(out, '}');
                }
                assert(out@ =~= start + dump(self@, indent, w as int, depth as int));
            },
        }
        assert(out@ =~= start + dump(self@, indent, w as int, depth as int));
    }
}

} // verus!
