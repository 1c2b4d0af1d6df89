//! Mathematical models of values and failures, in which the contracts are stated.
use vstd::prelude::*;

verus! {

/// The meaning of a `Container`: a value tree over mathematical integers and sequences.
pub enum Value {
    Null,
    /// A signed integer.
    Number(int),
    /// An unsigned integer.
    Unsigned(int),
    /// A real number, kept as the token that wrote it.
    Decimal(Seq<char>),
    Boolean(bool),
    Str(Seq<char>),
    /// Elements in insertion order.
    Array(Seq<Value>),
    /// Entries as (key, value), in the order in which their keys first came.
    Object(Seq<(Seq<char>, Value)>),
}

/// The meaning of a `ParseError`.
pub enum Failure {
    UnexpectedToken(char, int, int),
    InvalidUtf8,
    NestedDepthExceeded(int),
    EndOfBuffer,
    ContainerMismatch(char, char),
    InvalidKeyValueFormat(Seq<char>),
    InvalidNumberParse(char),
}

/// No key occurs twice among the entries.
pub open spec fn keys_unique(entries: Seq<(Seq<char>, Value)>) -> bool {
    forall|i: int, j: int|
        0 <= i < entries.len() && 0 <= j < entries.len() && entries[i].0 == entries[j].0 ==> i == j
}

/// Some entry has this key.
pub open spec fn has_key(entries: Seq<(Seq<char>, Value)>, key: Seq<char>) -> bool {
    exists|i: int| 0 <= i < entries.len() && entries[i].0 == key
}

/// `i` is the first entry with this key.
pub open spec fn is_first_key(entries: Seq<(Seq<char>, Value)>, key: Seq<char>, i: int) -> bool {
    &&& 0 <= i < entries.len()
    &&& entries[i].0 == key
    &&& forall|j: int| 0 <= j < i ==> entries[j].0 != key
}

/// The index of the first entry with `key`, where there is one.
pub open spec fn key_index(entries: Seq<(Seq<char>, Value)>, key: Seq<char>) -> int {
    choose|i: int| is_first_key(entries, key, i)
}

/// The entries after `key` is bound to `v`: the entry with that key gets the new value in place,
/// or, where there is none, a new entry comes last.
pub open spec fn upsert(entries: Seq<(Seq<char>, Value)>, key: Seq<char>, v: Value) -> Seq<(Seq<char>, Value)> {
    if has_key(entries, key) {
        entries.update(key_index(entries, key), (key, v))
    } else {
        entries.push((key, v))
    }
}

/// The value bound to `key`, or `Null` where no entry has it.
pub open spec fn lookup(entries: Seq<(Seq<char>, Value)>, key: Seq<char>) -> Value {
    if has_key(entries, key) {
        entries[key_index(entries, key)].1
    } else {
        Value::Null
    }
}

pub open spec fn is_digit(b: u8) -> bool {
    48 <= b <= 57
}

/// The characters, in order, of the ASCII bytes `b`.
pub open spec fn ascii_chars(b: Seq<u8>) -> Seq<char> {
    Seq::new(b.len(), |i: int| b[i] as char)
}

impl Value {
    /// Well formed: at every level, the keys of an object are unique.
    pub open spec fn wf(self) -> bool
        decreases self,
    {
        match self {
            Value::Array(items) => items_wf(items),
            Value::Object(entries) => keys_unique(entries) && entries_wf(entries),
            _ => true,
        }
    }
}

/// Every element is well formed.
pub open spec fn items_wf(x: Seq<Value>) -> bool
    decreases x,
{
    x.len() == 0 || (items_wf(x.drop_last()) && x.last().wf())
}

/// Every value bound in the entries is well formed.
pub open spec fn entries_wf(x: Seq<(Seq<char>, Value)>) -> bool
    decreases x,
{
    x.len() == 0 || (entries_wf(x.drop_last()) && x.last().1.wf())
}

proof fn lemma_update_entries_wf(x: Seq<(Seq<char>, Value)>, i: int, y: (Seq<char>, Value))
    requires
        0 <= i < x.len(),
        entries_wf(x),
        y.1.wf(),
    ensures
        entries_wf(x.update(i, y)),
    decreases x.len(),
{
    let z = x.update(i, y);
    if i < x.len() - 1 {
        lemma_update_entries_wf(x.drop_last(), i, y);
        assert(z.drop_last() =~= x.drop_last().update(i, y));
    } else {
        assert(z.drop_last() =~= x.drop_last());
    }
}

/// Binding a key keeps the keys unique; with a well-formed value, the entries stay well formed.
pub proof fn lemma_upsert_wf(x: Seq<(Seq<char>, Value)>, key: Seq<char>, v: Value)
    requires
        keys_unique(x),
    ensures
        keys_unique(upsert(x, key, v)),
        entries_wf(x) && v.wf() ==> entries_wf(upsert(x, key, v)),
{
    let z = upsert(x, key, v);
    if has_key(x, key) {
        let j = choose|j: int| 0 <= j < x.len() && x[j].0 == key;
        assert(is_first_key(x, key, j)) by {
            assert forall|k: int| 0 <= k < j implies x[k].0 != key by {
                if x[k].0 == key {
                    assert(k == j);
                }
            }
        }
        let i = key_index(x, key);
        assert(is_first_key(x, key, i));
        if entries_wf(x) && v.wf() {
            lemma_update_entries_wf(x, i, (key, v));
        }
        assert forall|a: int, b: int| 0 <= a < z.len() && 0 <= b < z.len() && z[a].0 == z[b].0 implies a == b by {
            assert(z[a].0 == x[a].0 && z[b].0 == x[b].0);
        }
    } else {
        assert(z.drop_last() =~= x);
        assert forall|a: int, b: int| 0 <= a < z.len() && 0 <= b < z.len() && z[a].0 == z[b].0 implies a == b by {
            if a < x.len() && b == x.len() {
                assert(x[a].0 == key);
            }
            if b < x.len() && a == x.len() {
                assert(x[b].0 == key);
            }
        }
    }
}

} // verus!
