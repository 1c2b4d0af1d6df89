//! The dynamic value tree.
use vstd::prelude::*;

use crate::model::{has_key, is_first_key, key_index, keys_unique, lemma_upsert_wf, lookup, upsert, Value};
use vstd::utf8::encode_utf8;

verus! {

/// A real number, kept as the token that wrote it (`-7.5e-5`).
#[derive(Debug)]
pub struct Decimal {
    text: String,
}

impl View for Decimal {
    type V = Seq<char>;

    closed spec fn view(&self) -> Seq<char> {
        self.text@
    }
}

impl Decimal {
    /// The text is a token that the number grammar accepts as a real number.
    #[verifier::type_invariant]
    spec fn inv(&self) -> bool {
        crate::parser::is_real_token(self.text@)
    }

    /// Wraps a token that the number grammar accepts as a real number.
    pub(crate) fn from_token(text: String) -> (r: Decimal)
        requires
            crate::parser::is_real_token(text@),
        ensures
            r@ == text@,
    {
        Decimal { text }
    }

    /// A copy of this number.
    pub fn duplicate(&self) -> (r: Decimal)
        ensures
            r@ == self@,
    {
        proof {
            use_type_invariant(self);
        }
        Decimal { text: self.text.clone() }
    }

    /// The token, as written.
    pub fn text(&self) -> (r: &str)
        ensures
            r@ == self@,
            crate::parser::is_real_token(r@),
    {
        proof {
            use_type_invariant(self);
        }
        self.text.as_str()
    }
}

/// A value of any of the kinds the grammar knows.
#[derive(Debug)]
pub enum Container {
    Null,
    Number(i64),
    Unsigned(u64),
    Decimal(Decimal),
    Boolean(bool),
    String(String),
    Array(Vec<Container>),
    Object(Vec<(String, Container)>),
}

impl View for Container {
    type V = Value;

    open spec fn view(&self) -> Value
        decreases self,
    {
        match self {
            Container::Null => Value::Null,
            Container::Number(n) => Value::Number(*n as int),
            Container::Unsigned(n) => Value::Unsigned(*n as int),
            Container::Decimal(d) => Value::Decimal(d@),
            Container::Boolean(b) => Value::Boolean(*b),
            Container::String(s) => Value::Str(s@),
            Container::Array(v) => Value::Array(views(v@)),
            Container::Object(v) => Value::Object(entry_views(v@)),
        }
    }
}

/// The meanings of a run of containers.
pub open spec fn views(v: Seq<Container>) -> Seq<Value>
    decreases v,
{
    Seq::new(v.len(), |i: int| if 0 <= i < v.len() { v[i].view() } else { Value::Null })
}

/// The meanings of a run of object entries.
pub open spec fn entry_views(v: Seq<(String, Container)>) -> Seq<(Seq<char>, Value)>
    decreases v,
{
    Seq::new(
        v.len(),
        |i: int| if 0 <= i < v.len() { (v[i].0@, v[i].1.view()) } else { (Seq::<char>::empty(), Value::Null) },
    )
}

impl Container {
    /// An empty object.
    pub fn new_object() -> (r: Self)
        ensures
            r@ == Value::Object(seq![]),
    {
        let r = Container::Object(Vec::new());
        assert(entry_views(seq![]) =~= seq![]);
        r
    }

    /// An empty array.
    pub fn new_array() -> (r: Self)
        ensures
            r@ == Value::Array(seq![]),
    {
        let r = Container::Array(Vec::new());
        assert(views(seq![]) =~= seq![]);
        r
    }

    /// Appends `val` to an array; `false`, and nothing changed, where this is no array.
    pub fn push(&mut self, val: Self) -> (r: bool)
        ensures
            match old(self)@ {
                Value::Array(items) => r && final(self)@ == Value::Array(items.push(val@)),
                _ => !r && final(self)@ == old(self)@,
            },
            old(self)@.wf() && val@.wf() ==> final(self)@.wf(),
    {
        match self {
            Container::Array(value) => {
                let ghost before = views(value@);
                value.push(val);
                assert(views(value@) =~= before.push(val@));
                assert(before.push(val@).drop_last() =~= before);
                true
            },
            _ => false,
        }
    }

    /// Binds `key` to `val` in an object; `true` where a binding was replaced, `false` where the
    /// key is new or this is no object (then nothing changes).
    pub fn insert_str(&mut self, key: &str, val: Self) -> (r: bool)
        ensures
            match old(self)@ {
                Value::Object(entries) => r == has_key(entries, key@) && final(self)@ == Value::Object(
                    upsert(entries, key@, val@),
                ),
                _ => !r && final(self)@ == old(self)@,
            },
            old(self)@.wf() && val@.wf() ==> final(self)@.wf(),
    {
        match self {
            Container::Object(map) => {
                let ghost before = entry_views(map@);
                proof {
                    if keys_unique(before) {
                        lemma_upsert_wf(before, key@, val@);
                    }
                }
                upsert_entry(map, key.to_owned(), val)
            },
            _ => false,
        }
    }

    /// The text of a string.
    pub fn get_string(&self) -> (r: Option<String>)
        ensures
            match self@ {
                Value::Str(t) => r is Some && r->0@ == t,
                _ => r is None,
            },
    {
        match self {
            Container::String(value) => Some(value.clone()),
            _ => None,
        }
    }

    /// The text of a string, as `get_string`.
    pub fn as_string(&self) -> (r: Option<String>)
        ensures
            match self@ {
                Value::Str(t) => r is Some && r->0@ == t,
                _ => r is None,
            },
    {
        self.get_string()
    }

    /// The value of an unsigned integer.
    pub fn get_uint(&self) -> (r: Option<u64>)
        ensures
            match self@ {
                Value::Unsigned(n) => r == Some(n as u64),
                _ => r is None,
            },
    {
        match self {
            Container::Unsigned(value) => Some(*value),
            _ => None,
        }
    }

    /// The value of a signed integer.
    pub fn get_int(&self) -> (r: Option<i64>)
        ensures
            match self@ {
                Value::Number(n) => r == Some(n as i64),
                _ => r is None,
            },
    {
        match self {
            Container::Number(value) => Some(*value),
            _ => None,
        }
    }

    /// The token of a real number.
    pub fn get_real(&self) -> (r: Option<Decimal>)
        ensures
            match self@ {
                Value::Decimal(t) => r is Some && r->0@ == t,
                _ => r is None,
            },
    {
        match self {
            Container::Decimal(value) => Some(value.duplicate()),
            _ => None,
        }
    }

    /// The value of a boolean.
    pub fn get_bool(&self) -> (r: Option<bool>)
        ensures
            match self@ {
                Value::Boolean(b) => r == Some(b),
                _ => r is None,
            },
    {
        match self {
            Container::Boolean(value) => Some(*value),
            _ => None,
        }
    }

    pub fn is_null(&self) -> (r: bool)
        ensures
            r == (self@ is Null),
    {
        matches!(self, Container::Null)
    }

    pub fn is_number(&self) -> (r: bool)
        ensures
            r == (self@ is Number),
    {
        matches!(self, Container::Number(_))
    }

    pub fn is_unsigned(&self) -> (r: bool)
        ensures
            r == (self@ is Unsigned),
    {
        matches!(self, Container::Unsigned(_))
    }

    pub fn is_decimal(&self) -> (r: bool)
        ensures
            r == (self@ is Decimal),
    {
        matches!(self, Container::Decimal(_))
    }

    pub fn is_bool(&self) -> (r: bool)
        ensures
            r == (self@ is Boolean),
    {
        matches!(self, Container::Boolean(_))
    }

    pub fn is_str(&self) -> (r: bool)
        ensures
            r == (self@ is Str),
    {
        matches!(self, Container::String(_))
    }

    pub fn is_object(&self) -> (r: bool)
        ensures
            r == (self@ is Object),
    {
        matches!(self, Container::Object(_))
    }

    pub fn is_array(&self) -> (r: bool)
        ensures
            r == (self@ is Array),
    {
        matches!(self, Container::Array(_))
    }

    /// Elements of an array, entries of an object, bytes of a string; 1 for any other value.
    pub fn len(&self) -> (r: usize)
        ensures
            r == match self@ {
                Value::Array(items) => items.len(),
                Value::Object(entries) => entries.len(),
                Value::Str(t) => encode_utf8(t).len() as usize as nat,
                _ => 1,
            },
    {
        match self {
            Container::Array(value) => {
                assert(views(value@).len() == value@.len());
                value.len()
            },
            Container::Object(value) => {
                assert(entry_views(value@).len() == value@.len());
                value.len()
            },
            Container::String(value) => value.as_str().len(),
            _ => 1,
        }
    }

    /// `f` of the value where this is a boolean; `false` otherwise.
    pub fn is_bool_and<F: Fn(bool) -> bool>(&self, f: F) -> (r: bool)
        requires
            forall|b: bool| f.requires((b,)),
        ensures
            match self@ {
                Value::Boolean(b) => f.ensures((b,), r),
                _ => !r,
            },
    {
        match self {
            Container::Boolean(val) => f(*val),
            _ => false,
        }
    }

    /// `f` of the value where this is a signed integer; `false` otherwise.
    pub fn is_integer_and<F: Fn(i64) -> bool>(&self, f: F) -> (r: bool)
        requires
            forall|n: i64| f.requires((n,)),
        ensures
            match self@ {
                Value::Number(n) => f.ensures((n as i64,), r),
                _ => !r,
            },
    {
        match self {
            Container::Number(val) => f(*val),
            _ => false,
        }
    }

    /// `f` of the value where this is an unsigned integer; `false` otherwise.
    pub fn is_unsigned_and<F: Fn(u64) -> bool>(&self, f: F) -> (r: bool)
        requires
            forall|n: u64| f.requires((n,)),
        ensures
            match self@ {
                Value::Unsigned(n) => f.ensures((n as u64,), r),
                _ => !r,
            },
    {
        match self {
            Container::Unsigned(val) => f(*val),
            _ => false,
        }
    }

    /// `f` of the number where this is a real number; `false` otherwise.
    pub fn is_decimal_and<F: Fn(&Decimal) -> bool>(&self, f: F) -> (r: bool)
        requires
            forall|d: &Decimal| f.requires((d,)),
        ensures
            self@ is Decimal ==> exists|d: &Decimal| d@ == self@->Decimal_0 && f.ensures((d,), r),
            !(self@ is Decimal) ==> !r,
    {
        match self {
            Container::Decimal(val) => f(val),
            _ => false,
        }
    }

    /// `f` of the text where this is a string; `false` otherwise.
    pub fn is_string_and<F: Fn(&str) -> bool>(&self, f: F) -> (r: bool)
        requires
            forall|t: &str| f.requires((t,)),
        ensures
            self@ is Str ==> exists|t: &str| t@ == self@->Str_0 && f.ensures((t,), r),
            !(self@ is Str) ==> !r,
    {
        match self {
            Container::String(val) => f(val.as_str()),
            _ => false,
        }
    }

    /// `f` of the entries where this is an object; `false` otherwise.
    pub fn is_object_and<F: Fn(&[(String, Container)]) -> bool>(&self, f: F) -> (r: bool)
        requires
            forall|e: &[(String, Container)]| f.requires((e,)),
        ensures
            self@ is Object ==> exists|e: &[(String, Container)]|
                entry_views(e@) == self@->Object_0 && f.ensures((e,), r),
            !(self@ is Object) ==> !r,
    {
        match self {
            Container::Object(val) => f(val.as_slice()),
            _ => false,
        }
    }

    /// `f` of the elements where this is an array; `false` otherwise.
    pub fn is_array_and<F: Fn(&[Container]) -> bool>(&self, f: F) -> (r: bool)
        requires
            forall|a: &[Container]| f.requires((a,)),
        ensures
            self@ is Array ==> exists|a: &[Container]| views(a@) == self@->Array_0 && f.ensures((a,), r),
            !(self@ is Array) ==> !r,
    {
        match self {
            Container::Array(val) => f(val.as_slice()),
            _ => false,
        }
    }

    /// The element at `index`, made where it is missing: an array too short for it gets one
    /// `Null` at its end, which is returned; any other value is first replaced by an empty array.
    pub fn index_mut(&mut self, index: usize) -> (r: &mut Container)
        ensures
            match old(self)@ {
                Value::Array(items) => if index < items.len() {
                    *r == old(self)->Array_0@[index as int] && final(self)@ == Value::Array(
                        items.update(index as int, final(r)@),
                    )
                } else {
                    r@ == Value::Null && final(self)@ == Value::Array(items.push(final(r)@))
                },
                _ => r@ == Value::Null && final(self)@ == Value::Array(seq![final(r)@]),
            },
        decreases if old(self)@ is Array { 0int } else { 1int },
    {
        match self {
            Container::Array(value) => {
                let ghost before = views(value@);
                if index < value.len() {
                    assert forall|x: Container|
                        #![trigger value@.update(index as int, x)]
                        views(value@.update(index as int, x)) == before.update(index as int, x@) by {
                        assert(views(value@.update(index as int, x)) =~= before.update(index as int, x@));
                    }
                    &mut value[index]
                } else {
                    value.push(Container::Null);
                    let last = value.len() - 1;
                    assert forall|x: Container|
                        #![trigger value@.update(last as int, x)]
                        views(value@.update(last as int, x)) == before.push(x@) by {
                        assert(views(value@.update(last as int, x)) =~= before.push(x@));
                    }
                    &mut value[last]
                }
            },
            _ => {
                *self = Container::Array(Vec::new());
                assert(views(seq![]) =~= seq![]);
                self.index_mut(index)
            },
        }
    }

    /// The value bound to `key`, made where it is missing: an object without the key gets it
    /// bound to `Null` as its last entry; any other value is first replaced by an empty object.
    pub fn index_key_mut(&mut self, key: &str) -> (r: &mut Container)
        ensures
            match old(self)@ {
                Value::Object(entries) => if has_key(entries, key@) {
                    r@ == lookup(entries, key@) && final(self)@ == Value::Object(
                        entries.update(key_index(entries, key@), (key@, final(r)@)),
                    )
                } else {
                    r@ == Value::Null && final(self)@ == Value::Object(entries.push((key@, final(r)@)))
                },
                _ => r@ == Value::Null && final(self)@ == Value::Object(seq![(key@, final(r)@)]),
            },
        decreases if old(self)@ is Object { 0int } else { 1int },
    {
        match self {
            Container::Object(value) => {
                let ghost before = entry_views(value@);
                let k = key.to_owned();
                match find_key(value, &k) {
                    Some(i) => {
                        assert forall|x: Container|
                            #![trigger value@.update(i as int, (value@[i as int].0, x))]
                            entry_views(value@.update(i as int, (value@[i as int].0, x))) == before.update(
                                i as int,
                                (key@, x@),
                            ) by {
                            assert(entry_views(value@.update(i as int, (value@[i as int].0, x))) =~= before.update(
                                i as int,
                                (key@, x@),
                            ));
                        }
                        &mut value[i].1
                    },
                    None => {
                        value.push((k, Container::Null));
                        let last = value.len() - 1;
                        assert forall|x: Container|
                            #![trigger value@.update(last as int, (value@[last as int].0, x))]
                            entry_views(value@.update(last as int, (value@[last as int].0, x))) == before.push(
                                (key@, x@),
                            ) by {
                            assert(entry_views(value@.update(last as int, (value@[last as int].0, x))) =~= before.push(
                                (key@, x@),
                            ));
                        }
                        &mut value[last].1
                    },
                }
            },
            _ => {
                *self = Container::Object(Vec::new());
                assert(entry_views(seq![]) =~= seq![]);
                self.index_key_mut(key)
            },
        }
    }

    /// The element at `idx` of an array; `Null` where there is none or this is no array.
    pub fn index(&self, idx: usize) -> (r: &Container)
        ensures
            r@ == match self@ {
                Value::Array(items) => if idx < items.len() { items[idx as int] } else { Value::Null },
                _ => Value::Null,
            },
    {
        match self {
            Container::Array(value) => {
                if idx < value.len() {
                    &value[idx]
                } else {
                    &Container::Null
                }
            },
            _ => &Container::Null,
        }
    }

    /// The value bound to `key` in an object; `Null` where there is none or this is no object.
    pub fn index_key(&self, key: &str) -> (r: &Container)
        ensures
            r@ == match self@ {
                Value::Object(entries) => lookup(entries, key@),
                _ => Value::Null,
            },
    {
        match self {
            Container::Object(value) => {
                match find_key(value, &key.to_owned()) {
                    Some(i) => &value[i].1,
                    None => &Container::Null,
                }
            },
            _ => &Container::Null,
        }
    }
}

/// Structural equality: the same kind, and the same contents; arrays element by element in
/// order, objects key by key in any order.
/// Real numbers are equal when the tokens that wrote them are, so `1.0` and `1.00` differ.
pub open spec fn same_value(a: Value, b: Value) -> bool
    decreases a,
{
    match a {
        Value::Array(x) => b is Array && x.len() == b->Array_0.len() && same_items(x, b->Array_0),
        Value::Object(x) => b is Object && x.len() == b->Object_0.len() && same_entries(x, b->Object_0),
        _ => a == b,
    }
}

/// Equal lengths, and elements at the same place are structurally equal.
pub open spec fn same_items(x: Seq<Value>, y: Seq<Value>) -> bool
    decreases x,
{
    if x.len() == 0 || x.len() != y.len() {
        x.len() == y.len()
    } else {
        same_items(x.drop_last(), y.drop_last()) && same_value(x.last(), y.last())
    }
}

/// Each entry of `x` has its key in `y`, bound there to a structurally equal value.
pub open spec fn same_entries(x: Seq<(Seq<char>, Value)>, y: Seq<(Seq<char>, Value)>) -> bool
    decreases x,
{
    if x.len() == 0 {
        true
    } else {
        same_entries(x.drop_last(), y) && has_key(y, x.last().0) && same_value(x.last().1, lookup(y, x.last().0))
    }
}

proof fn lemma_same_items_prefix(x: Seq<Value>, y: Seq<Value>, k: int)
    requires
        x.len() == y.len(),
        0 <= k <= x.len(),
        same_items(x, y),
    ensures
        same_items(x.take(k), y.take(k)),
    decreases x.len(),
{
    if k < x.len() {
        lemma_same_items_prefix(x.drop_last(), y.drop_last(), k);
        assert(x.drop_last().take(k) =~= x.take(k));
        assert(y.drop_last().take(k) =~= y.take(k));
    } else {
        assert(x.take(k) =~= x);
        assert(y.take(k) =~= y);
    }
}

proof fn lemma_same_entries_prefix(x: Seq<(Seq<char>, Value)>, y: Seq<(Seq<char>, Value)>, k: int)
    requires
        0 <= k <= x.len(),
        same_entries(x, y),
    ensures
        same_entries(x.take(k), y),
    decreases x.len(),
{
    if k < x.len() {
        lemma_same_entries_prefix(x.drop_last(), y, k);
        assert(x.drop_last().take(k) =~= x.take(k));
    } else {
        assert(x.take(k) =~= x);
    }
}

impl Container {
    /// Whether `self` and `other` are structurally equal.
    /// Real numbers compare by the tokens that wrote them.
    pub fn same(&self, other: &Container) -> (r: bool)
        ensures
            r == same_value(self@, other@),
        decreases self@,
    {
        match (self, other) {
            (Container::Null, Container::Null) => true,
            (Container::Number(a), Container::Number(b)) => *a == *b,
            (Container::Unsigned(a), Container::Unsigned(b)) => *a == *b,
            (Container::Boolean(a), Container::Boolean(b)) => *a == *b,
            (Container::Decimal(a), Container::Decimal(b)) => a.text == b.text,
            (Container::String(a), Container::String(b)) => *a == *b,
            (Container::Array(x), Container::Array(y)) => {
                let ghost xs = views(x@);
                let ghost ys = views(y@);
                if x.len() != y.len() {
                    return false;
                }
                assert(xs.take(0) =~= seq![] && ys.take(0) =~= seq![]);
                let mut i: usize = 0;
                while i < x.len()
                    invariant
                        i <= x@.len(),
                        x@.len() == y@.len(),
                        xs == views(x@),
                        ys == views(y@),
                        self@ == Value::Array(xs),
                        other@ == Value::Array(ys),
                        same_items(xs.take(i as int), ys.take(i as int)),
                    decreases x@.len() - i,
                {
                    proof {
                        assert(decreases_to!(self@ => self@->Array_0));
                        assert(decreases_to!(xs => xs[i as int]));
                    }
                    let e = x[i].same(&y[i]);
                    proof {
                        let (a, b) = (xs.take(i as int + 1), ys.take(i as int + 1));
                        assert(a.drop_last() =~= xs.take(i as int) && b.drop_last() =~= ys.take(i as int));
                        assert(same_items(a, b) == e);
                        if !e {
                            if same_items(xs, ys) {
                                lemma_same_items_prefix(xs, ys, i as int + 1);
                            }
                        }
                    }
                    if !e {
                        return false;
                    }
                    i = i + 1;
                }
                assert(xs.take(i as int) =~= xs && ys.take(i as int) =~= ys);
                true
            },
            (Container::Object(x), Container::Object(y)) => {
                let ghost xs = entry_views(x@);
                let ghost ys = entry_views(y@);
                if x.len() != y.len() {
                    return false;
                }
                assert(xs.take(0) =~= seq![]);
                let mut i: usize = 0;
                while i < x.len()
                    invariant
                        i <= x@.len(),
                        x@.len() == y@.len(),
                        xs == entry_views(x@),
                        ys == entry_views(y@),
                        self@ == Value::Object(xs),
                        other@ == Value::Object(ys),
                        same_entries(xs.take(i as int), ys),
                    decreases x@.len() - i,
                {
                    proof {
                        assert(decreases_to!(self@ => self@->Object_0));
                        assert(decreases_to!(xs => xs[i as int]));
                        assert(decreases_to!(xs[i as int] => xs[i as int].1));
                    }
                    let ghost a = xs.take(i as int + 1);
                    proof {
                        assert(a.drop_last() =~= xs.take(i as int));
                    }
                    let e = match find_key(y, &x[i].0) {
                        None => false,
                        Some(j) => x[i].1.same(&y[j].1),
                    };
                    proof {
                        assert(same_entries(a, ys) == e);
                        if !e {
                            if same_entries(xs, ys) {
                                lemma_same_entries_prefix(xs, ys, i as int + 1);
                            }
                        }
                    }
                    if !e {
                        return false;
                    }
                    i = i + 1;
                }
                assert(xs.take(i as int) =~= xs);
                true
            },
            _ => false,
        }
    }
}

impl Container {
    /// A copy of this value, to every level.
    pub fn duplicate(&self) -> (r: Container)
        ensures
            r@ == self@,
        decreases self@,
    {
        match self {
            Container::Null => Container::Null,
            Container::Number(n) => Container::Number(*n),
            Container::Unsigned(n) => Container::Unsigned(*n),
            Container::Decimal(d) => Container::Decimal(d.duplicate()),
            Container::Boolean(b) => Container::Boolean(*b),
            Container::String(t) => Container::String(t.clone()),
            Container::Array(items) => {
                let ghost vs = views(items@);
                let mut out: Vec<Container> = Vec::new();
                let mut i: usize = 0;
                while i < items.len()
                    invariant
                        i <= items@.len(),
                        vs == views(items@),
                        self@ == Value::Array(vs),
                        views(out@) == vs.take(i as int),
                    decreases items@.len() - i,
                {
                    proof {
                        assert(decreases_to!(self@ => self@->Array_0));
                        assert(decreases_to!(vs => vs[i as int]));
                    }
                    let ghost before = views(out@);
                    let x = items[i].duplicate();
                    out.push(x);
                    assert(views(out@) =~= before.push(x@));
                    assert(x@ == vs[i as int]);
                    assert(before.push(x@) =~= vs.take(i as int + 1));
                    i = i + 1;
                }
                assert(vs.take(i as int) =~= vs);
                Container::Array(out)
            },
            Container::Object(entries) => {
                let ghost es = entry_views(entries@);
                let mut out: Vec<(String, Container)> = Vec::new();
                let mut i: usize = 0;
                while i < entries.len()
                    invariant
                        i <= entries@.len(),
                        es == entry_views(entries@),
                        self@ == Value::Object(es),
                        entry_views(out@) == es.take(i as int),
                    decreases entries@.len() - i,
                {
                    proof {
                        assert(decreases_to!(self@ => self@->Object_0));
                        assert(decreases_to!(es => es[i as int]));
                        assert(decreases_to!(es[i as int] => es[i as int].1));
                    }
                    let ghost before = entry_views(out@);
                    let k = entries[i].0.clone();
                    let x = entries[i].1.duplicate();
                    out.push((k, x));
                    assert(entry_views(out@) =~= before.push((k@, x@)));
                    assert((k@, x@) == es[i as int]);
                    assert(before.push((k@, x@)) =~= es.take(i as int + 1));
                    i = i + 1;
                }
                assert(es.take(i as int) =~= es);
                Container::Object(out)
            },
        }
    }
}

impl Clone for Decimal {
    fn clone(&self) -> Self {
        self.duplicate()
    }
}

impl Clone for Container {
    fn clone(&self) -> Self {
        self.duplicate()
    }
}

impl PartialEq for Container {
    fn eq(&self, other: &Container) -> (r: bool) {
        self.same(other)
    }
}

impl Eq for Container {

}

impl vstd::std_specs::cmp::PartialEqSpecImpl for Container {
    open spec fn obeys_eq_spec() -> bool {
        true
    }

    open spec fn eq_spec(&self, other: &Container) -> bool {
        same_value(self@, other@)
    }
}

/// Binds `key` to `val` among `entries`, in place where the key is there and last where it is
/// not; tells whether a binding was replaced.
pub(crate) fn upsert_entry(entries: &mut Vec<(String, Container)>, key: String, val: Container) -> (replaced: bool)
    ensures
        entry_views(final(entries)@) == upsert(entry_views(old(entries)@), key@, val@),
        replaced == has_key(entry_views(old(entries)@), key@),
        keys_unique(entry_views(old(entries)@)) ==> keys_unique(entry_views(final(entries)@)),
{
    let ghost ev = entry_views(entries@);
    let mut i: usize = 0;
    while i < entries.len()
        invariant
            i <= entries@.len(),
            entries@ == old(entries)@,
            ev == entry_views(entries@),
            forall|j: int| 0 <= j < i ==> ev[j].0 != key@,
        decreases entries@.len() - i,
    {
        if entries[i].0 == key {
            assert(is_first_key(ev, key@, i as int));
            assert(has_key(ev, key@));
            let ghost k = key_index(ev, key@);
            assert(k == i);
            entries[i] = (key, val);
            assert(entry_views(entries@) =~= ev.update(i as int, (key@, val@)));
            return true;
        }
        i = i + 1;
    }
    assert(!has_key(ev, key@));
    entries.push((key, val));
    assert(entry_views(entries@) =~= ev.push((key@, val@)));
    false
}

/// The first entry with `key`, where there is one.
fn find_key(entries: &Vec<(String, Container)>, key: &String) -> (r: Option<usize>)
    ensures
        r is Some <==> has_key(entry_views(entries@), key@),
        r is Some ==> r->0 == key_index(entry_views(entries@), key@) && is_first_key(entry_views(entries@), key@, r->0 as int),
{
    let ghost ev = entry_views(entries@);
    let mut i: usize = 0;
    while i < entries.len()
        invariant
            i <= entries@.len(),
            ev == entry_views(entries@),
            forall|j: int| 0 <= j < i ==> ev[j].0 != key@,
        decreases entries@.len() - i,
    {
        if entries[i].0 == *key {
            assert(is_first_key(ev, key@, i as int));
            assert(has_key(ev, key@));
            let ghost k = key_index(ev, key@);
            assert(k == i);
            return Some(i);
        }
        i = i + 1;
    }
    None
}

} // verus!
