//! What parsing a whole text gives: for arrays nested to a given depth, and for bytes after a
//! complete value.
use vstd::prelude::*;

use crate::model::{Failure, Value};
use crate::parser::{parse_spec, skip_ws, unexpected, value_at, NEST_LIMIT};

verus! {

/// `n` opening brackets followed by `n` closing ones.
pub open spec fn nested_text(n: nat) -> Seq<u8> {
    Seq::new(2 * n, |i: int| if i < n { 91u8 } else { 93u8 })
}

/// An array in an array, `m` levels deep; the innermost one is empty.
pub open spec fn nested_value(m: nat) -> Value
    decreases m,
{
    if m <= 1 {
        Value::Array(seq![])
    } else {
        Value::Array(seq![nested_value((m - 1) as nat)])
    }
}

proof fn lemma_nested_at(n: nat, k: int)
    requires
        0 <= k < n,
        k <= NEST_LIMIT,
    ensures
        value_at(nested_text(n), k, k) == (if n <= NEST_LIMIT {
            Ok::<(Value, int), Failure>((nested_value((n - k) as nat), 2 * n - k))
        } else {
            Err::<(Value, int), Failure>(Failure::NestedDepthExceeded(NEST_LIMIT + 1))
        }),
    decreases n - k,
{
    let s = nested_text(n);
    assert(s[k] == 91);
    if k < NEST_LIMIT {
        assert(skip_ws(s, k + 1) == k + 1);
        if k + 1 == n {
            assert(s[k + 1] == 93);
            assert(Seq::<Value>::empty() =~= seq![]);
        } else {
            assert(s[k + 1] == 91);
            lemma_nested_at(n, k + 1);
            if n <= NEST_LIMIT {
                let r = 2 * n - k - 1;
                assert(s[r] == 93);
                assert(skip_ws(s, r) == r);
                assert(Seq::<Value>::empty().push(nested_value((n - k - 1) as nat)) =~= seq![
                    nested_value((n - k - 1) as nat),
                ]);
            }
        }
    }
}

/// Arrays nested as deep as the limit parse; one level more fails, naming the depth reached.
pub proof fn lemma_nesting_limit(n: nat)
    requires
        n >= 1,
    ensures
        n <= NEST_LIMIT ==> parse_spec(nested_text(n)) == Ok::<Value, Failure>(nested_value(n)),
        n > NEST_LIMIT ==> parse_spec(nested_text(n)) == Err::<Value, Failure>(
            Failure::NestedDepthExceeded(NEST_LIMIT + 1),
        ),
{
    let s = nested_text(n);
    assert(s[0] == 91);
    assert(skip_ws(s, 0) == 0);
    lemma_nested_at(n, 0);
    assert(skip_ws(s, 2 * n as int) == 2 * n);
}

/// A complete value followed by anything but whitespace fails, at the first byte that follows.
pub proof fn lemma_trailing_data(s: Seq<u8>)
    requires
        skip_ws(s, 0) < s.len(),
        value_at(s, skip_ws(s, 0), 0) is Ok,
        skip_ws(s, value_at(s, skip_ws(s, 0), 0)->Ok_0.1) < s.len(),
    ensures
        parse_spec(s) == Err::<Value, Failure>(unexpected(s, skip_ws(s, value_at(s, skip_ws(s, 0), 0)->Ok_0.1))),
{
}

} // verus!
