use vstd::prelude::*;

use crate::value::Value;
use crate::value::ValueModel;

verus! {

/// Lexicographic order on character sequences: the shorter of two
/// sequences that agree on their common prefix comes first; otherwise the
/// first differing character decides, by Unicode scalar value.
pub open spec fn lex_lt(x: Seq<char>, y: Seq<char>) -> bool
    decreases x.len(),
{
    if y.len() == 0 {
        false
    } else if x.len() == 0 {
        true
    } else if x[0] == y[0] {
        lex_lt(x.skip(1), y.skip(1))
    } else {
        (x[0] as u32) < (y[0] as u32)
    }
}

/// No sequence comes before itself.
pub proof fn lemma_lex_lt_irrefl(x: Seq<char>)
    ensures
        !lex_lt(x, x),
    decreases x.len(),
{
    if x.len() > 0 {
        lemma_lex_lt_irrefl(x.skip(1));
    }
}

/// Distinct characters have distinct scalar values.
proof fn lemma_char_cast_distinct(c1: char, c2: char)
    requires
        c1 != c2,
    ensures
        c1 as u32 != c2 as u32,
{
}

/// Of two distinct sequences, one comes before the other.
pub proof fn lemma_lex_lt_connex(x: Seq<char>, y: Seq<char>)
    ensures
        lex_lt(x, y) || lex_lt(y, x) || x == y,
    decreases x.len(),
{
    if x.len() == 0 && y.len() == 0 {
        assert(x =~= y);
    } else if x.len() > 0 && y.len() > 0 && x[0] == y[0] {
        lemma_lex_lt_connex(x.skip(1), y.skip(1));
        if x.skip(1) == y.skip(1) {
            assert(x.skip(1).len() == x.len() - 1);
            assert(y.skip(1).len() == y.len() - 1);
            assert forall|i: int| 0 <= i < x.len() implies x[i] == y[i] by {
                if i > 0 {
                    assert(x[i] == x.skip(1)[i - 1]);
                    assert(y[i] == y.skip(1)[i - 1]);
                }
            }
            assert(x =~= y);
        }
    } else if x.len() == 0 {
        assert(lex_lt(x, y));
    } else if y.len() == 0 {
        assert(lex_lt(y, x));
    } else {
        assert(x[0] != y[0]);
        lemma_char_cast_distinct(x[0], y[0]);
        assert((x[0] as u32) != (y[0] as u32));
        if (x[0] as u32) < (y[0] as u32) {
            assert(lex_lt(x, y));
        } else {
            assert(lex_lt(y, x));
        }
    }
}

/// The order is transitive.
pub proof fn lemma_lex_lt_trans(x: Seq<char>, y: Seq<char>, z: Seq<char>)
    requires
        lex_lt(x, y),
        lex_lt(y, z),
    ensures
        lex_lt(x, z),
    decreases x.len(),
{
    if x.len() > 0 {
        if x[0] == y[0] && y[0] == z[0] {
            lemma_lex_lt_trans(x.skip(1), y.skip(1), z.skip(1));
        }
    }
}

/// Walking a common prefix decides the order: at the first difference the
/// characters decide; if one sequence ends inside the prefix, the lengths
/// decide.
pub proof fn lemma_lex_lt_prefix(x: Seq<char>, y: Seq<char>, i: int)
    requires
        0 <= i <= x.len(),
        i <= y.len(),
        forall|j: int| 0 <= j < i ==> x[j] == y[j],
    ensures
        (i < x.len() && i < y.len() && x[i] != y[i]) ==> (lex_lt(x, y) <==> (x[i] as u32) < (
        y[i] as u32)),
        (i == x.len() || i == y.len()) ==> (lex_lt(x, y) <==> x.len() < y.len()),
    decreases i,
{
    if i > 0 {
        assert(x.len() > 0 && y.len() > 0 && x[0] == y[0]);
        assert(lex_lt(x, y) == lex_lt(x.skip(1), y.skip(1)));
        assert forall|j: int| 0 <= j < i - 1 implies x.skip(1)[j] == y.skip(1)[j] by {
            assert(x.skip(1)[j] == x[j + 1]);
            assert(y.skip(1)[j] == y[j + 1]);
        }
        lemma_lex_lt_prefix(x.skip(1), y.skip(1), i - 1);
        if i < x.len() && i < y.len() {
            assert(x.skip(1)[i - 1] == x[i]);
            assert(y.skip(1)[i - 1] == y[i]);
        }
    }
}

/// The total order on stored values: text before integers, text by the
/// lexicographic order above, integers numerically.
pub open spec fn value_lt(a: ValueModel, b: ValueModel) -> bool {
    match (a, b) {
        (ValueModel::Str(x), ValueModel::Str(y)) => lex_lt(x, y),
        (ValueModel::Str(_), ValueModel::Int(_)) => true,
        (ValueModel::Int(_), ValueModel::Str(_)) => false,
        (ValueModel::Int(x), ValueModel::Int(y)) => x < y,
    }
}

/// No value comes before itself.
pub proof fn lemma_value_lt_irrefl(a: ValueModel)
    ensures
        !value_lt(a, a),
{
    if a is Str {
        lemma_lex_lt_irrefl(a->Str_0);
    }
}

/// Of two distinct values, one comes before the other.
pub proof fn lemma_value_lt_connex(a: ValueModel, b: ValueModel)
    ensures
        value_lt(a, b) || value_lt(b, a) || a == b,
{
    if a is Str && b is Str {
        lemma_lex_lt_connex(a->Str_0, b->Str_0);
    }
}

/// The order on values is transitive.
pub proof fn lemma_value_lt_trans(a: ValueModel, b: ValueModel, c: ValueModel)
    requires
        value_lt(a, b),
        value_lt(b, c),
    ensures
        value_lt(a, c),
{
    if a is Str && b is Str && c is Str {
        lemma_lex_lt_trans(a->Str_0, b->Str_0, c->Str_0);
    }
}

/// A key sequence in strictly ascending order.
pub open spec fn sorted_keys(keys: Seq<ValueModel>) -> bool {
    forall|i: int, j: int| 0 <= i < j < keys.len() ==> value_lt(#[trigger] keys[i], #[trigger] keys[j])
}

/// Strictly ascending keys hold no repeats.
pub proof fn lemma_sorted_keys_distinct(keys: Seq<ValueModel>)
    requires
        sorted_keys(keys),
    ensures
        keys.no_duplicates(),
{
    assert forall|i: int, j: int|
        0 <= i < keys.len() && 0 <= j < keys.len() && i != j implies keys[i] != keys[j] by {
        if i < j {
            assert(value_lt(keys[i], keys[j]));
        } else {
            assert(value_lt(keys[j], keys[i]));
        }
        lemma_value_lt_irrefl(keys[i]);
    }
}

/// The position at which a fresh key belongs in an ascending key
/// sequence: the number of leading keys that come before it.
pub open spec fn sorted_pos(keys: Seq<ValueModel>, k: ValueModel) -> int
    decreases keys.len(),
{
    if keys.len() == 0 {
        0
    } else if value_lt(keys[0], k) {
        1 + sorted_pos(keys.skip(1), k)
    } else {
        0
    }
}

/// The position where a scan stops (every earlier key below `k`, the key
/// there, if any, not below `k`) is `sorted_pos`.
pub proof fn lemma_sorted_pos_char(keys: Seq<ValueModel>, k: ValueModel, i: int)
    requires
        0 <= i <= keys.len(),
        forall|j: int| 0 <= j < i ==> value_lt(#[trigger] keys[j], k),
        i < keys.len() ==> !value_lt(keys[i], k),
    ensures
        sorted_pos(keys, k) == i,
    decreases keys.len(),
{
    if keys.len() == 0 {
    } else if i == 0 {
    } else {
        assert(value_lt(keys[0], k));
        assert forall|j: int| 0 <= j < i - 1 implies value_lt(#[trigger] keys.skip(1)[j], k) by {
            assert(keys.skip(1)[j] == keys[j + 1]);
        }
        if i - 1 < keys.skip(1).len() {
            assert(keys.skip(1)[i - 1] == keys[i]);
        }
        lemma_sorted_pos_char(keys.skip(1), k, i - 1);
    }
}

/// Decides the lexicographic order on two texts.
#[verifier::loop_isolation(false)]
fn str_lt(x: &String, y: &String) -> (r: bool)
    ensures
        r == lex_lt(x@, y@),
{
    let xs = x.as_str();
    let ys = y.as_str();
    let xn = xs.unicode_len();
    let yn = ys.unicode_len();
    let mut i: usize = 0;
    while i < xn && i < yn
        invariant
            0 <= i <= xn,
            i <= yn,
            xn == x@.len(),
            yn == y@.len(),
            xs@ == x@,
            ys@ == y@,
            forall|j: int| 0 <= j < i ==> x@[j] == y@[j],
        decreases xn - i,
    {
        let cx = xs.get_char(i);
        let cy = ys.get_char(i);
        if cx != cy {
            proof {
                lemma_lex_lt_prefix(x@, y@, i as int);
            }
            return (cx as u32) < (cy as u32);
        }
        i += 1;
    }
    proof {
        lemma_lex_lt_prefix(x@, y@, i as int);
    }
    xn < yn
}

/// Decides the order on two stored values.
pub(crate) fn value_lt_exec(a: &Value, b: &Value) -> (r: bool)
    ensures
        r == value_lt(a@, b@),
{
    match (a, b) {
        (Value::Str(x), Value::Str(y)) => str_lt(x, y),
        (Value::Str(_), Value::Int(_)) => true,
        (Value::Int(_), Value::Str(_)) => false,
        (Value::Int(x), Value::Int(y)) => *x < *y,
    }
}

/// Inserting an element anywhere adds exactly it to the sequence's
/// multiset of elements.
pub proof fn lemma_insert_to_multiset<A>(s: Seq<A>, i: int, a: A)
    requires
        0 <= i <= s.len(),
    ensures
        s.insert(i, a).to_multiset() == s.to_multiset().insert(a),
{
    broadcast use vstd::seq_lib::group_to_multiset_ensures;
    broadcast use vstd::multiset::group_multiset_axioms;

    let pre = s.subrange(0, i);
    let post = s.subrange(i, s.len() as int);
    assert(s.insert(i, a) == pre.push(a) + post);
    vstd::seq_lib::lemma_multiset_commutative(pre.push(a), post);
    vstd::seq_lib::lemma_multiset_commutative(pre, post);
    assert(s =~= pre + post);
    assert(pre.push(a).to_multiset() == pre.to_multiset().insert(a));
    assert(s.insert(i, a).to_multiset() =~= s.to_multiset().insert(a));
}

} // verus!
