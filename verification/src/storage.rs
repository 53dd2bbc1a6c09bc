use vstd::prelude::*;

use crate::order::lemma_sorted_keys_distinct;
use crate::order::lemma_value_lt_connex;
use crate::order::lemma_value_lt_trans;
use crate::order::sorted_keys;
use crate::order::sorted_pos;
use crate::order::value_lt;
use crate::order::value_lt_exec;
use crate::value::Row;
use crate::value::Value;
use crate::value::ValueModel;
use crate::value::lemma_row_view_eq;

verus! {

/// The key values of a keyed pair list, in storage order.
pub open spec fn pair_keys(pairs: Seq<(Value, Row)>) -> Seq<ValueModel> {
    Seq::new(pairs.len(), |i: int| pairs[i].0.deep_view())
}

/// The rows of a keyed pair list, in storage order.
pub open spec fn pair_rows(pairs: Seq<(Value, Row)>) -> Seq<Seq<ValueModel>> {
    Seq::new(pairs.len(), |i: int| pairs[i].1.deep_view())
}

/// Tuple storage. A keyed relation stores each row under its primary-key
/// value, the pairs kept in ascending key order; a key-less relation
/// stores rows under surrogate identifiers, which are the 0-based
/// positions in insertion order.
#[derive(Debug)]
pub enum Data {
    WithPK(Vec<(Value, Row)>),
    NoPK(Vec<Row>),
}

/// Decides whether two rows hold the same values.
pub(crate) fn row_eq(a: &Row, b: &Row) -> (r: bool)
    ensures
        r == (a.deep_view() == b.deep_view()),
{
    let r = *a == *b;
    proof {
        lemma_row_view_eq(*a, *b);
    }
    r
}

/// Clones a row; the copy carries the same values.
pub(crate) fn clone_row(row: &Row) -> (r: Row)
    ensures
        r@ == row@,
        r.deep_view() == row.deep_view(),
{
    let r = row.clone();
    proof {
        assert(r@ =~= row@);
        assert(r.deep_view() =~= row.deep_view());
    }
    r
}

/// The position in the ascending key order at which key `k` belongs:
/// the first position whose key is not below `k`.
#[verifier::loop_isolation(false)]
fn sorted_insert_pos(pairs: &Vec<(Value, Row)>, k: &Value) -> (idx: usize)
    ensures
        idx <= pairs@.len(),
        idx as int == sorted_pos(pair_keys(pairs@), k.deep_view()),
        forall|j: int| 0 <= j < idx ==> value_lt(#[trigger] pair_keys(pairs@)[j], k.deep_view()),
        (idx as int) < pairs@.len() ==> !value_lt(
            pair_keys(pairs@)[idx as int],
            k.deep_view(),
        ),
{
    let n = pairs.len();
    let mut idx: usize = 0;
    while idx < n
        invariant
            0 <= idx <= n,
            forall|j: int| 0 <= j < idx ==> value_lt(
                #[trigger] pair_keys(pairs@)[j],
                k.deep_view(),
            ),
        decreases n - idx,
    {
        if !value_lt_exec(&pairs[idx].0, k) {
            proof {
                crate::order::lemma_sorted_pos_char(pair_keys(pairs@), k.deep_view(), idx as int);
            }
            return idx;
        }
        proof {
            assert(pair_keys(pairs@)[idx as int] == pairs@[idx as int].0.deep_view());
        }
        idx += 1;
    }
    proof {
        crate::order::lemma_sorted_pos_char(pair_keys(pairs@), k.deep_view(), n as int);
    }
    n
}

/// Stores `row` under key `k`: when the key is already present its row is
/// replaced in place (the relation layer rejects such duplicates
/// beforehand); otherwise the pair enters at the key's position in the
/// ascending key order.
#[verifier::loop_isolation(false)]
fn keyed_insert(pairs: &mut Vec<(Value, Row)>, k: Value, row: Row)
    requires
        sorted_keys(pair_keys(old(pairs)@)),
        pair_keys(old(pairs)@).no_duplicates(),
    ensures
        sorted_keys(pair_keys(final(pairs)@)),
        pair_keys(final(pairs)@).no_duplicates(),
        !pair_keys(old(pairs)@).contains(k.deep_view()) ==> {
            let idx = sorted_pos(pair_keys(old(pairs)@), k.deep_view());
            &&& 0 <= idx <= pair_keys(old(pairs)@).len()
            &&& pair_keys(final(pairs)@) == pair_keys(old(pairs)@).insert(idx, k.deep_view())
            &&& pair_rows(final(pairs)@) == pair_rows(old(pairs)@).insert(idx, row.deep_view())
        },
        pair_keys(old(pairs)@).contains(k.deep_view()) ==> {
            &&& pair_keys(final(pairs)@) == pair_keys(old(pairs)@)
            &&& pair_rows(final(pairs)@) == pair_rows(old(pairs)@).update(
                pair_keys(old(pairs)@).index_of(k.deep_view()),
                row.deep_view(),
            )
        },
{
    let n = pairs.len();
    let mut i: usize = 0;
    while i < n
        invariant
            *pairs == *old(pairs),
            n == pairs@.len(),
            0 <= i <= n,
            forall|j: int| 0 <= j < i ==> pair_keys(pairs@)[j] != k.deep_view(),
        decreases n - i,
    {
        if pairs[i].0 == k {
            proof {
                let keys = pair_keys(pairs@);
                assert(keys[i as int] == k.deep_view());
                let c = keys.index_of(k.deep_view());
                assert(keys[c] == k.deep_view());
                assert(c == i as int);
            }
            pairs[i] = (k, row);
            proof {
                assert(pair_keys(pairs@) =~= pair_keys(old(pairs)@));
                assert(pair_rows(pairs@) =~= pair_rows(old(pairs)@).update(
                    i as int,
                    row.deep_view(),
                ));
            }
            return;
        }
        i += 1;
    }
    proof {
        if pair_keys(pairs@).contains(k.deep_view()) {
            let j = pair_keys(pairs@).index_of(k.deep_view());
            assert(pair_keys(pairs@)[j] == k.deep_view());
        }
    }
    let idx = sorted_insert_pos(pairs, &k);
    let ghost pairs0 = pairs@;
    let ghost keys0 = pair_keys(pairs@);
    let ghost rows0 = pair_rows(pairs@);
    proof {
        // every key at or after the position lies above `k`
        assert forall|j: int| idx <= j < keys0.len() implies value_lt(
            k.deep_view(),
            #[trigger] keys0[j],
        ) by {
            lemma_value_lt_connex(keys0[idx as int], k.deep_view());
            if keys0[idx as int] == k.deep_view() {
                assert(keys0.contains(k.deep_view()));
            }
            assert(value_lt(k.deep_view(), keys0[idx as int]));
            if j > idx {
                assert(value_lt(keys0[idx as int], keys0[j]));
                lemma_value_lt_trans(k.deep_view(), keys0[idx as int], keys0[j]);
            }
        }
    }
    pairs.insert(idx, (k, row));
    proof {
        pairs0.insert_ensures(idx as int, (k, row));
        keys0.insert_ensures(idx as int, k.deep_view());
        rows0.insert_ensures(idx as int, row.deep_view());
        assert(pairs@ == pairs0.insert(idx as int, (k, row)));
        assert forall|j: int| 0 <= j < pairs@.len() implies pair_keys(pairs@)[j] == keys0.insert(
            idx as int,
            k.deep_view(),
        )[j] && pair_rows(pairs@)[j] == rows0.insert(idx as int, row.deep_view())[j] by {
            if j < idx as int {
                assert(pairs0.insert(idx as int, (k, row))[j] == pairs0[j]);
            } else if j == idx as int {
                assert(pairs0.insert(idx as int, (k, row))[j] == (k, row));
            } else {
                assert(pairs0.insert(idx as int, (k, row))[(j - 1) + 1] == pairs0[j - 1]);
                assert(keys0.insert(idx as int, k.deep_view())[(j - 1) + 1] == keys0[j - 1]);
                assert(rows0.insert(idx as int, row.deep_view())[(j - 1) + 1] == rows0[j - 1]);
            }
        }
        assert(pair_keys(pairs@) =~= keys0.insert(idx as int, k.deep_view()));
        assert(pair_rows(pairs@) =~= rows0.insert(idx as int, row.deep_view()));
        // the new key sequence is still strictly ascending
        let keys1 = pair_keys(pairs@);
        assert forall|a: int, b: int| 0 <= a < b < keys1.len() implies value_lt(
            #[trigger] keys1[a],
            #[trigger] keys1[b],
        ) by {
            let ia = idx as int;
            if a < ia && b < ia {
                assert(keys1[a] == keys0[a] && keys1[b] == keys0[b]);
            } else if a < ia && b == ia {
                assert(keys1[a] == keys0[a] && keys1[b] == k.deep_view());
            } else if a < ia {
                assert(keys0.insert(ia, k.deep_view())[(b - 1) + 1] == keys0[b - 1]);
                assert(keys1[a] == keys0[a] && keys1[b] == keys0[b - 1]);
                if a == b - 1 {
                    assert(value_lt(keys0[a], k.deep_view()));
                    assert(value_lt(k.deep_view(), keys0[b - 1]));
                    lemma_value_lt_trans(keys0[a], k.deep_view(), keys0[b - 1]);
                }
            } else if a == ia {
                assert(keys0.insert(ia, k.deep_view())[(b - 1) + 1] == keys0[b - 1]);
                assert(keys1[a] == k.deep_view() && keys1[b] == keys0[b - 1]);
            } else {
                assert(keys0.insert(ia, k.deep_view())[(a - 1) + 1] == keys0[a - 1]);
                assert(keys0.insert(ia, k.deep_view())[(b - 1) + 1] == keys0[b - 1]);
                assert(keys1[a] == keys0[a - 1] && keys1[b] == keys0[b - 1]);
            }
        }
        lemma_sorted_keys_distinct(keys1);
    }
}

/// Appends `row` under the next surrogate identifier.
fn surrogate_insert(rows: &mut Vec<Row>, row: Row)
    ensures
        final(rows).deep_view() == old(rows).deep_view().push(row.deep_view()),
{
    rows.push(row);
    proof {
        assert(rows.deep_view() =~= old(rows).deep_view().push(row.deep_view()));
    }
}

impl Data {
    /// The stored key values, in storage order (keyed storage only).
    pub open spec fn spec_keys(self) -> Seq<ValueModel> {
        match self {
            Data::WithPK(pairs) => pair_keys(pairs@),
            Data::NoPK(rows) => Seq::empty(),
        }
    }

    /// The stored rows, in storage order.
    pub open spec fn spec_rows(self) -> Seq<Seq<ValueModel>> {
        match self {
            Data::WithPK(pairs) => pair_rows(pairs@),
            Data::NoPK(rows) => rows.deep_view(),
        }
    }

    /// Keyed storage keeps its keys strictly ascending, so it never holds
    /// two rows under the same key.
    pub open spec fn wf(self) -> bool {
        self is WithPK ==> {
            &&& sorted_keys(self.spec_keys())
            &&& self.spec_keys().no_duplicates()
        }
    }

    /// Writes `row` into the storage. Keyed storage requires a key: the
    /// row enters at the key's position in the ascending key order,
    /// replacing any row already stored under it (duplicate-key rejection
    /// is the relation's responsibility, performed beforehand); without a
    /// key nothing changes and the insert reports failure. Surrogate
    /// storage appends the row and ignores the key.
    pub fn insert(&mut self, key: Option<Value>, row: Row) -> (r: bool)
        requires
            old(self).wf(),
        ensures
            final(self).wf(),
            (*final(self)) is WithPK <==> (*old(self)) is WithPK,
            (*old(self)) is NoPK ==> r && final(self).spec_rows() == old(self).spec_rows().push(
                row.deep_view(),
            ),
            ((*old(self)) is WithPK && key is None) ==> !r && *final(self) == *old(self),
            ((*old(self)) is WithPK && key is Some && !old(self).spec_keys().contains(
                (key->0).deep_view(),
            )) ==> {
                let idx = sorted_pos(old(self).spec_keys(), (key->0).deep_view());
                &&& r
                &&& 0 <= idx <= old(self).spec_keys().len()
                &&& final(self).spec_keys() == old(self).spec_keys().insert(
                    idx,
                    (key->0).deep_view(),
                )
                &&& final(self).spec_rows() == old(self).spec_rows().insert(
                    idx,
                    row.deep_view(),
                )
            },
            ((*old(self)) is WithPK && key is Some && old(self).spec_keys().contains(
                (key->0).deep_view(),
            )) ==> {
                &&& r
                &&& final(self).spec_keys() == old(self).spec_keys()
                &&& final(self).spec_rows() == old(self).spec_rows().update(
                    old(self).spec_keys().index_of((key->0).deep_view()),
                    row.deep_view(),
                )
            },
    {
        match self {
            Data::WithPK(pairs) => {
                match key {
                    Option::None => false,
                    Option::Some(k) => {
                        keyed_insert(pairs, k, row);
                        true
                    },
                }
            },
            Data::NoPK(rows) => {
                surrogate_insert(rows, row);
                true
            },
        }
    }

    /// Membership test. Keyed storage answers whether a row is stored under
    /// the given key; surrogate storage answers whether the given row is
    /// stored, by structural equality. A missing argument yields false.
    #[verifier::loop_isolation(false)]
    pub fn contains(&self, key: Option<Value>, row: Option<Row>) -> (r: bool)
        ensures
            (*self) is WithPK ==> r == (key is Some && self.spec_keys().contains(
                (key->0).deep_view(),
            )),
            (*self) is NoPK ==> r == (row is Some && self.spec_rows().contains(
                (row->0).deep_view(),
            )),
    {
        match self {
            Data::WithPK(pairs) => {
                match &key {
                    Option::None => false,
                    Option::Some(k) => {
                        let n = pairs.len();
                        let mut i: usize = 0;
                        while i < n
                            invariant
                                n == pairs@.len(),
                                0 <= i <= n,
                                forall|j: int| 0 <= j < i ==> pair_keys(pairs@)[j]
                                    != k.deep_view(),
                            decreases n - i,
                        {
                            if pairs[i].0 == *k {
                                proof {
                                    assert(pair_keys(pairs@)[i as int] == k.deep_view());
                                }
                                return true;
                            }
                            i += 1;
                        }
                        proof {
                            if pair_keys(pairs@).contains(k.deep_view()) {
                                let j = pair_keys(pairs@).index_of(k.deep_view());
                                assert(pair_keys(pairs@)[j] == k.deep_view());
                            }
                        }
                        false
                    },
                }
            },
            Data::NoPK(rows) => {
                match &row {
                    Option::None => false,
                    Option::Some(w) => {
                        let n = rows.len();
                        let mut i: usize = 0;
                        while i < n
                            invariant
                                n == rows@.len(),
                                0 <= i <= n,
                                forall|j: int| 0 <= j < i ==> rows.deep_view()[j]
                                    != w.deep_view(),
                            decreases n - i,
                        {
                            if row_eq(&rows[i], w) {
                                proof {
                                    assert(rows.deep_view()[i as int] == w.deep_view());
                                }
                                return true;
                            }
                            i += 1;
                        }
                        proof {
                            if rows.deep_view().contains(w.deep_view()) {
                                let j = choose|j: int|
                                    0 <= j < rows.deep_view().len() && rows.deep_view()[j]
                                        == w.deep_view();
                                assert(rows.deep_view()[j] == w.deep_view());
                            }
                        }
                        false
                    },
                }
            },
        }
    }

    /// All stored rows, in storage order: ascending key order for keyed
    /// storage, identifier order for surrogate storage.
    #[verifier::loop_isolation(false)]
    pub fn tuples(&self) -> (out: Vec<Row>)
        ensures
            out.deep_view() == self.spec_rows(),
    {
        let mut out: Vec<Row> = Vec::new();
        match self {
            Data::WithPK(pairs) => {
                let n = pairs.len();
                let mut i: usize = 0;
                while i < n
                    invariant
                        n == pairs@.len(),
                        0 <= i <= n,
                        out.deep_view() == pair_rows(pairs@).take(i as int),
                    decreases n - i,
                {
                    let r = pairs[i].1.clone();
                    proof {
                        assert(r@ == pairs@[i as int].1@);
                        assert(r.deep_view() =~= pairs@[i as int].1.deep_view());
                    }
                    let ghost out0 = out;
                    out.push(r);
                    proof {
                        assert(out@ == out0@.push(r));
                        assert forall|j: int| 0 <= j < out@.len() implies out.deep_view()[j]
                            == pair_rows(pairs@).take(i as int + 1)[j] by {
                            if j < i as int {
                                assert(out@[j] == out0@[j]);
                                assert(out0.deep_view()[j] == pair_rows(pairs@).take(i as int)[j]);
                            } else {
                                assert(out@[j] == r);
                            }
                        }
                        assert(out.deep_view() =~= pair_rows(pairs@).take(i as int + 1));
                    }
                    i += 1;
                }
                proof {
                    assert(pair_rows(pairs@).take(n as int) =~= pair_rows(pairs@));
                }
            },
            Data::NoPK(rows) => {
                let n = rows.len();
                let mut i: usize = 0;
                while i < n
                    invariant
                        n == rows@.len(),
                        0 <= i <= n,
                        out.deep_view() == rows.deep_view().take(i as int),
                    decreases n - i,
                {
                    let r = rows[i].clone();
                    proof {
                        assert(r@ == rows@[i as int]@);
                        assert(r.deep_view() =~= rows@[i as int].deep_view());
                        assert(rows.deep_view()[i as int] == rows@[i as int].deep_view());
                    }
                    let ghost out0 = out;
                    out.push(r);
                    proof {
                        assert(out@ == out0@.push(r));
                        assert forall|j: int| 0 <= j < out@.len() implies out.deep_view()[j]
                            == rows.deep_view().take(i as int + 1)[j] by {
                            if j < i as int {
                                assert(out@[j] == out0@[j]);
                                assert(out0.deep_view()[j] == rows.deep_view().take(i as int)[j]);
                            } else {
                                assert(out@[j] == r);
                            }
                        }
                        assert(out.deep_view() =~= rows.deep_view().take(i as int + 1));
                    }
                    i += 1;
                }
                proof {
                    assert(rows.deep_view().take(n as int) =~= rows.deep_view());
                }
            },
        }
        out
    }
}

} // verus!
