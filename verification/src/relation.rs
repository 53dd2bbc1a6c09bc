use vstd::prelude::*;

use crate::order::lemma_insert_to_multiset;
use crate::order::sorted_pos;
use crate::order::value_lt;
use crate::schema::Schema;
use crate::schema::row_matches;
use crate::schema::rows_all_match;
use crate::storage::Data;
use crate::storage::clone_row;
use crate::value::Row;
use crate::value::ValueModel;

verus! {

/// The key column of every row of a batch, in batch order.
pub open spec fn batch_keys(rows: Seq<Seq<ValueModel>>, p: int) -> Seq<ValueModel> {
    Seq::new(rows.len(), |j: int| rows[j][p])
}

/// A named collection of rows under one schema, optionally identified by a
/// primary-key attribute (an index into the schema).
#[derive(Debug)]
pub struct Relation {
    pub name: String,
    pub pk: Option<usize>,
    pub schema: Schema,
    pub data: Data,
}

impl Relation {
    /// Well-formedness: the storage kind matches primary-key presence, the
    /// key index lies inside the schema, every stored row fits the schema,
    /// and in keyed storage each row is stored under its own key column,
    /// the keys strictly ascending.
    pub open spec fn wf(self) -> bool {
        &&& self.data.wf()
        &&& rows_all_match(self.schema@, self.data.spec_rows())
        &&& match self.pk {
            Some(p) => {
                &&& self.data is WithPK
                &&& (p as int) < self.schema@.len()
                &&& forall|j: int| 0 <= j < self.data.spec_rows().len()
                    ==> self.data.spec_keys()[j] == #[trigger] self.data.spec_rows()[j][p as int]
            },
            None => self.data is NoPK,
        }
    }

    /// A batch may be committed exactly when every row fits the schema
    /// and, under a primary key, the batch's key column holds no repeats
    /// and no key already stored.
    pub open spec fn batch_ok(self, batch: Seq<Seq<ValueModel>>) -> bool {
        &&& rows_all_match(self.schema@, batch)
        &&& (self.pk matches Some(p) ==> {
            &&& batch_keys(batch, p as int).no_duplicates()
            &&& forall|j: int| 0 <= j < batch.len() ==> !self.data.spec_keys().contains(
                #[trigger] batch_keys(batch, p as int)[j],
            )
        })
    }

    /// A key present in a well-formed keyed relation identifies exactly
    /// one stored row: there is a position holding it, and no second one.
    pub proof fn lemma_key_stored_once(self, k: ValueModel)
        requires
            self.wf(),
            self.pk is Some,
            self.data.spec_keys().contains(k),
        ensures
            exists|i: int| 0 <= i < self.data.spec_keys().len()
                && self.data.spec_keys()[i] == k,
            forall|i: int, j: int| (0 <= i < self.data.spec_keys().len() && 0 <= j
                < self.data.spec_keys().len() && self.data.spec_keys()[i] == k
                && self.data.spec_keys()[j] == k) ==> i == j,
    {
        let keys = self.data.spec_keys();
        let w = choose|i: int| 0 <= i < keys.len() && keys[i] == k;
        assert(keys[w] == k);
    }

    /// In a well-formed keyed relation the stored rows — what `tuples`
    /// returns — come in strictly ascending order of their key column.
    pub proof fn lemma_rows_key_sorted(self)
        requires
            self.wf(),
            self.pk is Some,
        ensures
            forall|i: int, j: int| 0 <= i < j < self.data.spec_rows().len() ==> value_lt(
                #[trigger] self.data.spec_rows()[i][self.pk->0 as int],
                #[trigger] self.data.spec_rows()[j][self.pk->0 as int],
            ),
    {
        let p = self.pk->0 as int;
        let keys = self.data.spec_keys();
        let rows = self.data.spec_rows();
        assert forall|i: int, j: int| 0 <= i < j < rows.len() implies value_lt(
            #[trigger] rows[i][p],
            #[trigger] rows[j][p],
        ) by {
            assert(keys[i] == rows[i][p]);
            assert(keys[j] == rows[j][p]);
            assert(value_lt(keys[i], keys[j]));
        }
    }

    /// Inserts one row. The insert is refused, leaving the relation
    /// unchanged, when the row does not fit the schema, or when the
    /// relation has a primary key and a row is already stored under this
    /// row's key value. Otherwise the row is stored (at its key's place in
    /// the ascending key order, or appended under the next surrogate
    /// identifier) and the insert reports success; without a primary key
    /// duplicate rows are permitted.
    #[verifier::loop_isolation(false)]
    pub fn insert_row(&mut self, row: Row) -> (r: bool)
        requires
            old(self).wf(),
        ensures
            final(self).wf(),
            final(self).name == old(self).name,
            final(self).pk == old(self).pk,
            final(self).schema == old(self).schema,
            !row_matches(old(self).schema@, row.deep_view()) ==> !r && *final(self) == *old(
                self,
            ),
            (row_matches(old(self).schema@, row.deep_view()) && old(self).pk is None) ==> r
                && final(self).data.spec_rows() == old(self).data.spec_rows().push(
                row.deep_view(),
            ),
            (row_matches(old(self).schema@, row.deep_view()) && old(self).pk is Some) ==> {
                let k = row.deep_view()[old(self).pk->0 as int];
                &&& r == !old(self).data.spec_keys().contains(k)
                &&& r ==> ({
                    let idx = sorted_pos(old(self).data.spec_keys(), k);
                    &&& 0 <= idx <= old(self).data.spec_keys().len()
                    &&& final(self).data.spec_keys() == old(self).data.spec_keys().insert(
                        idx,
                        k,
                    )
                    &&& final(self).data.spec_rows() == old(self).data.spec_rows().insert(
                        idx,
                        row.deep_view(),
                    )
                    &&& final(self).data.spec_keys().contains(k)
                })
                &&& !r ==> *final(self) == *old(self)
            },
    {
        if !self.schema.validate_row(&row) {
            return false;
        }
        match self.pk {
            Option::None => {
                let ghost rows0 = self.data.spec_rows();
                let _ = self.data.insert(None, row);
                proof {
                    assert forall|j: int| 0 <= j < self.data.spec_rows().len()
                        implies row_matches(self.schema@, self.data.spec_rows()[j]) by {
                        if j < rows0.len() {
                            assert(self.data.spec_rows()[j] == rows0[j]);
                        }
                    }
                }
                true
            },
            Option::Some(p) => {
                let key = row[p].clone();
                proof {
                    assert(key.deep_view() == row.deep_view()[p as int]);
                }
                if self.data.contains(Some(key), None) {
                    return false;
                }
                let key2 = row[p].clone();
                proof {
                    assert(key2.deep_view() == row.deep_view()[p as int]);
                }
                let ghost keys0 = self.data.spec_keys();
                let ghost rows0 = self.data.spec_rows();
                let ghost rowv = row.deep_view();
                let ghost k = rowv[p as int];
                let _ = self.data.insert(Some(key2), row);
                proof {
                    let idx = sorted_pos(keys0, k);
                    let keys1 = self.data.spec_keys();
                    let rows1 = self.data.spec_rows();
                    assert(keys1 == keys0.insert(idx, k));
                    assert(rows1 == rows0.insert(idx, rowv));
                    keys0.insert_ensures(idx, k);
                    rows0.insert_ensures(idx, rowv);
                    assert(keys1[idx] == k);
                    assert(keys1.contains(k));
                    assert forall|j: int| 0 <= j < rows1.len() implies row_matches(
                        self.schema@,
                        #[trigger] rows1[j],
                    ) by {
                        if j < idx {
                            assert(rows1[j] == rows0[j]);
                        } else if j == idx {
                            assert(rows1[j] == rowv);
                        } else {
                            assert(rows0.insert(idx, rowv)[(j - 1) + 1] == rows0[j - 1]);
                        }
                    }
                    assert forall|j: int| 0 <= j < rows1.len() implies keys1[j]
                        == #[trigger] rows1[j][p as int] by {
                        if j < idx {
                            assert(keys1[j] == keys0[j]);
                            assert(rows1[j] == rows0[j]);
                        } else if j == idx {
                        } else {
                            assert(keys0.insert(idx, k)[(j - 1) + 1] == keys0[j - 1]);
                            assert(rows0.insert(idx, rowv)[(j - 1) + 1] == rows0[j - 1]);
                        }
                    }
                }
                true
            },
        }
    }

    /// Inserts a batch of rows atomically: the batch is committed whole
    /// when every row fits the schema and, under a primary key, the batch
    /// holds no repeated key and no key already stored; otherwise nothing
    /// is committed and the stored rows are exactly those before the call.
    #[verifier::loop_isolation(false)]
    pub fn insert_rows(&mut self, rows: Vec<Row>) -> (r: bool)
        requires
            old(self).wf(),
        ensures
            final(self).wf(),
            final(self).name == old(self).name,
            final(self).pk == old(self).pk,
            final(self).schema == old(self).schema,
            r == old(self).batch_ok(rows.deep_view()),
            (r && old(self).pk is None) ==> final(self).data.spec_rows() == old(
                self,
            ).data.spec_rows() + rows.deep_view(),
            (r && old(self).pk is Some) ==> {
                let p = old(self).pk->0 as int;
                &&& final(self).data.spec_rows().to_multiset() == old(
                    self,
                ).data.spec_rows().to_multiset().add(rows.deep_view().to_multiset())
                &&& final(self).data.spec_keys().to_multiset() == old(
                    self,
                ).data.spec_keys().to_multiset().add(
                    batch_keys(rows.deep_view(), p).to_multiset(),
                )
            },
            !r ==> *final(self) == *old(self),
    {
        let ghost batch = rows.deep_view();
        let n = rows.len();
        let mut i: usize = 0;
        while i < n
            invariant
                0 <= i <= n,
                forall|j: int| 0 <= j < i ==> row_matches(self.schema@, #[trigger] batch[j]),
            decreases n - i,
        {
            if !self.schema.validate_row(&rows[i]) {
                proof {
                    assert(batch[i as int] == rows@[i as int].deep_view());
                    assert(!row_matches(self.schema@, batch[i as int]));
                }
                return false;
            }
            proof {
                assert(batch[i as int] == rows@[i as int].deep_view());
            }
            i += 1;
        }
        assert(rows_all_match(self.schema@, batch));
        match self.pk {
            Option::None => {
                let mut i: usize = 0;
                while i < n
                    invariant
                        0 <= i <= n,
                        self.wf(),
                        self.pk is None,
                        self.name == old(self).name,
                        self.pk == old(self).pk,
                        self.schema == old(self).schema,
                        self.data.spec_rows() == old(self).data.spec_rows() + batch.take(
                            i as int,
                        ),
                    decreases n - i,
                {
                    let rowc = clone_row(&rows[i]);
                    proof {
                        assert(rowc.deep_view() == batch[i as int]);
                    }
                    let ghost rows0 = self.data.spec_rows();
                    let _ = self.data.insert(None, rowc);
                    proof {
                        assert(self.data.spec_rows() == rows0.push(batch[i as int]));
                        assert(rows0.push(batch[i as int]) =~= old(self).data.spec_rows()
                            + batch.take(i as int + 1));
                        assert forall|j: int| 0 <= j < self.data.spec_rows().len()
                            implies row_matches(
                            self.schema@,
                            #[trigger] self.data.spec_rows()[j],
                        ) by {
                            if j < rows0.len() {
                                assert(self.data.spec_rows()[j] == rows0[j]);
                            }
                        }
                    }
                    i += 1;
                }
                proof {
                    assert(batch.take(n as int) =~= batch);
                }
                true
            },
            Option::Some(p) => {
                let ghost bk = batch_keys(batch, p as int);
                // no repeated key inside the batch
                let mut i: usize = 0;
                while i < n
                    invariant
                        0 <= i <= n,
                        forall|a: int, b: int| 0 <= a < i && a < b < n ==> bk[a] != bk[b],
                    decreases n - i,
                {
                    let mut j: usize = i + 1;
                    while j < n
                        invariant
                            i < j <= n || (i + 1 > n && j == i + 1),
                            forall|b: int| i < b < j ==> bk[i as int] != bk[b],
                        decreases n - j,
                    {
                        proof {
                            assert(batch[i as int] == rows@[i as int].deep_view());
                            assert(batch[j as int] == rows@[j as int].deep_view());
                            assert(row_matches(self.schema@, batch[i as int]));
                            assert(row_matches(self.schema@, batch[j as int]));
                            assert(rows@[i as int]@.len() == self.schema@.len());
                            assert(rows@[j as int]@.len() == self.schema@.len());
                        }
                        if rows[i][p] == rows[j][p] {
                            proof {
                                assert(bk[i as int] == rows@[i as int]@[p as int].deep_view());
                                assert(bk[j as int] == rows@[j as int]@[p as int].deep_view());
                                assert(!bk.no_duplicates());
                            }
                            return false;
                        }
                        proof {
                            assert(bk[i as int] == rows@[i as int]@[p as int].deep_view());
                            assert(bk[j as int] == rows@[j as int]@[p as int].deep_view());
                        }
                        j += 1;
                    }
                    i += 1;
                }
                proof {
                    assert forall|a: int, b: int|
                        0 <= a < n && 0 <= b < n && a != b implies bk[a] != bk[b] by {
                        if a < b {
                        } else {
                            assert(bk[b] != bk[a]);
                        }
                    }
                    assert(bk.no_duplicates());
                }
                // no key already stored
                let mut i: usize = 0;
                while i < n
                    invariant
                        0 <= i <= n,
                        forall|j: int| 0 <= j < i ==> !self.data.spec_keys().contains(
                            #[trigger] bk[j],
                        ),
                    decreases n - i,
                {
                    proof {
                        assert(batch[i as int] == rows@[i as int].deep_view());
                        assert(row_matches(self.schema@, batch[i as int]));
                        assert(rows@[i as int]@.len() == self.schema@.len());
                    }
                    let key = rows[i][p].clone();
                    proof {
                        assert(key.deep_view() == bk[i as int]);
                    }
                    if self.data.contains(Some(key), None) {
                        return false;
                    }
                    i += 1;
                }
                // commit
                let ghost keys0 = self.data.spec_keys();
                let ghost rows0 = self.data.spec_rows();
                proof {
                    broadcast use vstd::seq_lib::group_to_multiset_ensures;
                    broadcast use vstd::multiset::group_multiset_axioms;

                    assert(bk.take(0) =~= Seq::<ValueModel>::empty());
                    assert(batch.take(0) =~= Seq::<Seq<ValueModel>>::empty());
                    assert(keys0.to_multiset().add(bk.take(0).to_multiset())
                        =~= keys0.to_multiset());
                    assert(rows0.to_multiset().add(batch.take(0).to_multiset())
                        =~= rows0.to_multiset());
                }
                let mut i: usize = 0;
                while i < n
                    invariant
                        0 <= i <= n,
                        self.wf(),
                        self.pk == Some(p),
                        self.name == old(self).name,
                        self.schema == old(self).schema,
                        self.data.spec_keys().to_multiset() == keys0.to_multiset().add(
                            bk.take(i as int).to_multiset(),
                        ),
                        self.data.spec_rows().to_multiset() == rows0.to_multiset().add(
                            batch.take(i as int).to_multiset(),
                        ),
                    decreases n - i,
                {
                    proof {
                        assert(batch[i as int] == rows@[i as int].deep_view());
                        assert(row_matches(self.schema@, batch[i as int]));
                        assert(rows@[i as int]@.len() == self.schema@.len());
                    }
                    let key = rows[i][p].clone();
                    let rowc = clone_row(&rows[i]);
                    proof {
                        broadcast use vstd::seq_lib::group_to_multiset_ensures;
                        broadcast use vstd::multiset::group_multiset_axioms;

                        assert(rowc.deep_view() == batch[i as int]);
                        assert(key.deep_view() == bk[i as int]);
                        // the key is fresh for the current storage
                        if self.data.spec_keys().contains(bk[i as int]) {
                            assert(self.data.spec_keys().to_multiset().count(bk[i as int]) > 0);
                            assert(!keys0.contains(bk[i as int]));
                            assert(keys0.to_multiset().count(bk[i as int]) == 0);
                            if bk.take(i as int).contains(bk[i as int]) {
                                let x = choose|x: int|
                                    0 <= x < i && bk.take(i as int)[x] == bk[i as int];
                                assert(bk[x] == bk[i as int]);
                            }
                            assert(bk.take(i as int).to_multiset().count(bk[i as int]) == 0);
                            assert(false);
                        }
                    }
                    let ghost keys1 = self.data.spec_keys();
                    let ghost rows1 = self.data.spec_rows();
                    let _ = self.data.insert(Some(key), rowc);
                    proof {
                        broadcast use vstd::seq_lib::group_to_multiset_ensures;
                        broadcast use vstd::multiset::group_multiset_axioms;

                        let idx = sorted_pos(keys1, bk[i as int]);
                        let keys2 = self.data.spec_keys();
                        let rows2 = self.data.spec_rows();
                        assert(keys2 == keys1.insert(idx, bk[i as int]));
                        assert(rows2 == rows1.insert(idx, batch[i as int]));
                        keys1.insert_ensures(idx, bk[i as int]);
                        rows1.insert_ensures(idx, batch[i as int]);
                        lemma_insert_to_multiset(keys1, idx, bk[i as int]);
                        lemma_insert_to_multiset(rows1, idx, batch[i as int]);
                        assert(bk.take(i as int + 1) =~= bk.take(i as int).push(bk[i as int]));
                        assert(batch.take(i as int + 1) =~= batch.take(i as int).push(
                            batch[i as int],
                        ));
                        assert(keys2.to_multiset() =~= keys0.to_multiset().add(
                            bk.take(i as int + 1).to_multiset(),
                        ));
                        assert(rows2.to_multiset() =~= rows0.to_multiset().add(
                            batch.take(i as int + 1).to_multiset(),
                        ));
                        // well-formedness is preserved
                        assert forall|j: int| 0 <= j < rows2.len() implies row_matches(
                            self.schema@,
                            #[trigger] rows2[j],
                        ) by {
                            if j < idx {
                                assert(rows2[j] == rows1[j]);
                            } else if j == idx {
                                assert(rows2[j] == batch[i as int]);
                            } else {
                                assert(rows1.insert(idx, batch[i as int])[(j - 1) + 1]
                                    == rows1[j - 1]);
                            }
                        }
                        assert forall|j: int| 0 <= j < rows2.len() implies keys2[j]
                            == #[trigger] rows2[j][p as int] by {
                            if j < idx {
                                assert(keys2[j] == keys1[j]);
                                assert(rows2[j] == rows1[j]);
                            } else if j == idx {
                                assert(keys2[j] == bk[i as int]);
                                assert(rows2[j] == batch[i as int]);
                            } else {
                                assert(keys1.insert(idx, bk[i as int])[(j - 1) + 1]
                                    == keys1[j - 1]);
                                assert(rows1.insert(idx, batch[i as int])[(j - 1) + 1]
                                    == rows1[j - 1]);
                            }
                        }
                    }
                    i += 1;
                }
                proof {
                    assert(bk.take(n as int) =~= bk);
                    assert(batch.take(n as int) =~= batch);
                }
                true
            },
        }
    }
}

} // verus!
