use vstd::prelude::*;

use crate::dedup::dedup;
use crate::dedup::lemma_dedup_contains;
use crate::dedup::lemma_dedup_no_duplicates;
use crate::dedup::lemma_dedup_of_no_duplicates;
use crate::relation::Relation;
use crate::relation::batch_keys;
use crate::schema::Attribute;
use crate::schema::AttributeModel;
use crate::schema::Schema;
use crate::schema::row_matches;
use crate::schema::rows_all_match;
use crate::storage::Data;
use crate::storage::clone_row;
use crate::storage::row_eq;
use crate::value::Value;
use crate::value::Row;
use crate::value::ValueModel;

verus! {

/// Comparison operator of a selection condition.
#[derive(Debug)]
pub enum Comp {
    /// Greater than
    GT,
    /// Lesser than
    LT,
    /// Greater than or equal to
    GE,
    /// Lesser than or equal to
    LE,
    /// Equal to
    EQ,
    /// Not equal to
    NE,
}

/// Connective joining two selection conditions.
#[derive(Debug)]
pub enum Connective {
    /// Conjunction
    AND,
    /// Disjunction
    OR,
}

/// A selection predicate: a chain of conditions, or no predicate at all.
/// Predicate evaluation is out of scope: validation reports success for
/// no predicate.
#[derive(Debug)]
pub enum SelPredicate {
    Condition((Attribute, Comp, Value), Option<(Connective, Box<SelPredicate>)>),
    Empty,
}

impl SelPredicate {
    /// Predicate validation is a permanent stub: it reports success for no
    /// predicate, and never panics. Condition chains are not evaluated.
    pub fn validate(&self) -> (r: bool)
        ensures
            r == false,
    {
        false
    }
}

/// An ordered chain of attributes naming a projection's output columns;
/// `All` selects every column.
#[derive(Debug)]
pub enum ProjAttrs {
    Attr(Attribute, Option<Box<ProjAttrs>>),
    All,
}

/// Every requested attribute occurs in the source schema, matched by name
/// and type.
pub open spec fn sel_in_schema(ch: Seq<AttributeModel>, schema: Seq<AttributeModel>) -> bool {
    forall|i: int| 0 <= i < ch.len() ==> schema.contains(#[trigger] ch[i])
}

/// The source-schema position of each requested attribute: the first
/// schema position holding it.
pub open spec fn positions_of(schema: Seq<AttributeModel>, ch: Seq<AttributeModel>) -> Seq<int> {
    Seq::new(ch.len(), |i: int| schema.index_of_first(ch[i])->0)
}

/// One projected row: the source row's values at the requested positions,
/// in requested order.
pub open spec fn project_row(row: Seq<ValueModel>, pos: Seq<int>) -> Seq<ValueModel> {
    Seq::new(pos.len(), |t: int| row[pos[t]])
}

/// All projected rows, in source enumeration order.
pub open spec fn project_rows(rows: Seq<Seq<ValueModel>>, pos: Seq<int>) -> Seq<Seq<ValueModel>> {
    Seq::new(rows.len(), |j: int| project_row(rows[j], pos))
}

/// What projection promises: no result exactly when a requested attribute
/// is missing from the source schema; otherwise a well-formed derived
/// relation named "derived", holding the deduplicated (projected) tuples,
/// keyed exactly when the source key attribute survives the projection.
pub open spec fn projection_post(sel: ProjAttrs, src: Relation, res: Option<Relation>) -> bool {
    let ch = sel.chain();
    let schema = src.schema@;
    let srows = src.data.spec_rows();
    &&& (res is Some <==> sel_in_schema(ch, schema))
    &&& (res matches Some(d) ==> {
        &&& d.wf()
        &&& d.name@ == "derived"@
        &&& d.data.spec_rows().no_duplicates()
        &&& (sel is All ==> {
            &&& d.pk == src.pk
            &&& d.schema@ == schema
            &&& (src.pk is None ==> d.data.spec_rows() == dedup(srows))
            &&& (src.pk is Some ==> d.data.spec_rows().to_multiset() == srows.to_multiset())
        })
        &&& (sel is Attr ==> {
            let pos = positions_of(schema, ch);
            let projd = dedup(project_rows(srows, pos));
            &&& d.schema@ == ch
            &&& match src.pk {
                Some(p) => {
                    if ch.contains(schema[p as int]) {
                        let q = ch.index_of_first(schema[p as int])->0;
                        &&& d.pk is Some
                        &&& d.pk->0 as int == q
                        &&& (batch_keys(projd, q).no_duplicates()
                            ==> d.data.spec_rows().to_multiset() == projd.to_multiset())
                        &&& (!batch_keys(projd, q).no_duplicates() ==> d.data.spec_rows()
                            == Seq::<Seq<ValueModel>>::empty())
                    } else {
                        &&& d.pk is None
                        &&& d.data.spec_rows() == projd
                    }
                },
                None => {
                    &&& d.pk is None
                    &&& d.data.spec_rows() == projd
                },
            }
        })
    })
}

/// The first position in `attrs` holding attribute `a`, if any.
#[verifier::loop_isolation(false)]
fn find_attr(attrs: &Vec<Attribute>, a: &Attribute) -> (res: Option<usize>)
    ensures
        match res {
            Some(j) => (j as int) < attrs.deep_view().len()
                && attrs.deep_view().index_of_first(a.deep_view()) == Some(j as int),
            None => !attrs.deep_view().contains(a.deep_view()),
        },
{
    let n = attrs.len();
    let mut i: usize = 0;
    while i < n
        invariant
            0 <= i <= n,
            n == attrs@.len(),
            forall|t: int| 0 <= t < i ==> attrs.deep_view()[t] != a.deep_view(),
        decreases n - i,
    {
        if attrs[i] == *a {
            proof {
                assert(attrs.deep_view()[i as int] == a.deep_view());
                attrs.deep_view().index_of_first_ensures(a.deep_view());
                let iof = attrs.deep_view().index_of_first(a.deep_view());
                if iof is Some {
                    let idx = iof->0;
                    assert(attrs.deep_view()[idx] == a.deep_view());
                    assert(idx == i as int);
                } else {
                    assert(attrs.deep_view().contains(a.deep_view()));
                }
            }
            return Some(i);
        }
        i += 1;
    }
    proof {
        attrs.deep_view().index_of_first_ensures(a.deep_view());
        if attrs.deep_view().contains(a.deep_view()) {
            let idx = attrs.deep_view().index_of_first(a.deep_view())->0;
            assert(attrs.deep_view()[idx] == a.deep_view());
        }
    }
    None
}

/// Whether some row of `rows` equals `row`, by full-row value equality.
#[verifier::loop_isolation(false)]
fn rows_contain(rows: &Vec<Row>, row: &Row) -> (r: bool)
    ensures
        r == rows.deep_view().contains(row.deep_view()),
{
    let n = rows.len();
    let mut i: usize = 0;
    while i < n
        invariant
            0 <= i <= n,
            n == rows@.len(),
            forall|j: int| 0 <= j < i ==> rows.deep_view()[j] != row.deep_view(),
        decreases n - i,
    {
        if row_eq(&rows[i], row) {
            proof {
                assert(rows.deep_view()[i as int] == row.deep_view());
            }
            return true;
        }
        i += 1;
    }
    proof {
        if rows.deep_view().contains(row.deep_view()) {
            let j = choose|j: int|
                0 <= j < rows.deep_view().len() && rows.deep_view()[j] == row.deep_view();
            assert(rows.deep_view()[j] == row.deep_view());
        }
    }
    false
}

/// Removes duplicate rows, keeping first occurrences in order.
#[verifier::loop_isolation(false)]
fn dedup_rows(rows: &Vec<Row>) -> (out: Vec<Row>)
    ensures
        out.deep_view() == dedup(rows.deep_view()),
{
    let ghost s = rows.deep_view();
    let mut out: Vec<Row> = Vec::new();
    let n = rows.len();
    let mut i: usize = 0;
    while i < n
        invariant
            0 <= i <= n,
            n == rows@.len(),
            out.deep_view() == dedup(s.take(i as int)),
        decreases n - i,
    {
        proof {
            lemma_dedup_contains(s.take(i as int), s[i as int]);
            assert(s.take(i as int + 1).drop_last() =~= s.take(i as int));
            assert(s.take(i as int + 1).last() == s[i as int]);
            assert(rows.deep_view()[i as int] == rows@[i as int].deep_view());
        }
        let present = rows_contain(&out, &rows[i]);
        if !present {
            let rowc = clone_row(&rows[i]);
            let ghost out0 = out;
            out.push(rowc);
            proof {
                assert(out@ == out0@.push(rowc));
                assert(dedup(s.take(i as int + 1)) == dedup(s.take(i as int)).push(
                    s[i as int],
                ));
                assert forall|j: int| 0 <= j < out@.len() implies out.deep_view()[j] == dedup(
                    s.take(i as int + 1),
                )[j] by {
                    if j < out0@.len() {
                        assert(out@[j] == out0@[j]);
                        assert(out0.deep_view()[j] == dedup(s.take(i as int))[j]);
                    } else {
                        assert(out@[j] == rowc);
                    }
                }
                assert(out.deep_view() =~= dedup(s.take(i as int + 1)));
            }
        } else {
            proof {
                assert(dedup(s.take(i as int + 1)) == dedup(s.take(i as int)));
            }
        }
        i += 1;
    }
    proof {
        assert(s.take(n as int) =~= s);
    }
    out
}

/// A relation with a primary key never stores two equal rows: the key
/// column alone already distinguishes them.
pub proof fn lemma_keyed_rows_distinct(rel: Relation)
    requires
        rel.wf(),
        rel.pk is Some,
    ensures
        rel.data.spec_rows().no_duplicates(),
{
    let p = rel.pk->0 as int;
    let keys = rel.data.spec_keys();
    let rows = rel.data.spec_rows();
    assert forall|i: int, j: int|
        0 <= i < rows.len() && 0 <= j < rows.len() && i != j implies rows[i] != rows[j] by {
        assert(keys[i] == rows[i][p]);
        assert(keys[j] == rows[j][p]);
        assert(keys[i] != keys[j]);
    }
}

/// Deduplication preserves schema conformance of every row.
proof fn lemma_dedup_rows_match(schema: Seq<AttributeModel>, rows: Seq<Seq<ValueModel>>)
    requires
        rows_all_match(schema, rows),
    ensures
        rows_all_match(schema, dedup(rows)),
{
    let d = dedup(rows);
    assert forall|j: int| 0 <= j < d.len() implies row_matches(schema, #[trigger] d[j]) by {
        assert(d.contains(d[j]));
        lemma_dedup_contains(rows, d[j]);
        let x = choose|x: int| 0 <= x < rows.len() && rows[x] == d[j];
        assert(row_matches(schema, rows[x]));
    }
}

impl ProjAttrs {
    /// The requested attributes, in chain order; `All` requests none
    /// explicitly.
    pub open spec fn chain(self) -> Seq<AttributeModel>
        decreases self,
    {
        match self {
            ProjAttrs::Attr(a, next) => seq![a@] + match next {
                Option::Some(b) => b.chain(),
                Option::None => Seq::empty(),
            },
            ProjAttrs::All => Seq::empty(),
        }
    }

    /// Collects the chain into a vector, in order.
    pub fn attrs(&self) -> (out: Vec<Attribute>)
        ensures
            out.deep_view() == self.chain(),
        decreases *self,
    {
        match self {
            ProjAttrs::Attr(a, next) => {
                let mut out: Vec<Attribute> = Vec::new();
                out.push(a.clone());
                match next {
                    Option::Some(b) => {
                        let mut rest = b.attrs();
                        let ghost out0 = out;
                        let ghost rest0 = rest;
                        out.append(&mut rest);
                        proof {
                            assert(out@ == out0@ + rest0@);
                            assert forall|j: int| 0 <= j < out@.len()
                                implies out.deep_view()[j] == self.chain()[j] by {
                                if j == 0 {
                                    assert(out@[0] == a);
                                } else {
                                    assert(out@[j] == rest0@[j - 1]);
                                    assert(rest0.deep_view()[j - 1] == b.chain()[j - 1]);
                                }
                            }
                            assert(out.deep_view() =~= self.chain());
                        }
                        out
                    },
                    Option::None => {
                        proof {
                            assert(out.deep_view() =~= self.chain());
                        }
                        out
                    },
                }
            },
            ProjAttrs::All => {
                let out: Vec<Attribute> = Vec::new();
                proof {
                    assert(out.deep_view() =~= self.chain());
                }
                out
            },
        }
    }

    /// Projects `relation` onto the requested attributes (all of them for
    /// `All`): builds the projected rows in requested order, removes
    /// duplicate rows, and batch-inserts them into a fresh relation named
    /// "derived". The derived relation keeps a primary key exactly when
    /// the source key attribute is among the requested ones, repositioned
    /// to its place in the request; otherwise it uses surrogate storage.
    /// A requested attribute missing from the source schema yields no
    /// result.
    #[verifier::loop_isolation(false)]
    pub fn execute(&self, relation: &Relation) -> (res: Option<Relation>)
        requires
            relation.wf(),
        ensures
            projection_post(*self, *relation, res),
    {
        let ghost schema = relation.schema@;
        let ghost srows = relation.data.spec_rows();
        match self {
            ProjAttrs::All => {
                let tup = relation.data.tuples();
                let values = dedup_rows(&tup);
                let mut derived = Relation {
                    name: "derived".to_owned(),
                    pk: relation.pk,
                    schema: relation.schema.clone(),
                    data: if relation.pk.is_some() {
                        Data::WithPK(Vec::new())
                    } else {
                        Data::NoPK(Vec::new())
                    },
                };
                proof {
                    assert(derived.data.spec_rows() =~= Seq::<Seq<ValueModel>>::empty());
                    if derived.data is WithPK {
                        assert(derived.data.spec_keys() =~= Seq::<ValueModel>::empty());
                    }
                    assert(derived.wf());
                    lemma_dedup_rows_match(schema, srows);
                    if relation.pk is Some {
                        let p = relation.pk->0 as int;
                        lemma_keyed_rows_distinct(*relation);
                        lemma_dedup_of_no_duplicates(srows);
                        assert(values.deep_view() == srows);
                        assert(batch_keys(srows, p) =~= relation.data.spec_keys());
                        assert(derived.batch_ok(values.deep_view()));
                    } else {
                        assert(derived.batch_ok(values.deep_view()));
                    }
                }
                let ghost derived0 = derived;
                let ok = derived.insert_rows(values);
                proof {
                    broadcast use vstd::seq_lib::group_to_multiset_ensures;
                    broadcast use vstd::multiset::group_multiset_axioms;

                    assert(ok);
                    if relation.pk is Some {
                        assert(derived.data.spec_rows().to_multiset()
                            == derived0.data.spec_rows().to_multiset().add(
                            values.deep_view().to_multiset(),
                        ));
                        assert(derived0.data.spec_rows().len() == 0);
                        assert(derived.data.spec_rows().to_multiset() =~= srows.to_multiset());
                        lemma_keyed_rows_distinct(derived);
                    } else {
                        assert(derived.data.spec_rows() =~= dedup(srows));
                        lemma_dedup_no_duplicates(srows);
                    }
                }
                Some(derived)
            },
            ProjAttrs::Attr(_, _) => {
                let ghost ch = self.chain();
                let sel = self.attrs();
                let nsel = sel.len();
                let mut indices: Vec<usize> = Vec::new();
                let mut i: usize = 0;
                while i < nsel
                    invariant
                        0 <= i <= nsel,
                        nsel == sel@.len(),
                        indices@.len() == i,
                        forall|t: int| 0 <= t < i ==> (#[trigger] indices@[t] as int)
                            < schema.len() && schema.index_of_first(ch[t]) == Some(
                            indices@[t] as int,
                        ),
                    decreases nsel - i,
                {
                    proof {
                        assert(sel.deep_view()[i as int] == sel@[i as int].deep_view());
                    }
                    match find_attr(&relation.schema.attributes, &sel[i]) {
                        Option::Some(j) => {
                            proof {
                                schema.index_of_first_ensures(ch[i as int]);
                            }
                            indices.push(j);
                        },
                        Option::None => {
                            proof {
                                assert(!schema.contains(ch[i as int]));
                            }
                            return None;
                        },
                    }
                    i += 1;
                }
                let ghost pos = positions_of(schema, ch);
                proof {
                    assert(ch.len() == sel.deep_view().len());
                    assert(ch.len() == nsel);
                    assert forall|t: int| 0 <= t < ch.len() implies schema.contains(
                        #[trigger] ch[t],
                    ) && pos[t] == indices@[t] as int && 0 <= pos[t] < schema.len()
                        && schema[pos[t]] == ch[t] by {
                        assert((indices@[t] as int) < schema.len());
                        assert(schema.index_of_first(ch[t]) == Some(indices@[t] as int));
                        schema.index_of_first_ensures(ch[t]);
                        assert(schema[indices@[t] as int] == ch[t]);
                        assert(schema.contains(ch[t]));
                        assert(pos[t] == schema.index_of_first(ch[t])->0);
                        assert(pos[t] == indices@[t] as int);
                    }
                    assert(sel_in_schema(ch, schema));
                }
                // build the projected rows, in requested order
                let tup = relation.data.tuples();
                let nt = tup.len();
                let mut projected: Vec<Row> = Vec::new();
                let mut j: usize = 0;
                while j < nt
                    invariant
                        0 <= j <= nt,
                        nt == tup@.len(),
                        projected.deep_view() == project_rows(srows, pos).take(j as int),
                    decreases nt - j,
                {
                    proof {
                        assert(tup.deep_view()[j as int] == tup@[j as int].deep_view());
                        assert(row_matches(schema, srows[j as int]));
                    }
                    let ni = indices.len();
                    let mut newrow: Row = Vec::new();
                    let mut t: usize = 0;
                    while t < ni
                        invariant
                            0 <= t <= ni,
                            ni == indices@.len(),
                            j < nt,
                            newrow.deep_view() == project_row(srows[j as int], pos).take(
                                t as int,
                            ),
                        decreases ni - t,
                    {
                        proof {
                            assert(pos[t as int] == indices@[t as int] as int);
                            assert(tup@[j as int]@.len() == srows[j as int].len());
                        }
                        let v = tup[j][indices[t]].clone();
                        let ghost nr0 = newrow;
                        newrow.push(v);
                        proof {
                            assert(newrow@ == nr0@.push(v));
                            assert(v.deep_view() == srows[j as int][pos[t as int]]);
                            assert forall|x: int| 0 <= x < newrow@.len()
                                implies newrow.deep_view()[x] == project_row(
                                srows[j as int],
                                pos,
                            ).take(t as int + 1)[x] by {
                                if x < nr0@.len() {
                                    assert(newrow@[x] == nr0@[x]);
                                    assert(nr0.deep_view()[x] == project_row(
                                        srows[j as int],
                                        pos,
                                    ).take(t as int)[x]);
                                } else {
                                    assert(newrow@[x] == v);
                                }
                            }
                            assert(newrow.deep_view() =~= project_row(srows[j as int], pos).take(
                                t as int + 1,
                            ));
                        }
                        t += 1;
                    }
                    proof {
                        assert(project_row(srows[j as int], pos).take(ni as int) =~= project_row(
                            srows[j as int],
                            pos,
                        ));
                    }
                    let ghost pr0 = projected;
                    projected.push(newrow);
                    proof {
                        assert(projected@ == pr0@.push(newrow));
                        assert forall|x: int| 0 <= x < projected@.len()
                            implies projected.deep_view()[x] == project_rows(srows, pos).take(
                            j as int + 1,
                        )[x] by {
                            if x < pr0@.len() {
                                assert(projected@[x] == pr0@[x]);
                                assert(pr0.deep_view()[x] == project_rows(srows, pos).take(
                                    j as int,
                                )[x]);
                            } else {
                                assert(projected@[x] == newrow);
                            }
                        }
                        assert(projected.deep_view() =~= project_rows(srows, pos).take(
                            j as int + 1,
                        ));
                    }
                    j += 1;
                }
                proof {
                    assert(project_rows(srows, pos).take(nt as int) =~= project_rows(srows, pos));
                }
                let values = dedup_rows(&projected);
                let ghost projd = dedup(project_rows(srows, pos));
                // key propagation: the source key attribute must survive
                let mut new_pk: Option<usize> = None;
                match relation.pk {
                    Option::Some(p) => {
                        proof {
                            assert(schema.len() == relation.schema.attributes@.len());
                        }
                        match find_attr(&sel, &relation.schema.attributes[p]) {
                            Option::Some(q) => {
                                proof {
                                    assert(relation.schema.attributes.deep_view()[p as int]
                                        == schema[p as int]);
                                }
                                new_pk = Some(q);
                            },
                            Option::None => {
                                proof {
                                    assert(!ch.contains(schema[p as int]));
                                }
                            },
                        }
                    },
                    Option::None => {},
                }
                let derived_schema = Schema { attributes: sel };
                let mut derived = match new_pk {
                    Option::Some(q) => Relation {
                        name: "derived".to_owned(),
                        pk: Some(q),
                        schema: derived_schema,
                        data: Data::WithPK(Vec::new()),
                    },
                    Option::None => Relation {
                        name: "derived".to_owned(),
                        pk: None,
                        schema: derived_schema,
                        data: Data::NoPK(Vec::new()),
                    },
                };
                proof {
                    assert(derived.schema@ == ch);
                    assert(derived.data.spec_rows() =~= Seq::<Seq<ValueModel>>::empty());
                    if derived.data is WithPK {
                        assert(derived.data.spec_keys() =~= Seq::<ValueModel>::empty());
                    }
                    if new_pk is Some {
                        ch.index_of_first_ensures(schema[relation.pk->0 as int]);
                    }
                    assert(derived.wf());
                    // every projected row fits the derived schema
                    assert forall|x: int| 0 <= x < project_rows(srows, pos).len()
                        implies row_matches(ch, #[trigger] project_rows(srows, pos)[x]) by {
                        assert(row_matches(schema, srows[x]));
                        assert forall|t: int| 0 <= t < ch.len() implies value_has_type_at(
                            srows[x],
                            pos,
                            schema,
                            ch,
                            t,
                        ) by {
                            assert(schema[pos[t]] == ch[t]);
                        }
                    }
                    lemma_dedup_rows_match(ch, project_rows(srows, pos));
                }
                let ghost derived0 = derived;
                let ok = derived.insert_rows(values);
                proof {
                    broadcast use vstd::seq_lib::group_to_multiset_ensures;
                    broadcast use vstd::multiset::group_multiset_axioms;

                    if derived0.pk is None {
                        assert(ok);
                        assert(derived.data.spec_rows() =~= projd);
                        lemma_dedup_no_duplicates(project_rows(srows, pos));
                    } else {
                        let q = derived0.pk->0 as int;
                        assert(ok == batch_keys(projd, q).no_duplicates());
                        if ok {
                            assert(derived.data.spec_rows().to_multiset()
                                == derived0.data.spec_rows().to_multiset().add(
                                values.deep_view().to_multiset(),
                            ));
                            assert(derived0.data.spec_rows().len() == 0);
                            assert(derived.data.spec_rows().to_multiset()
                                =~= projd.to_multiset());
                        } else {
                            assert(derived.data.spec_rows()
                                =~= Seq::<Seq<ValueModel>>::empty());
                        }
                        lemma_keyed_rows_distinct(derived);
                    }
                }
                Some(derived)
            },
        }
    }
}

/// Position `t` of the row projected from `row` carries the type that the
/// requested chain declares there.
spec fn value_has_type_at(
    row: Seq<ValueModel>,
    pos: Seq<int>,
    schema: Seq<AttributeModel>,
    ch: Seq<AttributeModel>,
    t: int,
) -> bool {
    crate::value::value_has_type(project_row(row, pos)[t], ch[t].atype)
}

/// Applying select-all projection to a relation that itself came from a
/// select-all projection yields the same tuple sequence again: with set
/// semantics, projecting everything is idempotent.
pub proof fn lemma_select_all_twice(src: Relation, once: Option<Relation>, twice: Option<Relation>)
    requires
        projection_post(ProjAttrs::All, src, once),
        once matches Some(d1) ==> projection_post(ProjAttrs::All, d1, twice),
    ensures
        once matches Some(d1) ==> twice matches Some(d2) && d2.data.spec_rows().to_multiset()
            == d1.data.spec_rows().to_multiset(),
{
    if once is Some {
        let d1 = once->0;
        let srows = src.data.spec_rows();
        if src.pk is None {
            assert(d1.pk is None);
            assert(d1.data.spec_rows() == dedup(srows));
            crate::dedup::lemma_dedup_idempotent(srows);
        }
    }
}

/// When the source schema holds no repeated attribute and the requested
/// chain includes the key attribute, the projected rows' key column holds
/// no repeats either: the derived relation then holds every deduplicated
/// projected row, so the batch insert inside projection is owed success.
pub proof fn lemma_projection_keeps_all_rows(src: Relation, ch: Seq<AttributeModel>)
    requires
        src.wf(),
        src.pk is Some,
        src.schema@.no_duplicates(),
        ch.contains(src.schema@[src.pk->0 as int]),
        sel_in_schema(ch, src.schema@),
    ensures
        batch_keys(
            dedup(project_rows(src.data.spec_rows(), positions_of(src.schema@, ch))),
            ch.index_of_first(src.schema@[src.pk->0 as int])->0,
        ).no_duplicates(),
{
    let schema = src.schema@;
    let p = src.pk->0 as int;
    let srows = src.data.spec_rows();
    let pos = positions_of(schema, ch);
    let proj = project_rows(srows, pos);
    let projd = dedup(proj);
    let kattr = schema[p];
    ch.index_of_first_ensures(kattr);
    let q = ch.index_of_first(kattr)->0;
    assert(ch[q] == kattr);
    // the q-th projected column is the source key column
    schema.index_of_first_ensures(ch[q]);
    assert(pos[q] == schema.index_of_first(ch[q])->0);
    let pq = schema.index_of_first(ch[q])->0;
    assert(schema[pq] == kattr);
    assert(pq == p);
    lemma_dedup_no_duplicates(proj);
    let bk = batch_keys(projd, q);
    assert forall|x: int, y: int|
        0 <= x < bk.len() && 0 <= y < bk.len() && x != y implies bk[x] != bk[y] by {
        assert(projd.contains(projd[x]));
        assert(projd.contains(projd[y]));
        lemma_dedup_contains(proj, projd[x]);
        lemma_dedup_contains(proj, projd[y]);
        let a = choose|a: int| 0 <= a < proj.len() && proj[a] == projd[x];
        let b = choose|b: int| 0 <= b < proj.len() && proj[b] == projd[y];
        assert(proj[a] == project_row(srows[a], pos));
        assert(proj[b] == project_row(srows[b], pos));
        assert(projd[x][q] == srows[a][p]);
        assert(projd[y][q] == srows[b][p]);
        assert(src.data.spec_keys()[a] == srows[a][p]);
        assert(src.data.spec_keys()[b] == srows[b][p]);
        assert(projd[x] != projd[y]);
        if bk[x] == bk[y] {
            assert(src.data.spec_keys()[a] == src.data.spec_keys()[b]);
            assert(a == b);
        }
    }
}

/// Binary operators (joins, unions) are declared but not supported:
/// evaluating one yields no result.
#[derive(Debug)]
pub enum BinaryOpr {
    Unsupported,
}

/// A unary operator applied to one source relation.
#[derive(Debug)]
pub enum UnaryOpr<'a> {
    Selection(SelPredicate, &'a Relation),
    Projection(ProjAttrs, &'a Relation),
}

impl UnaryOpr<'_> {
    /// Routes evaluation to the concrete operator: projection executes;
    /// selection is a permanent stub yielding no result.
    pub fn evaluate(&self) -> (res: Option<Relation>)
        requires
            self matches UnaryOpr::Projection(_, rel) ==> rel.wf(),
        ensures
            match self {
                UnaryOpr::Projection(p, rel) => projection_post(*p, **rel, res),
                UnaryOpr::Selection(_, _) => res is None,
            },
    {
        match self {
            UnaryOpr::Projection(p, r) => p.execute(r),
            UnaryOpr::Selection(_, _) => None,
        }
    }
}

/// The root of an operator tree: a unary operator, or a binary one (of
/// which none are supported).
#[derive(Debug)]
pub enum Operator<'a> {
    Unary(UnaryOpr<'a>),
    Binary(BinaryOpr),
}

impl Operator<'_> {
    /// Routes evaluation to the concrete operator; binary operators are
    /// not supported and yield no result.
    pub fn evaluate(&self) -> (res: Option<Relation>)
        requires
            self matches Operator::Unary(u) ==> (u matches UnaryOpr::Projection(_, rel)
                ==> rel.wf()),
        ensures
            match self {
                Operator::Unary(u) => match u {
                    UnaryOpr::Projection(p, rel) => projection_post(*p, **rel, res),
                    UnaryOpr::Selection(_, _) => res is None,
                },
                Operator::Binary(_) => res is None,
            },
    {
        match self {
            Operator::Unary(opr) => opr.evaluate(),
            Operator::Binary(_) => None,
        }
    }
}

} // verus!
