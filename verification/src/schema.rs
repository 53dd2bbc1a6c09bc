use vstd::prelude::*;

use crate::value::Row;
use crate::value::Type;
use crate::value::ValueModel;
use crate::value::value_has_type;

verus! {

/// A named, typed column of a schema. Two attributes are the same exactly
/// when both name and type match.
#[derive(Debug)]
pub struct Attribute {
    pub name: String,
    pub atype: Type,
}

/// The mathematical content of an `Attribute`.
#[verifier::ext_equal]
pub struct AttributeModel {
    pub name: Seq<char>,
    pub atype: Type,
}

impl View for Attribute {
    type V = AttributeModel;

    open spec fn view(&self) -> AttributeModel {
        AttributeModel { name: self.name@, atype: self.atype }
    }
}

impl DeepView for Attribute {
    type V = AttributeModel;

    open spec fn deep_view(&self) -> AttributeModel {
        self.view()
    }
}

impl PartialEq for Attribute {
    fn eq(&self, other: &Self) -> (r: bool) {
        self.name == other.name && self.atype == other.atype
    }
}

impl vstd::std_specs::cmp::PartialEqSpecImpl for Attribute {
    open spec fn obeys_eq_spec() -> bool {
        true
    }

    open spec fn eq_spec(&self, other: &Self) -> bool {
        self@ == other@
    }
}

impl Clone for Attribute {
    /// A clone carries the same name and type.
    fn clone(&self) -> (r: Self)
        ensures
            r == *self,
    {
        Attribute { name: self.name.clone(), atype: self.atype }
    }
}

/// An ordered list of attributes; the order defines the shape of every row
/// of a relation that carries this schema.
#[derive(Debug)]
pub struct Schema {
    pub attributes: Vec<Attribute>,
}

impl View for Schema {
    type V = Seq<AttributeModel>;

    open spec fn view(&self) -> Seq<AttributeModel> {
        self.attributes.deep_view()
    }
}

impl Clone for Schema {
    /// A clone carries the same attribute list.
    fn clone(&self) -> (r: Self)
        ensures
            r@ == self@,
    {
        let attributes = self.attributes.clone();
        proof {
            assert(attributes@ =~= self.attributes@);
            assert(attributes.deep_view() =~= self.attributes.deep_view());
        }
        Schema { attributes }
    }
}

/// A row fits a schema exactly when it has the schema's arity and, at every
/// position, a value of the declared type.
pub open spec fn row_matches(schema: Seq<AttributeModel>, row: Seq<ValueModel>) -> bool {
    &&& row.len() == schema.len()
    &&& forall|i: int| 0 <= i < row.len() ==> value_has_type(#[trigger] row[i], schema[i].atype)
}

/// Every row of the batch fits the schema.
pub open spec fn rows_all_match(schema: Seq<AttributeModel>, rows: Seq<Seq<ValueModel>>) -> bool {
    forall|j: int| 0 <= j < rows.len() ==> row_matches(schema, #[trigger] rows[j])
}

impl Schema {
    /// Decides whether `row` fits this schema: true exactly when the arity
    /// matches and every position's value carries the declared type.
    pub fn validate_row(&self, row: &Row) -> (r: bool)
        ensures
            r == row_matches(self@, row.deep_view()),
    {
        if row.len() != self.attributes.len() {
            return false;
        }
        let n = row.len();
        let mut i: usize = 0;
        while i < n
            invariant
                n == row.len() == self.attributes.len(),
                0 <= i <= n,
                forall|j: int| 0 <= j < i ==> value_has_type(#[trigger] row.deep_view()[j], self@[j].atype),
            decreases n - i,
        {
            if !self.attributes[i].atype.matches(&row[i]) {
                assert(!value_has_type(row.deep_view()[i as int], self@[i as int].atype));
                return false;
            }
            i += 1;
        }
        true
    }
}

} // verus!
