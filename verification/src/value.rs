use vstd::prelude::*;

verus! {

/// Column type tag: each attribute of a schema declares one.
#[derive(Debug, Clone, Copy, PartialEq, Eq, Structural)]
pub enum Type {
    Str,
    Int,
}

/// A stored scalar: text or a 64-bit signed integer. There is no coercion
/// between the two variants.
#[derive(Debug, Eq, PartialOrd, Ord, Hash)]
pub enum Value {
    Str(String),
    Int(i64),
}

/// A row is an ordered, fixed-arity sequence of values; its shape is given
/// by the owning relation's schema.
pub type Row = Vec<Value>;

/// The mathematical content of a `Value`: text as its character sequence,
/// an integer as an unbounded one.
#[verifier::ext_equal]
pub enum ValueModel {
    Str(Seq<char>),
    Int(int),
}

impl View for Value {
    type V = ValueModel;

    open spec fn view(&self) -> ValueModel {
        match self {
            Value::Str(s) => ValueModel::Str(s@),
            Value::Int(i) => ValueModel::Int(*i as int),
        }
    }
}

impl DeepView for Value {
    type V = ValueModel;

    open spec fn deep_view(&self) -> ValueModel {
        self.view()
    }
}

impl PartialEq for Value {
    fn eq(&self, other: &Self) -> (r: bool) {
        match (self, other) {
            (Value::Str(a), Value::Str(b)) => *a == *b,
            (Value::Int(a), Value::Int(b)) => *a == *b,
            _ => false,
        }
    }
}

impl vstd::std_specs::cmp::PartialEqSpecImpl for Value {
    open spec fn obeys_eq_spec() -> bool {
        true
    }

    open spec fn eq_spec(&self, other: &Self) -> bool {
        self@ == other@
    }
}

impl Clone for Value {
    /// A clone carries the same abstract value.
    fn clone(&self) -> (r: Self)
        ensures
            r == *self,
    {
        match self {
            Value::Str(s) => Value::Str(s.clone()),
            Value::Int(i) => Value::Int(*i),
        }
    }
}

/// Whether a value's variant matches a declared column type.
pub open spec fn value_has_type(v: ValueModel, t: Type) -> bool {
    match v {
        ValueModel::Str(_) => t is Str,
        ValueModel::Int(_) => t is Int,
    }
}

impl Type {
    /// Whether `v` carries this type's variant: `Str` accepts only text,
    /// `Int` only integers.
    pub fn matches(&self, v: &Value) -> (r: bool)
        ensures
            r == value_has_type(v@, *self),
    {
        match (self, v) {
            (Type::Str, Value::Str(_)) => true,
            (Type::Int, Value::Int(_)) => true,
            _ => false,
        }
    }
}

/// Two rows have the same model exactly when they agree in length and,
/// position by position, in the value's abstract content.
pub proof fn lemma_row_view_eq(a: Vec<Value>, b: Vec<Value>)
    ensures
        (a.deep_view() == b.deep_view()) <==> (a@.len() == b@.len() && (forall|i: int|
            0 <= i < a@.len() ==> a@[i]@ == b@[i]@)),
{
    if a@.len() == b@.len() && (forall|i: int| 0 <= i < a@.len() ==> a@[i]@ == b@[i]@) {
        assert(a.deep_view() =~= b.deep_view());
    }
    if a.deep_view() == b.deep_view() {
        assert(a.deep_view().len() == a@.len());
        assert(b.deep_view().len() == b@.len());
        assert(a@.len() == b@.len());
        assert forall|i: int| 0 <= i < a@.len() implies a@[i]@ == b@[i]@ by {
            assert(a.deep_view()[i] == b.deep_view()[i]);
        }
    }
}

} // verus!
