//! A small relational-algebra core: typed rows validated against a schema,
//! keyed or surrogate tuple storage, relations with an atomic batch-insert
//! protocol, and a projection operator that derives new relations.

use vstd::prelude::*;

pub mod dedup;
pub mod order;
pub mod query;
pub mod relation;
pub mod schema;
pub mod storage;
pub mod value;

pub use query::BinaryOpr;
pub use query::Comp;
pub use query::Connective;
pub use query::Operator;
pub use query::ProjAttrs;
pub use query::SelPredicate;
pub use query::UnaryOpr;
pub use relation::Relation;
pub use schema::Attribute;
pub use schema::Schema;
pub use storage::Data;
pub use value::Row;
pub use value::Type;
pub use value::Value;

verus! {

/// Adds two unsigned numbers; the caller keeps the sum within machine range.
pub fn add(left: u64, right: u64) -> (r: u64)
    requires
        left + right <= u64::MAX,
    ensures
        r == left + right,
{
    left + right
}

} // verus!
