//! The query surface the core hands to the document layer: a builder for
//! simple single-field conditions.
//!
//! Evaluating a query against a document happens in the document layer;
//! the core only fixes what a condition is.

use vstd::prelude::*;
use crate::value::Value;

verus! {

/// How a queried field is compared with a value.
#[derive(Debug, Clone, Copy, PartialEq, Eq, Structural)]
pub enum QueryOperation {
    /// The field equals the value.
    Equals,
    /// The field differs from the value.
    NotEquals,
    /// The field exceeds the value.
    GreaterThan,
    /// The field is below the value.
    LessThan,
}

/// A single-field condition.
#[derive(Debug)]
pub struct SimpleQuery {
    /// The field the condition reads.
    pub field: String,
    /// The comparison applied.
    pub operation: QueryOperation,
    /// The value compared against.
    pub value: Value,
}

/// Builder for conditions over one collection's documents.
#[derive(Debug)]
pub struct QueryBuilder {
    /// The collection the queries will run against.
    pub collection_id: u32,
}

impl QueryBuilder {
    /// A builder for the given collection.
    pub fn new(collection_id: u32) -> (q: QueryBuilder)
        ensures
            q.collection_id == collection_id,
    {
        QueryBuilder { collection_id }
    }

    /// An equality condition on `field`.
    pub fn where_eq(&self, field: String, value: Value) -> (q: SimpleQuery)
        ensures
            q.field@ == field@,
            q.operation == QueryOperation::Equals,
            q.value == value,
    {
        SimpleQuery { field, operation: QueryOperation::Equals, value }
    }
}

} // verus!
