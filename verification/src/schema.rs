//! Schema definitions: field types, fields and the schema a collection
//! enforces on its documents.
//!
//! Document validation itself lives with the document layer outside the
//! core; the core contributes the type system and the per-value check.

use vstd::prelude::*;
use crate::value::Value;

verus! {

/// The type a schema field may take.
#[derive(Debug, Clone, Copy, PartialEq, Eq, Structural)]
pub enum FieldType {
    /// One unsigned byte.
    Byte,
    /// A 16-bit signed integer.
    Short,
    /// A 32-bit signed integer.
    Int,
    /// A 64-bit signed integer.
    Long,
    /// A 32-bit IEEE 754 number.
    Float,
    /// A 64-bit IEEE 754 number.
    Double,
    /// A string of at most 255 UTF-8 bytes.
    String,
    /// A truth value.
    Boolean,
}

/// Whether `value`'s variant is the one `field_type` prescribes.
pub open spec fn validates_spec(field_type: FieldType, value: Value) -> bool {
    match (field_type, value) {
        (FieldType::Byte, Value::Byte(_)) => true,
        (FieldType::Short, Value::Short(_)) => true,
        (FieldType::Int, Value::Int(_)) => true,
        (FieldType::Long, Value::Long(_)) => true,
        (FieldType::Float, Value::Float(_)) => true,
        (FieldType::Double, Value::Double(_)) => true,
        (FieldType::String, Value::Str(_)) => true,
        (FieldType::Boolean, Value::Boolean(_)) => true,
        _ => false,
    }
}

impl FieldType {
    /// Whether `value` carries this field type.
    pub fn validates(&self, value: &Value) -> (r: bool)
        ensures
            r == validates_spec(*self, *value),
    {
        match (self, value) {
            (FieldType::Byte, Value::Byte(_)) => true,
            (FieldType::Short, Value::Short(_)) => true,
            (FieldType::Int, Value::Int(_)) => true,
            (FieldType::Long, Value::Long(_)) => true,
            (FieldType::Float, Value::Float(_)) => true,
            (FieldType::Double, Value::Double(_)) => true,
            (FieldType::String, Value::Str(_)) => true,
            (FieldType::Boolean, Value::Boolean(_)) => true,
            _ => false,
        }
    }
}

/// One named, typed field of a schema.
#[derive(Debug, Clone)]
pub struct Field {
    /// The field's name.
    pub name: String,
    /// The type its values must carry.
    pub field_type: FieldType,
    /// Whether a document may omit the field.
    pub nullable: bool,
}

/// A named collection schema: an ordered list of fields.
#[derive(Debug, Clone)]
pub struct Schema {
    /// The schema's name.
    pub name: String,
    /// The fields, in declaration order.
    pub fields: Vec<Field>,
}

impl Schema {
    /// A schema over the given fields.
    pub fn new(name: String, fields: Vec<Field>) -> (s: Schema)
        ensures
            s.name@ == name@,
            s.fields@ == fields@,
    {
        Schema { name, fields }
    }
}

} // verus!
