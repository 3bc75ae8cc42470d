//! Typed metadata: a tagged value plus a (key, value) entry.
//!
//! The two numeric variants carry IEEE-754 bit patterns (`u32` for the
//! 32-bit float), so values round-trip through persistence bit-exactly and
//! every site that consumes a value matches exhaustively on plain data.

use vstd::prelude::*;
use vstd::string::StrSliceExecFns;

verus! {

/// A UTC instant at nanosecond precision: seconds since the Unix epoch plus
/// the sub-second nanoseconds.
#[derive(Clone, Copy, Debug, PartialEq, Eq, Structural)]
pub struct Timestamp {
    pub secs: i64,
    pub nanos: u32,
}

/// The closed set of metadata value kinds.
#[derive(Clone, Debug)]
pub enum MetadataValue {
    /// A 32-bit signed integer.
    Integer(i32),
    /// The IEEE-754 bit pattern of a 32-bit float.
    Float(u32),
    /// A UTF-8 string.
    String(String),
    /// A boolean.
    Bool(bool),
    /// A UTC instant.
    DateTime(Timestamp),
}

/// The mathematical shape of a `MetadataValue`.
#[verifier::ext_equal]
pub enum ValueModel {
    Integer(i32),
    Float(u32),
    String(Seq<char>),
    Bool(bool),
    DateTime(i64, u32),
}

impl View for MetadataValue {
    type V = ValueModel;

    open spec fn view(&self) -> ValueModel {
        match self {
            MetadataValue::Integer(v) => ValueModel::Integer(*v),
            MetadataValue::Float(bits) => ValueModel::Float(*bits),
            MetadataValue::String(s) => ValueModel::String(s@),
            MetadataValue::Bool(b) => ValueModel::Bool(*b),
            MetadataValue::DateTime(t) => ValueModel::DateTime(t.secs, t.nanos),
        }
    }
}

/// The canonical weight of a value for cache-budget estimation: the string
/// length for strings, a fixed size for each scalar kind. An estimate, not
/// a serialized size.
pub open spec fn spec_value_weight(v: ValueModel) -> nat {
    match v {
        ValueModel::Integer(_) => 4,
        ValueModel::Float(_) => 4,
        ValueModel::String(s) => s.len(),
        ValueModel::Bool(_) => 1,
        ValueModel::DateTime(_, _) => 12,
    }
}

impl MetadataValue {
    /// The cache-budget weight of this value.
    pub fn weight(&self) -> (r: usize)
        ensures
            r == spec_value_weight(self@),
    {
        match self {
            MetadataValue::Integer(_) => 4,
            MetadataValue::Float(_) => 4,
            MetadataValue::String(s) => s.as_str().unicode_len(),
            MetadataValue::Bool(_) => 1,
            MetadataValue::DateTime(_) => 12,
        }
    }

    /// The name of this value's kind, as reported by schema introspection.
    pub fn kind_name(&self) -> (r: &'static str)
        ensures
            r@ == spec_kind_name(self@),
    {
        match self {
            MetadataValue::Integer(_) => "Integer",
            MetadataValue::Float(_) => "Float",
            MetadataValue::String(_) => "String",
            MetadataValue::Bool(_) => "Bool",
            MetadataValue::DateTime(_) => "DateTime",
        }
    }
}

pub open spec fn spec_kind_name(v: ValueModel) -> Seq<char> {
    match v {
        ValueModel::Integer(_) => "Integer"@,
        ValueModel::Float(_) => "Float"@,
        ValueModel::String(_) => "String"@,
        ValueModel::Bool(_) => "Bool"@,
        ValueModel::DateTime(_, _) => "DateTime"@,
    }
}

/// One metadata pair. Keys need not be unique within a record; order is
/// insertion order and is preserved on disk.
#[derive(Clone, Debug)]
pub struct MetadataEntry {
    pub key: String,
    pub value: MetadataValue,
}

/// The mathematical shape of a `MetadataEntry`.
#[verifier::ext_equal]
pub struct EntryModel {
    pub key: Seq<char>,
    pub value: ValueModel,
}

impl View for MetadataEntry {
    type V = EntryModel;

    open spec fn view(&self) -> EntryModel {
        EntryModel { key: self.key@, value: self.value@ }
    }
}

impl MetadataEntry {
    pub fn new(key: String, value: MetadataValue) -> (r: Self)
        ensures
            r@.key == key@,
            r@.value == value@,
    {
        MetadataEntry { key, value }
    }

    pub fn key(&self) -> (r: &str)
        ensures
            r@ == self@.key,
    {
        self.key.as_str()
    }

    pub fn value(&self) -> (r: &MetadataValue)
        ensures
            r@ == self@.value,
    {
        &self.value
    }
}

/// The cache-budget estimate of one entry: key length plus the value's
/// canonical weight.
pub open spec fn spec_entry_weight(e: EntryModel) -> nat {
    e.key.len() + spec_value_weight(e.value)
}

} // verus!
