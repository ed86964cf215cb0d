//! Column types.

use vstd::prelude::*;

verus! {

#[derive(Debug, Clone, Copy, PartialEq, Eq, Structural)]
pub enum TimeUnit {
    Second,
    Millisecond,
    Microsecond,
    Nanosecond,
}

/// The type of a column, or of the items in one.
///
/// Field names and metadata of nested types are not kept: items of a list
/// are always called `item`.
#[derive(Debug)]
pub enum DataType {
    Boolean,
    Int8,
    Int16,
    Int32,
    Int64,
    UInt8,
    UInt16,
    UInt32,
    UInt64,
    Float16,
    Float32,
    Float64,
    Timestamp(TimeUnit),
    Date32,
    Date64,
    Time32(TimeUnit),
    Time64(TimeUnit),
    Duration(TimeUnit),
    Decimal128(u8, i8),
    Utf8,
    LargeUtf8,
    Binary,
    LargeBinary,
    /// Key type, value type.
    Dictionary(Box<DataType>, Box<DataType>),
    List(Box<DataType>),
    FixedSizeList(Box<DataType>, i32),
    /// Any type that nothing here works on.
    Other,
}

impl DataType {
    /// A second value of the same type.
    pub fn duplicate(&self) -> (r: DataType)
        ensures
            r == *self,
        decreases self,
    {
        match self {
            DataType::Boolean => DataType::Boolean,
            DataType::Int8 => DataType::Int8,
            DataType::Int16 => DataType::Int16,
            DataType::Int32 => DataType::Int32,
            DataType::Int64 => DataType::Int64,
            DataType::UInt8 => DataType::UInt8,
            DataType::UInt16 => DataType::UInt16,
            DataType::UInt32 => DataType::UInt32,
            DataType::UInt64 => DataType::UInt64,
            DataType::Float16 => DataType::Float16,
            DataType::Float32 => DataType::Float32,
            DataType::Float64 => DataType::Float64,
            DataType::Timestamp(u) => DataType::Timestamp(*u),
            DataType::Date32 => DataType::Date32,
            DataType::Date64 => DataType::Date64,
            DataType::Time32(u) => DataType::Time32(*u),
            DataType::Time64(u) => DataType::Time64(*u),
            DataType::Duration(u) => DataType::Duration(*u),
            DataType::Decimal128(p, s) => DataType::Decimal128(*p, *s),
            DataType::Utf8 => DataType::Utf8,
            DataType::LargeUtf8 => DataType::LargeUtf8,
            DataType::Binary => DataType::Binary,
            DataType::LargeBinary => DataType::LargeBinary,
            DataType::Dictionary(k, v) => DataType::Dictionary(Box::new(k.duplicate()), Box::new(v.duplicate())),
            DataType::List(t) => DataType::List(Box::new(t.duplicate())),
            DataType::FixedSizeList(t, n) => DataType::FixedSizeList(Box::new(t.duplicate()), *n),
            DataType::Other => DataType::Other,
        }
    }

    /// Whether two types are equal.
    pub fn same(&self, other: &DataType) -> (r: bool)
        ensures
            r == (*self == *other),
        decreases self,
    {
        match (self, other) {
            (DataType::Boolean, DataType::Boolean) => true,
            (DataType::Int8, DataType::Int8) => true,
            (DataType::Int16, DataType::Int16) => true,
            (DataType::Int32, DataType::Int32) => true,
            (DataType::Int64, DataType::Int64) => true,
            (DataType::UInt8, DataType::UInt8) => true,
            (DataType::UInt16, DataType::UInt16) => true,
            (DataType::UInt32, DataType::UInt32) => true,
            (DataType::UInt64, DataType::UInt64) => true,
            (DataType::Float16, DataType::Float16) => true,
            (DataType::Float32, DataType::Float32) => true,
            (DataType::Float64, DataType::Float64) => true,
            (DataType::Date32, DataType::Date32) => true,
            (DataType::Date64, DataType::Date64) => true,
            (DataType::Utf8, DataType::Utf8) => true,
            (DataType::LargeUtf8, DataType::LargeUtf8) => true,
            (DataType::Binary, DataType::Binary) => true,
            (DataType::LargeBinary, DataType::LargeBinary) => true,
            (DataType::Other, DataType::Other) => true,
            (DataType::Timestamp(a), DataType::Timestamp(b)) => *a == *b,
            (DataType::Time32(a), DataType::Time32(b)) => *a == *b,
            (DataType::Time64(a), DataType::Time64(b)) => *a == *b,
            (DataType::Duration(a), DataType::Duration(b)) => *a == *b,
            (DataType::Decimal128(p, s), DataType::Decimal128(q, t)) => *p == *q && *s == *t,
            (DataType::Dictionary(k, v), DataType::Dictionary(l, w)) => k.same(&**l) && v.same(&**w),
            (DataType::List(a), DataType::List(b)) => a.same(&**b),
            (DataType::FixedSizeList(a, n), DataType::FixedSizeList(b, m)) => a.same(&**b) && *n == *m,
            _ => false,
        }
    }
}

} // verus!
