//! How an arriving column maps to a doc-values type. Canonical shapes pass
//! unchanged, lossless conversions are automatic, lossy ones must be asked
//! for in the column's metadata, and anything else is refused before the
//! first row.

use vstd::prelude::*;
use crate::attributes::{looked_up, Attributes};
use crate::error::{Error, ErrorKind, Result};
use crate::meta::{ALLOW_LOSSY, SCALE_FACTOR, VECTOR_SIMILARITY};
use crate::schema::DataType;
use crate::text::same_text;

verus! {

/// How one column maps to doc values.
#[derive(Debug, Clone, Copy, PartialEq, Eq, Structural)]
pub enum NumericCoercion {
    /// `Int64`: stored as it is.
    Passthrough,
    /// Lossless integer widening; booleans as 0 and 1.
    Widen,
    /// `Float64`: its bits.
    FloatBits,
    /// `Float32`: the bits of the `Float64` of the same value.
    Float32Bits,
    /// Times and dates: the count of their unit.
    TemporalI64,
    /// Text to SORTED.
    SortedUtf8,
    /// Text behind `Int32` dictionary keys to SORTED.
    SortedDict,
    /// Byte strings to BINARY.
    Bytes,
    /// Lists of `Int64` to SORTED_NUMERIC.
    MultiNumeric,
    /// Lists of text to SORTED_SET.
    MultiTerms,
    /// `UInt64`, asked for: values above the greatest `i64` wrap to
    /// negative ones.
    U64Lossy,
    /// `Decimal128`, asked for: `round(raw * factor / 10^scale)`.
    DecimalScaled { factor: i64, scale: i8 },
    /// Vectors of `Float32`.
    VectorF32 { dim: i32, similarity: u8 },
}

/// Shapes that a strict job accepts.
pub open spec fn canonical(c: NumericCoercion, dt: DataType) -> bool {
    match c {
        NumericCoercion::Passthrough => true,
        NumericCoercion::FloatBits => true,
        NumericCoercion::SortedDict => true,
        NumericCoercion::Bytes => dt == DataType::Binary,
        NumericCoercion::MultiNumeric => true,
        NumericCoercion::VectorF32 { .. } => true,
        _ => false,
    }
}

impl NumericCoercion {
    /// Whether the shape passes a strict job; every other is a conversion.
    pub fn is_canonical(&self, dt: &DataType) -> (r: bool)
        ensures
            r == canonical(*self, *dt),
    {
        match self {
            NumericCoercion::Passthrough => true,
            NumericCoercion::FloatBits => true,
            NumericCoercion::SortedDict => true,
            NumericCoercion::Bytes => matches!(dt, DataType::Binary),
            NumericCoercion::MultiNumeric => true,
            NumericCoercion::VectorF32 { .. } => true,
            _ => false,
        }
    }

    /// The doc-values byte of the field infos.
    pub open spec fn dv_byte(&self) -> u8 {
        match self {
            NumericCoercion::SortedUtf8 => 3,
            NumericCoercion::SortedDict => 3,
            NumericCoercion::Bytes => 2,
            NumericCoercion::MultiTerms => 4,
            NumericCoercion::MultiNumeric => 5,
            NumericCoercion::VectorF32 { .. } => 0,
            _ => 1,
        }
    }

    pub fn doc_values_byte(&self) -> (r: u8)
        ensures
            r == self.dv_byte(),
    {
        match self {
            NumericCoercion::SortedUtf8 => 3,
            NumericCoercion::SortedDict => 3,
            NumericCoercion::Bytes => 2,
            NumericCoercion::MultiTerms => 4,
            NumericCoercion::MultiNumeric => 5,
            NumericCoercion::VectorF32 { .. } => 0,
            _ => 1,
        }
    }

    /// What the manifest calls the field's type.
    pub open spec fn type_text(&self) -> Seq<char> {
        match self {
            NumericCoercion::SortedUtf8 => "sorted"@,
            NumericCoercion::SortedDict => "sorted"@,
            NumericCoercion::Bytes => "binary"@,
            NumericCoercion::MultiTerms => "sorted_set"@,
            NumericCoercion::MultiNumeric => "sorted_numeric"@,
            NumericCoercion::VectorF32 { .. } => "vector"@,
            _ => "numeric"@,
        }
    }

    pub fn lucene_type(&self) -> (r: &'static str)
        ensures
            r@ == self.type_text(),
    {
        match self {
            NumericCoercion::SortedUtf8 => "sorted",
            NumericCoercion::SortedDict => "sorted",
            NumericCoercion::Bytes => "binary",
            NumericCoercion::MultiTerms => "sorted_set",
            NumericCoercion::MultiNumeric => "sorted_numeric",
            NumericCoercion::VectorF32 { .. } => "vector",
            _ => "numeric",
        }
    }
}

/// One column of an arriving schema.
#[derive(Debug)]
pub struct ColumnSchema {
    pub name: String,
    pub data_type: DataType,
    /// The type as its owner prints it, time zone and all.
    pub printed_type: String,
    pub metadata: Attributes,
}

/// The value of ASCII digits.
pub open spec fn digits_value(s: Seq<u8>) -> nat
    decreases s.len(),
{
    if s.len() == 0 {
        0
    } else {
        10 * digits_value(s.drop_last()) + (s.last() - 48) as nat
    }
}

/// At least one ASCII digit and nothing else.
pub open spec fn all_digits(s: Seq<u8>) -> bool {
    s.len() > 0 && forall|i: int| 0 <= i < s.len() ==> 48 <= #[trigger] s[i] <= 57
}

/// The integer that a text spells: an optional sign, then digits.
pub open spec fn spelled(s: Seq<u8>) -> Option<int> {
    if s.len() > 0 && (s[0] == 43 || s[0] == 45) {
        if all_digits(s.skip(1)) {
            Some(
                if s[0] == 45 {
                    -(digits_value(s.skip(1)) as int)
                } else {
                    digits_value(s.skip(1)) as int
                },
            )
        } else {
            None
        }
    } else if all_digits(s) {
        Some(digits_value(s) as int)
    } else {
        None
    }
}

/// The `i64` that a text spells.
pub open spec fn spelled_i64(s: Seq<u8>) -> Option<i64> {
    match spelled(s) {
        Some(v) => if i64::MIN <= v <= i64::MAX {
            Some(v as i64)
        } else {
            None
        },
        None => None,
    }
}

/// More digits spell a greater number.
proof fn lemma_digits_grow(s: Seq<u8>, i: int)
    requires
        0 <= i <= s.len(),
        forall|k: int| 0 <= k < s.len() ==> 48 <= #[trigger] s[k] <= 57,
    ensures
        digits_value(s.take(i)) <= digits_value(s),
    decreases s.len(),
{
    if i == s.len() {
        assert(s.take(i) =~= s);
    } else {
        lemma_digits_grow(s.drop_last(), i);
        assert(s.drop_last().take(i) =~= s.take(i));
    }
}

/// The value of the digits from `from` on, up to the magnitude of an `i64`.
fn read_digits(s: &[u8], from: usize) -> (r: Option<u64>)
    requires
        from <= s@.len(),
    ensures
        match r {
            Some(v) => all_digits(s@.skip(from as int)) && digits_value(s@.skip(from as int)) == v && v
                <= 0x8000_0000_0000_0000,
            None => all_digits(s@.skip(from as int)) ==> digits_value(s@.skip(from as int)) > 0x8000_0000_0000_0000,
        },
{
    let ghost t = s@.skip(from as int);
    if from == s.len() {
        return None;
    }
    let mut v: u64 = 0;
    let mut i: usize = from;
    assert(t.take(0) =~= Seq::<u8>::empty());
    while i < s.len()
        invariant
            from <= i <= s@.len(),
            t == s@.skip(from as int),
            forall|k: int| 0 <= k < i - from ==> 48 <= #[trigger] t[k] <= 57,
            v == digits_value(t.take(i - from)),
            v <= 0x8000_0000_0000_0000,
        decreases s@.len() - i,
    {
        let c: u8 = s[i];
        assert(c == t[i - from]);
        if c < 48 || c > 57 {
            return None;
        }
        let d: u64 = (c - 48) as u64;
        assert(t.take(i - from + 1).drop_last() =~= t.take(i - from));
        let next: u128 = 10 * (v as u128) + d as u128;
        if next > 0x8000_0000_0000_0000 {
            proof {
                if all_digits(t) {
                    lemma_digits_grow(t, i - from + 1);
                }
            }
            return None;
        }
        v = next as u64;
        i = i + 1;
    }
    assert(t.take(i - from) =~= t);
    Some(v)
}

/// The `i64` that a text spells, if it does.
pub fn parse_i64(text: &str) -> (r: Option<i64>)
    ensures
        r == spelled_i64(vstd::utf8::encode_utf8(text@)),
{
    let s: &[u8] = text.as_bytes();
    if s.len() == 0 {
        return None;
    }
    let negative: bool = s[0] == 45;
    if negative || s[0] == 43 {
        match read_digits(s, 1) {
            None => None,
            Some(v) => if negative {
                Some((-(v as i128)) as i64)
            } else if v == 0x8000_0000_0000_0000 {
                None
            } else {
                Some(v as i64)
            },
        }
    } else {
        assert(s@.skip(0) =~= s@);
        match read_digits(s, 0) {
            None => None,
            Some(v) => if v == 0x8000_0000_0000_0000 {
                None
            } else {
                Some(v as i64)
            },
        }
    }
}

/// The similarity that a name stands for; Euclidean where none is given.
pub open spec fn similarity_of(name: Option<Seq<char>>) -> Option<u8> {
    match name {
        None => Some(0),
        Some(s) => if s == "euclidean"@ {
            Some(0)
        } else if s == "dot_product"@ {
            Some(1)
        } else if s == "cosine"@ {
            Some(2)
        } else if s == "max_inner_product"@ {
            Some(3)
        } else {
            None
        },
    }
}

fn read_similarity(name: Option<&str>) -> (r: Option<u8>)
    ensures
        r == similarity_of(
            match name {
                Some(s) => Some(s@),
                None => None,
            },
        ),
{
    match name {
        None => Some(0),
        Some(s) => if same_text(s, "euclidean") {
            Some(0)
        } else if same_text(s, "dot_product") {
            Some(1)
        } else if same_text(s, "cosine") {
            Some(2)
        } else if same_text(s, "max_inner_product") {
            Some(3)
        } else {
            None
        },
    }
}

/// How a column of some type and metadata is stored; `vectors` says whether
/// vector ingest is built in.
pub open spec fn classified(dt: DataType, md: Seq<(Seq<char>, Seq<char>)>, vectors: bool) -> std::result::Result<
    NumericCoercion,
    ErrorKind,
> {
    match dt {
        DataType::UInt64 => if looked_up(md, ALLOW_LOSSY@) == Some("true"@) {
            Ok(NumericCoercion::U64Lossy)
        } else {
            Err(ErrorKind::InvalidArgument)
        },
        DataType::Decimal128(_, scale) => match looked_up(md, SCALE_FACTOR@) {
            None => Err(ErrorKind::InvalidArgument),
            Some(text) => match spelled_i64(vstd::utf8::encode_utf8(text)) {
                None => Err(ErrorKind::InvalidArgument),
                Some(factor) => Ok(NumericCoercion::DecimalScaled { factor, scale }),
            },
        },
        DataType::Int64 => Ok(NumericCoercion::Passthrough),
        DataType::Int8 => Ok(NumericCoercion::Widen),
        DataType::Int16 => Ok(NumericCoercion::Widen),
        DataType::Int32 => Ok(NumericCoercion::Widen),
        DataType::UInt8 => Ok(NumericCoercion::Widen),
        DataType::UInt16 => Ok(NumericCoercion::Widen),
        DataType::UInt32 => Ok(NumericCoercion::Widen),
        DataType::Boolean => Ok(NumericCoercion::Widen),
        DataType::Float64 => Ok(NumericCoercion::FloatBits),
        DataType::Float32 => Ok(NumericCoercion::Float32Bits),
        DataType::Timestamp(_) => Ok(NumericCoercion::TemporalI64),
        DataType::Date32 => Ok(NumericCoercion::TemporalI64),
        DataType::Date64 => Ok(NumericCoercion::TemporalI64),
        DataType::Time32(_) => Ok(NumericCoercion::TemporalI64),
        DataType::Time64(_) => Ok(NumericCoercion::TemporalI64),
        DataType::Duration(_) => Ok(NumericCoercion::TemporalI64),
        DataType::Utf8 => Ok(NumericCoercion::SortedUtf8),
        DataType::LargeUtf8 => Ok(NumericCoercion::SortedUtf8),
        DataType::Dictionary(k, v) => if *k == DataType::Int32 && *v == DataType::Utf8 {
            Ok(NumericCoercion::SortedDict)
        } else {
            Err(ErrorKind::Unsupported)
        },
        DataType::Binary => Ok(NumericCoercion::Bytes),
        DataType::LargeBinary => Ok(NumericCoercion::Bytes),
        DataType::FixedSizeList(t, dim) => if *t == DataType::Float32 {
            if !vectors {
                Err(ErrorKind::InvalidArgument)
            } else {
                match similarity_of(looked_up(md, VECTOR_SIMILARITY@)) {
                    Some(similarity) => Ok(NumericCoercion::VectorF32 { dim, similarity }),
                    None => Err(ErrorKind::InvalidArgument),
                }
            }
        } else {
            Err(ErrorKind::Unsupported)
        },
        DataType::List(t) => if *t == DataType::Int64 {
            Ok(NumericCoercion::MultiNumeric)
        } else if *t == DataType::Utf8 {
            Ok(NumericCoercion::MultiTerms)
        } else {
            Err(ErrorKind::Unsupported)
        },
        _ => Err(ErrorKind::Unsupported),
    }
}

/// Decides how a column is stored.
pub fn classify(field: &ColumnSchema, vectors: bool) -> (r: Result<NumericCoercion>)
    ensures
        match classified(field.data_type, field.metadata@, vectors) {
            Ok(c) => r == Ok::<NumericCoercion, Error>(c),
            Err(k) => r matches Err(e) && e.kind() == k,
        },
{
    match &field.data_type {
        DataType::UInt64 => {
            let allowed: bool = match field.metadata.get(ALLOW_LOSSY) {
                Some(v) => same_text(v, "true"),
                None => false,
            };
            if allowed {
                Ok(NumericCoercion::U64Lossy)
            } else {
                Err(Error::invalid("UInt64 is lossy: values above i64::MAX need lucene.allow_lossy = \"true\""))
            }
        },
        DataType::Decimal128(_, scale) => {
            let factor: Option<i64> = match field.metadata.get(SCALE_FACTOR) {
                Some(v) => parse_i64(v),
                None => None,
            };
            match factor {
                Some(factor) => Ok(NumericCoercion::DecimalScaled { factor, scale: *scale }),
                None => Err(Error::invalid("Decimal128 is lossy: it needs lucene.scale_factor")),
            }
        },
        DataType::Int64 => Ok(NumericCoercion::Passthrough),
        DataType::Int8 => Ok(NumericCoercion::Widen),
        DataType::Int16 => Ok(NumericCoercion::Widen),
        DataType::Int32 => Ok(NumericCoercion::Widen),
        DataType::UInt8 => Ok(NumericCoercion::Widen),
        DataType::UInt16 => Ok(NumericCoercion::Widen),
        DataType::UInt32 => Ok(NumericCoercion::Widen),
        DataType::Boolean => Ok(NumericCoercion::Widen),
        DataType::Float64 => Ok(NumericCoercion::FloatBits),
        DataType::Float32 => Ok(NumericCoercion::Float32Bits),
        DataType::Timestamp(_) => Ok(NumericCoercion::TemporalI64),
        DataType::Date32 => Ok(NumericCoercion::TemporalI64),
        DataType::Date64 => Ok(NumericCoercion::TemporalI64),
        DataType::Time32(_) => Ok(NumericCoercion::TemporalI64),
        DataType::Time64(_) => Ok(NumericCoercion::TemporalI64),
        DataType::Duration(_) => Ok(NumericCoercion::TemporalI64),
        DataType::Utf8 => Ok(NumericCoercion::SortedUtf8),
        DataType::LargeUtf8 => Ok(NumericCoercion::SortedUtf8),
        DataType::Dictionary(k, v) => match (&**k, &**v) {
            (DataType::Int32, DataType::Utf8) => Ok(NumericCoercion::SortedDict),
            _ => Err(no_mapping()),
        },
        DataType::Binary => Ok(NumericCoercion::Bytes),
        DataType::LargeBinary => Ok(NumericCoercion::Bytes),
        DataType::FixedSizeList(t, dim) => match &**t {
            DataType::Float32 => if !vectors {
                Err(Error::invalid("vector ingest is not built in"))
            } else {
                match read_similarity(field.metadata.get(VECTOR_SIMILARITY)) {
                    Some(similarity) => Ok(NumericCoercion::VectorF32 { dim: *dim, similarity }),
                    None => Err(Error::invalid("unknown lucene.vector.similarity")),
                }
            },
            _ => Err(no_mapping()),
        },
        DataType::List(t) => match &**t {
            DataType::Int64 => Ok(NumericCoercion::MultiNumeric),
            DataType::Utf8 => Ok(NumericCoercion::MultiTerms),
            _ => Err(no_mapping()),
        },
        _ => Err(no_mapping()),
    }
}

fn no_mapping() -> (e: Error)
    ensures
        e.kind() == ErrorKind::Unsupported,
{
    Error::unsupported("no doc-values mapping for the column's type")
}

} // verus!
