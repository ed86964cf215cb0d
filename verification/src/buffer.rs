//! Columns of arriving rows, and the buffers that collect them until a
//! segment is cut.

use vstd::prelude::*;
use vstd::arithmetic::div_mod::{lemma_fundamental_div_mod, lemma_mod_bound};
use vstd::arithmetic::power::{lemma_pow_increases, lemma_pow_positive, pow};
use crate::bytes::copy_of;
use crate::coercion::NumericCoercion;
use crate::disi::strictly_increasing;
use crate::encode::{doc_terms, lists, term_lists};
use crate::error::{Error, ErrorKind, Result};
use crate::ieee::{widen, widened};
use crate::schema::{DataType, TimeUnit};

verus! {

/// The values of a column, one cell per row. Floats are held as their bits,
/// text as its UTF-8 bytes.
#[derive(Debug)]
pub enum Cells {
    Bool(Vec<Option<bool>>),
    I8(Vec<Option<i8>>),
    I16(Vec<Option<i16>>),
    I32(Vec<Option<i32>>),
    I64(Vec<Option<i64>>),
    U8(Vec<Option<u8>>),
    U16(Vec<Option<u16>>),
    U32(Vec<Option<u32>>),
    U64(Vec<Option<u64>>),
    F32(Vec<Option<u32>>),
    F64(Vec<Option<u64>>),
    Decimal(Vec<Option<i128>>),
    Text(Vec<Option<Vec<u8>>>),
    Dict { keys: Vec<Option<i32>>, values: Vec<Vec<u8>> },
    Bytes(Vec<Option<Vec<u8>>>),
    Longs(Vec<Option<Vec<i64>>>),
    Texts(Vec<Option<Vec<Vec<u8>>>>),
    Vectors(Vec<Option<Vec<u32>>>),
}

/// One column of a batch.
#[derive(Debug)]
pub struct Column {
    pub name: String,
    pub data_type: DataType,
    pub cells: Cells,
}

/// `raw * factor / 10^scale`, rounded half away from zero.
pub open spec fn scaled_decimal(raw: int, factor: int, scale: nat) -> int {
    let n = raw * factor;
    let d = pow(10, scale);
    if n >= 0 {
        (n + d / 2) / d
    } else {
        -((-n + d / 2) / d)
    }
}

/// A scale and a value for which the rounding stays in range.
pub open spec fn decimal_in_range(raw: int, factor: int, scale: int) -> bool {
    &&& 0 <= scale <= 38
    &&& i128::MIN <= raw * factor - pow(10, scale as nat) / 2
    &&& raw * factor + pow(10, scale as nat) / 2 <= i128::MAX
}

/// Rows of a column.
pub open spec fn row_count(c: Cells) -> nat {
    match c {
        Cells::Bool(v) => v@.len(),
        Cells::I8(v) => v@.len(),
        Cells::I16(v) => v@.len(),
        Cells::I32(v) => v@.len(),
        Cells::I64(v) => v@.len(),
        Cells::U8(v) => v@.len(),
        Cells::U16(v) => v@.len(),
        Cells::U32(v) => v@.len(),
        Cells::U64(v) => v@.len(),
        Cells::F32(v) => v@.len(),
        Cells::F64(v) => v@.len(),
        Cells::Decimal(v) => v@.len(),
        Cells::Text(v) => v@.len(),
        Cells::Dict { keys, .. } => keys@.len(),
        Cells::Bytes(v) => v@.len(),
        Cells::Longs(v) => v@.len(),
        Cells::Texts(v) => v@.len(),
        Cells::Vectors(v) => v@.len(),
    }
}

/// The number that a cell of a numeric column is stored as.
pub open spec fn number_in(c: NumericCoercion, cells: Cells, i: int) -> Option<i64> {
    match cells {
        Cells::Bool(v) => match v@[i] {
            Some(x) => Some(
                if x {
                    1i64
                } else {
                    0i64
                },
            ),
            None => None,
        },
        Cells::I8(v) => match v@[i] {
            Some(x) => Some(x as i64),
            None => None,
        },
        Cells::I16(v) => match v@[i] {
            Some(x) => Some(x as i64),
            None => None,
        },
        Cells::I32(v) => match v@[i] {
            Some(x) => Some(x as i64),
            None => None,
        },
        Cells::I64(v) => v@[i],
        Cells::U8(v) => match v@[i] {
            Some(x) => Some(x as i64),
            None => None,
        },
        Cells::U16(v) => match v@[i] {
            Some(x) => Some(x as i64),
            None => None,
        },
        Cells::U32(v) => match v@[i] {
            Some(x) => Some(x as i64),
            None => None,
        },
        Cells::U64(v) => match v@[i] {
            Some(x) => Some(x as i64),
            None => None,
        },
        Cells::F32(v) => match v@[i] {
            Some(x) => Some((widened(x) as u64) as i64),
            None => None,
        },
        Cells::F64(v) => match v@[i] {
            Some(x) => Some(x as i64),
            None => None,
        },
        Cells::Decimal(v) => match v@[i] {
            Some(x) => match c {
                NumericCoercion::DecimalScaled { factor, scale } => Some(
                    scaled_decimal(x as int, factor as int, scale as nat) as i64,
                ),
                _ => None,
            },
            None => None,
        },
        _ => None,
    }
}

/// Whether cells of a type of time or date are numbers of that type.
pub open spec fn temporal_outcome(dt: DataType, cells: Cells) -> std::result::Result<(), ErrorKind> {
    let long = match dt {
        DataType::Timestamp(_) => true,
        DataType::Date64 => true,
        DataType::Time64(u) => u == TimeUnit::Microsecond || u == TimeUnit::Nanosecond,
        DataType::Duration(_) => true,
        _ => false,
    };
    let short = match dt {
        DataType::Date32 => true,
        DataType::Time32(u) => u == TimeUnit::Second || u == TimeUnit::Millisecond,
        _ => false,
    };
    if !long && !short {
        Err(ErrorKind::Unsupported)
    } else if (long && cells is I64) || (short && cells is I32) {
        Ok(())
    } else {
        Err(ErrorKind::InvalidArgument)
    }
}

/// Whether a numeric coercion accepts a column.
pub open spec fn number_outcome(c: NumericCoercion, dt: DataType, cells: Cells) -> std::result::Result<(), ErrorKind> {
    let accepted = match c {
        NumericCoercion::Passthrough => cells is I64,
        NumericCoercion::Widen => cells is Bool || cells is I8 || cells is I16 || cells is I32 || cells is U8
            || cells is U16 || cells is U32,
        NumericCoercion::U64Lossy => cells is U64,
        NumericCoercion::DecimalScaled { .. } => cells is Decimal,
        NumericCoercion::FloatBits => cells is F64,
        NumericCoercion::Float32Bits => cells is F32,
        _ => false,
    };
    if c == NumericCoercion::TemporalI64 {
        temporal_outcome(dt, cells)
    } else if accepted {
        Ok(())
    } else {
        Err(ErrorKind::InvalidArgument)
    }
}

/// The documents with a value among the first `n` rows, the first row being
/// document `base`.
pub open spec fn kept_docs<T>(cells: Seq<Option<T>>, base: nat, n: nat) -> Seq<u32>
    decreases n,
{
    if n == 0 {
        Seq::empty()
    } else {
        let before = kept_docs(cells, base, (n - 1) as nat);
        if cells[n - 1] is Some {
            before.push((base + n - 1) as u32)
        } else {
            before
        }
    }
}

/// The values among the first `n` rows.
pub open spec fn kept_values<T>(cells: Seq<Option<T>>, n: nat) -> Seq<T>
    decreases n,
{
    if n == 0 {
        Seq::empty()
    } else {
        let before = kept_values(cells, (n - 1) as nat);
        match cells[n - 1] {
            Some(v) => before.push(v),
            None => before,
        }
    }
}

/// All items of the first `n` lists, in order.
pub open spec fn all_items(lists: Seq<Seq<u32>>, n: nat) -> Seq<u32>
    decreases n,
{
    if n == 0 {
        Seq::empty()
    } else {
        all_items(lists, (n - 1) as nat) + lists[n - 1]
    }
}

/// The numbers of a numeric column.
pub open spec fn numbers(c: NumericCoercion, cells: Cells) -> Seq<Option<i64>> {
    Seq::new(row_count(cells), |i: int| number_in(c, cells, i))
}

/// Cells of byte strings as mathematical values.
pub open spec fn byte_cells(v: Seq<Option<Vec<u8>>>) -> Seq<Option<Seq<u8>>> {
    Seq::new(
        v.len(),
        |i: int|
            match v[i] {
                Some(x) => Some(x@),
                None => None,
            },
    )
}

/// Dictionary keys, looked up.
pub open spec fn dict_cells(keys: Seq<Option<i32>>, values: Seq<Vec<u8>>) -> Seq<Option<Seq<u8>>> {
    Seq::new(
        keys.len(),
        |i: int|
            match keys[i] {
                Some(k) => Some(values[k as int]@),
                None => None,
            },
    )
}

/// Lists of numbers; an empty one is an absent field.
pub open spec fn long_cells(v: Seq<Option<Vec<i64>>>) -> Seq<Option<Seq<i64>>> {
    Seq::new(
        v.len(),
        |i: int|
            match v[i] {
                Some(x) => if x@.len() == 0 {
                    None
                } else {
                    Some(x@)
                },
                None => None,
            },
    )
}

/// Byte strings as mathematical values.
pub open spec fn texts(v: Seq<Vec<u8>>) -> Seq<Seq<u8>> {
    Seq::new(v.len(), |i: int| v[i]@)
}

/// Lists of texts; an empty one is an absent field.
pub open spec fn text_cells(v: Seq<Option<Vec<Vec<u8>>>>) -> Seq<Option<Seq<Seq<u8>>>> {
    Seq::new(
        v.len(),
        |i: int|
            match v[i] {
                Some(x) => if x@.len() == 0 {
                    None
                } else {
                    Some(doc_terms(x))
                },
                None => None,
            },
    )
}

/// Vectors as mathematical values.
pub open spec fn vector_cells(v: Seq<Option<Vec<u32>>>) -> Seq<Option<Seq<u32>>> {
    Seq::new(
        v.len(),
        |i: int|
            match v[i] {
                Some(x) => Some(x@),
                None => None,
            },
    )
}

/// Values that a column may hold: dictionary keys have an entry, and
/// decimals stay in range when scaled.
pub open spec fn cells_in_range(c: NumericCoercion, cells: Cells) -> bool {
    match cells {
        Cells::Dict { keys, values } => forall|i: int|
            0 <= i < keys@.len() && (#[trigger] keys@[i]) is Some ==> 0 <= keys@[i]->0 < values@.len(),
        Cells::Decimal(v) => match c {
            NumericCoercion::DecimalScaled { factor, scale } => forall|i: int|
                0 <= i < v@.len() && (#[trigger] v@[i]) is Some ==> decimal_in_range(
                    v@[i]->0 as int,
                    factor as int,
                    scale as int,
                ),
            _ => true,
        },
        _ => true,
    }
}

/// What was collected of a column for the segment being built.
#[derive(Debug)]
#[allow(inconsistent_fields)]
pub enum ColBuffer {
    Numeric { docs: Vec<u32>, values: Vec<i64> },
    Vectors { docs: Vec<u32>, data: Vec<u32> },
    Sorted { docs: Vec<u32>, terms: Vec<Vec<u8>> },
    Bytes { docs: Vec<u32>, values: Vec<Vec<u8>> },
    MultiNumeric { docs: Vec<u32>, values: Vec<Vec<i64>> },
    MultiTerms { docs: Vec<u32>, terms: Vec<Vec<Vec<u8>>> },
}

/// A buffer as mathematical values.
#[allow(inconsistent_fields)]
pub enum BufferModel {
    Numeric { docs: Seq<u32>, values: Seq<i64> },
    Vectors { docs: Seq<u32>, data: Seq<u32> },
    Sorted { docs: Seq<u32>, terms: Seq<Seq<u8>> },
    Bytes { docs: Seq<u32>, values: Seq<Seq<u8>> },
    MultiNumeric { docs: Seq<u32>, values: Seq<Seq<i64>> },
    MultiTerms { docs: Seq<u32>, terms: Seq<Seq<Seq<u8>>> },
}

impl View for ColBuffer {
    type V = BufferModel;

    open spec fn view(&self) -> BufferModel {
        match self {
            ColBuffer::Numeric { docs, values } => BufferModel::Numeric { docs: docs@, values: values@ },
            ColBuffer::Vectors { docs, data } => BufferModel::Vectors { docs: docs@, data: data@ },
            ColBuffer::Sorted { docs, terms } => BufferModel::Sorted { docs: docs@, terms: texts(terms@) },
            ColBuffer::Bytes { docs, values } => BufferModel::Bytes { docs: docs@, values: texts(values@) },
            ColBuffer::MultiNumeric { docs, values } => BufferModel::MultiNumeric {
                docs: docs@,
                values: lists(values@),
            },
            ColBuffer::MultiTerms { docs, terms } => BufferModel::MultiTerms {
                docs: docs@,
                terms: term_lists(terms@),
            },
        }
    }
}

/// The empty buffer for a coercion.
pub open spec fn empty_buffer(c: NumericCoercion) -> BufferModel {
    match c {
        NumericCoercion::SortedUtf8 => BufferModel::Sorted { docs: Seq::empty(), terms: Seq::empty() },
        NumericCoercion::SortedDict => BufferModel::Sorted { docs: Seq::empty(), terms: Seq::empty() },
        NumericCoercion::Bytes => BufferModel::Bytes { docs: Seq::empty(), values: Seq::empty() },
        NumericCoercion::MultiNumeric => BufferModel::MultiNumeric { docs: Seq::empty(), values: Seq::empty() },
        NumericCoercion::MultiTerms => BufferModel::MultiTerms { docs: Seq::empty(), terms: Seq::empty() },
        NumericCoercion::VectorF32 { .. } => BufferModel::Vectors { docs: Seq::empty(), data: Seq::empty() },
        _ => BufferModel::Numeric { docs: Seq::empty(), values: Seq::empty() },
    }
}

/// A buffer of the same kind without values.
pub open spec fn cleared(b: BufferModel) -> BufferModel {
    match b {
        BufferModel::Numeric { .. } => BufferModel::Numeric { docs: Seq::empty(), values: Seq::empty() },
        BufferModel::Vectors { .. } => BufferModel::Vectors { docs: Seq::empty(), data: Seq::empty() },
        BufferModel::Sorted { .. } => BufferModel::Sorted { docs: Seq::empty(), terms: Seq::empty() },
        BufferModel::Bytes { .. } => BufferModel::Bytes { docs: Seq::empty(), values: Seq::empty() },
        BufferModel::MultiNumeric { .. } => BufferModel::MultiNumeric { docs: Seq::empty(), values: Seq::empty() },
        BufferModel::MultiTerms { .. } => BufferModel::MultiTerms { docs: Seq::empty(), terms: Seq::empty() },
    }
}

impl ColBuffer {
    pub fn for_coercion(c: &NumericCoercion) -> (r: ColBuffer)
        ensures
            r@ == empty_buffer(*c),
    {
        let r: ColBuffer = match c {
            NumericCoercion::SortedUtf8 => ColBuffer::Sorted { docs: Vec::new(), terms: Vec::new() },
            NumericCoercion::SortedDict => ColBuffer::Sorted { docs: Vec::new(), terms: Vec::new() },
            NumericCoercion::Bytes => ColBuffer::Bytes { docs: Vec::new(), values: Vec::new() },
            NumericCoercion::MultiNumeric => ColBuffer::MultiNumeric { docs: Vec::new(), values: Vec::new() },
            NumericCoercion::MultiTerms => ColBuffer::MultiTerms { docs: Vec::new(), terms: Vec::new() },
            NumericCoercion::VectorF32 { .. } => ColBuffer::Vectors { docs: Vec::new(), data: Vec::new() },
            _ => ColBuffer::Numeric { docs: Vec::new(), values: Vec::new() },
        };
        assert(texts(Seq::<Vec<u8>>::empty()) =~= Seq::<Seq<u8>>::empty());
        assert(lists(Seq::<Vec<i64>>::empty()) =~= Seq::<Seq<i64>>::empty());
        assert(term_lists(Seq::<Vec<Vec<u8>>>::empty()) =~= Seq::<Seq<Seq<u8>>>::empty());
        r
    }

    pub fn clear(&mut self)
        ensures
            final(self)@ == cleared(old(self)@),
    {
        match self {
            ColBuffer::Numeric { docs, values } => {
                docs.clear();
                values.clear();
            },
            ColBuffer::Vectors { docs, data } => {
                docs.clear();
                data.clear();
            },
            ColBuffer::Sorted { docs, terms } => {
                docs.clear();
                terms.clear();
            },
            ColBuffer::Bytes { docs, values } => {
                docs.clear();
                values.clear();
            },
            ColBuffer::MultiNumeric { docs, values } => {
                docs.clear();
                values.clear();
            },
            ColBuffer::MultiTerms { docs, terms } => {
                docs.clear();
                terms.clear();
            },
        }
        assert(texts(Seq::<Vec<u8>>::empty()) =~= Seq::<Seq<u8>>::empty());
        assert(lists(Seq::<Vec<i64>>::empty()) =~= Seq::<Seq<i64>>::empty());
        assert(term_lists(Seq::<Vec<Vec<u8>>>::empty()) =~= Seq::<Seq<Seq<u8>>>::empty());
    }
}

/// The buffer after a column was appended whose first row is document
/// `base`, or why the column does not go into it.
pub open spec fn append_outcome(b: BufferModel, c: NumericCoercion, col: Column, base: nat) -> std::result::Result<
    BufferModel,
    ErrorKind,
> {
    let cells = col.cells;
    let n = row_count(cells);
    match b {
        BufferModel::Vectors { docs, data } => match (c, cells) {
            (NumericCoercion::VectorF32 { .. }, Cells::Vectors(v)) => Ok(
                BufferModel::Vectors {
                    docs: docs + kept_docs(vector_cells(v@), base, n),
                    data: data + all_items(
                        kept_values(vector_cells(v@), n),
                        kept_values(vector_cells(v@), n).len(),
                    ),
                },
            ),
            _ => Err(ErrorKind::InvalidArgument),
        },
        BufferModel::Sorted { docs, terms } => match (c, cells) {
            (NumericCoercion::SortedUtf8, Cells::Text(v)) => Ok(
                BufferModel::Sorted {
                    docs: docs + kept_docs(byte_cells(v@), base, n),
                    terms: terms + kept_values(byte_cells(v@), n),
                },
            ),
            (NumericCoercion::SortedDict, Cells::Dict { keys, values }) => Ok(
                BufferModel::Sorted {
                    docs: docs + kept_docs(dict_cells(keys@, values@), base, n),
                    terms: terms + kept_values(dict_cells(keys@, values@), n),
                },
            ),
            _ => Err(ErrorKind::InvalidArgument),
        },
        BufferModel::Bytes { docs, values } => match cells {
            Cells::Bytes(v) => Ok(
                BufferModel::Bytes {
                    docs: docs + kept_docs(byte_cells(v@), base, n),
                    values: values + kept_values(byte_cells(v@), n),
                },
            ),
            _ => Err(ErrorKind::InvalidArgument),
        },
        BufferModel::MultiNumeric { docs, values } => match cells {
            Cells::Longs(v) => Ok(
                BufferModel::MultiNumeric {
                    docs: docs + kept_docs(long_cells(v@), base, n),
                    values: values + kept_values(long_cells(v@), n),
                },
            ),
            _ => Err(ErrorKind::InvalidArgument),
        },
        BufferModel::MultiTerms { docs, terms } => match cells {
            Cells::Texts(v) => Ok(
                BufferModel::MultiTerms {
                    docs: docs + kept_docs(text_cells(v@), base, n),
                    terms: terms + kept_values(text_cells(v@), n),
                },
            ),
            _ => Err(ErrorKind::InvalidArgument),
        },
        BufferModel::Numeric { docs, values } => match number_outcome(c, col.data_type, cells) {
            Err(k) => Err(k),
            Ok(()) => Ok(
                BufferModel::Numeric {
                    docs: docs + kept_docs(numbers(c, cells), base, n),
                    values: values + kept_values(numbers(c, cells), n),
                },
            ),
        },
    }
}

/// A copy of some numbers.
fn copy_longs(s: &Vec<i64>) -> (r: Vec<i64>)
    ensures
        r@ == s@,
{
    let mut v: Vec<i64> = Vec::new();
    v.extend_from_slice(s.as_slice());
    assert(v@ =~= s@);
    v
}

/// A copy of some texts.
fn copy_texts(s: &Vec<Vec<u8>>) -> (r: Vec<Vec<u8>>)
    ensures
        doc_terms(r) == doc_terms(*s),
{
    let mut r: Vec<Vec<u8>> = Vec::new();
    let mut i: usize = 0;
    while i < s.len()
        invariant
            i <= s@.len(),
            r@.len() == i,
            forall|k: int| 0 <= k < i ==> (#[trigger] r@[k])@ == s@[k]@,
        decreases s@.len() - i,
    {
        r.push(copy_of(s[i].as_slice()));
        i = i + 1;
    }
    assert(doc_terms(r) =~= doc_terms(*s));
    r
}

/// Appends the present cells of byte strings.
fn append_bytes(docs: &mut Vec<u32>, values: &mut Vec<Vec<u8>>, cells: &Vec<Option<Vec<u8>>>, base: u32)
    requires
        base + cells@.len() <= u32::MAX,
    ensures
        final(docs)@ == old(docs)@ + kept_docs(byte_cells(cells@), base as nat, cells@.len()),
        texts(final(values)@) == texts(old(values)@) + kept_values(byte_cells(cells@), cells@.len()),
{
    let ghost c = byte_cells(cells@);
    let ghost docs0 = docs@;
    let ghost values0 = texts(values@);
    let mut i: usize = 0;
    assert(docs@ =~= docs0 + kept_docs(c, base as nat, 0));
    assert(texts(values@) =~= values0 + kept_values(c, 0));
    while i < cells.len()
        invariant
            i <= cells@.len(),
            base + cells@.len() <= u32::MAX,
            c == byte_cells(cells@),
            docs@ == docs0 + kept_docs(c, base as nat, i as nat),
            texts(values@) == values0 + kept_values(c, i as nat),
        decreases cells@.len() - i,
    {
        let ghost before = texts(values@);
        match &cells[i] {
            Some(x) => {
                docs.push(base + i as u32);
                let y: Vec<u8> = copy_of(x.as_slice());
                let ghost z = y@;
                values.push(y);
                assert(texts(values@) =~= before.push(z));
            },
            None => {},
        }
        i = i + 1;
        assert(docs@ =~= docs0 + kept_docs(c, base as nat, i as nat));
        assert(texts(values@) =~= values0 + kept_values(c, i as nat));
    }
}

/// Appends the terms of the present dictionary keys.
fn append_dict(docs: &mut Vec<u32>, terms: &mut Vec<Vec<u8>>, keys: &Vec<Option<i32>>, entries: &Vec<Vec<u8>>, base: u32)
    requires
        base + keys@.len() <= u32::MAX,
        forall|i: int| 0 <= i < keys@.len() && (#[trigger] keys@[i]) is Some ==> 0 <= keys@[i]->0 < entries@.len(),
    ensures
        final(docs)@ == old(docs)@ + kept_docs(dict_cells(keys@, entries@), base as nat, keys@.len()),
        texts(final(terms)@) == texts(old(terms)@) + kept_values(dict_cells(keys@, entries@), keys@.len()),
{
    let ghost c = dict_cells(keys@, entries@);
    let ghost docs0 = docs@;
    let ghost terms0 = texts(terms@);
    let mut i: usize = 0;
    assert(docs@ =~= docs0 + kept_docs(c, base as nat, 0));
    assert(texts(terms@) =~= terms0 + kept_values(c, 0));
    while i < keys.len()
        invariant
            i <= keys@.len(),
            base + keys@.len() <= u32::MAX,
            forall|j: int|
                0 <= j < keys@.len() && (#[trigger] keys@[j]) is Some ==> 0 <= keys@[j]->0 < entries@.len(),
            c == dict_cells(keys@, entries@),
            docs@ == docs0 + kept_docs(c, base as nat, i as nat),
            texts(terms@) == terms0 + kept_values(c, i as nat),
        decreases keys@.len() - i,
    {
        let ghost before = texts(terms@);
        match keys[i] {
            Some(k) => {
                assert(0 <= keys@[i as int]->0 < entries@.len());
                docs.push(base + i as u32);
                let y: Vec<u8> = copy_of(entries[k as usize].as_slice());
                let ghost z = y@;
                terms.push(y);
                assert(texts(terms@) =~= before.push(z));
            },
            None => {},
        }
        i = i + 1;
        assert(docs@ =~= docs0 + kept_docs(c, base as nat, i as nat));
        assert(texts(terms@) =~= terms0 + kept_values(c, i as nat));
    }
}

/// Appends the lists that are present and not empty.
fn append_longs(docs: &mut Vec<u32>, values: &mut Vec<Vec<i64>>, cells: &Vec<Option<Vec<i64>>>, base: u32)
    requires
        base + cells@.len() <= u32::MAX,
    ensures
        final(docs)@ == old(docs)@ + kept_docs(long_cells(cells@), base as nat, cells@.len()),
        lists(final(values)@) == lists(old(values)@) + kept_values(long_cells(cells@), cells@.len()),
{
    let ghost c = long_cells(cells@);
    let ghost docs0 = docs@;
    let ghost values0 = lists(values@);
    let mut i: usize = 0;
    assert(docs@ =~= docs0 + kept_docs(c, base as nat, 0));
    assert(lists(values@) =~= values0 + kept_values(c, 0));
    while i < cells.len()
        invariant
            i <= cells@.len(),
            base + cells@.len() <= u32::MAX,
            c == long_cells(cells@),
            docs@ == docs0 + kept_docs(c, base as nat, i as nat),
            lists(values@) == values0 + kept_values(c, i as nat),
        decreases cells@.len() - i,
    {
        let ghost before = lists(values@);
        match &cells[i] {
            Some(x) => {
                if x.len() > 0 {
                    docs.push(base + i as u32);
                    let y: Vec<i64> = copy_longs(x);
                    let ghost z = y@;
                    values.push(y);
                    assert(lists(values@) =~= before.push(z));
                }
            },
            None => {},
        }
        i = i + 1;
        assert(docs@ =~= docs0 + kept_docs(c, base as nat, i as nat));
        assert(lists(values@) =~= values0 + kept_values(c, i as nat));
    }
}

/// Appends the lists of texts that are present and not empty.
fn append_texts(docs: &mut Vec<u32>, terms: &mut Vec<Vec<Vec<u8>>>, cells: &Vec<Option<Vec<Vec<u8>>>>, base: u32)
    requires
        base + cells@.len() <= u32::MAX,
    ensures
        final(docs)@ == old(docs)@ + kept_docs(text_cells(cells@), base as nat, cells@.len()),
        term_lists(final(terms)@) == term_lists(old(terms)@) + kept_values(text_cells(cells@), cells@.len()),
{
    let ghost c = text_cells(cells@);
    let ghost docs0 = docs@;
    let ghost terms0 = term_lists(terms@);
    let mut i: usize = 0;
    assert(docs@ =~= docs0 + kept_docs(c, base as nat, 0));
    assert(term_lists(terms@) =~= terms0 + kept_values(c, 0));
    while i < cells.len()
        invariant
            i <= cells@.len(),
            base + cells@.len() <= u32::MAX,
            c == text_cells(cells@),
            docs@ == docs0 + kept_docs(c, base as nat, i as nat),
            term_lists(terms@) == terms0 + kept_values(c, i as nat),
        decreases cells@.len() - i,
    {
        let ghost before = term_lists(terms@);
        match &cells[i] {
            Some(x) => {
                if x.len() > 0 {
                    docs.push(base + i as u32);
                    let y: Vec<Vec<u8>> = copy_texts(x);
                    let ghost z = doc_terms(y);
                    terms.push(y);
                    assert(term_lists(terms@) =~= before.push(z));
                }
            },
            None => {},
        }
        i = i + 1;
        assert(docs@ =~= docs0 + kept_docs(c, base as nat, i as nat));
        assert(term_lists(terms@) =~= terms0 + kept_values(c, i as nat));
    }
}

/// The first lists are those of a longer run of lists.
proof fn lemma_items_prefix(a: Seq<Seq<u32>>, b: Seq<Seq<u32>>, n: nat)
    requires
        n <= a.len(),
        n <= b.len(),
        forall|i: int| 0 <= i < n ==> a[i] == b[i],
    ensures
        all_items(a, n) == all_items(b, n),
    decreases n,
{
    if n > 0 {
        lemma_items_prefix(a, b, (n - 1) as nat);
    }
}

/// Appends the present vectors.
fn append_vectors(docs: &mut Vec<u32>, data: &mut Vec<u32>, cells: &Vec<Option<Vec<u32>>>, base: u32)
    requires
        base + cells@.len() <= u32::MAX,
    ensures
        final(docs)@ == old(docs)@ + kept_docs(vector_cells(cells@), base as nat, cells@.len()),
        final(data)@ == old(data)@ + all_items(
            kept_values(vector_cells(cells@), cells@.len()),
            kept_values(vector_cells(cells@), cells@.len()).len(),
        ),
{
    let ghost c = vector_cells(cells@);
    let ghost docs0 = docs@;
    let ghost data0 = data@;
    let mut i: usize = 0;
    assert(docs@ =~= docs0 + kept_docs(c, base as nat, 0));
    assert(data@ =~= data0 + all_items(kept_values(c, 0), 0));
    while i < cells.len()
        invariant
            i <= cells@.len(),
            base + cells@.len() <= u32::MAX,
            c == vector_cells(cells@),
            docs@ == docs0 + kept_docs(c, base as nat, i as nat),
            data@ == data0 + all_items(kept_values(c, i as nat), kept_values(c, i as nat).len()),
        decreases cells@.len() - i,
    {
        let ghost so_far = kept_values(c, i as nat);
        match &cells[i] {
            Some(x) => {
                docs.push(base + i as u32);
                let ghost before = data@;
                data.extend_from_slice(x.as_slice());
                proof {
                    assert(data@ =~= before + x@);
                    lemma_items_prefix(so_far, so_far.push(x@), so_far.len());
                    assert(kept_values(c, (i + 1) as nat) == so_far.push(x@));
                    assert(data@ =~= data0 + all_items(so_far.push(x@), so_far.len() + 1));
                }
            },
            None => {},
        }
        i = i + 1;
        assert(docs@ =~= docs0 + kept_docs(c, base as nat, i as nat));
    }
}

/// `10^scale`.
fn ten_to(scale: i8) -> (r: i128)
    requires
        0 <= scale <= 38,
    ensures
        r == pow(10, scale as nat),
        r >= 1,
{
    let mut r: i128 = 1;
    let mut i: i8 = 0;
    assert(pow(10, 0) == 1) by {
        reveal(pow);
    }
    assert(pow(10, 38) == 100_000_000_000_000_000_000_000_000_000_000_000_000) by {
        lemma_ten_to_38();
    }
    while i < scale
        invariant
            0 <= i <= scale <= 38,
            r == pow(10, i as nat),
            r >= 1,
            pow(10, 38) == 100_000_000_000_000_000_000_000_000_000_000_000_000,
        decreases scale - i,
    {
        proof {
            lemma_pow_increases(10, (i + 1) as nat, 38);
            assert(pow(10, (i + 1) as nat) == 10 * pow(10, i as nat)) by {
                reveal(pow);
            }
        }
        r = r * 10;
        i = i + 1;
    }
    r
}

proof fn lemma_ten_to_38()
    ensures
        pow(10, 38) == 100_000_000_000_000_000_000_000_000_000_000_000_000,
{
    reveal_with_fuel(pow, 39);
}

/// `raw * factor / 10^scale`, rounded half away from zero.
fn scale_decimal(raw: i128, factor: i64, scale: i8) -> (r: i128)
    requires
        decimal_in_range(raw as int, factor as int, scale as int),
    ensures
        r == scaled_decimal(raw as int, factor as int, scale as nat),
{
    let d: i128 = ten_to(scale);
    assert(d / 2 >= 0);
    let n: i128 = raw * factor as i128;
    if n >= 0 {
        (n + d / 2) / d
    } else if d == 1 {
        assert((-n + d / 2) / (d as int) == -n) by (nonlinear_arith)
            requires
                d == 1,
        ;
        n
    } else {
        let m: u128 = (-(n + 1)) as u128 + 1 + (d / 2) as u128;
        let q: u128 = m / d as u128;
        assert(m == -n + d / 2);
        assert(q <= m / 2) by (nonlinear_arith)
            requires
                q == m as int / d as int,
                d >= 2,
        ;
        -(q as i128)
    }
}

impl Cells {
    /// Rows of the column.
    pub fn rows(&self) -> (r: usize)
        ensures
            r == row_count(*self),
    {
        match self {
            Cells::Bool(v) => v.len(),
            Cells::I8(v) => v.len(),
            Cells::I16(v) => v.len(),
            Cells::I32(v) => v.len(),
            Cells::I64(v) => v.len(),
            Cells::U8(v) => v.len(),
            Cells::U16(v) => v.len(),
            Cells::U32(v) => v.len(),
            Cells::U64(v) => v.len(),
            Cells::F32(v) => v.len(),
            Cells::F64(v) => v.len(),
            Cells::Decimal(v) => v.len(),
            Cells::Text(v) => v.len(),
            Cells::Dict { keys, .. } => keys.len(),
            Cells::Bytes(v) => v.len(),
            Cells::Longs(v) => v.len(),
            Cells::Texts(v) => v.len(),
            Cells::Vectors(v) => v.len(),
        }
    }
}

/// The number that a cell of a numeric column is stored as.
fn number_at(c: &NumericCoercion, cells: &Cells, i: usize) -> (r: Option<i64>)
    requires
        i < row_count(*cells),
        cells_in_range(*c, *cells),
    ensures
        r == number_in(*c, *cells, i as int),
{
    match cells {
        Cells::Bool(v) => match v[i] {
            Some(x) => Some(
                if x {
                    1
                } else {
                    0
                },
            ),
            None => None,
        },
        Cells::I8(v) => match v[i] {
            Some(x) => Some(x as i64),
            None => None,
        },
        Cells::I16(v) => match v[i] {
            Some(x) => Some(x as i64),
            None => None,
        },
        Cells::I32(v) => match v[i] {
            Some(x) => Some(x as i64),
            None => None,
        },
        Cells::I64(v) => v[i],
        Cells::U8(v) => match v[i] {
            Some(x) => Some(x as i64),
            None => None,
        },
        Cells::U16(v) => match v[i] {
            Some(x) => Some(x as i64),
            None => None,
        },
        Cells::U32(v) => match v[i] {
            Some(x) => Some(x as i64),
            None => None,
        },
        Cells::U64(v) => match v[i] {
            Some(x) => Some(x as i64),
            None => None,
        },
        Cells::F32(v) => match v[i] {
            Some(x) => Some(widen(x) as i64),
            None => None,
        },
        Cells::F64(v) => match v[i] {
            Some(x) => Some(x as i64),
            None => None,
        },
        Cells::Decimal(v) => match v[i] {
            Some(x) => match c {
                NumericCoercion::DecimalScaled { factor, scale } => {
                    assert(v@[i as int] is Some);
                    #[verifier::truncate]
                    let r: i64 = scale_decimal(x, *factor, *scale) as i64;
                    Some(r)
                },
                _ => None,
            },
            None => None,
        },
        _ => None,
    }
}

/// Whether a temporal type is held as numbers of 64 bits, of 32 bits, or
/// neither.
fn temporal_width(dt: &DataType) -> (r: (bool, bool))
    ensures
        r.0 == (match *dt {
            DataType::Timestamp(_) => true,
            DataType::Date64 => true,
            DataType::Time64(u) => u == TimeUnit::Microsecond || u == TimeUnit::Nanosecond,
            DataType::Duration(_) => true,
            _ => false,
        }),
        r.1 == (match *dt {
            DataType::Date32 => true,
            DataType::Time32(u) => u == TimeUnit::Second || u == TimeUnit::Millisecond,
            _ => false,
        }),
{
    match dt {
        DataType::Timestamp(_) => (true, false),
        DataType::Date64 => (true, false),
        DataType::Time64(TimeUnit::Microsecond) => (true, false),
        DataType::Time64(TimeUnit::Nanosecond) => (true, false),
        DataType::Duration(_) => (true, false),
        DataType::Date32 => (false, true),
        DataType::Time32(TimeUnit::Second) => (false, true),
        DataType::Time32(TimeUnit::Millisecond) => (false, true),
        _ => (false, false),
    }
}

/// Refuses columns that a numeric coercion does not accept.
fn check_numbers(c: &NumericCoercion, dt: &DataType, cells: &Cells) -> (r: Result<()>)
    ensures
        match number_outcome(*c, *dt, *cells) {
            Ok(()) => r is Ok,
            Err(k) => r matches Err(e) && e.kind() == k,
        },
{
    let accepted: bool = match (c, cells) {
        (NumericCoercion::Passthrough, Cells::I64(_)) => true,
        (NumericCoercion::Widen, Cells::Bool(_)) => true,
        (NumericCoercion::Widen, Cells::I8(_)) => true,
        (NumericCoercion::Widen, Cells::I16(_)) => true,
        (NumericCoercion::Widen, Cells::I32(_)) => true,
        (NumericCoercion::Widen, Cells::U8(_)) => true,
        (NumericCoercion::Widen, Cells::U16(_)) => true,
        (NumericCoercion::Widen, Cells::U32(_)) => true,
        (NumericCoercion::U64Lossy, Cells::U64(_)) => true,
        (NumericCoercion::DecimalScaled { .. }, Cells::Decimal(_)) => true,
        (NumericCoercion::FloatBits, Cells::F64(_)) => true,
        (NumericCoercion::Float32Bits, Cells::F32(_)) => true,
        (NumericCoercion::TemporalI64, _) => {
            let (long, short): (bool, bool) = temporal_width(dt);
            if !long && !short {
                return Err(Error::unsupported("temporal type"));
            }
            match cells {
                Cells::I64(_) => long,
                Cells::I32(_) => short,
                _ => false,
            }
        },
        _ => false,
    };
    if accepted {
        Ok(())
    } else {
        Err(Error::invalid("the column's coercion does not accept its values"))
    }
}

/// Appends the present numbers.
fn append_numbers(docs: &mut Vec<u32>, values: &mut Vec<i64>, c: &NumericCoercion, cells: &Cells, base: u32)
    requires
        base + row_count(*cells) <= u32::MAX,
        cells_in_range(*c, *cells),
    ensures
        final(docs)@ == old(docs)@ + kept_docs(numbers(*c, *cells), base as nat, row_count(*cells)),
        final(values)@ == old(values)@ + kept_values(numbers(*c, *cells), row_count(*cells)),
{
    let ghost s = numbers(*c, *cells);
    let ghost docs0 = docs@;
    let ghost values0 = values@;
    let n: usize = cells.rows();
    let mut i: usize = 0;
    assert(docs@ =~= docs0 + kept_docs(s, base as nat, 0));
    assert(values@ =~= values0 + kept_values(s, 0));
    while i < n
        invariant
            i <= n,
            n == row_count(*cells),
            base + n <= u32::MAX,
            cells_in_range(*c, *cells),
            s == numbers(*c, *cells),
            docs@ == docs0 + kept_docs(s, base as nat, i as nat),
            values@ == values0 + kept_values(s, i as nat),
        decreases n - i,
    {
        match number_at(c, cells, i) {
            Some(v) => {
                docs.push(base + i as u32);
                values.push(v);
            },
            None => {},
        }
        i = i + 1;
        assert(docs@ =~= docs0 + kept_docs(s, base as nat, i as nat));
        assert(values@ =~= values0 + kept_values(s, i as nat));
    }
}

/// Appends a column whose first row is document `doc_base`. Rows without a
/// value, and empty lists, leave no trace.
pub fn append_column(col: &Column, coercion: &NumericCoercion, doc_base: u32, buffer: &mut ColBuffer) -> (r: Result<()>)
    requires
        doc_base + row_count(col.cells) <= u32::MAX,
        cells_in_range(*coercion, col.cells),
    ensures
        match append_outcome(old(buffer)@, *coercion, *col, doc_base as nat) {
            Ok(b) => r is Ok && final(buffer)@ == b,
            Err(k) => (r matches Err(e) && e.kind() == k) && final(buffer)@ == old(buffer)@,
        },
{
    match buffer {
        ColBuffer::Vectors { docs, data } => match (coercion, &col.cells) {
            (NumericCoercion::VectorF32 { .. }, Cells::Vectors(v)) => {
                append_vectors(docs, data, v, doc_base);
                Ok(())
            },
            _ => Err(Error::invalid("expected a column of vectors")),
        },
        ColBuffer::Sorted { docs, terms } => match (coercion, &col.cells) {
            (NumericCoercion::SortedUtf8, Cells::Text(v)) => {
                append_bytes(docs, terms, v, doc_base);
                Ok(())
            },
            (NumericCoercion::SortedDict, Cells::Dict { keys, values }) => {
                append_dict(docs, terms, keys, values, doc_base);
                Ok(())
            },
            _ => Err(Error::invalid("coercion for a text buffer")),
        },
        ColBuffer::Bytes { docs, values } => match &col.cells {
            Cells::Bytes(v) => {
                append_bytes(docs, values, v, doc_base);
                Ok(())
            },
            _ => Err(Error::invalid("expected a column of byte strings")),
        },
        ColBuffer::MultiNumeric { docs, values } => match &col.cells {
            Cells::Longs(v) => {
                append_longs(docs, values, v, doc_base);
                Ok(())
            },
            _ => Err(Error::invalid("expected a column of lists of numbers")),
        },
        ColBuffer::MultiTerms { docs, terms } => match &col.cells {
            Cells::Texts(v) => {
                append_texts(docs, terms, v, doc_base);
                Ok(())
            },
            _ => Err(Error::invalid("expected a column of lists of texts")),
        },
        ColBuffer::Numeric { docs, values } => {
            match check_numbers(coercion, &col.data_type, &col.cells) {
                Ok(()) => {
                    append_numbers(docs, values, coercion, &col.cells, doc_base);
                    Ok(())
                },
                Err(e) => Err(e),
            }
        },
    }
}

/// Whether a decimal stays in range when scaled.
fn decimal_fits(raw: i128, factor: i64, scale: i8) -> (r: bool)
    ensures
        r == decimal_in_range(raw as int, factor as int, scale as int),
{
    if scale < 0 || scale > 38 {
        return false;
    }
    let half: i128 = ten_to(scale) / 2;
    proof {
        lemma_pow_increases(10, scale as nat, 38);
        lemma_ten_to_38();
    }
    match raw.checked_mul(factor as i128) {
        None => false,
        Some(n) => n >= i128::MIN + half && n <= i128::MAX - half,
    }
}

/// Whether all dictionary keys have an entry.
fn keys_in_range(keys: &Vec<Option<i32>>, entries: usize) -> (r: bool)
    ensures
        r == forall|i: int| 0 <= i < keys@.len() && (#[trigger] keys@[i]) is Some ==> 0 <= keys@[i]->0 < entries,
{
    let mut i: usize = 0;
    while i < keys.len()
        invariant
            i <= keys@.len(),
            forall|j: int| 0 <= j < i && (#[trigger] keys@[j]) is Some ==> 0 <= keys@[j]->0 < entries,
        decreases keys@.len() - i,
    {
        match keys[i] {
            Some(k) => {
                if k < 0 || k as usize >= entries {
                    assert(keys@[i as int] is Some);
                    return false;
                }
            },
            None => {},
        }
        i = i + 1;
    }
    true
}

/// Whether all decimals stay in range when scaled.
fn decimals_in_range(v: &Vec<Option<i128>>, factor: i64, scale: i8) -> (r: bool)
    ensures
        r == forall|i: int|
            0 <= i < v@.len() && (#[trigger] v@[i]) is Some ==> decimal_in_range(
                v@[i]->0 as int,
                factor as int,
                scale as int,
            ),
{
    let mut i: usize = 0;
    while i < v.len()
        invariant
            i <= v@.len(),
            forall|j: int|
                0 <= j < i && (#[trigger] v@[j]) is Some ==> decimal_in_range(
                    v@[j]->0 as int,
                    factor as int,
                    scale as int,
                ),
        decreases v@.len() - i,
    {
        match v[i] {
            Some(raw) => {
                if !decimal_fits(raw, factor, scale) {
                    assert(v@[i as int] is Some);
                    return false;
                }
            },
            None => {},
        }
        i = i + 1;
    }
    true
}

/// Whether the values of a column can be appended: dictionary keys have an
/// entry, and decimals stay in range when scaled.
pub fn in_range(c: &NumericCoercion, cells: &Cells) -> (r: bool)
    ensures
        r == cells_in_range(*c, *cells),
{
    match cells {
        Cells::Dict { keys, values } => keys_in_range(keys, values.len()),
        Cells::Decimal(v) => match c {
            NumericCoercion::DecimalScaled { factor, scale } => decimals_in_range(v, *factor, *scale),
            _ => true,
        },
        _ => true,
    }
}

/// The documents of a buffer.
pub open spec fn buffer_docs(b: BufferModel) -> Seq<u32> {
    match b {
        BufferModel::Numeric { docs, .. } => docs,
        BufferModel::Vectors { docs, .. } => docs,
        BufferModel::Sorted { docs, .. } => docs,
        BufferModel::Bytes { docs, .. } => docs,
        BufferModel::MultiNumeric { docs, .. } => docs,
        BufferModel::MultiTerms { docs, .. } => docs,
    }
}

/// Documents in order, below `n`, each with a value.
pub open spec fn buffer_valid(b: BufferModel, n: nat) -> bool {
    &&& strictly_increasing(buffer_docs(b))
    &&& forall|i: int| 0 <= i < buffer_docs(b).len() ==> (#[trigger] buffer_docs(b)[i]) < n
    &&& match b {
        BufferModel::Numeric { docs, values } => docs.len() == values.len(),
        BufferModel::Vectors { .. } => true,
        BufferModel::Sorted { docs, terms } => docs.len() == terms.len(),
        BufferModel::Bytes { docs, values } => docs.len() == values.len(),
        BufferModel::MultiNumeric { docs, values } => docs.len() == values.len() && forall|i: int|
            0 <= i < values.len() ==> (#[trigger] values[i]).len() > 0,
        BufferModel::MultiTerms { docs, terms } => docs.len() == terms.len() && forall|i: int|
            0 <= i < terms.len() ==> (#[trigger] terms[i]).len() > 0,
    }
}

/// Kept documents are in order, in their range, one for each kept value.
proof fn lemma_kept<T>(cells: Seq<Option<T>>, base: nat, n: nat)
    requires
        base + n <= u32::MAX,
        n <= cells.len(),
    ensures
        strictly_increasing(kept_docs(cells, base, n)),
        forall|i: int|
            0 <= i < kept_docs(cells, base, n).len() ==> base <= (#[trigger] kept_docs(cells, base, n)[i]) < base + n,
        kept_docs(cells, base, n).len() == kept_values(cells, n).len(),
    decreases n,
{
    if n > 0 {
        lemma_kept(cells, base, (n - 1) as nat);
    }
}

/// Values that are kept come from cells.
proof fn lemma_kept_from<T>(cells: Seq<Option<T>>, n: nat)
    requires
        n <= cells.len(),
    ensures
        forall|i: int|
            0 <= i < kept_values(cells, n).len() ==> exists|j: int|
                0 <= j < n && (#[trigger] cells[j]) == Some(#[trigger] kept_values(cells, n)[i]),
    decreases n,
{
    if n > 0 {
        lemma_kept_from(cells, (n - 1) as nat);
        let before = kept_values(cells, (n - 1) as nat);
        let all = kept_values(cells, n);
        assert forall|i: int| 0 <= i < all.len() implies exists|j: int|
            0 <= j < n && (#[trigger] cells[j]) == Some(#[trigger] all[i]) by {
            if i < before.len() {
                assert(all[i] == before[i]);
                let j = choose|j: int| 0 <= j < n - 1 && (#[trigger] cells[j]) == Some(before[i]);
                assert(cells[j] == Some(all[i]));
            } else {
                assert(cells[n - 1] == Some(all[i]));
            }
        }
    }
}

/// Rows are numbered in order of arrival: row `r` of a column whose first row
/// is document `base` is kept as document `base + r` with the value of its
/// cell, and not at all where the cell is empty.
pub proof fn law_rows_numbered<T>(cells: Seq<Option<T>>, base: nat, n: nat, r: int)
    requires
        n <= cells.len(),
        base + n <= u32::MAX,
        0 <= r < n,
    ensures
        kept_docs(cells, base, n).len() == kept_values(cells, n).len(),
        cells[r] matches Some(x) ==> exists|k: int|
            0 <= k < kept_docs(cells, base, n).len() && #[trigger] kept_docs(cells, base, n)[k] == base + r
                && kept_values(cells, n)[k] == x,
        cells[r] is None ==> forall|k: int|
            0 <= k < kept_docs(cells, base, n).len() ==> #[trigger] kept_docs(cells, base, n)[k] != base + r,
    decreases n,
{
    lemma_kept(cells, base, n);
    let m = (n - 1) as nat;
    lemma_kept(cells, base, m);
    let docs = kept_docs(cells, base, m);
    let all = kept_docs(cells, base, n);
    if r < m {
        law_rows_numbered(cells, base, m, r);
        if cells[r] is Some {
            let k = choose|k: int|
                0 <= k < docs.len() && #[trigger] docs[k] == base + r && kept_values(cells, m)[k] == cells[r]->0;
            assert(all[k] == docs[k]);
        } else {
            assert forall|k: int| 0 <= k < all.len() implies #[trigger] all[k] != base + r by {
                if k < docs.len() {
                    assert(all[k] == docs[k]);
                }
            }
        }
    } else if cells[r] is Some {
        assert(all[docs.len() as int] == base + r);
    }
}

/// Appending documents from `base` on to ones below it.
proof fn lemma_docs_appended(docs: Seq<u32>, more: Seq<u32>, base: nat, n: nat)
    requires
        strictly_increasing(docs),
        forall|i: int| 0 <= i < docs.len() ==> (#[trigger] docs[i]) < base,
        strictly_increasing(more),
        forall|i: int| 0 <= i < more.len() ==> base <= (#[trigger] more[i]) < base + n,
    ensures
        strictly_increasing(docs + more),
        forall|i: int| 0 <= i < (docs + more).len() ==> (#[trigger] (docs + more)[i]) < base + n,
{
}

/// Appending a column to a buffer whose documents lie below the column's
/// first row keeps its documents in order, each with a value.
pub proof fn law_append_keeps(b: BufferModel, c: NumericCoercion, col: Column, base: nat)
    requires
        buffer_valid(b, base),
        base + row_count(col.cells) <= u32::MAX,
    ensures
        append_outcome(b, c, col, base) matches Ok(a) ==> buffer_valid(a, base + row_count(col.cells)),
{
    let n = row_count(col.cells);
    match (b, col.cells) {
        (BufferModel::Vectors { docs, .. }, Cells::Vectors(v)) => {
            lemma_kept(vector_cells(v@), base, n);
            lemma_docs_appended(docs, kept_docs(vector_cells(v@), base, n), base, n);
        },
        (BufferModel::Sorted { docs, .. }, Cells::Text(v)) => {
            lemma_kept(byte_cells(v@), base, n);
            lemma_docs_appended(docs, kept_docs(byte_cells(v@), base, n), base, n);
        },
        (BufferModel::Sorted { docs, .. }, Cells::Dict { keys, values }) => {
            lemma_kept(dict_cells(keys@, values@), base, n);
            lemma_docs_appended(docs, kept_docs(dict_cells(keys@, values@), base, n), base, n);
        },
        (BufferModel::Bytes { docs, .. }, Cells::Bytes(v)) => {
            lemma_kept(byte_cells(v@), base, n);
            lemma_docs_appended(docs, kept_docs(byte_cells(v@), base, n), base, n);
        },
        (BufferModel::MultiNumeric { docs, .. }, Cells::Longs(v)) => {
            lemma_kept(long_cells(v@), base, n);
            lemma_kept_from(long_cells(v@), n);
            lemma_docs_appended(docs, kept_docs(long_cells(v@), base, n), base, n);
        },
        (BufferModel::MultiTerms { docs, .. }, Cells::Texts(v)) => {
            lemma_kept(text_cells(v@), base, n);
            lemma_kept_from(text_cells(v@), n);
            lemma_docs_appended(docs, kept_docs(text_cells(v@), base, n), base, n);
        },
        (BufferModel::Numeric { docs, .. }, _) => {
            lemma_kept(numbers(c, col.cells), base, n);
            lemma_docs_appended(docs, kept_docs(numbers(c, col.cells), base, n), base, n);
        },
        _ => {},
    }
}

/// The integer that a cell holds; booleans count as 0 and 1.
pub open spec fn integer_in(cells: Cells, i: int) -> Option<int> {
    match cells {
        Cells::Bool(v) => match v@[i] {
            Some(x) => Some(
                if x {
                    1int
                } else {
                    0int
                },
            ),
            None => None,
        },
        Cells::I8(v) => match v@[i] {
            Some(x) => Some(x as int),
            None => None,
        },
        Cells::I16(v) => match v@[i] {
            Some(x) => Some(x as int),
            None => None,
        },
        Cells::I32(v) => match v@[i] {
            Some(x) => Some(x as int),
            None => None,
        },
        Cells::I64(v) => match v@[i] {
            Some(x) => Some(x as int),
            None => None,
        },
        Cells::U8(v) => match v@[i] {
            Some(x) => Some(x as int),
            None => None,
        },
        Cells::U16(v) => match v@[i] {
            Some(x) => Some(x as int),
            None => None,
        },
        Cells::U32(v) => match v@[i] {
            Some(x) => Some(x as int),
            None => None,
        },
        Cells::U64(v) => match v@[i] {
            Some(x) => Some(x as int),
            None => None,
        },
        _ => None,
    }
}

/// Columns of integers that are taken without being asked for lose nothing:
/// the stored number is the integer of the cell.
pub proof fn law_integers_kept(c: NumericCoercion, dt: DataType, cells: Cells, i: int)
    requires
        c == NumericCoercion::Passthrough || c == NumericCoercion::Widen || c == NumericCoercion::TemporalI64,
        number_outcome(c, dt, cells) is Ok,
        0 <= i < row_count(cells),
    ensures
        match number_in(c, cells, i) {
            Some(v) => integer_in(cells, i) == Some(v as int),
            None => integer_in(cells, i) is None,
        },
{
}

/// Unsigned integers of 64 bits, taken when asked for, are kept up to the
/// greatest signed one and become negative above it.
pub proof fn law_unsigned_wraps(cells: Cells, i: int)
    requires
        cells is U64,
        0 <= i < row_count(cells),
    ensures
        match number_in(NumericCoercion::U64Lossy, cells, i) {
            Some(v) => integer_in(cells, i) == Some(
                if v >= 0 {
                    v as int
                } else {
                    v + 0x1_0000_0000_0000_0000
                },
            ),
            None => integer_in(cells, i) is None,
        },
{
    crate::bytes::lemma_cast_values();
}

/// A double is stored as the number with the same 64 bits, so that reading
/// the bits back gives the double, whatever its sign and kind.
pub proof fn law_doubles_keep_their_bits(v: Vec<Option<u64>>, i: int)
    requires
        0 <= i < v@.len(),
    ensures
        match v@[i] {
            Some(x) => number_in(NumericCoercion::FloatBits, Cells::F64(v), i) matches Some(n) && n as u64 == x,
            None => number_in(NumericCoercion::FloatBits, Cells::F64(v), i) is None,
        },
{
    crate::bytes::lemma_signed_casts();
}

/// A single-precision float is stored as the bits of the double that it
/// widens to.
pub proof fn law_floats_widened(v: Vec<Option<u32>>, i: int)
    requires
        0 <= i < v@.len(),
    ensures
        match v@[i] {
            Some(x) => number_in(NumericCoercion::Float32Bits, Cells::F32(v), i) matches Some(n) && n as u64
                == widened(x) as u64,
            None => number_in(NumericCoercion::Float32Bits, Cells::F32(v), i) is None,
        },
{
    crate::bytes::lemma_signed_casts();
}

/// A decimal is stored as an integer nearest to the value of the cell times
/// the factor, where that is in range; at a tie the one away from zero.
pub proof fn law_decimals_stored(v: Vec<Option<i128>>, factor: i64, scale: i8, i: int)
    requires
        0 <= i < v@.len(),
        0 <= scale,
        v@[i] matches Some(x) ==> i64::MIN * pow(10, scale as nat) <= x * factor <= i64::MAX * pow(10, scale as nat),
    ensures
        ({
            let c = NumericCoercion::DecimalScaled { factor, scale };
            match v@[i] {
                Some(x) => number_in(c, Cells::Decimal(v), i) matches Some(n) && {
                    let d = pow(10, scale as nat);
                    &&& 2 * (n * d - x * factor) <= d
                    &&& 2 * (x * factor - n * d) <= d
                    &&& 2 * (n * d - x * factor) == d && d > 1 ==> x * factor >= 0
                    &&& 2 * (x * factor - n * d) == d && d > 1 ==> x * factor <= 0
                },
                None => number_in(c, Cells::Decimal(v), i) is None,
            }
        }),
{
    if v@[i] is Some {
        let x = v@[i]->0 as int;
        let d = pow(10, scale as nat);
        law_decimal_nearest(x, factor as int, scale as nat);
        let r = scaled_decimal(x, factor as int, scale as nat);
        let n = x * factor;
        assert(i64::MIN <= r <= i64::MAX) by (nonlinear_arith)
            requires
                d > 0,
                2 * (r * d - n) <= d,
                2 * (n - r * d) <= d,
                i64::MIN * d <= n <= i64::MAX * d,
        ;
    }
}

/// Document `doc` has the value of a cell behind the first `from` documents
/// of a buffer, or none where the cell is empty.
pub open spec fn has_cell<T>(docs: Seq<u32>, values: Seq<T>, from: nat, doc: nat, cell: Option<T>) -> bool {
    match cell {
        Some(x) => exists|k: int| from <= k < docs.len() && #[trigger] docs[k] == doc && values[k] == x,
        None => forall|k: int| from <= k < docs.len() ==> #[trigger] docs[k] != doc,
    }
}

/// What was in a buffer stays there, in front.
pub open spec fn starts_with<T>(all: Seq<T>, before: Seq<T>) -> bool {
    before.len() <= all.len() && all.take(before.len() as int) == before
}

proof fn lemma_has_cell<T>(docs: Seq<u32>, values: Seq<T>, cells: Seq<Option<T>>, base: nat, r: int)
    requires
        docs.len() == values.len(),
        base + cells.len() <= u32::MAX,
        0 <= r < cells.len(),
    ensures
        ({
            let n = cells.len();
            let d = docs + kept_docs(cells, base, n);
            let v = values + kept_values(cells, n);
            &&& d.len() == v.len()
            &&& starts_with(d, docs)
            &&& starts_with(v, values)
            &&& has_cell(d, v, docs.len(), (base + r) as nat, cells[r])
            &&& forall|k: int| docs.len() <= k < d.len() ==> base <= #[trigger] d[k] < base + n
        }),
{
    let n = cells.len();
    let more = kept_docs(cells, base, n);
    let d = docs + more;
    let v = values + kept_values(cells, n);
    law_rows_numbered(cells, base, n, r);
    lemma_kept(cells, base, n);
    assert(d.take(docs.len() as int) =~= docs);
    assert(v.take(values.len() as int) =~= values);
    assert forall|k: int| docs.len() <= k < d.len() implies base <= #[trigger] d[k] < base + n by {
        assert(d[k] == more[k - docs.len()]);
    }
    if cells[r] is Some {
        let k = choose|k: int| 0 <= k < more.len() && #[trigger] more[k] == base + r && kept_values(cells, n)[k]
            == cells[r]->0;
        assert(d[docs.len() + k] == base + r);
    } else {
        assert forall|k: int| docs.len() <= k < d.len() implies #[trigger] d[k] != base + r by {
            assert(d[k] == more[k - docs.len()]);
        }
    }
}

/// A column of numbers goes into its buffer row by row: row `r` as document
/// `base + r` with its own number, none for an empty cell, behind all that
/// was there.
pub proof fn law_numbers_appended(docs: Seq<u32>, values: Seq<i64>, c: NumericCoercion, col: Column, base: nat, r: int)
    requires
        docs.len() == values.len(),
        base + row_count(col.cells) <= u32::MAX,
        0 <= r < row_count(col.cells),
        number_outcome(c, col.data_type, col.cells) is Ok,
    ensures
        append_outcome(BufferModel::Numeric { docs, values }, c, col, base) matches Ok(
            BufferModel::Numeric { docs: d, values: v },
        ) && d.len() == v.len() && starts_with(d, docs) && starts_with(v, values) && has_cell(
            d,
            v,
            docs.len(),
            (base + r) as nat,
            number_in(c, col.cells, r),
        ),
{
    lemma_has_cell(docs, values, numbers(c, col.cells), base, r);
}

/// A column of texts goes into its buffer row by row.
pub proof fn law_texts_appended(docs: Seq<u32>, terms: Seq<Seq<u8>>, v: Vec<Option<Vec<u8>>>, col: Column, base: nat, r: int)
    requires
        docs.len() == terms.len(),
        col.cells == Cells::Text(v),
        base + v@.len() <= u32::MAX,
        0 <= r < v@.len(),
    ensures
        append_outcome(BufferModel::Sorted { docs, terms }, NumericCoercion::SortedUtf8, col, base) matches Ok(
            BufferModel::Sorted { docs: d, terms: t },
        ) && d.len() == t.len() && starts_with(d, docs) && starts_with(t, terms) && has_cell(
            d,
            t,
            docs.len(),
            (base + r) as nat,
            match v@[r] {
                Some(x) => Some(x@),
                None => None,
            },
        ),
{
    lemma_has_cell(docs, terms, byte_cells(v@), base, r);
}

/// A column of texts behind dictionary keys goes into its buffer row by row,
/// each key looked up.
pub proof fn law_dictionary_appended(
    docs: Seq<u32>,
    terms: Seq<Seq<u8>>,
    keys: Vec<Option<i32>>,
    values: Vec<Vec<u8>>,
    col: Column,
    base: nat,
    r: int,
)
    requires
        docs.len() == terms.len(),
        col.cells == (Cells::Dict { keys, values }),
        base + keys@.len() <= u32::MAX,
        0 <= r < keys@.len(),
    ensures
        append_outcome(BufferModel::Sorted { docs, terms }, NumericCoercion::SortedDict, col, base) matches Ok(
            BufferModel::Sorted { docs: d, terms: t },
        ) && d.len() == t.len() && starts_with(d, docs) && starts_with(t, terms) && has_cell(
            d,
            t,
            docs.len(),
            (base + r) as nat,
            match keys@[r] {
                Some(k) => Some(values@[k as int]@),
                None => None,
            },
        ),
{
    lemma_has_cell(docs, terms, dict_cells(keys@, values@), base, r);
}

/// A column of byte strings goes into its buffer row by row.
pub proof fn law_bytes_appended(
    docs: Seq<u32>,
    values: Seq<Seq<u8>>,
    c: NumericCoercion,
    v: Vec<Option<Vec<u8>>>,
    col: Column,
    base: nat,
    r: int,
)
    requires
        docs.len() == values.len(),
        col.cells == Cells::Bytes(v),
        base + v@.len() <= u32::MAX,
        0 <= r < v@.len(),
    ensures
        append_outcome(BufferModel::Bytes { docs, values }, c, col, base) matches Ok(
            BufferModel::Bytes { docs: d, values: t },
        ) && d.len() == t.len() && starts_with(d, docs) && starts_with(t, values) && has_cell(
            d,
            t,
            docs.len(),
            (base + r) as nat,
            match v@[r] {
                Some(x) => Some(x@),
                None => None,
            },
        ),
{
    lemma_has_cell(docs, values, byte_cells(v@), base, r);
}

/// A column of lists of numbers goes into its buffer row by row; an empty
/// list is no value.
pub proof fn law_lists_appended(
    docs: Seq<u32>,
    values: Seq<Seq<i64>>,
    c: NumericCoercion,
    v: Vec<Option<Vec<i64>>>,
    col: Column,
    base: nat,
    r: int,
)
    requires
        docs.len() == values.len(),
        col.cells == Cells::Longs(v),
        base + v@.len() <= u32::MAX,
        0 <= r < v@.len(),
    ensures
        append_outcome(BufferModel::MultiNumeric { docs, values }, c, col, base) matches Ok(
            BufferModel::MultiNumeric { docs: d, values: t },
        ) && d.len() == t.len() && starts_with(d, docs) && starts_with(t, values) && has_cell(
            d,
            t,
            docs.len(),
            (base + r) as nat,
            if v@[r] is Some && v@[r]->0@.len() > 0 {
                Some(v@[r]->0@)
            } else {
                None
            },
        ),
{
    lemma_has_cell(docs, values, long_cells(v@), base, r);
}

/// A column of lists of texts goes into its buffer row by row; an empty list
/// is no value.
pub proof fn law_text_lists_appended(
    docs: Seq<u32>,
    terms: Seq<Seq<Seq<u8>>>,
    c: NumericCoercion,
    v: Vec<Option<Vec<Vec<u8>>>>,
    col: Column,
    base: nat,
    r: int,
)
    requires
        docs.len() == terms.len(),
        col.cells == Cells::Texts(v),
        base + v@.len() <= u32::MAX,
        0 <= r < v@.len(),
    ensures
        append_outcome(BufferModel::MultiTerms { docs, terms }, c, col, base) matches Ok(
            BufferModel::MultiTerms { docs: d, terms: t },
        ) && d.len() == t.len() && starts_with(d, docs) && starts_with(t, terms) && has_cell(
            d,
            t,
            docs.len(),
            (base + r) as nat,
            if v@[r] is Some && v@[r]->0@.len() > 0 {
                Some(Seq::new(v@[r]->0@.len(), |j: int| v@[r]->0@[j]@))
            } else {
                None
            },
        ),
{
    lemma_has_cell(docs, terms, text_cells(v@), base, r);
    if v@[r] is Some {
        assert(doc_terms(v@[r]->0) =~= Seq::new(v@[r]->0@.len(), |j: int| v@[r]->0@[j]@));
    }
}

/// Lists of one length, one behind the other.
proof fn lemma_items_at(lists: Seq<Seq<u32>>, n: nat, dim: nat, k: int)
    requires
        n <= lists.len(),
        forall|i: int| 0 <= i < n ==> (#[trigger] lists[i]).len() == dim,
        0 <= k < n,
    ensures
        all_items(lists, n).len() == n * dim,
        0 <= k * dim,
        k * dim + dim <= n * dim,
        all_items(lists, n).subrange(k * dim, k * dim + dim) == lists[k],
    decreases n,
{
    let m = (n - 1) as nat;
    let before = all_items(lists, m);
    let all = all_items(lists, n);
    assert(n * dim == m * dim + dim) by (nonlinear_arith)
        requires
            n == m + 1,
    ;
    assert(0 <= k * dim && k * dim + dim <= n * dim) by (nonlinear_arith)
        requires
            0 <= k < n,
    ;
    if m > 0 {
        lemma_items_at(lists, m, dim, if k < m {
            k
        } else {
            0
        });
    } else {
        assert(before.len() == 0);
        assert(m * dim == 0) by (nonlinear_arith)
            requires
                m == 0,
        ;
    }
    if k < m {
        assert(k * dim + dim <= m * dim) by (nonlinear_arith)
            requires
                0 <= k < m,
        ;
        assert(all.subrange(k * dim, k * dim + dim) =~= before.subrange(k * dim, k * dim + dim));
    } else {
        assert(k * dim == m * dim);
        assert(all.subrange(k * dim, k * dim + dim) =~= lists[k]);
    }
}

/// How many items lists of one length hold together.
proof fn lemma_items_len(lists: Seq<Seq<u32>>, dim: nat)
    requires
        forall|i: int| 0 <= i < lists.len() ==> (#[trigger] lists[i]).len() == dim,
    ensures
        all_items(lists, lists.len()).len() == lists.len() * dim,
{
    if lists.len() > 0 {
        lemma_items_at(lists, lists.len(), dim, 0);
    } else {
        assert(lists.len() * dim == 0) by (nonlinear_arith)
            requires
                lists.len() == 0,
        ;
    }
}

/// The items of list `k`, behind others.
proof fn lemma_items_behind(data: Seq<u32>, lists: Seq<Seq<u32>>, dim: nat, k: int)
    requires
        forall|i: int| 0 <= i < lists.len() ==> (#[trigger] lists[i]).len() == dim,
        0 <= k < lists.len(),
    ensures
        (data + all_items(lists, lists.len())).subrange(data.len() + k * dim, data.len() + k * dim + dim) == lists[k],
{
    lemma_items_at(lists, lists.len(), dim, k);
    let all = all_items(lists, lists.len());
    assert((data + all).subrange(data.len() + k * dim, data.len() + k * dim + dim) =~= all.subrange(
        k * dim,
        k * dim + dim,
    ));
}

/// A column of vectors of one length goes into its buffer row by row: the
/// vector of the `k`-th new document is the `k`-th new run of numbers.
pub proof fn law_vectors_appended(
    docs: Seq<u32>,
    data: Seq<u32>,
    dim: i32,
    similarity: u8,
    v: Vec<Option<Vec<u32>>>,
    col: Column,
    base: nat,
    r: int,
)
    requires
        col.cells == Cells::Vectors(v),
        base + v@.len() <= u32::MAX,
        0 <= r < v@.len(),
        dim >= 0,
        forall|i: int| 0 <= i < v@.len() && (#[trigger] v@[i]) is Some ==> v@[i]->0@.len() == dim,
    ensures
        append_outcome(BufferModel::Vectors { docs, data }, NumericCoercion::VectorF32 { dim, similarity }, col, base)
            matches Ok(BufferModel::Vectors { docs: d, data: x }) && {
            &&& starts_with(d, docs)
            &&& starts_with(x, data)
            &&& x.len() == data.len() + (d.len() - docs.len()) * dim
            &&& match v@[r] {
                Some(cell) => exists|k: int|
                    docs.len() <= k < d.len() && #[trigger] d[k] == base + r && x.subrange(
                        data.len() + (k - docs.len()) * dim,
                        data.len() + (k - docs.len()) * dim + dim,
                    ) == cell@,
                None => forall|k: int| docs.len() <= k < d.len() ==> #[trigger] d[k] != base + r,
            }
        },
{
    let cells = vector_cells(v@);
    let n = v@.len();
    let lists = kept_values(cells, n);
    let more = kept_docs(cells, base, n);
    let d = docs + more;
    let x = data + all_items(lists, lists.len());
    lemma_kept(cells, base, n);
    lemma_kept_from(cells, n);
    law_rows_numbered(cells, base, n, r);
    assert(d.take(docs.len() as int) =~= docs);
    assert(x.take(data.len() as int) =~= data);
    assert forall|i: int| 0 <= i < lists.len() implies (#[trigger] lists[i]).len() == dim by {
        let j = choose|j: int| 0 <= j < n && (#[trigger] cells[j]) == Some(lists[i]);
        assert(v@[j] is Some);
    }
    let outcome = append_outcome(
        BufferModel::Vectors { docs, data },
        NumericCoercion::VectorF32 { dim, similarity },
        col,
        base,
    );
    assert(outcome == Ok::<BufferModel, ErrorKind>(BufferModel::Vectors { docs: d, data: x }));
    lemma_items_len(lists, dim as nat);
    assert(d.len() - docs.len() == lists.len());
    if v@[r] is Some {
        let cell = v@[r]->0@;
        assert(cells[r] == Some(cell));
        let j = choose|k: int| 0 <= k < more.len() && #[trigger] more[k] == base + r && lists[k] == cell;
        lemma_items_behind(data, lists, dim as nat, j);
        let k = docs.len() + j;
        assert(k - docs.len() == j);
        assert(docs.len() <= k < d.len() && d[k] == base + r);
        assert(x.subrange(data.len() + (k - docs.len()) * dim, data.len() + (k - docs.len()) * dim + dim) == cell);
    } else {
        assert(cells[r] is None);
        assert forall|k: int| docs.len() <= k < d.len() implies #[trigger] d[k] != base + r by {
            assert(d[k] == more[k - docs.len()]);
        }
    }
}

/// A buffer that is emptied is as good as new: it takes the same columns as
/// a fresh one, and gives the same.
pub proof fn law_cleared_is_fresh(c: NumericCoercion, b: BufferModel, col: Column, base: nat)
    requires
        append_outcome(empty_buffer(c), c, col, base) == Ok::<BufferModel, ErrorKind>(b),
    ensures
        cleared(b) == empty_buffer(c),
        buffer_docs(empty_buffer(c)).len() == 0,
{
}

/// A scaled decimal is as near to the exact quotient as an integer can be,
/// and at a tie the one away from zero.
pub proof fn law_decimal_nearest(raw: int, factor: int, scale: nat)
    ensures
        ({
            let n = raw * factor;
            let d = pow(10, scale);
            let r = scaled_decimal(raw, factor, scale);
            &&& d > 0
            &&& 2 * (r * d - n) <= d
            &&& 2 * (n - r * d) <= d
            &&& 2 * (r * d - n) == d && d > 1 ==> n >= 0
            &&& 2 * (n - r * d) == d && d > 1 ==> n <= 0
        }),
{
    let n = raw * factor;
    let d = pow(10, scale);
    lemma_pow_positive(10, scale);
    let a = if n >= 0 {
        n
    } else {
        -n
    };
    let q = (a + d / 2) / d;
    lemma_fundamental_div_mod(a + d / 2, d);
    lemma_mod_bound(a + d / 2, d);
    assert(d * q == q * d) by (nonlinear_arith);
    assert((-q) * d == -(q * d)) by (nonlinear_arith);
    lemma_ten_even(scale);
}

/// A power of ten is one or even.
proof fn lemma_ten_even(scale: nat)
    ensures
        pow(10, scale) == 1 || pow(10, scale) % 2 == 0,
{
    reveal(pow);
}

/// A mapping takes cells of its own kind and no others.
pub proof fn law_foreign_cells_refused(c: NumericCoercion, dt: DataType, cells: Cells)
    requires
        number_outcome(c, dt, cells) is Ok,
    ensures
        cells is F64 ==> c == NumericCoercion::FloatBits,
        cells is F32 ==> c == NumericCoercion::Float32Bits,
        cells is Decimal ==> c is DecimalScaled,
        cells is U64 ==> c == NumericCoercion::U64Lossy,
        cells is I64 ==> c == NumericCoercion::Passthrough || c == NumericCoercion::TemporalI64,
        !(cells is Text || cells is Dict || cells is Bytes || cells is Longs || cells is Texts || cells is Vectors),
        c == NumericCoercion::TemporalI64 ==> dt is Timestamp || dt is Date32 || dt is Date64 || dt is Time32
            || dt is Time64 || dt is Duration,
{
}

} // verus!
