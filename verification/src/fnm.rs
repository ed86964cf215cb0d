//! Field infos (`.fnm`): one record per field of a segment.

use vstd::prelude::*;
use crate::attributes::{inserted, keys_sorted, Attributes};
use crate::cursor::{
    footer_valid, parse_i64, parse_index_header, parse_string, parse_vint, read_index_header, verify_footer,
    Cursor, IndexHeader, Parsed,
};
use crate::error::{Error, ErrorKind, Result};

verus! {

pub const CODEC_NAME: &'static str = "Lucene94FieldInfos";

pub const FORMAT_START: i32 = 0;

pub const FORMAT_DOCVALUE_SKIPPER: i32 = 2;

pub const FORMAT_CURRENT: i32 = 2;

/// One field record, fully captured.
#[derive(Debug)]
pub struct FnmField {
    pub name: String,
    pub number: u32,
    pub store_term_vector: bool,
    pub omit_norms: bool,
    pub store_payloads: bool,
    pub soft_deletes: bool,
    pub parent_field: bool,
    /// Doc-values skip index present (changes the layout of metadata
    /// entries).
    pub doc_values_skip_index: bool,
    /// 0 none, 1 documents, up to 4 documents, frequencies, positions and
    /// offsets.
    pub index_options: u8,
    /// 0 none, 1 NUMERIC, 2 BINARY, 3 SORTED, 4 SORTED_SET, 5
    /// SORTED_NUMERIC.
    pub doc_values_type: u8,
    pub doc_values_gen: i64,
    pub attributes: Attributes,
    pub point_dimension_count: u32,
    pub point_index_dimension_count: u32,
    pub point_num_bytes: u32,
    /// 0 when the field has no vectors.
    pub vector_dimension: u32,
    /// 0 bytes, 1 floats; meaningful only with vectors.
    pub vector_encoding: u8,
    /// 0 Euclidean, 1 dot product, 2 cosine, 3 maximum inner product.
    pub vector_similarity: u8,
}

/// A field record as mathematical values.
pub struct FnmModel {
    pub name: Seq<char>,
    pub number: u32,
    pub store_term_vector: bool,
    pub omit_norms: bool,
    pub store_payloads: bool,
    pub soft_deletes: bool,
    pub parent_field: bool,
    pub doc_values_skip_index: bool,
    pub index_options: u8,
    pub doc_values_type: u8,
    pub doc_values_gen: i64,
    pub attributes: Seq<(Seq<char>, Seq<char>)>,
    pub point_dimension_count: u32,
    pub point_index_dimension_count: u32,
    pub point_num_bytes: u32,
    pub vector_dimension: u32,
    pub vector_encoding: u8,
    pub vector_similarity: u8,
}

impl View for FnmField {
    type V = FnmModel;

    open spec fn view(&self) -> FnmModel {
        FnmModel {
            name: self.name@,
            number: self.number,
            store_term_vector: self.store_term_vector,
            omit_norms: self.omit_norms,
            store_payloads: self.store_payloads,
            soft_deletes: self.soft_deletes,
            parent_field: self.parent_field,
            doc_values_skip_index: self.doc_values_skip_index,
            index_options: self.index_options,
            doc_values_type: self.doc_values_type,
            doc_values_gen: self.doc_values_gen,
            attributes: self.attributes@,
            point_dimension_count: self.point_dimension_count,
            point_index_dimension_count: self.point_index_dimension_count,
            point_num_bytes: self.point_num_bytes,
            vector_dimension: self.vector_dimension,
            vector_encoding: self.vector_encoding,
            vector_similarity: self.vector_similarity,
        }
    }
}

/// What a record says before its attributes.
pub struct FieldHead {
    pub name: Seq<char>,
    pub number: u32,
    pub bits: u8,
    pub index_options: u8,
    pub doc_values_type: u8,
    pub skip_byte: u8,
    pub doc_values_gen: i64,
}

/// Flag number `k` of a record.
pub open spec fn flag(bits: u8, k: nat) -> bool {
    (bits as nat / vstd::arithmetic::power2::pow2(k)) % 2 == 1
}

/// Name, number, flags, options, types and generation.
pub open spec fn parse_field_head(b: Seq<u8>, p: nat, version: i32) -> Parsed<FieldHead> {
    match parse_string(b, p) {
        Err(k) => Err(k),
        Ok((name, p1)) => match parse_vint(b, p1) {
            Err(k) => Err(k),
            Ok((number, p2)) => {
                let n = if version >= FORMAT_DOCVALUE_SKIPPER {
                    4nat
                } else {
                    3nat
                };
                if number < 0 || p2 + n > b.len() || b[p2 as int] >= 64 || b[p2 as int + 1] > 4 || b[p2 as int + 2] > 5 {
                    Err(ErrorKind::Corrupt)
                } else {
                    match parse_i64(b, p2 + n) {
                        Err(k) => Err(k),
                        Ok((doc_values_gen, q)) => Ok(
                            (
                                FieldHead {
                                    name,
                                    number: number as u32,
                                    bits: b[p2 as int],
                                    index_options: b[p2 as int + 1],
                                    doc_values_type: b[p2 as int + 2],
                                    skip_byte: if n == 4 {
                                        b[p2 as int + 3]
                                    } else {
                                        0
                                    },
                                    doc_values_gen,
                                },
                                q,
                            ),
                        ),
                    }
                }
            },
        },
    }
}

/// `n` attributes, on top of `acc`.
pub open spec fn parse_pairs(b: Seq<u8>, p: nat, n: nat, acc: Seq<(Seq<char>, Seq<char>)>) -> Parsed<
    Seq<(Seq<char>, Seq<char>)>,
>
    decreases n,
{
    if n == 0 {
        Ok((acc, p))
    } else {
        match parse_string(b, p) {
            Err(k) => Err(k),
            Ok((key, p1)) => match parse_string(b, p1) {
                Err(k) => Err(k),
                Ok((value, p2)) => parse_pairs(b, p2, (n - 1) as nat, inserted(acc, key, value)),
            },
        }
    }
}

/// The attributes of a record, behind their count.
pub open spec fn parse_attributes(b: Seq<u8>, p: nat) -> Parsed<Seq<(Seq<char>, Seq<char>)>> {
    match parse_vint(b, p) {
        Err(k) => Err(k),
        Ok((n, p1)) => parse_pairs(
            b,
            p1,
            if n > 0 {
                n as nat
            } else {
                0
            },
            Seq::empty(),
        ),
    }
}

/// What a record says of points and vectors.
pub struct FieldShape {
    pub point_dimension_count: u32,
    pub point_index_dimension_count: u32,
    pub point_num_bytes: u32,
    pub vector_dimension: u32,
    pub vector_encoding: u8,
    pub vector_similarity: u8,
}

/// Index dimensions and bytes per dimension, where there are points.
pub open spec fn parse_points(b: Seq<u8>, p: nat, dimensions: i32) -> Parsed<(i32, i32)> {
    if dimensions == 0 {
        Ok(((0, 0), p))
    } else {
        match parse_vint(b, p) {
            Err(k) => Err(k),
            Ok((x, p1)) => match parse_vint(b, p1) {
                Err(k) => Err(k),
                Ok((y, p2)) => Ok(((x, y), p2)),
            },
        }
    }
}

pub open spec fn parse_shape(b: Seq<u8>, p: nat) -> Parsed<FieldShape> {
    match parse_vint(b, p) {
        Err(k) => Err(k),
        Ok((dimensions, p1)) => match parse_points(b, p1, dimensions) {
            Err(k) => Err(k),
            Ok(((x, y), p2)) => match parse_vint(b, p2) {
                Err(k) => Err(k),
                Ok((vector_dimension, p3)) => if p3 + 2 > b.len() {
                    Err(ErrorKind::Corrupt)
                } else {
                    Ok(
                        (
                            FieldShape {
                                point_dimension_count: dimensions as u32,
                                point_index_dimension_count: x as u32,
                                point_num_bytes: y as u32,
                                vector_dimension: vector_dimension as u32,
                                vector_encoding: b[p3 as int],
                                vector_similarity: b[p3 as int + 1],
                            },
                            p3 + 2,
                        ),
                    )
                },
            },
        },
    }
}

/// The record that head, attributes and shape make.
pub open spec fn field_model(h: FieldHead, attributes: Seq<(Seq<char>, Seq<char>)>, s: FieldShape) -> FnmModel {
    FnmModel {
        name: h.name,
        number: h.number,
        store_term_vector: flag(h.bits, 0),
        omit_norms: flag(h.bits, 1),
        store_payloads: flag(h.bits, 2),
        soft_deletes: flag(h.bits, 3),
        parent_field: flag(h.bits, 4),
        doc_values_skip_index: flag(h.bits, 5) || h.skip_byte != 0,
        index_options: h.index_options,
        doc_values_type: h.doc_values_type,
        doc_values_gen: h.doc_values_gen,
        attributes,
        point_dimension_count: s.point_dimension_count,
        point_index_dimension_count: s.point_index_dimension_count,
        point_num_bytes: s.point_num_bytes,
        vector_dimension: s.vector_dimension,
        vector_encoding: s.vector_encoding,
        vector_similarity: s.vector_similarity,
    }
}

/// One record.
pub open spec fn parse_field(b: Seq<u8>, p: nat, version: i32) -> Parsed<FnmModel> {
    match parse_field_head(b, p, version) {
        Err(k) => Err(k),
        Ok((h, p1)) => match parse_attributes(b, p1) {
            Err(k) => Err(k),
            Ok((attributes, p2)) => match parse_shape(b, p2) {
                Err(k) => Err(k),
                Ok((s, q)) => Ok((field_model(h, attributes, s), q)),
            },
        },
    }
}

/// `n` records.
pub open spec fn parse_fields(b: Seq<u8>, p: nat, version: i32, n: nat) -> std::result::Result<Seq<FnmModel>, ErrorKind>
    decreases n,
{
    if n == 0 {
        Ok(Seq::empty())
    } else {
        match parse_field(b, p, version) {
            Err(k) => Err(k),
            Ok((first, q)) => match parse_fields(b, q, version, (n - 1) as nat) {
                Err(k) => Err(k),
                Ok(rest) => Ok(seq![first] + rest),
            },
        }
    }
}

/// The records of a whole file.
pub open spec fn parse_fnm(b: Seq<u8>) -> std::result::Result<Seq<FnmModel>, ErrorKind> {
    match parse_index_header(b, CODEC_NAME@, FORMAT_START, FORMAT_CURRENT) {
        Err(k) => Err(k),
        Ok(h) => if !footer_valid(b) {
            Err(ErrorKind::Corrupt)
        } else {
            match parse_vint(b, h.length) {
                Err(k) => Err(k),
                Ok((n, p)) => if n < 0 {
                    Err(ErrorKind::Corrupt)
                } else {
                    parse_fields(b, p, h.version, n as nat)
                },
            }
        },
    }
}

/// Records as mathematical values.
pub open spec fn fields_model(fields: Seq<FnmField>) -> Seq<FnmModel> {
    Seq::new(fields.len(), |i: int| fields[i]@)
}

/// What was read before the attributes.
struct Head {
    name: String,
    number: u32,
    bits: u8,
    index_options: u8,
    doc_values_type: u8,
    skip_byte: u8,
    doc_values_gen: i64,
}

impl Head {
    spec fn model(&self) -> FieldHead {
        FieldHead {
            name: self.name@,
            number: self.number,
            bits: self.bits,
            index_options: self.index_options,
            doc_values_type: self.doc_values_type,
            skip_byte: self.skip_byte,
            doc_values_gen: self.doc_values_gen,
        }
    }
}

fn read_head(c: &mut Cursor<'_>, version: i32) -> (r: Result<Head>)
    ensures
        final(c).data() == old(c).data(),
        match parse_field_head(old(c).data(), old(c).offset(), version) {
            Ok((h, q)) => (r matches Ok(w) && w.model() == h) && final(c).offset() == q,
            Err(k) => r matches Err(e) && e.kind() == k,
        },
{
    let name: String = c.string()?;
    let number: i32 = c.vint()?;
    if number < 0 {
        return Err(Error::corrupt("negative field number"));
    }
    let bits: u8 = c.u8()?;
    if bits >= 64 {
        return Err(Error::corrupt("reserved field bits set"));
    }
    let index_options: u8 = c.u8()?;
    if index_options > 4 {
        return Err(Error::corrupt("invalid index options byte"));
    }
    let doc_values_type: u8 = c.u8()?;
    if doc_values_type > 5 {
        return Err(Error::corrupt("invalid doc values byte"));
    }
    let skip_byte: u8 = if version >= FORMAT_DOCVALUE_SKIPPER {
        c.u8()?
    } else {
        0
    };
    let doc_values_gen: i64 = c.le_i64()?;
    Ok(Head { name, number: number as u32, bits, index_options, doc_values_type, skip_byte, doc_values_gen })
}

fn read_attributes(c: &mut Cursor<'_>) -> (r: Result<Attributes>)
    ensures
        final(c).data() == old(c).data(),
        match parse_attributes(old(c).data(), old(c).offset()) {
            Ok((a, q)) => (r matches Ok(w) && w@ == a && keys_sorted(w@)) && final(c).offset() == q,
            Err(k) => r matches Err(e) && e.kind() == k,
        },
{
    let n: i32 = c.vint()?;
    let mut attributes: Attributes = Attributes::new();
    let ghost b = c.data();
    let ghost whole = parse_attributes(b, old(c).offset());
    let mut i: i32 = 0;
    while i < n
        invariant
            n > 0 ==> i <= n,
            n <= 0 ==> i == 0,
            i >= 0,
            b == old(c).data(),
            c.data() == b,
            keys_sorted(attributes@),
            whole == parse_attributes(b, old(c).offset()),
            whole == parse_pairs(
                b,
                c.offset(),
                if n > 0 {
                    (n - i) as nat
                } else {
                    0
                },
                attributes@,
            ),
        decreases n - i,
    {
        let key: String = c.string()?;
        let value: String = c.string()?;
        attributes.insert(key, value);
        i = i + 1;
    }
    Ok(attributes)
}

/// What was read behind the attributes.
struct Shape {
    point_dimension_count: u32,
    point_index_dimension_count: u32,
    point_num_bytes: u32,
    vector_dimension: u32,
    vector_encoding: u8,
    vector_similarity: u8,
}

impl Shape {
    spec fn model(&self) -> FieldShape {
        FieldShape {
            point_dimension_count: self.point_dimension_count,
            point_index_dimension_count: self.point_index_dimension_count,
            point_num_bytes: self.point_num_bytes,
            vector_dimension: self.vector_dimension,
            vector_encoding: self.vector_encoding,
            vector_similarity: self.vector_similarity,
        }
    }
}

fn read_shape(c: &mut Cursor<'_>) -> (r: Result<Shape>)
    ensures
        final(c).data() == old(c).data(),
        match parse_shape(old(c).data(), old(c).offset()) {
            Ok((s, q)) => (r matches Ok(w) && w.model() == s) && final(c).offset() == q,
            Err(k) => r matches Err(e) && e.kind() == k,
        },
{
    let dimensions: i32 = c.vint()?;
    let (x, y): (i32, i32) = if dimensions != 0 {
        let x: i32 = c.vint()?;
        let y: i32 = c.vint()?;
        (x, y)
    } else {
        (0, 0)
    };
    let vector_dimension: i32 = c.vint()?;
    let vector_encoding: u8 = c.u8()?;
    let vector_similarity: u8 = c.u8()?;
    Ok(
        Shape {
            point_dimension_count: dimensions as u32,
            point_index_dimension_count: x as u32,
            point_num_bytes: y as u32,
            vector_dimension: vector_dimension as u32,
            vector_encoding,
            vector_similarity,
        },
    )
}

/// Whether flag number `k` is set.
fn has_flag(bits: u8, k: u32) -> (r: bool)
    requires
        k < 8,
    ensures
        r == flag(bits, k as nat),
{
    let d: u64 = crate::direct::two_to(k);
    proof {
        vstd::arithmetic::power2::lemma_pow2_pos(k as nat);
    }
    (bits as u64 / d) % 2 == 1
}

fn read_field(c: &mut Cursor<'_>, version: i32) -> (r: Result<FnmField>)
    ensures
        final(c).data() == old(c).data(),
        match parse_field(old(c).data(), old(c).offset(), version) {
            Ok((m, q)) => (r matches Ok(w) && w@ == m && keys_sorted(w.attributes@)) && final(c).offset() == q,
            Err(k) => r matches Err(e) && e.kind() == k,
        },
{
    let h: Head = read_head(c, version)?;
    let attributes: Attributes = read_attributes(c)?;
    let s: Shape = read_shape(c)?;
    Ok(
        FnmField {
            store_term_vector: has_flag(h.bits, 0),
            omit_norms: has_flag(h.bits, 1),
            store_payloads: has_flag(h.bits, 2),
            soft_deletes: has_flag(h.bits, 3),
            parent_field: has_flag(h.bits, 4),
            doc_values_skip_index: has_flag(h.bits, 5) || h.skip_byte != 0,
            name: h.name,
            number: h.number,
            index_options: h.index_options,
            doc_values_type: h.doc_values_type,
            doc_values_gen: h.doc_values_gen,
            attributes,
            point_dimension_count: s.point_dimension_count,
            point_index_dimension_count: s.point_index_dimension_count,
            point_num_bytes: s.point_num_bytes,
            vector_dimension: s.vector_dimension,
            vector_encoding: s.vector_encoding,
            vector_similarity: s.vector_similarity,
        },
    )
}

/// Every record's attributes are in key order.
pub open spec fn attributes_sorted(fields: Seq<FnmField>) -> bool {
    forall|i: int| 0 <= i < fields.len() ==> keys_sorted((#[trigger] fields[i]).attributes@)
}

/// Parse a whole field-infos file (header and footer verified).
pub fn parse(bytes: &[u8]) -> (r: Result<Vec<FnmField>>)
    ensures
        match parse_fnm(bytes@) {
            Ok(m) => r matches Ok(v) && fields_model(v@) == m && attributes_sorted(v@),
            Err(k) => r matches Err(e) && e.kind() == k,
        },
{
    let header: IndexHeader = read_index_header(bytes, CODEC_NAME, FORMAT_START, FORMAT_CURRENT)?;
    verify_footer(bytes)?;
    let version: i32 = header.version;
    let mut c: Cursor<'_> = Cursor::at(bytes, header.length);
    let n: i32 = c.vint()?;
    if n < 0 {
        return Err(Error::corrupt("negative field count"));
    }
    let mut fields: Vec<FnmField> = Vec::new();
    let ghost b = bytes@;
    let ghost whole = parse_fields(b, c.offset(), version, n as nat);
    proof {
        assert(fields_model(fields@) =~= Seq::<FnmModel>::empty());
        if whole is Ok {
            assert(Seq::<FnmModel>::empty() + whole->Ok_0 =~= whole->Ok_0);
        }
    }
    let mut i: i32 = 0;
    while i < n
        invariant
            0 <= i <= n,
            b == bytes@,
            c.data() == b,
            attributes_sorted(fields@),
            whole == parse_fnm(b),
            match parse_fields(b, c.offset(), version, (n - i) as nat) {
                Ok(rest) => whole == Ok::<Seq<FnmModel>, ErrorKind>(fields_model(fields@) + rest),
                Err(k) => whole == Err::<Seq<FnmModel>, ErrorKind>(k),
            },
        decreases n - i,
    {
        let ghost before = fields_model(fields@);
        let field: FnmField = read_field(&mut c, version)?;
        let ghost first = field@;
        fields.push(field);
        proof {
            assert(fields_model(fields@) =~= before.push(first));
            let rest = parse_fields(b, c.offset(), version, (n - i - 1) as nat);
            if rest is Ok {
                assert(before + (seq![first] + rest->Ok_0) =~= fields_model(fields@) + rest->Ok_0);
            }
        }
        i = i + 1;
    }
    assert(fields_model(fields@) + Seq::<FnmModel>::empty() =~= fields_model(fields@));
    Ok(fields)
}

} // verus!
