//! Whole-file assembly of a metadata and data file pair: headers, fields,
//! end mark, footers.

use vstd::prelude::*;
use vstd::utf8::encode_utf8;
use crate::bytes::{le_i32, push_le_i32};
use crate::consts;
use crate::cursor::{index_header_bytes, with_footer, write_footer, write_index_header, SEGMENT_ID_LENGTH};
use crate::dict::{dict_fits, no_table, streams_decompress};
use crate::disi::strictly_increasing;
use crate::encode::{
    binary_data, binary_meta, encode_binary_field, encode_sorted_field, encode_sorted_numeric_field,
    encode_sorted_set_field, flat, flat_terms, joined, lists, lists_data, multi_valued,
    ordered_lists, set_dictionary, set_ordinals, sorted_data, sorted_meta, sorted_numeric_meta,
    sorted_set_data, sorted_set_meta, term_lists,
};
use crate::error::{ErrorKind, Result};
use crate::lexicon::{dictionary_of, is_dictionary, slices};
use crate::write::{
    concatenated, docs_acceptable, encode_numeric_field, encode_numeric_field_dense_chunks,
    encode_numeric_field_with, entry_data, numeric_meta, EncodedField, NumericEncoder,
};

verus! {

/// Builds one metadata and data file pair field by field.
pub struct DocValuesFileBuilder {
    dvm: Vec<u8>,
    dvd: Vec<u8>,
}

impl DocValuesFileBuilder {
    /// The metadata bytes so far.
    pub closed spec fn meta_bytes(&self) -> Seq<u8> {
        self.dvm@
    }

    /// The data bytes so far.
    pub closed spec fn data_bytes(&self) -> Seq<u8> {
        self.dvd@
    }

    /// Both files grew by a field.
    pub open spec fn grew(&self, before: &DocValuesFileBuilder, meta: Seq<u8>, data: Seq<u8>) -> bool {
        &&& self.meta_bytes() == before.meta_bytes() + meta
        &&& self.data_bytes() == before.data_bytes() + data
    }

    /// `suffix` is the per-field format suffix of these files (for example
    /// `"Lucene90_0"`); empty when unwrapped.
    pub fn new(segment_id: &[u8; SEGMENT_ID_LENGTH], suffix: &str) -> (r: DocValuesFileBuilder)
        requires
            encode_utf8(suffix@).len() < 256,
        ensures
            r.meta_bytes() == index_header_bytes(
                encode_utf8(consts::META_CODEC@),
                consts::VERSION,
                segment_id@,
                encode_utf8(suffix@),
            ),
            r.data_bytes() == index_header_bytes(
                encode_utf8(consts::DATA_CODEC@),
                consts::VERSION,
                segment_id@,
                encode_utf8(suffix@),
            ),
    {
        let mut dvm: Vec<u8> = Vec::new();
        let mut dvd: Vec<u8> = Vec::new();
        proof {
            lemma_codec_names();
        }
        write_index_header(&mut dvm, consts::META_CODEC, consts::VERSION, segment_id, suffix);
        write_index_header(&mut dvd, consts::DATA_CODEC, consts::VERSION, segment_id, suffix);
        let r: DocValuesFileBuilder = DocValuesFileBuilder { dvm, dvd };
        assert(r.meta_bytes() =~= index_header_bytes(
            encode_utf8(consts::META_CODEC@),
            consts::VERSION,
            segment_id@,
            encode_utf8(suffix@),
        ));
        assert(r.data_bytes() =~= index_header_bytes(
            encode_utf8(consts::DATA_CODEC@),
            consts::VERSION,
            segment_id@,
            encode_utf8(suffix@),
        ));
        r
    }

    fn append(&mut self, field: &EncodedField)
        ensures
            final(self).grew(old(self), field.meta@, field.data@),
    {
        self.dvm.extend_from_slice(field.meta.as_slice());
        self.dvd.extend_from_slice(field.data.as_slice());
        assert(self.dvm@ =~= old(self).dvm@ + field.meta@);
        assert(self.dvd@ =~= old(self).dvd@ + field.data@);
    }

    /// Append one NUMERIC field. Fields must be added in field-number order.
    pub fn add_numeric(&mut self, field_number: i32, docs: &[u32], values: &[i64], max_doc: u32) -> (r: Result<()>)
        ensures
            docs_acceptable(docs@, values@.len(), max_doc as nat) ==> r is Ok && final(self).grew(
                old(self),
                numeric_meta(field_number, values@, docs@, max_doc as nat, old(self).data_bytes().len()),
                entry_data(values@, docs@, max_doc as nat),
            ),
            !docs_acceptable(docs@, values@.len(), max_doc as nat) ==> (r matches Err(e) && e.kind()
                == ErrorKind::InvalidArgument) && *final(self) == *old(self),
    {
        let encoded: EncodedField = encode_numeric_field(field_number, docs, values, max_doc, self.dvd.len() as u64)?;
        self.append(&encoded);
        Ok(())
    }

    /// As [`add_numeric`](Self::add_numeric), with an explicit executor.
    pub fn add_numeric_with<E: NumericEncoder>(
        &mut self,
        encoder: &E,
        field_number: i32,
        docs: &[u32],
        values: &[i64],
        max_doc: u32,
    ) -> (r: Result<()>)
        ensures
            docs_acceptable(docs@, values@.len(), max_doc as nat) && encoder.reliable() ==> r is Ok,
            r is Ok ==> docs_acceptable(docs@, values@.len(), max_doc as nat) && final(self).grew(
                old(self),
                numeric_meta(field_number, values@, docs@, max_doc as nat, old(self).data_bytes().len()),
                entry_data(values@, docs@, max_doc as nat),
            ),
            r is Err ==> *final(self) == *old(self),
            !docs_acceptable(docs@, values@.len(), max_doc as nat) ==> (r matches Err(e) && e.kind()
                == ErrorKind::InvalidArgument),
    {
        let encoded: EncodedField = encode_numeric_field_with(
            encoder,
            field_number,
            docs,
            values,
            max_doc,
            self.dvd.len() as u64,
        )?;
        self.append(&encoded);
        Ok(())
    }

    /// Append one NUMERIC field in which every document has a value,
    /// straight from a list of slices.
    pub fn add_numeric_dense_chunks<E: NumericEncoder>(
        &mut self,
        encoder: &E,
        field_number: i32,
        chunks: &[&[i64]],
        max_doc: u32,
    ) -> (r: Result<()>)
        ensures
            concatenated(chunks@).len() == max_doc && encoder.reliable() ==> r is Ok,
            r is Ok ==> concatenated(chunks@).len() == max_doc && final(self).grew(
                old(self),
                numeric_meta(
                    field_number,
                    concatenated(chunks@),
                    Seq::empty(),
                    max_doc as nat,
                    old(self).data_bytes().len(),
                ),
                entry_data(concatenated(chunks@), Seq::empty(), max_doc as nat),
            ),
            r is Err ==> *final(self) == *old(self),
            concatenated(chunks@).len() != max_doc ==> (r matches Err(e) && e.kind() == ErrorKind::InvalidArgument),
    {
        let encoded: EncodedField = encode_numeric_field_dense_chunks(
            encoder,
            field_number,
            chunks,
            max_doc,
            self.dvd.len() as u64,
        )?;
        self.append(&encoded);
        Ok(())
    }

    /// Append one SORTED field (single term per document with a value).
    pub fn add_sorted_with<E: NumericEncoder>(
        &mut self,
        encoder: &E,
        field_number: i32,
        docs: &[u32],
        terms_per_doc: &[&[u8]],
        max_doc: u32,
    ) -> (r: Result<()>)
        requires
            strictly_increasing(docs@),
            docs@.len() <= u32::MAX,
        ensures
            docs@.len() == terms_per_doc@.len() && dict_fits(dictionary_of(slices(terms_per_doc@)))
                && encoder.reliable() ==> r is Ok,
            docs@.len() != terms_per_doc@.len() ==> (r matches Err(e) && e.kind() == ErrorKind::InvalidArgument),
            docs@.len() == terms_per_doc@.len() && !dict_fits(dictionary_of(slices(terms_per_doc@))) ==> (r matches Err(e) && (encoder.reliable() ==> e.kind() == ErrorKind::InvalidArgument)),
            r is Err ==> *final(self) == *old(self),
            r is Ok ==> {
                let t = slices(terms_per_doc@);
                &&& final(self).grew(
                    old(self),
                    sorted_meta(field_number, t, docs@, max_doc as nat, old(self).data_bytes().len()),
                    sorted_data(t, docs@, max_doc as nat),
                )
                &&& is_dictionary(dictionary_of(t), t)
                &&& streams_decompress(dictionary_of(t), 0, no_table())
            },
    {
        let encoded: EncodedField = encode_sorted_field(
            encoder,
            field_number,
            docs,
            terms_per_doc,
            max_doc,
            self.dvd.len() as u64,
        )?;
        self.append(&encoded);
        Ok(())
    }

    /// Append one BINARY field.
    pub fn add_binary(&mut self, field_number: i32, docs: &[u32], values: &[&[u8]], max_doc: u32) -> (r: Result<()>)
        requires
            strictly_increasing(docs@),
            docs@.len() <= u32::MAX,
        ensures
            docs@.len() == values@.len() && joined(slices(values@), values@.len()).len() <= i64::MAX ==> r is Ok
                && final(self).grew(
                old(self),
                binary_meta(field_number, slices(values@), docs@, max_doc as nat, old(self).data_bytes().len()),
                binary_data(slices(values@), docs@, max_doc as nat),
            ),
            docs@.len() != values@.len() || joined(slices(values@), values@.len()).len() > i64::MAX ==> (r matches Err(e)
                && e.kind() == ErrorKind::InvalidArgument) && *final(self) == *old(self),
    {
        let encoded: EncodedField = encode_binary_field(field_number, docs, values, max_doc, self.dvd.len() as u64)?;
        self.append(&encoded);
        Ok(())
    }

    /// Append one SORTED_NUMERIC field (several values per document
    /// allowed).
    pub fn add_sorted_numeric_with<E: NumericEncoder>(
        &mut self,
        encoder: &E,
        field_number: i32,
        docs: &[u32],
        values_per_doc: &[Vec<i64>],
        max_doc: u32,
    ) -> (r: Result<()>)
        requires
            strictly_increasing(docs@),
            docs@.len() <= u32::MAX,
        ensures
            docs@.len() != values_per_doc@.len() ==> (r matches Err(e) && e.kind() == ErrorKind::InvalidArgument),
            r is Err ==> *final(self) == *old(self),
            ({
                let v = ordered_lists(lists(values_per_doc@));
                let fits = flat(v, v.len()).len() <= i64::MAX;
                &&& docs@.len() == values_per_doc@.len() && !fits ==> (r matches Err(e) && (encoder.reliable() ==> e.kind() == ErrorKind::InvalidArgument))
                &&& docs@.len() == values_per_doc@.len() && fits && encoder.reliable() ==> r is Ok
                &&& r is Ok ==> final(self).grew(
                    old(self),
                    sorted_numeric_meta(field_number, v, docs@, max_doc as nat, old(self).data_bytes().len()),
                    lists_data(v, docs@, max_doc as nat, multi_valued(v)),
                )
            }),
    {
        let encoded: EncodedField = encode_sorted_numeric_field(
            encoder,
            field_number,
            docs,
            values_per_doc,
            max_doc,
            self.dvd.len() as u64,
        )?;
        self.append(&encoded);
        Ok(())
    }

    /// Append one SORTED_SET field (several terms per document allowed).
    pub fn add_sorted_set_with<E: NumericEncoder>(
        &mut self,
        encoder: &E,
        field_number: i32,
        docs: &[u32],
        terms_per_doc: &[Vec<Vec<u8>>],
        max_doc: u32,
    ) -> (r: Result<()>)
        requires
            strictly_increasing(docs@),
            docs@.len() <= u32::MAX,
        ensures
            docs@.len() != terms_per_doc@.len() ==> (r matches Err(e) && e.kind() == ErrorKind::InvalidArgument),
            r is Err ==> *final(self) == *old(self),
            ({
                let t = term_lists(terms_per_doc@);
                let ords = set_ordinals(t);
                let fits = dict_fits(set_dictionary(t)) && flat(ords, ords.len()).len() <= i64::MAX;
                &&& docs@.len() == terms_per_doc@.len() && !fits ==> (r matches Err(e) && (encoder.reliable() ==> e.kind() == ErrorKind::InvalidArgument))
                &&& docs@.len() == terms_per_doc@.len() && fits && encoder.reliable() ==> r is Ok
                &&& r is Ok ==> {
                    &&& final(self).grew(
                        old(self),
                        sorted_set_meta(field_number, t, docs@, max_doc as nat, old(self).data_bytes().len()),
                        sorted_set_data(t, docs@, max_doc as nat),
                    )
                    &&& is_dictionary(set_dictionary(t), flat_terms(t, t.len()))
                    &&& streams_decompress(set_dictionary(t), 0, no_table())
                }
            }),
    {
        let encoded: EncodedField = encode_sorted_set_field(
            encoder,
            field_number,
            docs,
            terms_per_doc,
            max_doc,
            self.dvd.len() as u64,
        )?;
        self.append(&encoded);
        Ok(())
    }

    /// Close both files: end mark of the metadata, and footers. Returns the
    /// metadata file and the data file.
    pub fn finish(self) -> (r: (Vec<u8>, Vec<u8>))
        ensures
            r.0@ == with_footer(self.meta_bytes() + le_i32((-1) as i32)),
            r.1@ == with_footer(self.data_bytes()),
    {
        let mut dvm: Vec<u8> = self.dvm;
        let mut dvd: Vec<u8> = self.dvd;
        push_le_i32(&mut dvm, -1);
        write_footer(&mut dvm);
        write_footer(&mut dvd);
        (dvm, dvd)
    }
}

/// The codec names are short.
pub proof fn lemma_codec_names()
    ensures
        encode_utf8(consts::META_CODEC@).len() <= i32::MAX,
        encode_utf8(consts::DATA_CODEC@).len() <= i32::MAX,
{
    reveal_strlit("Lucene90DocValuesMetadata");
    reveal_strlit("Lucene90DocValuesData");
    vstd::utf8::is_ascii_chars_encode_utf8(consts::META_CODEC@);
    vstd::utf8::is_ascii_chars_encode_utf8(consts::DATA_CODEC@);
}

} // verus!
