//! Live documents (`.liv`): a header whose suffix is the delete generation
//! in base 36, one bit per document (1 is live) in little-endian longs, a
//! footer.

use vstd::prelude::*;
use vstd::string::StringExecFns;
use vstd::utf8::{encode_utf8, is_ascii_chars_encode_utf8};
use crate::bitset::{bit_count, count_bits, law_bit_count, lemma_bit_count_bound, members_below, stands_for};
use crate::bytes::{le_bytes, lemma_le_bytes_len, lemma_signed_casts};
use crate::cursor::{
    footer_valid, i64_at, index_header_bytes, law_footer_round_trip, law_header_round_trip, lemma_stands_split,
    parse_index_header, read_index_header, stands_at, verify_footer, with_footer, Cursor, IndexHeader,
};
use crate::direct::ceil_div;
use crate::error::{Error, ErrorKind, Result};
use crate::roundtrip::lemma_i64_at;
use crate::text::{same_bytes, same_text};

verus! {

pub const CODEC_NAME: &'static str = "Lucene90LiveDocs";

pub const VERSION: i32 = 0;

pub const EXTENSION: &'static str = "liv";

/// The digit of a number below 36.
pub open spec fn base36_digit(d: nat) -> char {
    if d < 10 {
        (48 + d) as u8 as char
    } else {
        (87 + d) as u8 as char
    }
}

/// A number in base 36, lower case, without leading zeros.
pub open spec fn base36_text(v: nat) -> Seq<char>
    decreases v,
{
    if v < 36 {
        seq![base36_digit(v)]
    } else {
        base36_text(v / 36).push(base36_digit(v % 36))
    }
}

/// The digit of a number below 36, as text.
fn digit_text(d: u8) -> (r: &'static str)
    requires
        d < 36,
    ensures
        r@ == seq![base36_digit(d as nat)],
{
    proof {
        reveal_strlit("0");
        reveal_strlit("1");
        reveal_strlit("2");
        reveal_strlit("3");
        reveal_strlit("4");
        reveal_strlit("5");
        reveal_strlit("6");
        reveal_strlit("7");
        reveal_strlit("8");
        reveal_strlit("9");
        reveal_strlit("a");
        reveal_strlit("b");
        reveal_strlit("c");
        reveal_strlit("d");
        reveal_strlit("e");
        reveal_strlit("f");
        reveal_strlit("g");
        reveal_strlit("h");
        reveal_strlit("i");
        reveal_strlit("j");
        reveal_strlit("k");
        reveal_strlit("l");
        reveal_strlit("m");
        reveal_strlit("n");
        reveal_strlit("o");
        reveal_strlit("p");
        reveal_strlit("q");
        reveal_strlit("r");
        reveal_strlit("s");
        reveal_strlit("t");
        reveal_strlit("u");
        reveal_strlit("v");
        reveal_strlit("w");
        reveal_strlit("x");
        reveal_strlit("y");
        reveal_strlit("z");
    }
    let digits: [&'static str; 36] = [
        "0",
        "1",
        "2",
        "3",
        "4",
        "5",
        "6",
        "7",
        "8",
        "9",
        "a",
        "b",
        "c",
        "d",
        "e",
        "f",
        "g",
        "h",
        "i",
        "j",
        "k",
        "l",
        "m",
        "n",
        "o",
        "p",
        "q",
        "r",
        "s",
        "t",
        "u",
        "v",
        "w",
        "x",
        "y",
        "z",
    ];
    assert(digits@[d as int]@ =~= seq![base36_digit(d as nat)]);
    digits[d as usize]
}

/// A number in base 36.
pub fn base36_unsigned(v: u64) -> (r: String)
    ensures
        r@ == base36_text(v as nat),
    decreases v,
{
    let digit: &'static str = digit_text((v % 36) as u8);
    if v < 36 {
        return digit.to_owned();
    }
    let mut s: String = base36_unsigned(v / 36);
    let ghost before = s@;
    s.append(digit);
    assert(s@ =~= before.push(base36_digit((v % 36) as nat)));
    s
}

/// A non-negative generation in base 36.
pub fn base36(v: i64) -> (r: String)
    requires
        v >= 0,
    ensures
        r@ == base36_text(v as nat),
{
    base36_unsigned(v as u64)
}

/// The name of a segment's live-docs file.
pub open spec fn live_docs_name(segment: Seq<char>, del_gen: nat) -> Seq<char> {
    segment + "_"@ + base36_text(del_gen) + ".liv"@
}

/// File name for a segment and delete generation.
pub fn file_name(segment: &str, del_gen: i64) -> (r: String)
    requires
        del_gen >= 0,
    ensures
        r@ == live_docs_name(segment@, del_gen as nat),
{
    let mut s: String = segment.to_owned();
    s.append("_");
    s.append(base36(del_gen).as_str());
    s.append(".liv");
    s
}

/// `n` little-endian longs from `p` on.
pub open spec fn words_at(b: Seq<u8>, p: nat, n: nat) -> Seq<u64> {
    Seq::new(n, |i: int| i64_at(b, (p + 8 * i) as nat) as u64)
}

/// How many of the first `n` documents are live.
pub open spec fn live_count(words: Seq<u64>, n: nat) -> nat {
    bit_count(words, n)
}

/// The live-docs words of a file, where it is that of the given segment and
/// generation and deletes as many documents as expected.
pub open spec fn live_docs_words(
    b: Seq<u8>,
    max_doc: u32,
    segment_id: Seq<u8>,
    del_gen: nat,
    del_count: i32,
) -> std::result::Result<Seq<u64>, ErrorKind> {
    match parse_index_header(b, CODEC_NAME@, VERSION, VERSION) {
        Err(k) => Err(k),
        Ok(h) => {
            let n = ceil_div(max_doc as nat, 64);
            let words = words_at(b, h.length, n);
            if h.segment_id != segment_id || h.suffix != base36_text(del_gen) || !footer_valid(b) || h.length + 8 * n
                > b.len() {
                Err(ErrorKind::Corrupt)
            } else if (max_doc - live_count(words, max_doc as nat)) as u32 as i32 != del_count {
                Err(ErrorKind::Corrupt)
            } else {
                Ok(words)
            }
        },
    }
}

/// Parse a live-docs file into words (lowest bit first, 1 is live),
/// verifying the segment id, the generation suffix, and that the number of
/// deleted documents is `del_count`.
pub fn read_live_docs(bytes: &[u8], max_doc: u32, segment_id: &[u8; 16], del_gen: i64, del_count: i32) -> (r: Result<
    Vec<u64>,
>)
    requires
        del_gen >= 0,
    ensures
        match live_docs_words(bytes@, max_doc, segment_id@, del_gen as nat, del_count) {
            Ok(w) => r matches Ok(v) && v@ == w,
            Err(k) => r matches Err(e) && e.kind() == k,
        },
{
    let header: IndexHeader = read_index_header(bytes, CODEC_NAME, VERSION, VERSION)?;
    if !same_bytes(header.segment_id.as_slice(), segment_id.as_slice()) {
        return Err(Error::corrupt(".liv segment id mismatch"));
    }
    if !same_text(header.suffix.as_str(), base36(del_gen).as_str()) {
        return Err(Error::corrupt(".liv generation suffix mismatch"));
    }
    verify_footer(bytes)?;
    let n: u32 = max_doc / 64 + if max_doc % 64 == 0 {
        0
    } else {
        1
    };
    assert(n == ceil_div(max_doc as nat, 64));
    let mut c: Cursor<'_> = Cursor::at(bytes, header.length);
    let mut words: Vec<u64> = Vec::new();
    let ghost b = bytes@;
    let ghost p = header.length as nat;
    let mut i: u32 = 0;
    while i < n
        invariant
            i <= n,
            b == bytes@,
            c.data() == b,
            c.offset() == p + 8 * i,
            i == 0 || c.offset() <= b.len(),
            words@ == words_at(b, p, i as nat),
            p + 8 * n > b.len() ==> live_docs_words(b, max_doc, segment_id@, del_gen as nat, del_count) == Err::<
                Seq<u64>,
                ErrorKind,
            >(ErrorKind::Corrupt),
        decreases n - i,
    {
        let w: i64 = c.le_i64()?;
        words.push(w as u64);
        i = i + 1;
        assert(words@ =~= words_at(b, p, i as nat));
    }
    proof {
        lemma_header_length(b, CODEC_NAME@, VERSION, VERSION);
    }
    let live: u32 = count_bits(words.as_slice(), max_doc);
    if (max_doc - live) as i32 != del_count {
        return Err(Error::corrupt(".liv deleted count mismatch"));
    }
    Ok(words)
}

/// A header ends within its file.
proof fn lemma_header_length(b: Seq<u8>, codec: Seq<char>, min_version: i32, max_version: i32)
    ensures
        parse_index_header(b, codec, min_version, max_version) matches Ok(h) ==> h.length <= b.len(),
{
}

/// The value of a digit in base 36.
pub open spec fn digit36(c: char) -> nat {
    if '0' <= c && c <= '9' {
        (c as nat - '0' as nat) as nat
    } else {
        (10 + c as nat - 'a' as nat) as nat
    }
}

/// The number that digits in base 36 spell.
pub open spec fn spelled36(s: Seq<char>) -> nat
    decreases s.len(),
{
    if s.len() == 0 {
        0
    } else {
        36 * spelled36(s.drop_last()) + digit36(s.last())
    }
}

/// A number in base 36 spells that number, in digits and lower-case letters,
/// without leading zeros. So different numbers have different texts.
pub proof fn law_base36_spells(v: nat)
    ensures
        spelled36(base36_text(v)) == v,
        base36_text(v).len() > 0,
        base36_text(v).len() > 1 ==> base36_text(v)[0] != '0',
        forall|i: int|
            0 <= i < base36_text(v).len() ==> ('0' <= #[trigger] base36_text(v)[i] && base36_text(v)[i] <= '9') || ('a'
                <= base36_text(v)[i] && base36_text(v)[i] <= 'z'),
        v > 0 ==> base36_text(v)[0] != '0',
    decreases v,
{
    let s = base36_text(v);
    if v < 36 {
        assert(s.drop_last() =~= Seq::<char>::empty());
        assert(spelled36(s.drop_last()) == 0);
    } else {
        law_base36_spells(v / 36);
        assert(s.drop_last() =~= base36_text(v / 36));
    }
}

/// The live-docs file of a segment is named by segment and generation: the
/// name starts with the segment's, ends in the extension, and what stands
/// between spells the generation.
pub proof fn law_live_docs_named(segment: Seq<char>, del_gen: nat)
    ensures
        ({
            let name = live_docs_name(segment, del_gen);
            let n = name.len() as int;
            &&& n > segment.len() + 5
            &&& name.take(segment.len() as int) == segment
            &&& name[segment.len() as int] == '_'
            &&& name.skip(n - 4) == seq!['.', 'l', 'i', 'v']
            &&& spelled36(name.subrange(segment.len() as int + 1, n - 4)) == del_gen
        }),
{
    let name = live_docs_name(segment, del_gen);
    let n = name.len() as int;
    reveal_strlit("_");
    reveal_strlit(".liv");
    law_base36_spells(del_gen);
    assert(name.take(segment.len() as int) =~= segment);
    assert(name.skip(n - 4) =~= seq!['.', 'l', 'i', 'v']);
    assert(name.subrange(segment.len() as int + 1, n - 4) =~= base36_text(del_gen));
}

/// The words of a live-docs file.
pub open spec fn words_bytes(words: Seq<u64>) -> Seq<u8>
    decreases words.len(),
{
    if words.len() == 0 {
        Seq::empty()
    } else {
        words_bytes(words.drop_last()) + le_bytes(words.last() as nat, 8)
    }
}

/// Each word stands at its place.
proof fn lemma_word_at(b: Seq<u8>, p: nat, words: Seq<u64>, i: int)
    requires
        stands_at(b, p, words_bytes(words)),
        0 <= i < words.len(),
    ensures
        words_bytes(words).len() == 8 * words.len(),
        i64_at(b, (p + 8 * i) as nat) as u64 == words[i],
    decreases words.len(),
{
    let before = words_bytes(words.drop_last());
    let last = le_bytes(words.last() as nat, 8);
    lemma_stands_split(b, p, before, last);
    lemma_le_bytes_len(words.last() as nat, 8);
    lemma_words_len(words.drop_last());
    if i < words.len() - 1 {
        lemma_word_at(b, p, words.drop_last(), i);
    } else {
        lemma_signed_casts();
        vstd::arithmetic::power2::lemma2_to64();
        lemma_i64_at(b, p + before.len(), words.last() as i64);
    }
}

proof fn lemma_words_len(words: Seq<u64>)
    ensures
        words_bytes(words).len() == 8 * words.len(),
    decreases words.len(),
{
    if words.len() > 0 {
        lemma_words_len(words.drop_last());
        lemma_le_bytes_len(words.last() as nat, 8);
    }
}

/// A live-docs file gives back the words that were put into it, where the
/// documents whose bit is clear are as many as the commit says; with any
/// other count it is refused.
pub proof fn law_live_docs_read_back(words: Seq<u64>, live: Set<nat>, max_doc: u32, id: Seq<u8>, del_gen: nat, del_count: i32)
    requires
        id.len() == 16,
        max_doc <= i32::MAX,
        del_gen <= i64::MAX,
        64 * words.len() >= max_doc,
        64 * words.len() < max_doc + 64,
        stands_for(words, live),
    ensures
        ({
            let head = index_header_bytes(
                encode_utf8("Lucene90LiveDocs"@),
                0,
                id,
                encode_utf8(base36_text(del_gen)),
            );
            let file = with_footer(head + words_bytes(words));
            live_docs_words(file, max_doc, id, del_gen, del_count) == if max_doc - members_below(
                live,
                max_doc as nat,
            ).len() == del_count {
                Ok::<Seq<u64>, ErrorKind>(words)
            } else {
                Err(ErrorKind::Corrupt)
            }
        }),
{
    let suffix = base36_text(del_gen);
    let head = index_header_bytes(encode_utf8(CODEC_NAME@), VERSION, id, encode_utf8(suffix));
    let body = head + words_bytes(words);
    let file = with_footer(body);
    law_footer_round_trip(body);
    lemma_words_len(words);
    let rest = file.skip(head.len() as int);
    assert(file.subrange(0, body.len() as int) == body);
    assert(file =~= head + rest) by {
        assert forall|i: int| 0 <= i < head.len() implies file[i] == head[i] by {
            assert(file[i] == file.subrange(0, body.len() as int)[i]);
        }
    }
    reveal_strlit("Lucene90LiveDocs");
    is_ascii_chars_encode_utf8(CODEC_NAME@);
    lemma_suffix(del_gen);
    law_header_round_trip(CODEC_NAME@, VERSION, id, suffix, rest, VERSION, VERSION);
    assert(stands_at(file, head.len(), words_bytes(words))) by {
        let part = file.subrange(head.len() as int, (head.len() + words_bytes(words).len()) as int);
        assert(part =~= body.subrange(head.len() as int, body.len() as int));
        assert(part =~= words_bytes(words));
    }
    let n = ceil_div(max_doc as nat, 64);
    assert(n == words.len());
    assert(words_at(file, head.len(), n) =~= words) by {
        assert forall|i: int| 0 <= i < n implies words_at(file, head.len(), n)[i] == words[i] by {
            lemma_word_at(file, head.len(), words, i);
        }
    }
    law_bit_count(words, live, max_doc as nat);
    lemma_bit_count_bound(words, max_doc as nat);
}

/// The numbers that `n` digits in base 36 spell are below this one.
spec fn limit36(n: nat) -> nat
    decreases n,
{
    if n == 0 {
        1
    } else {
        36 * limit36((n - 1) as nat)
    }
}

proof fn lemma_len36(v: nat, n: nat)
    requires
        v < limit36(n),
        n > 0,
    ensures
        base36_text(v).len() <= n,
    decreases n,
{
    if v >= 36 {
        assert(n > 1) by {
            assert(limit36(0) == 1);
            assert(limit36(1) == 36 * limit36(0));
        }
        lemma_len36(v / 36, (n - 1) as nat);
    }
}

/// A generation in base 36 is short, one byte for each digit.
proof fn lemma_suffix(del_gen: nat)
    requires
        del_gen <= i64::MAX,
    ensures
        encode_utf8(base36_text(del_gen)).len() <= 13,
{
    reveal_with_fuel(limit36, 14);
    lemma_len36(del_gen, 13);
    law_base36_spells(del_gen);
    is_ascii_chars_encode_utf8(base36_text(del_gen));
}

} // verus!
