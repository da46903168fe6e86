//! USTAR archive whose first member, `metadata.json`, records where each
//! payload member's content lies in the archive itself.
use vstd::prelude::*;
use vstd::slice::slice_subrange;
use vstd::slice::slice_to_vec;
use vstd::utf8::encode_utf8;
use crate::json::{
    decimal, lemma_submission_json_len, metadata_to_json, push_all,
    push_decimal, same_but_offsets, submission_json, ten_digit_text,
};
use crate::text::string_of;
use crate::types::{
    field_get, DocumentMetadata, ParseError, ParseOptions, ParsedSubmission, SubmissionMetadata,
};
use crate::parse::{doc_spans, is_parse_of, parse_sgml, span_has_text};

verus! {

/// Bytes that bring `n` up to a multiple of 512.
pub open spec fn pad(n: nat) -> nat {
    if n % 512 == 0 {
        0
    } else {
        (512 - n % 512) as nat
    }
}

/// Padding that brings `size` up to the next multiple of 512.
pub fn pad_to_block(size: usize) -> (r: usize)
    ensures
        r == pad(size as nat),
{
    let rem = size % 512;
    if rem == 0 {
        0
    } else {
        512 - rem
    }
}

/// `n` zero bytes.
pub open spec fn zeros(n: nat) -> Seq<u8> {
    Seq::new(n, |i: int| 0u8)
}

/// The `width` low digits of `n` in `base`, most significant first.
pub open spec fn digits(n: nat, base: nat, width: nat) -> Seq<u8>
    decreases width,
{
    if width == 0 || base == 0 {
        Seq::empty()
    } else {
        digits(n / base, base, (width - 1) as nat) + seq![(48 + n % base) as u8]
    }
}

/// The 100-byte name field: the name cut at 100 bytes, NUL-padded.
pub open spec fn name_field(name: Seq<u8>) -> Seq<u8> {
    let k = if name.len() <= 100 {
        name.len()
    } else {
        100
    };
    name.subrange(0, k as int) + zeros((100 - k) as nat)
}

/// A USTAR header with the checksum field still eight spaces.
pub open spec fn header_base(name: Seq<u8>, size: nat) -> Seq<u8> {
    name_field(name) + seq![48u8, 48, 48, 48, 54, 52, 52, 0] + seq![48u8, 48, 48, 48, 48, 48, 48, 0]
        + seq![48u8, 48, 48, 48, 48, 48, 48, 0] + digits(size, 8, 11) + seq![0u8] + seq![
        48u8,
        48,
        48,
        48,
        48,
        48,
        48,
        48,
        48,
        48,
        48,
    ] + seq![0u8] + seq![32u8, 32, 32, 32, 32, 32, 32, 32] + seq![48u8] + zeros(100) + seq![
        117u8,
        115,
        116,
        97,
        114,
        0,
    ] + seq![48u8, 48] + zeros(247)
}

/// Sum of the bytes of `s`.
pub open spec fn byte_sum(s: Seq<u8>) -> nat
    decreases s.len(),
{
    if s.len() == 0 {
        0
    } else {
        byte_sum(s.drop_last()) + s.last() as nat
    }
}

/// The USTAR header of a regular file: name, mode 0644, zero owner, size
/// in octal, zero time, type `0`, magic `ustar`, and the checksum of the
/// header as six octal digits, NUL and space.
pub open spec fn tar_header(name: Seq<u8>, size: nat) -> Seq<u8> {
    let b = header_base(name, size);
    b.subrange(0, 148) + digits(byte_sum(b), 8, 6) + seq![0u8, 32] + b.subrange(156, 512)
}

/// The largest size that eleven octal digits hold, plus one.
pub open spec fn octal_limit() -> nat {
    8589934592
}

fn push_zeros(out: &mut Vec<u8>, n: usize)
    ensures
        final(out)@ == old(out)@ + zeros(n as nat),
{
    let mut i: usize = 0;
    while i < n
        invariant
            i <= n,
            out@ == old(out)@ + zeros(i as nat),
        decreases n - i,
    {
        out.push(0);
        i = i + 1;
        proof {
            assert(out@ =~= old(out)@ + zeros(i as nat));
        }
    }
}

fn push_digits(out: &mut Vec<u8>, n: u64, base: u64, width: usize)
    requires
        2 <= base <= 10,
    ensures
        final(out)@ == old(out)@ + digits(n as nat, base as nat, width as nat),
    decreases width,
{
    if width == 0 {
        assert(out@ =~= old(out)@ + digits(n as nat, base as nat, width as nat));
        return;
    }
    push_digits(out, n / base, base, width - 1);
    out.push((48 + n % base) as u8);
    proof {
        assert(out@ =~= old(out)@ + digits(n as nat, base as nat, width as nat));
    }
}

fn push_lit(out: &mut Vec<u8>, lit: Vec<u8>)
    ensures
        final(out)@ == old(out)@ + lit@,
{
    push_all(out, lit.as_slice());
}

proof fn lemma_digits_len(n: nat, base: nat, width: nat)
    requires
        base > 0,
    ensures
        digits(n, base, width).len() == width,
    decreases width,
{
    if width > 0 {
        lemma_digits_len(n / base, base, (width - 1) as nat);
    }
}

/// The header for a member named by the bytes `name`.
pub fn header_for(name: &[u8], size: usize) -> (r: Result<Vec<u8>, ParseError>)
    ensures
        r is Ok <==> size < octal_limit(),
        r matches Ok(h) ==> h@ == tar_header(name@, size as nat) && h@.len() == 512,
{
    if size as u64 >= 8589934592 {
        return Err(ParseError::InvalidStructure("member too large for a tar header".to_owned()));
    }
    let k = if name.len() <= 100 {
        name.len()
    } else {
        100
    };
    let mut h: Vec<u8> = Vec::new();
    push_all(&mut h, slice_subrange(name, 0, k));
    push_zeros(&mut h, 100 - k);
    push_lit(&mut h, vec![48, 48, 48, 48, 54, 52, 52, 0]);
    push_lit(&mut h, vec![48, 48, 48, 48, 48, 48, 48, 0]);
    push_lit(&mut h, vec![48, 48, 48, 48, 48, 48, 48, 0]);
    push_digits(&mut h, size as u64, 8, 11);
    h.push(0);
    push_lit(&mut h, vec![48, 48, 48, 48, 48, 48, 48, 48, 48, 48, 48]);
    h.push(0);
    push_lit(&mut h, vec![32, 32, 32, 32, 32, 32, 32, 32]);
    h.push(48);
    push_zeros(&mut h, 100);
    push_lit(&mut h, vec![117, 115, 116, 97, 114, 0]);
    push_lit(&mut h, vec![48, 48]);
    push_zeros(&mut h, 247);
    let ghost base = header_base(name@, size as nat);
    proof {
        lemma_digits_len(size as nat, 8, 11);
        assert(h@ =~= base);
    }
    let mut sum: u64 = 0;
    let mut i: usize = 0;
    while i < h.len()
        invariant
            i <= h@.len() == 512,
            h@ == base,
            sum as nat == byte_sum(h@.subrange(0, i as int)),
            sum <= 255 * i,
        decreases h@.len() - i,
    {
        proof {
            assert(h@.subrange(0, i + 1).drop_last() =~= h@.subrange(0, i as int));
        }
        sum = sum + h[i] as u64;
        i = i + 1;
    }
    proof {
        assert(h@.subrange(0, 512) =~= h@);
    }
    let mut out: Vec<u8> = Vec::new();
    push_all(&mut out, slice_subrange(h.as_slice(), 0, 148));
    push_digits(&mut out, sum, 8, 6);
    out.push(0);
    out.push(32);
    push_all(&mut out, slice_subrange(h.as_slice(), 156, 512));
    proof {
        lemma_digits_len(byte_sum(base), 8, 6);
        assert(out@ =~= tar_header(name@, size as nat));
    }
    Ok(out)
}

/// Builds the 512-byte USTAR header of a regular file named `filename`
/// holding `size` bytes. Sizes that eleven octal digits cannot hold are
/// refused.
pub fn build_tar_header(filename: &str, size: usize) -> (r: Result<Vec<u8>, ParseError>)
    ensures
        r is Ok <==> size < octal_limit(),
        r matches Ok(h) ==> h@ == tar_header(encode_utf8(filename@), size as nat) && h@.len()
            == 512,
{
    header_for(filename.as_bytes(), size)
}

/// A member: its header, its content, NUL padding to a block boundary.
pub open spec fn tar_entry(name: Seq<u8>, content: Seq<u8>) -> Seq<u8> {
    tar_header(name, content.len()) + content + zeros(pad(content.len()))
}

/// Appends one member.
pub fn write_tar_entry(out: &mut Vec<u8>, name: &[u8], content: &[u8]) -> (r: Result<(), ParseError>)
    ensures
        r is Ok <==> content@.len() < octal_limit(),
        r is Ok ==> final(out)@ == old(out)@ + tar_entry(name@, content@),
        r is Err ==> final(out)@ == old(out)@,
{
    let h = match header_for(name, content.len()) {
        Ok(h) => h,
        Err(e) => {
            return Err(e);
        },
    };
    push_all(out, h.as_slice());
    push_all(out, content);
    push_zeros(out, pad_to_block(content.len()));
    proof {
        assert(out@ =~= old(out)@ + tar_entry(name@, content@));
    }
    Ok(())
}

/// Bytes that a member holding `len` bytes takes: header, content, padding.
pub open spec fn entry_size(len: nat) -> nat {
    512 + len + pad(len)
}

/// The contents of payload vectors.
pub open spec fn payload_views(docs: Seq<Vec<u8>>) -> Seq<Seq<u8>> {
    Seq::new(docs.len(), |i: int| docs[i]@)
}

/// Bytes that the first `n` payload members take.
pub open spec fn entries_size(ps: Seq<Seq<u8>>, n: nat) -> nat
    decreases n,
{
    if n == 0 || n > ps.len() {
        0
    } else {
        entries_size(ps, (n - 1) as nat) + entry_size(ps[n - 1].len())
    }
}

/// Offset of the first byte of payload `i`, after a metadata member of
/// `json_len` bytes.
pub open spec fn start_of(json_len: nat, ps: Seq<Seq<u8>>, i: nat) -> nat {
    entry_size(json_len) + entries_size(ps, i) + 512
}

/// Offset one past the last byte of payload `i`.
pub open spec fn end_of(json_len: nat, ps: Seq<Seq<u8>>, i: nat) -> nat {
    start_of(json_len, ps, i) + ps[i as int].len()
}

/// Offsets are written with ten decimal digits.
pub open spec fn offset_limit() -> nat {
    10000000000
}

/// Every member ends before the offset limit.
pub open spec fn fits(json_len: nat, ps: Seq<Seq<u8>>) -> bool {
    entry_size(json_len) + entries_size(ps, ps.len()) < offset_limit()
}

/// `n` as ten decimal digits, zero-padded.
pub open spec fn ten_digits(n: nat) -> Seq<char> {
    digits(n, 10, 10).map_values(|b: u8| b as char)
}

/// The offset that stands in for one not yet known.
pub open spec fn placeholder() -> Seq<char> {
    seq!['9', '9', '9', '9', '9', '9', '9', '9', '9', '9']
}

/// The offsets of a document are the placeholder.
pub open spec fn has_placeholders(d: DocumentMetadata) -> bool {
    &&& d.start_byte matches Some(s) && s@ == placeholder()
    &&& d.end_byte matches Some(s) && s@ == placeholder()
}

/// Both offsets of the document are ten-digit strings.
pub open spec fn has_ten_digit_offsets(d: DocumentMetadata) -> bool {
    &&& d.start_byte matches Some(s) && ten_digit_text(s@)
    &&& d.end_byte matches Some(s) && ten_digit_text(s@)
}

/// The document's metadata other than its offsets is as before.
pub open spec fn same_content(a: DocumentMetadata, b: DocumentMetadata) -> bool {
    a.fields_view() == b.fields_view() && a.size_bytes == b.size_bytes
}

proof fn lemma_digits_are_digits(n: nat, w: nat)
    ensures
        forall|i: int| 0 <= i < digits(n, 10, w).len() ==> 48 <= #[trigger] digits(n, 10, w)[i] <= 57,
        digits(n, 10, w).len() == w,
    decreases w,
{
    if w > 0 {
        lemma_digits_are_digits(n / 10, (w - 1) as nat);
        let d = digits(n / 10, 10, (w - 1) as nat);
        assert forall|i: int| 0 <= i < digits(n, 10, w).len() implies 48 <= #[trigger] digits(
            n,
            10,
            w,
        )[i] <= 57 by {
            if i < d.len() {
                assert(digits(n, 10, w)[i] == d[i]);
            }
        }
    }
}

fn ten_digit_string(n: u64) -> (r: String)
    ensures
        r@ == ten_digits(n as nat),
        ten_digit_text(r@),
{
    let mut b: Vec<u8> = Vec::new();
    push_digits(&mut b, n, 10, 10);
    proof {
        assert(b@ =~= digits(n as nat, 10, 10));
        lemma_digits_are_digits(n as nat, 10);
    }
    let mut c: Vec<char> = Vec::new();
    let mut i: usize = 0;
    while i < b.len()
        invariant
            i <= b@.len(),
            c@ == b@.subrange(0, i as int).map_values(|x: u8| x as char),
        decreases b@.len() - i,
    {
        c.push(b[i] as char);
        i = i + 1;
        proof {
            assert(c@ =~= b@.subrange(0, i as int).map_values(|x: u8| x as char));
        }
    }
    proof {
        assert(b@.subrange(0, b@.len() as int) =~= b@);
    }
    string_of(c.as_slice())
}

fn placeholder_string() -> (r: String)
    ensures
        r@ == placeholder(),
        ten_digit_text(r@),
{
    let c: Vec<char> = vec!['9', '9', '9', '9', '9', '9', '9', '9', '9', '9'];
    assert(c@ =~= placeholder());
    string_of(c.as_slice())
}

fn set_offsets(metadata: &mut SubmissionMetadata, i: usize, start: String, end: String)
    requires
        i < old(metadata).documents@.len(),
    ensures
        final(metadata).fields == old(metadata).fields,
        final(metadata).documents@.len() == old(metadata).documents@.len(),
        forall|j: int|
            0 <= j < old(metadata).documents@.len() && j != i ==> final(metadata).documents@[j]
                == old(metadata).documents@[j],
        same_content(final(metadata).documents@[i as int], old(metadata).documents@[i as int]),
        final(metadata).documents@[i as int].start_byte == Some(start),
        final(metadata).documents@[i as int].end_byte == Some(end),
{
    let mut d = metadata.documents.remove(i);
    d.start_byte = Some(start);
    d.end_byte = Some(end);
    metadata.documents.insert(i, d);
}

proof fn lemma_entries_size_mono(ps: Seq<Seq<u8>>, i: nat, n: nat)
    requires
        i <= n <= ps.len(),
    ensures
        entries_size(ps, i) <= entries_size(ps, n),
        i < n ==> entries_size(ps, i) + entry_size(ps[i as int].len()) <= entries_size(ps, n),
    decreases n - i,
{
    if i < n {
        lemma_entries_size_mono(ps, i, (n - 1) as nat);
    }
}

/// Fills in the offsets of every document that has a payload: first every
/// document gets the placeholder and the metadata is serialized, which
/// fixes the length of the metadata member; then each payload's offsets
/// follow from that length and the payload sizes, and are written as ten
/// digits. The result is the metadata's final JSON text, whose length is
/// the one the offsets were computed from. When the archive would not fit
/// ten-digit offsets, every document keeps the placeholder.
pub fn calculate_tar_positions(metadata: &mut SubmissionMetadata, documents: &[Vec<u8>]) -> (r:
    Result<Vec<u8>, ParseError>)
    requires
        documents@.len() <= old(metadata).documents@.len(),
    ensures
        forall|i: int|
            0 <= i < final(metadata).documents@.len() ==> has_ten_digit_offsets(
                #[trigger] final(metadata).documents@[i],
            ),
        final(metadata).fields == old(metadata).fields,
        final(metadata).documents@.len() == old(metadata).documents@.len(),
        forall|i: int|
            0 <= i < final(metadata).documents@.len() ==> same_content(
                #[trigger] final(metadata).documents@[i],
                old(metadata).documents@[i],
            ),
        forall|i: int|
            documents@.len() <= i < final(metadata).documents@.len() ==> has_placeholders(
                #[trigger] final(metadata).documents@[i],
            ),
        r is Err <==> !fits(submission_json(*final(metadata)).len(), payload_views(documents@)),
        r is Err ==> forall|i: int|
            0 <= i < final(metadata).documents@.len() ==> has_placeholders(
                #[trigger] final(metadata).documents@[i],
            ),
        r matches Ok(json) ==> json@ == submission_json(*final(metadata)),
        r matches Ok(json) ==> forall|i: int|
            0 <= i < documents@.len() ==> {
                &&& (#[trigger] final(metadata).documents@[i]).start_byte matches Some(s) && s@
                    == ten_digits(start_of(json@.len(), payload_views(documents@), i as nat))
                &&& final(metadata).documents@[i].end_byte matches Some(s) && s@ == ten_digits(
                    end_of(json@.len(), payload_views(documents@), i as nat),
                )
            },
{
    let ghost m0 = *metadata;
    let ghost ps = payload_views(documents@);
    let nd = metadata.documents.len();
    let mut i: usize = 0;
    while i < nd
        invariant
            i <= nd == metadata.documents@.len() == m0.documents@.len(),
            metadata.fields == m0.fields,
            forall|j: int| 0 <= j < nd ==> same_content(#[trigger] metadata.documents@[j], m0.documents@[j]),
            forall|j: int| 0 <= j < i ==> has_placeholders(#[trigger] metadata.documents@[j]),
        decreases nd - i,
    {
        let ghost before = *metadata;
        set_offsets(metadata, i, placeholder_string(), placeholder_string());
        proof {
            assert forall|j: int| 0 <= j < nd implies same_content(#[trigger] metadata.documents@[j], m0.documents@[j]) by {
                if j != i {
                    assert(metadata.documents@[j] == before.documents@[j]);
                }
            }
            assert forall|j: int| 0 <= j < i + 1 implies has_placeholders(#[trigger] metadata.documents@[j]) by {
                if j != i {
                    assert(metadata.documents@[j] == before.documents@[j]);
                }
            }
        }
        i = i + 1;
    }
    let json1 = metadata_to_json(metadata);
    let ghost m1 = *metadata;
    assert(forall|q: int| 0 <= q < nd ==> same_content(#[trigger] m1.documents@[q], m0.documents@[q]));
    assert(forall|q: int| 0 <= q < nd ==> has_placeholders(#[trigger] m1.documents@[q]));
    let ghost mlen = json1@.len();
    let m = json1.len();
    if m as u64 >= 10000000000 {
        proof {
            lemma_entries_size_mono(ps, 0, ps.len());
        }
        return Err(ParseError::InvalidStructure("archive too large for ten-digit offsets".to_owned()));
    }
    let mut cur: u64 = 512 + m as u64 + pad_to_block(m) as u64;
    if cur >= 10000000000 {
        proof {
            lemma_entries_size_mono(ps, 0, ps.len());
        }
        return Err(ParseError::InvalidStructure("archive too large for ten-digit offsets".to_owned()));
    }
    let mut starts: Vec<u64> = Vec::new();
    let n = documents.len();
    let mut k: usize = 0;
    while k < n
        invariant
            k <= n == ps.len(),
            ps == payload_views(documents@),
            mlen == m,
            cur as nat == entry_size(mlen) + entries_size(ps, k as nat),
            cur < 10000000000,
            starts@.len() == k,
            forall|j: int| 0 <= j < k ==> (#[trigger] starts@[j]) as nat == start_of(mlen, ps, j as nat),
            *metadata == m1,
            m0 == *old(metadata),
            m1.fields == m0.fields,
            m1.documents@.len() == nd == m0.documents@.len(),
            n <= nd,
            json1@ == submission_json(m1),
            mlen == json1@.len(),
            forall|q: int| 0 <= q < nd ==> same_content(#[trigger] m1.documents@[q], m0.documents@[q]),
            forall|q: int| 0 <= q < nd ==> has_placeholders(#[trigger] m1.documents@[q]),
        decreases n - k,
    {
        let len = documents[k].len();
        if len as u64 >= 10000000000 {
            proof {
                lemma_entries_size_mono(ps, k as nat, n as nat);
            }
            return Err(ParseError::InvalidStructure("archive too large for ten-digit offsets".to_owned()));
        }
        let start = cur + 512;
        starts.push(start);
        cur = start + len as u64 + pad_to_block(len) as u64;
        assert(ps[k as int].len() == len);
        assert(cur as nat == entry_size(mlen) + entries_size(ps, (k + 1) as nat));
        if cur >= 10000000000 {
            proof {
                lemma_entries_size_mono(ps, (k + 1) as nat, n as nat);
                assert(submission_json(*metadata).len() == mlen);
                assert(!fits(mlen, ps));
            }
            return Err(ParseError::InvalidStructure("archive too large for ten-digit offsets".to_owned()));
        }
        k = k + 1;
    }
    let mut j: usize = 0;
    while j < n
        invariant
            j <= n == ps.len() <= nd,
            ps == payload_views(documents@),
            starts@.len() == n,
            forall|q: int| 0 <= q < n ==> (#[trigger] starts@[q]) as nat == start_of(mlen, ps, q as nat),
            entry_size(mlen) + entries_size(ps, n as nat) < offset_limit(),
            metadata.fields == m0.fields,
            metadata.documents@.len() == nd,
            forall|q: int| 0 <= q < nd ==> same_but_offsets(#[trigger] m1.documents@[q], metadata.documents@[q]),
            forall|q: int| 0 <= q < nd ==> same_content(#[trigger] metadata.documents@[q], m0.documents@[q]),
            forall|q: int| j <= q < nd ==> #[trigger] metadata.documents@[q] == m1.documents@[q],
            forall|q: int| 0 <= q < j ==> {
                &&& (#[trigger] metadata.documents@[q]).start_byte matches Some(s) && s@ == ten_digits(
                    start_of(mlen, ps, q as nat),
                )
                &&& metadata.documents@[q].end_byte matches Some(s) && s@ == ten_digits(
                    end_of(mlen, ps, q as nat),
                )
            },
            forall|q: int| 0 <= q < nd ==> has_placeholders(#[trigger] m1.documents@[q]),
        decreases n - j,
    {
        proof {
            lemma_entries_size_mono(ps, j as nat, n as nat);
        }
        let start = starts[j];
        let end = start + documents[j].len() as u64;
        let ghost before = *metadata;
        set_offsets(metadata, j, ten_digit_string(start), ten_digit_string(end));
        proof {
            assert forall|q: int| 0 <= q < nd implies same_but_offsets(#[trigger] m1.documents@[q], metadata.documents@[q]) by {
                if q != j {
                    assert(metadata.documents@[q] == before.documents@[q]);
                }
            }
            assert forall|q: int| 0 <= q < nd implies same_content(#[trigger] metadata.documents@[q], m0.documents@[q]) by {
                if q != j {
                    assert(metadata.documents@[q] == before.documents@[q]);
                }
            }
            assert forall|q: int| 0 <= q < j + 1 implies {
                &&& (#[trigger] metadata.documents@[q]).start_byte matches Some(s) && s@ == ten_digits(
                    start_of(mlen, ps, q as nat),
                )
                &&& metadata.documents@[q].end_byte matches Some(s) && s@ == ten_digits(
                    end_of(mlen, ps, q as nat),
                )
            } by {
                if q != j {
                    assert(metadata.documents@[q] == before.documents@[q]);
                }
            }
        }
        j = j + 1;
    }
    let json2 = metadata_to_json(metadata);
    proof {
        lemma_submission_json_len(m1, *metadata);
    }
    Ok(json2)
}

/// `metadata.json`
pub open spec fn metadata_name() -> Seq<u8> {
    seq![109u8, 101, 116, 97, 100, 97, 116, 97, 46, 106, 115, 111, 110]
}

/// `.txt`
pub open spec fn txt_suffix() -> Seq<u8> {
    seq![46u8, 116, 120, 116]
}

/// The member name of payload `i`: its `filename`, else its `sequence`
/// with `.txt`, else its 1-based index with `.txt`.
pub open spec fn entry_name(d: DocumentMetadata, i: nat) -> Seq<u8> {
    match field_get(d.fields_view(), "filename"@) {
        Some(f) => encode_utf8(f),
        None => match field_get(d.fields_view(), "sequence"@) {
            Some(q) => encode_utf8(q) + txt_suffix(),
            None => decimal(i + 1) + txt_suffix(),
        },
    }
}

/// The members of the first `n` payloads.
pub open spec fn payload_entries(metas: Seq<DocumentMetadata>, ps: Seq<Seq<u8>>, n: nat) -> Seq<u8>
    decreases n,
{
    if n == 0 || n > ps.len() {
        Seq::empty()
    } else {
        payload_entries(metas, ps, (n - 1) as nat) + tar_entry(
            entry_name(metas[n - 1], (n - 1) as nat),
            ps[n - 1],
        )
    }
}

/// The archive: the metadata member, one member per payload, then two
/// zero blocks.
pub open spec fn archive_of(json: Seq<u8>, metas: Seq<DocumentMetadata>, ps: Seq<Seq<u8>>) -> Seq<u8> {
    tar_entry(metadata_name(), json) + payload_entries(metas, ps, ps.len()) + zeros(1024)
}

fn entry_name_bytes(d: &DocumentMetadata, i: usize) -> (r: Vec<u8>)
    requires
        i < usize::MAX,
    ensures
        r@ == entry_name(*d, i as nat),
{
    match d.filename() {
        Some(f) => slice_to_vec(f.as_bytes()),
        None => {
            let mut out: Vec<u8> = match d.sequence() {
                Some(q) => slice_to_vec(q.as_bytes()),
                None => {
                    let mut v: Vec<u8> = Vec::new();
                    push_decimal(&mut v, i + 1);
                    v
                },
            };
            push_lit(&mut out, vec![46, 116, 120, 116]);
            proof {
                assert(out@ =~= entry_name(*d, i as nat));
            }
            out
        },
    }
}

/// A header is one block.
pub proof fn lemma_header_len(name: Seq<u8>, size: nat)
    ensures
        tar_header(name, size).len() == 512,
{
    lemma_digits_len(size, 8, 11);
    lemma_digits_len(byte_sum(header_base(name, size)), 8, 6);
}

/// A member takes `entry_size` bytes.
pub proof fn lemma_entry_len(name: Seq<u8>, content: Seq<u8>)
    ensures
        tar_entry(name, content).len() == entry_size(content.len()),
{
    lemma_header_len(name, content.len());
}

/// The payload members take `entries_size` bytes.
pub proof fn lemma_entries_len(metas: Seq<DocumentMetadata>, ps: Seq<Seq<u8>>, n: nat)
    requires
        n <= ps.len(),
    ensures
        payload_entries(metas, ps, n).len() == entries_size(ps, n),
    decreases n,
{
    if n > 0 {
        lemma_entries_len(metas, ps, (n - 1) as nat);
        lemma_entry_len(entry_name(metas[n - 1], (n - 1) as nat), ps[n - 1]);
    }
}

proof fn lemma_payload_in_entries(metas: Seq<DocumentMetadata>, ps: Seq<Seq<u8>>, i: nat, n: nat)
    requires
        i < n <= ps.len(),
    ensures
        payload_entries(metas, ps, n).subrange(
            entries_size(ps, i) + 512 as int,
            entries_size(ps, i) + 512 + ps[i as int].len() as int,
        ) == ps[i as int],
    decreases n,
{
    let e = (entries_size(ps, i) + 512) as int;
    if n == i + 1 {
        lemma_entries_len(metas, ps, i);
        lemma_header_len(entry_name(metas[i as int], i), ps[i as int].len());
        assert(payload_entries(metas, ps, n).subrange(e, e + ps[i as int].len() as int) =~= ps[i as int]);
    } else {
        lemma_payload_in_entries(metas, ps, i, (n - 1) as nat);
        lemma_entries_len(metas, ps, (n - 1) as nat);
        lemma_entries_size_mono(ps, i, (n - 1) as nat);
        let prev = payload_entries(metas, ps, (n - 1) as nat);
        assert(payload_entries(metas, ps, n).subrange(e, e + ps[i as int].len() as int) =~= prev.subrange(
            e,
            e + ps[i as int].len() as int,
        ));
    }
}

/// Each payload lies in the archive exactly at its recorded offsets: the
/// bytes from `start_of` to `end_of` are the payload.
pub proof fn lemma_payload_at_offsets(
    json: Seq<u8>,
    metas: Seq<DocumentMetadata>,
    ps: Seq<Seq<u8>>,
    i: nat,
)
    requires
        i < ps.len(),
    ensures
        archive_of(json, metas, ps).subrange(
            start_of(json.len(), ps, i) as int,
            end_of(json.len(), ps, i) as int,
        ) == ps[i as int],
{
    let n = ps.len();
    lemma_entry_len(metadata_name(), json);
    lemma_entries_len(metas, ps, n);
    lemma_payload_in_entries(metas, ps, i, n);
    lemma_entries_size_mono(ps, i, n);
    let a = archive_of(json, metas, ps);
    let head = tar_entry(metadata_name(), json);
    let body = payload_entries(metas, ps, n);
    let s = start_of(json.len(), ps, i) as int;
    let e = end_of(json.len(), ps, i) as int;
    assert(a.subrange(s, e) =~= body.subrange(s - head.len(), e - head.len()));
}

/// The recorded span of each payload is as long as the payload.
pub proof fn lemma_span_length(json_len: nat, ps: Seq<Seq<u8>>, i: nat)
    requires
        i < ps.len(),
    ensures
        end_of(json_len, ps, i) - start_of(json_len, ps, i) == ps[i as int].len(),
{
}

proof fn lemma_entry_size_aligned(len: nat)
    ensures
        entry_size(len) % 512 == 0,
{
    let r = len % 512;
    let q = len / 512;
    assert(len == 512 * q + r) by (nonlinear_arith)
        requires
            r == len % 512,
            q == len / 512,
    ;
    if r == 0 {
        assert(entry_size(len) == 512 * (q + 1)) by (nonlinear_arith)
            requires
                len == 512 * q + r,
                r == 0,
                entry_size(len) == 512 + len,
        ;
    } else {
        assert(entry_size(len) == 512 * (q + 2)) by (nonlinear_arith)
            requires
                len == 512 * q + r,
                entry_size(len) == 512 + len + 512 - r,
        ;
    }
    assert((512 * (q + 1)) % 512 == 0) by (nonlinear_arith);
    assert((512 * (q + 2)) % 512 == 0) by (nonlinear_arith);
}

proof fn lemma_entries_aligned(ps: Seq<Seq<u8>>, n: nat)
    ensures
        entries_size(ps, n) % 512 == 0,
    decreases n,
{
    if n > 0 && n <= ps.len() {
        lemma_entries_aligned(ps, (n - 1) as nat);
        lemma_entry_size_aligned(ps[n - 1].len());
        let a = entries_size(ps, (n - 1) as nat);
        let b = entry_size(ps[n - 1].len());
        assert((a + b) % 512 == 0) by (nonlinear_arith)
            requires
                a % 512 == 0,
                b % 512 == 0,
        ;
    }
}

/// Each payload's header follows the previous payload's padding: a payload
/// starts at least one block past the block boundary that ends its
/// predecessor.
pub proof fn lemma_payloads_ordered(json_len: nat, ps: Seq<Seq<u8>>, i: nat)
    requires
        0 < i < ps.len(),
    ensures
        start_of(json_len, ps, i) >= end_of(json_len, ps, (i - 1) as nat) + (512 - end_of(
            json_len,
            ps,
            (i - 1) as nat,
        ) % 512) % 512 + 512,
{
    let p = (i - 1) as nat;
    let s = start_of(json_len, ps, p);
    let len = ps[p as int].len();
    let e = end_of(json_len, ps, p);
    lemma_entry_size_aligned(json_len);
    lemma_entries_aligned(ps, p);
    let a = entry_size(json_len);
    let b = entries_size(ps, p);
    assert(s % 512 == 0) by (nonlinear_arith)
        requires
            a % 512 == 0,
            b % 512 == 0,
            s == a + b + 512,
    ;
    assert(e % 512 == len % 512) by (nonlinear_arith)
        requires
            s % 512 == 0,
            e == s + len,
    ;
    assert((512 - e % 512) % 512 == pad(len)) by (nonlinear_arith)
        requires
            e % 512 == len % 512,
    ;
}

/// The metadata and every payload fit the header's octal size field.
pub open spec fn members_fit(json_len: nat, ps: Seq<Seq<u8>>) -> bool {
    json_len < octal_limit() && forall|i: int| 0 <= i < ps.len() ==> (#[trigger] ps[i]).len() < octal_limit()
}

/// Writes the archive of a submission: offsets are filled into
/// `metadata` as `calculate_tar_positions` does, then come the member
/// `metadata.json` holding the metadata's JSON text, one member per
/// payload, and two zero blocks.
pub fn write_tar_archive(metadata: &mut SubmissionMetadata, payloads: &Vec<Vec<u8>>) -> (r: Result<
    Vec<u8>,
    ParseError,
>)
    requires
        payloads@.len() <= old(metadata).documents@.len(),
    ensures
        forall|i: int|
            0 <= i < final(metadata).documents@.len() ==> has_ten_digit_offsets(
                #[trigger] final(metadata).documents@[i],
            ),
        final(metadata).fields == old(metadata).fields,
        final(metadata).documents@.len() == old(metadata).documents@.len(),
        forall|i: int|
            0 <= i < final(metadata).documents@.len() ==> same_content(
                #[trigger] final(metadata).documents@[i],
                old(metadata).documents@[i],
            ),
        r is Err <==> !fits(submission_json(*final(metadata)).len(), payload_views(payloads@))
            || !members_fit(submission_json(*final(metadata)).len(), payload_views(payloads@)),
        r matches Ok(a) ==> a@ == archive_of(
            submission_json(*final(metadata)),
            final(metadata).documents@,
            payload_views(payloads@),
        ),
        r matches Ok(a) ==> forall|i: int|
            0 <= i < payloads@.len() ==> {
                &&& (#[trigger] final(metadata).documents@[i]).start_byte matches Some(s) && s@
                    == ten_digits(
                    start_of(
                        submission_json(*final(metadata)).len(),
                        payload_views(payloads@),
                        i as nat,
                    ),
                )
                &&& final(metadata).documents@[i].end_byte matches Some(s) && s@ == ten_digits(
                    end_of(
                        submission_json(*final(metadata)).len(),
                        payload_views(payloads@),
                        i as nat,
                    ),
                )
            },
{
    let json = match calculate_tar_positions(metadata, payloads.as_slice()) {
        Ok(j) => j,
        Err(e) => {
            return Err(e);
        },
    };
    let ghost ps = payload_views(payloads@);
    let ghost mlen = json@.len();
    let ghost mf = *metadata;
    assert(fits(mlen, ps));
    let mut out: Vec<u8> = Vec::new();
    let name: Vec<u8> = vec![109, 101, 116, 97, 100, 97, 116, 97, 46, 106, 115, 111, 110];
    assert(name@ =~= metadata_name());
    proof {
        lemma_entries_size_mono(ps, 0, ps.len());
    }
    match write_tar_entry(&mut out, name.as_slice(), json.as_slice()) {
        Ok(()) => {},
        Err(e) => {
            return Err(e);
        },
    }
    let n = payloads.len();
    let ghost head = out@;
    let mut i: usize = 0;
    while i < n
        invariant
            i <= n == ps.len() <= metadata.documents@.len(),
            ps == payload_views(payloads@),
            fits(mlen, ps),
            *metadata == mf,
            forall|q: int| 0 <= q < mf.documents@.len() ==> has_ten_digit_offsets(#[trigger] mf.documents@[q]),
            mf.fields == old(metadata).fields,
            mf.documents@.len() == old(metadata).documents@.len(),
            forall|q: int|
                0 <= q < mf.documents@.len() ==> same_content(
                    #[trigger] mf.documents@[q],
                    old(metadata).documents@[q],
                ),
            mlen == json@.len(),
            mlen == submission_json(mf).len(),
            mlen < octal_limit(),
            forall|j: int| 0 <= j < i ==> (#[trigger] ps[j]).len() < octal_limit(),
            out@ == head + payload_entries(metadata.documents@, ps, i as nat),
        decreases n - i,
    {
        proof {
            lemma_entries_size_mono(ps, i as nat, n as nat);
            assert(ps[i as int].len() == payloads@[i as int]@.len());
        }
        let nm = entry_name_bytes(&metadata.documents[i], i);
        match write_tar_entry(&mut out, nm.as_slice(), payloads[i].as_slice()) {
            Ok(()) => {},
            Err(e) => {
                assert(!members_fit(mlen, ps));
                return Err(e);
            },
        }
        i = i + 1;
        proof {
            assert(out@ =~= head + payload_entries(metadata.documents@, ps, i as nat));
        }
    }
    push_zeros(&mut out, 1024);
    proof {
        assert(out@ =~= archive_of(json@, metadata.documents@, ps));
    }
    Ok(out)
}

/// `a` is the archive of the metadata `m` and the payloads `docs`, with
/// the offsets that `m` records for each payload.
pub open spec fn is_archive_of(a: Seq<u8>, m: SubmissionMetadata, docs: Seq<Vec<u8>>) -> bool {
    let ps = payload_views(docs);
    let json_len = submission_json(m).len();
    &&& ps.len() <= m.documents@.len()
    &&& fits(json_len, ps)
    &&& a == archive_of(submission_json(m), m.documents@, ps)
    &&& forall|i: int|
        0 <= i < ps.len() ==> {
            &&& (#[trigger] m.documents@[i]).start_byte matches Some(s) && s@ == ten_digits(
                start_of(json_len, ps, i as nat),
            )
            &&& m.documents@[i].end_byte matches Some(s) && s@ == ten_digits(
                end_of(json_len, ps, i as nat),
            )
        }
}

/// Setting offsets keeps a parse result a parse result.
pub proof fn lemma_parse_of_offsets(
    data: Seq<u8>,
    filter: Seq<String>,
    keep: bool,
    sd: bool,
    m1: SubmissionMetadata,
    m2: SubmissionMetadata,
    docs: Seq<Vec<u8>>,
)
    requires
        is_parse_of(data, filter, keep, sd, m1, docs),
        m2.fields == m1.fields,
        m2.documents@.len() == m1.documents@.len(),
        forall|i: int|
            0 <= i < m2.documents@.len() ==> same_content(
                #[trigger] m2.documents@[i],
                m1.documents@[i],
            ),
    ensures
        is_parse_of(data, filter, keep, sd, m2, docs),
{
    assert forall|i: int| 0 <= i < m2.documents@.len() implies (#[trigger] m2.documents@[i]).fields_view()
        == m1.documents@[i].fields_view() && m2.documents@[i].size_bytes
        == m1.documents@[i].size_bytes by {
        assert(same_content(m2.documents@[i], m1.documents@[i]));
    }
}

/// Parses `input_bytes` and writes the archive of the result. It fails
/// with `InvalidStructure` when a document block has no `<TEXT>`, and
/// otherwise exactly when the archive of the parse would not fit
/// ten-digit offsets or the tar size field; on success the archive is that
/// of the parsed metadata and payloads, with their offsets recorded.
pub fn write_sgml_bytes_to_tar(input_bytes: &[u8], options: ParseOptions) -> (r: Result<
    Vec<u8>,
    ParseError,
>)
    ensures
        (exists|i: int|
            0 <= i < doc_spans(input_bytes@).len() && !span_has_text(input_bytes@, i))
            ==> r matches Err(ParseError::InvalidStructure(_)),
        !(exists|i: int|
            0 <= i < doc_spans(input_bytes@).len() && !span_has_text(input_bytes@, i))
            ==> exists|m: SubmissionMetadata, docs: Seq<Vec<u8>>|
            {
                &&& is_parse_of(
                    input_bytes@,
                    options.filter_document_types@,
                    options.keep_filtered_metadata,
                    options.standardize_metadata,
                    m,
                    docs,
                )
                &&& docs.len() <= m.documents@.len()
                &&& forall|i: int|
                    0 <= i < m.documents@.len() ==> has_ten_digit_offsets(#[trigger] m.documents@[i])
                &&& (r is Ok <==> fits(submission_json(m).len(), payload_views(docs))
                    && members_fit(submission_json(m).len(), payload_views(docs)))
                &&& (r matches Ok(a) ==> is_archive_of(a@, m, docs))
            },
        r matches Ok(a) ==> a@.len() % 512 == 0 && a@.len() >= 2048,
{
    let ghost f = options.filter_document_types@;
    let ghost keep = options.keep_filtered_metadata;
    let ghost sd = options.standardize_metadata;
    let mut sub = match parse_sgml(input_bytes, options) {
        Ok(p) => p,
        Err(e) => {
            return Err(e);
        },
    };
    let ghost m0 = sub.metadata;
    let r = write_tar_archive(&mut sub.metadata, &sub.documents);
    proof {
        lemma_parse_of_offsets(input_bytes@, f, keep, sd, m0, sub.metadata, sub.documents@);
        if r is Ok {
            let ps = payload_views(sub.documents@);
            let j = submission_json(sub.metadata);
            lemma_entry_len(metadata_name(), j);
            lemma_entries_len(sub.metadata.documents@, ps, ps.len());
            lemma_entry_size_aligned(j.len());
            lemma_entries_aligned(ps, ps.len());
            let a = entry_size(j.len());
            let b = entries_size(ps, ps.len());
            assert((a + b + 1024) % 512 == 0) by (nonlinear_arith)
                requires
                    a % 512 == 0,
                    b % 512 == 0,
            ;
            assert(is_archive_of(r->Ok_0@, sub.metadata, sub.documents@));
        }
    }
    r
}

/// The number that a string of decimal digits spells.
pub open spec fn decimal_value(s: Seq<char>) -> nat
    decreases s.len(),
{
    if s.len() == 0 {
        0
    } else {
        decimal_value(s.drop_last()) * 10 + ((s.last() as u32) - 48) as nat
    }
}

/// `10` to the power `w`.
pub open spec fn pow10(w: nat) -> nat
    decreases w,
{
    if w == 0 {
        1
    } else {
        10 * pow10((w - 1) as nat)
    }
}

proof fn lemma_pow10_pos(w: nat)
    ensures
        pow10(w) >= 1,
    decreases w,
{
    if w > 0 {
        lemma_pow10_pos((w - 1) as nat);
    }
}

proof fn lemma_digits_value(n: nat, w: nat)
    ensures
        decimal_value(digits(n, 10, w).map_values(|b: u8| b as char)) == n % pow10(w),
    decreases w,
{
    let s = digits(n, 10, w).map_values(|b: u8| b as char);
    if w == 0 {
        assert(s =~= Seq::<char>::empty());
    } else {
        let q = n / 10;
        let r = n % 10;
        let p = pow10((w - 1) as nat);
        lemma_pow10_pos((w - 1) as nat);
        lemma_digits_value(q, (w - 1) as nat);
        let prev = digits(q, 10, (w - 1) as nat).map_values(|b: u8| b as char);
        assert(s.drop_last() =~= prev);
        assert((s.last() as u32) - 48 == r);
        let b = q % p;
        let a = q / p;
        vstd::arithmetic::div_mod::lemma_fundamental_div_mod(q as int, p as int);
        assert(0 <= b < p);
        assert(q == p * a + b);
        assert(n == 10 * q + r);
        assert(n == a * (10 * p) + (10 * b + r)) by (nonlinear_arith)
            requires
                q == p * a + b,
                n == 10 * q + r,
        ;
        assert(10 * b + r < 10 * p);
        vstd::arithmetic::div_mod::lemma_fundamental_div_mod_converse(
            n as int,
            (10 * p) as int,
            a as int,
            (10 * b + r) as int,
        );
    }
}

/// Ten digits spell the offset they were written from.
pub proof fn lemma_ten_digits_value(n: nat)
    requires
        n < offset_limit(),
    ensures
        decimal_value(ten_digits(n)) == n,
{
    lemma_digits_value(n, 10);
    reveal_with_fuel(pow10, 11);
    assert(pow10(10) == 10000000000);
}

/// The offsets that the metadata of an archive records for payload `i`,
/// read as numbers `s` and `e`, locate it: the archive's bytes from `s` to
/// `e` are the payload, `e - s` is its length, and each payload after the
/// first starts at least one block past the block boundary that follows
/// the end of the payload before it.
pub proof fn lemma_recorded_offsets(a: Seq<u8>, m: SubmissionMetadata, docs: Seq<Vec<u8>>, i: int)
    requires
        is_archive_of(a, m, docs),
        0 <= i < docs.len(),
    ensures
        ({
            let s = decimal_value(m.documents@[i].start_byte->0@);
            let e = decimal_value(m.documents@[i].end_byte->0@);
            &&& a.subrange(s as int, e as int) == docs[i]@
            &&& e - s == docs[i]@.len()
            &&& i > 0 ==> {
                let prev_end = decimal_value(m.documents@[i - 1].end_byte->0@);
                s >= prev_end + (512 - prev_end % 512) % 512 + 512
            }
        }),
{
    let ps = payload_views(docs);
    let json = submission_json(m);
    let n = ps.len();
    lemma_entries_size_mono(ps, i as nat, n);
    lemma_entries_size_mono(ps, (i + 1) as nat, n);
    assert(ps[i] == docs[i]@);
    lemma_ten_digits_value(start_of(json.len(), ps, i as nat));
    lemma_ten_digits_value(end_of(json.len(), ps, i as nat));
    lemma_payload_at_offsets(json, m.documents@, ps, i as nat);
    if i > 0 {
        lemma_entries_size_mono(ps, (i - 1) as nat, n);
        lemma_ten_digits_value(end_of(json.len(), ps, (i - 1) as nat));
        lemma_payloads_ordered(json.len(), ps, i as nat);
    }
}

} // verus!
