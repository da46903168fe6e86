//! JSON form of the metadata: the submission's fields at top level, and a
//! `documents` array of per-document objects.
use vstd::prelude::*;
use crate::text::string_of;
use vstd::utf8::{encode_scalar, encode_utf8, leading_byte_width_1};
use crate::types::{
    entries_tree, items_tree, lemma_list_tree, lemma_object_tree, pairs_view, DocumentMetadata,
    MetadataValue, ParseError, ParseOptions, SubmissionMetadata, Tree,
};
use crate::parse::{doc_spans, is_parse_of, parse_sgml, span_has_text};

verus! {

broadcast use vstd::std_specs::vec::group_vec_axioms;

/// Lower-case hex digit of `d < 16`.
pub open spec fn hex_digit(d: u32) -> u8 {
    if d < 10 {
        (48 + d) as u8
    } else {
        (87 + d) as u8
    }
}

/// How one char stands in a JSON string: `"` and `\` behind a backslash,
/// the short escapes for backspace, tab, line feed, form feed and carriage
/// return, `\u00XX` for other controls below 0x20, and every other char
/// as its UTF-8 bytes.
pub open spec fn json_char(c: char) -> Seq<u8> {
    let u = c as u32;
    if c == '"' {
        seq![92u8, 34]
    } else if c == '\\' {
        seq![92u8, 92]
    } else if u == 8 {
        seq![92u8, 98]
    } else if u == 9 {
        seq![92u8, 116]
    } else if u == 10 {
        seq![92u8, 110]
    } else if u == 12 {
        seq![92u8, 102]
    } else if u == 13 {
        seq![92u8, 114]
    } else if u < 0x20 {
        seq![92u8, 117, 48, 48, hex_digit(u / 16), hex_digit(u % 16)]
    } else {
        encode_utf8(seq![c])
    }
}

/// The chars of `s` as they stand in a JSON string.
pub open spec fn json_chars(s: Seq<char>) -> Seq<u8>
    decreases s.len(),
{
    if s.len() == 0 {
        Seq::empty()
    } else {
        json_chars(s.drop_last()) + json_char(s.last())
    }
}

/// The JSON string literal for `s`.
pub open spec fn json_quoted(s: Seq<char>) -> Seq<u8> {
    seq![34u8] + json_chars(s) + seq![34u8]
}

/// A char that a JSON string holds as its own single byte: printable
/// ASCII other than `"` and `\`.
pub open spec fn plain_char(c: char) -> bool {
    0x20 <= c as u32 <= 0x7e && c != '"' && c != '\\'
}

/// `s` as bytes, for text of ASCII chars.
pub open spec fn ascii_bytes(s: Seq<char>) -> Seq<u8> {
    s.map_values(|c: char| c as u8)
}

/// Relies on serde_json::to_vec on a `str`: the JSON string literal for
/// `s`, quoted and escaped as `json_quoted` states.
#[verifier::external_body]
fn quote(s: &str) -> (r: Vec<u8>)
    ensures
        r@ == json_quoted(s@),
{
    match serde_json::to_vec(s) {
        Ok(v) => v,
        Err(_) => Vec::new(),
    }
}

/// A plain char is its own single byte in a JSON string.
proof fn lemma_plain_char(c: char)
    requires
        plain_char(c),
    ensures
        json_char(c) == seq![c as u8],
{
    let u = c as u32;
    assert((u & 0x7F) == u) by (bit_vector)
        requires
            u <= 0x7e,
    ;
    assert(seq![c][0] == c);
    assert(seq![c].drop_first() =~= Seq::<char>::empty());
    assert(encode_scalar(u) == seq![leading_byte_width_1(u)]);
    assert(leading_byte_width_1(u) == u as u8);
    assert(c as u8 == u as u8);
    assert(encode_utf8(seq![c]) =~= encode_scalar(u) + encode_utf8(Seq::<char>::empty()));
    assert(encode_utf8(seq![c]) =~= seq![c as u8]);
}

/// Text of plain chars is quoted as it stands.
pub proof fn lemma_plain_quoted(s: Seq<char>)
    requires
        forall|i: int| 0 <= i < s.len() ==> plain_char(#[trigger] s[i]),
    ensures
        json_quoted(s) == seq![34u8] + ascii_bytes(s) + seq![34u8],
    decreases s.len(),
{
    lemma_plain_chars(s);
}

proof fn lemma_plain_chars(s: Seq<char>)
    requires
        forall|i: int| 0 <= i < s.len() ==> plain_char(#[trigger] s[i]),
    ensures
        json_chars(s) == ascii_bytes(s),
    decreases s.len(),
{
    if s.len() > 0 {
        lemma_plain_chars(s.drop_last());
        lemma_plain_char(s.last());
        assert(ascii_bytes(s) =~= ascii_bytes(s.drop_last()) + seq![s.last() as u8]);
    } else {
        assert(ascii_bytes(s) =~= Seq::<u8>::empty());
    }
}

/// The JSON text of a metadata tree.
pub open spec fn json_tree(t: Tree) -> Seq<u8>
    decreases t, 0nat,
{
    match t {
        Tree::Str(s) => json_quoted(s),
        Tree::List(items) => seq![91u8] + json_items(items, items.len()) + seq![93u8],
        Tree::Obj(es) => seq![123u8] + json_members(es, es.len()) + seq![125u8],
    }
}

/// The first `n` items, comma-separated.
pub open spec fn json_items(items: Seq<Tree>, n: nat) -> Seq<u8>
    decreases items, n,
{
    if n == 0 || n > items.len() {
        Seq::empty()
    } else if n == 1 {
        json_tree(items[0])
    } else {
        json_items(items, (n - 1) as nat) + seq![44u8] + json_tree(items[n - 1])
    }
}

/// The first `n` members `"key":value`, comma-separated.
pub open spec fn json_members(es: Seq<(Seq<char>, Tree)>, n: nat) -> Seq<u8>
    decreases es, n,
{
    if n == 0 || n > es.len() {
        Seq::empty()
    } else {
        let one = json_quoted(es[n - 1].0) + seq![58u8] + json_tree(es[n - 1].1);
        if n == 1 {
            one
        } else {
            json_members(es, (n - 1) as nat) + seq![44u8] + one
        }
    }
}

/// The first `n` flat string members, comma-separated.
pub open spec fn json_pairs(fs: Seq<(Seq<char>, Seq<char>)>, n: nat) -> Seq<u8>
    decreases n,
{
    if n == 0 || n > fs.len() {
        Seq::empty()
    } else {
        let one = json_quoted(fs[n - 1].0) + seq![58u8] + json_quoted(fs[n - 1].1);
        if n == 1 {
            one
        } else {
            json_pairs(fs, (n - 1) as nat) + seq![44u8] + one
        }
    }
}

/// Decimal digits of `n`, without leading zeros.
pub open spec fn decimal(n: nat) -> Seq<u8>
    decreases n,
{
    if n < 10 {
        seq![(48 + n) as u8]
    } else {
        decimal(n / 10) + seq![(48 + n % 10) as u8]
    }
}

/// `"name":` for a member name given as ASCII bytes.
pub open spec fn member_name(name: Seq<u8>) -> Seq<u8> {
    seq![34u8] + name + seq![34u8, 58]
}

/// `secsgml_size_bytes`
pub open spec fn size_name() -> Seq<u8> {
    seq![115u8, 101, 99, 115, 103, 109, 108, 95, 115, 105, 122, 101, 95, 98, 121, 116, 101, 115]
}

/// `secsgml_start_byte`
pub open spec fn start_name() -> Seq<u8> {
    seq![115u8, 101, 99, 115, 103, 109, 108, 95, 115, 116, 97, 114, 116, 95, 98, 121, 116, 101]
}

/// `secsgml_end_byte`
pub open spec fn end_name() -> Seq<u8> {
    seq![115u8, 101, 99, 115, 103, 109, 108, 95, 101, 110, 100, 95, 98, 121, 116, 101]
}

/// `documents`
pub open spec fn documents_name() -> Seq<u8> {
    seq![100u8, 111, 99, 117, 109, 101, 110, 116, 115]
}

/// An optional string member, with its leading comma; nothing when absent.
pub open spec fn json_opt_member(name: Seq<u8>, v: Option<Seq<char>>) -> Seq<u8> {
    match v {
        Some(s) => seq![44u8] + member_name(name) + json_quoted(s),
        None => Seq::empty(),
    }
}

/// The JSON object of one document's metadata: its fields, then its size,
/// then its offsets where present.
pub open spec fn json_doc(fs: Seq<(Seq<char>, Seq<char>)>, size: nat, start: Option<Seq<char>>, end: Option<Seq<char>>) -> Seq<u8> {
    seq![123u8] + json_pairs(fs, fs.len()) + (if fs.len() > 0 {
        seq![44u8]
    } else {
        Seq::empty()
    }) + member_name(size_name()) + decimal(size) + json_opt_member(start_name(), start)
        + json_opt_member(end_name(), end) + seq![125u8]
}

/// The view of an optional string.
pub open spec fn opt_view(o: Option<String>) -> Option<Seq<char>> {
    match o {
        Some(s) => Some(s@),
        None => None,
    }
}

/// The JSON object of a document's metadata.
pub open spec fn doc_json(d: DocumentMetadata) -> Seq<u8> {
    json_doc(d.fields_view(), d.size_bytes as nat, opt_view(d.start_byte), opt_view(d.end_byte))
}

/// The first `n` documents' objects, comma-separated.
pub open spec fn docs_json(ds: Seq<DocumentMetadata>, n: nat) -> Seq<u8>
    decreases n,
{
    if n == 0 || n > ds.len() {
        Seq::empty()
    } else if n == 1 {
        doc_json(ds[0])
    } else {
        docs_json(ds, (n - 1) as nat) + seq![44u8] + doc_json(ds[n - 1])
    }
}

/// The JSON text of a submission's metadata.
pub open spec fn submission_json(m: SubmissionMetadata) -> Seq<u8> {
    let es = entries_tree(m.fields@);
    seq![123u8] + json_members(es, es.len()) + (if es.len() > 0 {
        seq![44u8]
    } else {
        Seq::empty()
    }) + member_name(documents_name()) + seq![91u8] + docs_json(
        m.documents@,
        m.documents@.len(),
    ) + seq![93u8, 125u8]
}

pub fn push_all(out: &mut Vec<u8>, s: &[u8])
    ensures
        final(out)@ == old(out)@ + s@,
{
    let mut i: usize = 0;
    while i < s.len()
        invariant
            i <= s@.len(),
            out@ == old(out)@ + s@.subrange(0, i as int),
        decreases s@.len() - i,
    {
        out.push(s[i]);
        i = i + 1;
        proof {
            assert(out@ =~= old(out)@ + s@.subrange(0, i as int));
        }
    }
    proof {
        assert(s@.subrange(0, s@.len() as int) =~= s@);
    }
}

fn push_quoted(out: &mut Vec<u8>, s: &String)
    ensures
        final(out)@ == old(out)@ + json_quoted(s@),
{
    let q = quote(s.as_str());
    push_all(out, q.as_slice());
}

fn push_name(out: &mut Vec<u8>, name: &Vec<u8>)
    ensures
        final(out)@ == old(out)@ + member_name(name@),
{
    out.push(34);
    push_all(out, name.as_slice());
    out.push(34);
    out.push(58);
    proof {
        assert(out@ =~= old(out)@ + member_name(name@));
    }
}

/// Appends the decimal digits of `n`.
pub fn push_decimal(out: &mut Vec<u8>, n: usize)
    ensures
        final(out)@ == old(out)@ + decimal(n as nat),
    decreases n,
{
    if n < 10 {
        out.push((48 + n) as u8);
        proof {
            assert(out@ =~= old(out)@ + decimal(n as nat));
        }
    } else {
        push_decimal(out, n / 10);
        out.push((48 + n % 10) as u8);
        proof {
            assert(out@ =~= old(out)@ + decimal(n as nat));
        }
    }
}

/// Appends the JSON text of a metadata value.
pub fn push_value(out: &mut Vec<u8>, v: &MetadataValue)
    ensures
        final(out)@ == old(out)@ + json_tree(v.tree()),
    decreases v, 0nat,
{
    match v {
        MetadataValue::String(s) => {
            push_quoted(out, s);
        },
        MetadataValue::List(items) => {
            proof {
                lemma_list_tree(*items);
            }
            let ghost t = items_tree(items@);
            out.push(91);
            let ghost start = out@;
            let mut i: usize = 0;
            while i < items.len()
                invariant
                    i <= items@.len(),
                    *v == MetadataValue::List(*items),
                    t == items_tree(items@),
                    out@ == start + json_items(t, i as nat),
                decreases items@.len() - i,
            {
                if i > 0 {
                    out.push(44);
                }
                let item = &items[i];
                proof {
                    assert(decreases_to!(*v => (*v)->List_0));
                    assert((*v)->List_0 == *items);
                    assert(decreases_to!(*items => items[i as int]));
                }
                push_value(out, item);
                i = i + 1;
                proof {
                    assert(out@ =~= start + json_items(t, i as nat));
                }
            }
            out.push(93);
            proof {
                assert(out@ =~= old(out)@ + json_tree(v.tree()));
            }
        },
        MetadataValue::Object(es) => {
            proof {
                lemma_object_tree(*es);
            }
            out.push(123);
            push_members(out, es);
            out.push(125);
            proof {
                assert(out@ =~= old(out)@ + json_tree(v.tree()));
            }
        },
    }
}

/// Appends the members of an object, comma-separated.
pub fn push_members(out: &mut Vec<u8>, es: &Vec<(String, MetadataValue)>)
    ensures
        final(out)@ == old(out)@ + json_members(entries_tree(es@), es@.len()),
    decreases es, 1nat,
{
    let ghost t = entries_tree(es@);
    let ghost start = old(out)@;
    let mut i: usize = 0;
    while i < es.len()
        invariant
            i <= es@.len(),
            t == entries_tree(es@),
            out@ == start + json_members(t, i as nat),
        decreases es@.len() - i,
    {
        if i > 0 {
            out.push(44);
        }
        push_quoted(out, &es[i].0);
        out.push(58);
        push_value(out, &es[i].1);
        i = i + 1;
        proof {
            assert(out@ =~= start + json_members(t, i as nat));
        }
    }
}

fn size_name_bytes() -> (r: Vec<u8>)
    ensures
        r@ == size_name(),
{
    let r: Vec<u8> = vec![115, 101, 99, 115, 103, 109, 108, 95, 115, 105, 122, 101, 95, 98, 121, 116, 101, 115];
    assert(r@ =~= size_name());
    r
}

fn start_name_bytes() -> (r: Vec<u8>)
    ensures
        r@ == start_name(),
{
    let r: Vec<u8> = vec![115, 101, 99, 115, 103, 109, 108, 95, 115, 116, 97, 114, 116, 95, 98, 121, 116, 101];
    assert(r@ =~= start_name());
    r
}

fn end_name_bytes() -> (r: Vec<u8>)
    ensures
        r@ == end_name(),
{
    let r: Vec<u8> = vec![115, 101, 99, 115, 103, 109, 108, 95, 101, 110, 100, 95, 98, 121, 116, 101];
    assert(r@ =~= end_name());
    r
}

fn documents_name_bytes() -> (r: Vec<u8>)
    ensures
        r@ == documents_name(),
{
    let r: Vec<u8> = vec![100, 111, 99, 117, 109, 101, 110, 116, 115];
    assert(r@ =~= documents_name());
    r
}

fn push_opt_member(out: &mut Vec<u8>, name: &Vec<u8>, v: &Option<String>)
    ensures
        final(out)@ == old(out)@ + json_opt_member(name@, opt_view(*v)),
{
    match v {
        Some(s) => {
            out.push(44);
            push_name(out, name);
            push_quoted(out, s);
            proof {
                assert(out@ =~= old(out)@ + json_opt_member(name@, opt_view(*v)));
            }
        },
        None => {
            assert(out@ =~= old(out)@ + json_opt_member(name@, opt_view(*v)));
        },
    }
}

/// Appends the JSON object of a document's metadata.
pub fn push_document(out: &mut Vec<u8>, d: &DocumentMetadata)
    ensures
        final(out)@ == old(out)@ + doc_json(*d),
{
    let ghost fs = d.fields_view();
    let ghost start = old(out)@;
    out.push(123);
    let ghost s1 = out@;
    let mut i: usize = 0;
    while i < d.fields.len()
        invariant
            i <= d.fields@.len(),
            fs == d.fields_view(),
            out@ == s1 + json_pairs(fs, i as nat),
        decreases d.fields@.len() - i,
    {
        if i > 0 {
            out.push(44);
        }
        push_quoted(out, &d.fields[i].0);
        out.push(58);
        push_quoted(out, &d.fields[i].1);
        i = i + 1;
        proof {
            assert(out@ =~= s1 + json_pairs(fs, i as nat));
        }
    }
    if d.fields.len() > 0 {
        out.push(44);
    }
    let sn = size_name_bytes();
    push_name(out, &sn);
    push_decimal(out, d.size_bytes);
    let stn = start_name_bytes();
    push_opt_member(out, &stn, &d.start_byte);
    let en = end_name_bytes();
    push_opt_member(out, &en, &d.end_byte);
    out.push(125);
    proof {
        assert(out@ =~= old(out)@ + doc_json(*d));
    }
}

/// The JSON text of a submission's metadata: its fields at top level,
/// then `documents`, the array of per-document objects.
pub fn metadata_to_json(m: &SubmissionMetadata) -> (r: Vec<u8>)
    ensures
        r@ == submission_json(*m),
{
    let mut out: Vec<u8> = Vec::new();
    out.push(123);
    push_members(&mut out, &m.fields);
    if m.fields.len() > 0 {
        out.push(44);
    }
    let dn = documents_name_bytes();
    push_name(&mut out, &dn);
    out.push(91);
    let ghost s1 = out@;
    let mut i: usize = 0;
    while i < m.documents.len()
        invariant
            i <= m.documents@.len(),
            out@ == s1 + docs_json(m.documents@, i as nat),
        decreases m.documents@.len() - i,
    {
        if i > 0 {
            out.push(44);
        }
        push_document(&mut out, &m.documents[i]);
        i = i + 1;
        proof {
            assert(out@ =~= s1 + docs_json(m.documents@, i as nat));
        }
    }
    out.push(93);
    out.push(125);
    proof {
        assert(out@ =~= submission_json(*m));
    }
    out
}

/// The string is ten plain decimal digits.
pub open spec fn ten_digit_text(s: Seq<char>) -> bool {
    s.len() == 10 && forall|i: int| 0 <= i < 10 ==> '0' <= #[trigger] s[i] <= '9'
}

/// The metadata of two documents differ at most in their offsets, and
/// both carry offsets of ten digits.
pub open spec fn same_but_offsets(a: DocumentMetadata, b: DocumentMetadata) -> bool {
    &&& a.fields_view() == b.fields_view()
    &&& a.size_bytes == b.size_bytes
    &&& a.start_byte matches Some(s) && ten_digit_text(s@)
    &&& a.end_byte matches Some(s) && ten_digit_text(s@)
    &&& b.start_byte matches Some(s) && ten_digit_text(s@)
    &&& b.end_byte matches Some(s) && ten_digit_text(s@)
}

/// Documents whose offsets are ten digits have JSON of a length that does
/// not depend on the digits.
pub proof fn lemma_docs_json_len(a: Seq<DocumentMetadata>, b: Seq<DocumentMetadata>, n: nat)
    requires
        n <= a.len(),
        a.len() == b.len(),
        forall|i: int| 0 <= i < a.len() ==> same_but_offsets(#[trigger] a[i], b[i]),
    ensures
        docs_json(a, n).len() == docs_json(b, n).len(),
    decreases n,
{
    if n > 0 {
        lemma_docs_json_len(a, b, (n - 1) as nat);
        let x = a[n - 1];
        let y = b[n - 1];
        assert(same_but_offsets(x, y));
        lemma_ten_digits_plain(x.start_byte->0);
        lemma_ten_digits_plain(x.end_byte->0);
        lemma_ten_digits_plain(y.start_byte->0);
        lemma_ten_digits_plain(y.end_byte->0);
        lemma_plain_quoted(x.start_byte->0@);
        lemma_plain_quoted(x.end_byte->0@);
        lemma_plain_quoted(y.start_byte->0@);
        lemma_plain_quoted(y.end_byte->0@);
        assert(doc_json(x).len() == doc_json(y).len());
    }
}

proof fn lemma_ten_digits_plain(s: String)
    requires
        ten_digit_text(s@),
    ensures
        forall|i: int| 0 <= i < s@.len() ==> plain_char(#[trigger] s@[i]),
{
}

/// Submissions that differ at most in ten-digit document offsets have
/// JSON of the same length.
pub proof fn lemma_submission_json_len(a: SubmissionMetadata, b: SubmissionMetadata)
    requires
        a.fields@ == b.fields@,
        a.documents@.len() == b.documents@.len(),
        forall|i: int| 0 <= i < a.documents@.len() ==> same_but_offsets(#[trigger] a.documents@[i], b.documents@[i]),
    ensures
        submission_json(a).len() == submission_json(b).len(),
{
    lemma_docs_json_len(a.documents@, b.documents@, a.documents@.len());
}

/// Parses `data` and returns the metadata's JSON text with the payloads.
/// Errors are those of the parse.
pub fn parse_sgml_to_json(
    data: &[u8],
    filter_document_types: Vec<String>,
    keep_filtered_metadata: bool,
    standardize_metadata: bool,
) -> (r: Result<(Vec<u8>, Vec<Vec<u8>>), ParseError>)
    ensures
        r is Err <==> exists|i: int| 0 <= i < doc_spans(data@).len() && !span_has_text(data@, i),
        r matches Ok(out) ==> exists|m: SubmissionMetadata|
            {
                &&& out.0@ == submission_json(m)
                &&& is_parse_of(
                    data@,
                    filter_document_types@,
                    keep_filtered_metadata,
                    standardize_metadata,
                    m,
                    out.1@,
                )
                &&& forall|i: int|
                    0 <= i < m.documents@.len() ==> (#[trigger] m.documents@[i]).start_byte is None
                        && m.documents@[i].end_byte is None
            },
{
    let options = ParseOptions {
        filter_document_types,
        keep_filtered_metadata,
        standardize_metadata,
        parallel: true,
    };
    let p = match parse_sgml(data, options) {
        Ok(p) => p,
        Err(e) => {
            return Err(e);
        },
    };
    let json = metadata_to_json(&p.metadata);
    Ok((json, p.documents))
}

} // verus!
