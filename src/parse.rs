//! Splitting a submission into its header and documents, and parsing each.
use vstd::prelude::*;
use vstd::slice::slice_subrange;
use vstd::slice::slice_to_vec;
use crate::bytes::{
    find, find_byte, find_from, first_occurrence_from, occurs_at, search_result, starts_with,
    trim, trim_spec, trim_start, trim_start_spec, trim_to_vec,
};
use crate::bytes::{lines_of, split_lines, ends_with};
use crate::header_mappings::{
    standardize_chars, standardized_key, transform_chars, transformed_value,
};
use crate::text::{
    is_alnum_byte,
    bytes_to_chars, bytes_to_string, chars_at, chars_start_with, find_char, find_chars, is_unicode_ws,
    is_whitespace, starts_with_chars, string_of, sub_chars, text_of_bytes, trim_chars, ws_trim,
    ws_trim_end,
};
use crate::header_mappings::{first_char, first_char_at, first_index, first_index_at};
use crate::tree::{
    entries_well_keyed, insert_at_path, key_pos, lemma_key_pos_from, lemma_put_at_well_keyed,
    path_view, put_at, well_keyed,
};
use crate::types::{entries_tree, lemma_object_tree, MetadataValue, Tree};
use crate::types::{
    field_get, field_index, fields_distinct, lemma_set_field_distinct, pairs_view, put_field,
    set_field, DocumentMetadata, ParseError,
    ParseOptions, ParsedSubmission, SubmissionFormat, SubmissionMetadata,
};
use crate::uudecode::{decode_uuencoded, is_uu, is_uuencoded, uu_decoded};
use vstd::utf8::encode_utf8;

verus! {

/// `<DOCUMENT>`
pub open spec fn doc_start() -> Seq<u8> {
    seq![60u8, 68, 79, 67, 85, 77, 69, 78, 84, 62]
}

/// `</DOCUMENT>`
pub open spec fn doc_end() -> Seq<u8> {
    seq![60u8, 47, 68, 79, 67, 85, 77, 69, 78, 84, 62]
}

/// `<TEXT>`
pub open spec fn text_start() -> Seq<u8> {
    seq![60u8, 84, 69, 88, 84, 62]
}

/// `</TEXT>`
pub open spec fn text_end() -> Seq<u8> {
    seq![60u8, 47, 84, 69, 88, 84, 62]
}

fn doc_start_tag() -> (r: Vec<u8>)
    ensures
        r@ == doc_start(),
{
    let r: Vec<u8> = vec![60, 68, 79, 67, 85, 77, 69, 78, 84, 62];
    assert(r@ =~= doc_start());
    r
}

fn doc_end_tag() -> (r: Vec<u8>)
    ensures
        r@ == doc_end(),
{
    let r: Vec<u8> = vec![60, 47, 68, 79, 67, 85, 77, 69, 78, 84, 62];
    assert(r@ =~= doc_end());
    r
}

fn text_start_tag() -> (r: Vec<u8>)
    ensures
        r@ == text_start(),
{
    let r: Vec<u8> = vec![60, 84, 69, 88, 84, 62];
    assert(r@ =~= text_start());
    r
}

fn text_end_tag() -> (r: Vec<u8>)
    ensures
        r@ == text_end(),
{
    let r: Vec<u8> = vec![60, 47, 84, 69, 88, 84, 62];
    assert(r@ =~= text_end());
    r
}

/// The first index at or after `from` where `n` occurs in `h`, if any.
pub open spec fn first_occ(h: Seq<u8>, n: Seq<u8>, from: int) -> Option<int> {
    if exists|i: int| first_occurrence_from(h, n, from, i) {
        Some(choose|i: int| first_occurrence_from(h, n, from, i))
    } else {
        None
    }
}

/// A search result is what `first_occ` names.
pub proof fn lemma_first_occ(h: Seq<u8>, n: Seq<u8>, from: int, r: Option<usize>)
    requires
        search_result(h, n, from, r),
    ensures
        match r {
            Some(i) => first_occ(h, n, from) == Some(i as int),
            None => first_occ(h, n, from) is None,
        },
{
    match r {
        Some(i) => {
            let c = choose|j: int| first_occurrence_from(h, n, from, j);
            assert(first_occurrence_from(h, n, from, i as int));
            if c < i {
                assert(occurs_at(h, n, c));
            } else if c > i {
                assert(occurs_at(h, n, i as int));
            }
        },
        None => {
            assert(!exists|j: int| first_occurrence_from(h, n, from, j));
        },
    }
}

/// The dialect of a header prefix: `-` first means a privacy banner,
/// `<SE` first a tab-indented header, anything else the archive form.
pub open spec fn format_of(data: Seq<u8>) -> SubmissionFormat {
    let t = trim_start_spec(data);
    if t.len() > 0 && t[0] == 45 {
        SubmissionFormat::TabPrivacy
    } else if starts_with(t, seq![60u8, 83, 69]) {
        SubmissionFormat::TabDefault
    } else {
        SubmissionFormat::Archive
    }
}

/// Detects the header dialect from its first non-whitespace bytes.
pub fn detect_format(data: &[u8]) -> (r: SubmissionFormat)
    ensures
        r == format_of(data@),
{
    let t = trim_start(data);
    if t.len() > 0 && t[0] == 45 {
        SubmissionFormat::TabPrivacy
    } else if t.len() >= 3 && t[0] == 60 && t[1] == 83 && t[2] == 69 {
        assert(t@.subrange(0, 3) =~= seq![60u8, 83, 69]);
        SubmissionFormat::TabDefault
    } else {
        proof {
            if starts_with(t@, seq![60u8, 83, 69]) {
                assert(t@.subrange(0, 3)[0] == t@[0]);
                assert(t@.subrange(0, 3)[1] == t@[1]);
                assert(t@.subrange(0, 3)[2] == t@[2]);
            }
        }
        SubmissionFormat::Archive
    }
}

/// A `<KEY>value` line split at its first `>`: the key is what lies between
/// the opening byte and that `>`, the value what follows, trimmed.
pub open spec fn tag_line(line: Seq<u8>) -> Option<(Seq<u8>, Seq<u8>)> {
    match first_occ(line, seq![62u8], 0) {
        Some(gt) => if gt >= 1 {
            Some((line.subrange(1, gt), trim_spec(line.subrange(gt + 1, line.len() as int))))
        } else {
            None
        },
        None => None,
    }
}

/// Splits a `<KEY>value` line into key and trimmed value.
pub fn parse_tag_line(line: &[u8]) -> (r: Option<(&[u8], &[u8])>)
    ensures
        match tag_line(line@) {
            Some(kv) => r matches Some(p) && p.0@ == kv.0 && p.1@ == kv.1,
            None => r is None,
        },
{
    let found = find_byte(62, line);
    proof {
        lemma_first_occ(line@, seq![62u8], 0, found);
    }
    match found {
        Some(gt) => {
            if gt >= 1 {
                let n = line.len();
                let key = slice_subrange(line, 1, gt);
                let value = trim(slice_subrange(line, gt + 1, n));
                Some((key, value))
            } else {
                None
            }
        },
        None => None,
    }
}

/// The `<DOCUMENT>` spans of `data` from `pos` on: each runs from a
/// `<DOCUMENT>` to the end of the nearest `</DOCUMENT>` after it; the scan
/// goes on after that closing tag, and stops at an opening tag that is
/// never closed.
pub open spec fn spans_from(data: Seq<u8>, pos: int) -> Seq<(int, int)>
    decreases data.len() - pos,
{
    if pos < 0 || pos > data.len() {
        Seq::empty()
    } else {
        match first_occ(data, doc_start(), pos) {
            Some(s) => match first_occ(data, doc_end(), s) {
                Some(e) => if pos < e + 11 <= data.len() {
                    seq![(s, e + 11)] + spans_from(data, e + 11)
                } else {
                    Seq::empty()
                },
                None => Seq::empty(),
            },
            None => Seq::empty(),
        }
    }
}

/// The `<DOCUMENT>` spans of `data`.
pub open spec fn doc_spans(data: Seq<u8>) -> Seq<(int, int)> {
    spans_from(data, 0)
}

/// Finds the `(start, end)` byte range of every `<DOCUMENT>...</DOCUMENT>`
/// block, both tags included, in order.
pub fn find_document_boundaries(data: &[u8]) -> (r: Vec<(usize, usize)>)
    ensures
        r@.len() == doc_spans(data@).len(),
        forall|i: int|
            0 <= i < r@.len() ==> (#[trigger] r@[i]).0 as int == doc_spans(data@)[i].0 && r@[i].1
                as int == doc_spans(data@)[i].1,
{
    let open_tag = doc_start_tag();
    let close_tag = doc_end_tag();
    let mut out: Vec<(usize, usize)> = Vec::new();
    let ghost done: Seq<(int, int)> = Seq::empty();
    let mut pos: usize = 0;
    loop
        invariant
            pos <= data@.len(),
            open_tag@ == doc_start(),
            close_tag@ == doc_end(),
            out@.len() == done.len(),
            forall|i: int|
                0 <= i < out@.len() ==> (#[trigger] out@[i]).0 as int == done[i].0 && out@[i].1
                    as int == done[i].1,
            doc_spans(data@) == done + spans_from(data@, pos as int),
        decreases data@.len() - pos,
    {
        let s = find_from(data, open_tag.as_slice(), pos);
        proof {
            lemma_first_occ(data@, doc_start(), pos as int, s);
        }
        match s {
            None => {
                assert(done + spans_from(data@, pos as int) =~= done);
                return out;
            },
            Some(s) => {
                let e = find_from(data, close_tag.as_slice(), s);
                proof {
                    lemma_first_occ(data@, doc_end(), s as int, e);
                }
                match e {
                    None => {
                        assert(done + spans_from(data@, pos as int) =~= done);
                        return out;
                    },
                    Some(e) => {
                        let n = data.len();
                        assert(e + 11 <= n);
                        let end = e + 11;
                        out.push((s, end));
                        proof {
                            assert(done.push((s as int, end as int)) + spans_from(data@, end as int)
                                =~= done + spans_from(data@, pos as int));
                            done = done.push((s as int, end as int));
                        }
                        pos = end;
                    },
                }
            },
        }
    }
}

/// The field that one line of a document's metadata block gives, if any:
/// a trimmed line that opens with `<` and splits as a tag line.
pub open spec fn meta_entry(line: Seq<u8>, standardize: bool) -> Option<(Seq<char>, Seq<char>)> {
    let t = trim_spec(line);
    if t.len() == 0 || t[0] != 60 {
        None
    } else {
        match tag_line(t) {
            Some(kv) => {
                let k = text_of_bytes(kv.0);
                let v = text_of_bytes(kv.1);
                if standardize {
                    Some((standardized_key(k), transformed_value(k, v)))
                } else {
                    Some((k, v))
                }
            },
            None => None,
        }
    }
}

/// The fields that the first `n` lines give, later lines overriding
/// earlier ones on the same key.
pub open spec fn meta_fields(lines: Seq<Seq<u8>>, n: nat, standardize: bool) -> Seq<
    (Seq<char>, Seq<char>),
>
    decreases n,
{
    if n == 0 || n > lines.len() {
        Seq::empty()
    } else {
        let prev = meta_fields(lines, (n - 1) as nat, standardize);
        match meta_entry(lines[n - 1], standardize) {
            Some(kv) => set_field(prev, kv.0, kv.1),
            None => prev,
        }
    }
}

/// The fields of a document's metadata block.
pub open spec fn doc_meta_fields(data: Seq<u8>, standardize: bool) -> Seq<(Seq<char>, Seq<char>)> {
    meta_fields(lines_of(data), lines_of(data).len(), standardize)
}

/// The fields of a metadata block have distinct keys.
pub proof fn lemma_meta_fields_distinct(lines: Seq<Seq<u8>>, n: nat, standardize: bool)
    ensures
        fields_distinct(meta_fields(lines, n, standardize)),
    decreases n,
{
    if n > 0 && n <= lines.len() {
        lemma_meta_fields_distinct(lines, (n - 1) as nat, standardize);
        let prev = meta_fields(lines, (n - 1) as nat, standardize);
        match meta_entry(lines[n - 1], standardize) {
            Some(kv) => lemma_set_field_distinct(prev, kv.0, kv.1),
            None => {},
        }
    }
}

/// Parses a document's metadata block: one `<KEY>value` per line.
pub fn parse_document_metadata(data: &[u8], standardize: bool) -> (r: DocumentMetadata)
    ensures
        r.fields_view() == doc_meta_fields(data@, standardize),
        fields_distinct(r.fields_view()),
        r.size_bytes == 0,
        r.start_byte is None,
        r.end_byte is None,
{
    let lines = split_lines(data);
    let ghost ls = lines_of(data@);
    proof {
        lemma_meta_fields_distinct(ls, ls.len(), standardize);
    }
    let mut fields: Vec<(String, String)> = Vec::new();
    let mut i: usize = 0;
    while i < lines.len()
        invariant
            i <= lines@.len() == ls.len(),
            ls == lines_of(data@),
            forall|j: int| 0 <= j < lines@.len() ==> (#[trigger] lines@[j])@ == ls[j],
            pairs_view(fields@) == meta_fields(ls, i as nat, standardize),
        decreases lines@.len() - i,
    {
        let line = trim(lines[i].as_slice());
        if line.len() > 0 && line[0] == 60 {
            match parse_tag_line(line) {
                Some(kv) => {
                    let k = bytes_to_chars(kv.0);
                    let v = bytes_to_chars(kv.1);
                    if standardize {
                        let fk = standardize_chars(k.as_slice());
                        let fv = transform_chars(k.as_slice(), v.as_slice());
                        put_field(&mut fields, string_of(fk.as_slice()), string_of(fv.as_slice()));
                    } else {
                        put_field(&mut fields, string_of(k.as_slice()), string_of(v.as_slice()));
                    }
                },
                None => {},
            }
        }
        i = i + 1;
    }
    DocumentMetadata { fields, size_bytes: 0, start_byte: None, end_byte: None }
}

/// The first index of the char `c` in `s`, if any.
pub open spec fn first_char_rec(s: Seq<char>, c: char) -> Option<int>
    decreases s.len(),
{
    if s.len() == 0 {
        None
    } else if s[0] == c {
        Some(0)
    } else {
        match first_char_rec(s.drop_first(), c) {
            Some(i) => Some(i + 1),
            None => None,
        }
    }
}

proof fn lemma_first_char_rec(s: Seq<char>, c: char, p: int)
    requires
        0 <= p <= s.len(),
        forall|k: int| 0 <= k < p ==> s[k] != c,
        p < s.len() ==> s[p] == c,
    ensures
        first_char_rec(s, c) == (if p < s.len() {
            Some(p)
        } else {
            None::<int>
        }),
    decreases s.len(),
{
    if s.len() > 0 && s[0] != c {
        lemma_first_char_rec(s.drop_first(), c, p - 1);
    }
}

/// A line that ended at LF, without the CR of a CRLF ending.
pub open spec fn without_cr(l: Seq<char>) -> Seq<char> {
    if l.len() > 0 && l.last() == '\r' {
        l.drop_last()
    } else {
        l
    }
}

/// The lines of a text: split at LF, a CR before the LF dropped, no empty
/// last line when the text ends with LF.
pub open spec fn text_lines(s: Seq<char>) -> Seq<Seq<char>>
    decreases s.len(),
{
    if s.len() == 0 {
        Seq::empty()
    } else {
        match first_char_rec(s, '\n') {
            Some(p) => if 0 <= p < s.len() {
                seq![without_cr(s.subrange(0, p))] + text_lines(s.subrange(p + 1, s.len() as int))
            } else {
                seq![s]
            },
            None => seq![s],
        }
    }
}

/// The lines of `s`, as `text_lines` states them.
pub fn split_text_lines(s: &[char]) -> (r: Vec<Vec<char>>)
    ensures
        r@.len() == text_lines(s@).len(),
        forall|i: int| 0 <= i < r@.len() ==> (#[trigger] r@[i])@ == text_lines(s@)[i],
{
    let mut out: Vec<Vec<char>> = Vec::new();
    let ghost done: Seq<Seq<char>> = Seq::empty();
    let mut pos: usize = 0;
    let n = s.len();
    proof {
        assert(s@.subrange(0, n as int) =~= s@);
    }
    while pos < n
        invariant
            pos <= n == s@.len(),
            out@.len() == done.len(),
            forall|i: int| 0 <= i < out@.len() ==> (#[trigger] out@[i])@ == done[i],
            text_lines(s@) == done + text_lines(s@.subrange(pos as int, n as int)),
        decreases n - pos,
    {
        let mut j: usize = pos;
        while j < n && s[j] != '\n'
            invariant
                pos <= j <= n == s@.len(),
                forall|k: int| pos <= k < j ==> s@[k] != '\n',
            decreases n - j,
        {
            j = j + 1;
        }
        let ghost rest = s@.subrange(pos as int, n as int);
        proof {
            lemma_first_char_rec(rest, '\n', j - pos);
        }
        if j < n {
            let e = if j > pos && s[j - 1] == '\r' { j - 1 } else { j };
            let line = slice_to_vec(slice_subrange(s, pos, e));
            proof {
                assert(line@ =~= without_cr(rest.subrange(0, j - pos)));
                assert(rest.subrange(j - pos + 1, rest.len() as int) =~= s@.subrange(
                    j + 1,
                    n as int,
                ));
                assert(done.push(line@) + text_lines(s@.subrange(j + 1, n as int)) =~= done + (
                seq![line@] + text_lines(s@.subrange(j + 1, n as int))));
                done = done.push(line@);
            }
            out.push(line);
            pos = j + 1;
        } else {
            let line = slice_to_vec(slice_subrange(s, pos, n));
            proof {
                assert(rest =~= line@);
                assert(done.push(line@) =~= done + seq![line@]);
                done = done.push(line@);
                assert(s@.subrange(n as int, n as int) =~= Seq::<char>::empty());
            }
            out.push(line);
            pos = n;
        }
    }
    proof {
        assert(s@.subrange(n as int, n as int) =~= Seq::<char>::empty());
        assert(done + Seq::<Seq<char>>::empty() =~= done);
    }
    out
}

/// Lines after the repair of wraparound over the first `n` lines: a line
/// of 1023 chars or more is continued by the next one.
pub open spec fn wrapped(ls: Seq<Seq<char>>, n: nat) -> Seq<Seq<char>>
    decreases n,
{
    if n == 0 || n > ls.len() {
        Seq::empty()
    } else {
        let prev = wrapped(ls, (n - 1) as nat);
        if n >= 2 && prev.len() > 0 && ls[n - 2].len() >= 1023 {
            prev.update(prev.len() - 1, prev.last() + ls[n - 1])
        } else {
            prev.push(ls[n - 1])
        }
    }
}

/// The logical lines of a text whose long lines wrap at 1023 chars.
pub open spec fn logical_lines(data: Seq<u8>) -> Seq<Seq<char>> {
    let ls = text_lines(text_of_bytes(data));
    wrapped(ls, ls.len())
}

/// The logical lines of `data` as char vectors.
pub fn wrap_lines(data: &[u8]) -> (r: Vec<Vec<char>>)
    ensures
        r@.len() == logical_lines(data@).len(),
        forall|i: int| 0 <= i < r@.len() ==> (#[trigger] r@[i])@ == logical_lines(data@)[i],
{
    let text = bytes_to_chars(data);
    let lines = split_text_lines(text.as_slice());
    let ghost ls = text_lines(text@);
    let mut out: Vec<Vec<char>> = Vec::new();
    let mut last_long = false;
    let mut i: usize = 0;
    while i < lines.len()
        invariant
            i <= lines@.len() == ls.len(),
            ls == text_lines(text_of_bytes(data@)),
            forall|j: int| 0 <= j < lines@.len() ==> (#[trigger] lines@[j])@ == ls[j],
            out@.len() == wrapped(ls, i as nat).len(),
            forall|j: int| 0 <= j < out@.len() ==> (#[trigger] out@[j])@ == wrapped(ls, i as nat)[j],
            i > 0 ==> last_long == (ls[i - 1].len() >= 1023),
            i > 0 ==> out@.len() > 0,
        decreases lines@.len() - i,
    {
        let ghost prev = wrapped(ls, i as nat);
        let line = &lines[i];
        if out.len() > 0 && last_long {
            let k = out.len() - 1;
            let mut cur = out.remove(k);
            let mut add = slice_to_vec(line.as_slice());
            cur.append(&mut add);
            out.push(cur);
            proof {
                assert(wrapped(ls, (i + 1) as nat) == prev.update(prev.len() - 1, prev.last() + ls[i as int]));
                assert forall|j: int| 0 <= j < out@.len() implies (#[trigger] out@[j])@ == wrapped(
                    ls,
                    (i + 1) as nat,
                )[j] by {}
            }
        } else {
            out.push(slice_to_vec(line.as_slice()));
            proof {
                assert(wrapped(ls, (i + 1) as nat) == prev.push(ls[i as int]));
                assert forall|j: int| 0 <= j < out@.len() implies (#[trigger] out@[j])@ == wrapped(
                    ls,
                    (i + 1) as nat,
                )[j] by {}
            }
        }
        last_long = line.len() >= 1023;
        i = i + 1;
    }
    out
}

/// Repairs line wraparound: a line of 1023 chars or more is continued by
/// the next line; the result holds the logical lines.
pub fn fix_line_wraparound(data: &[u8]) -> (r: Vec<String>)
    ensures
        r@.len() == logical_lines(data@).len(),
        forall|i: int| 0 <= i < r@.len() ==> (#[trigger] r@[i])@ == logical_lines(data@)[i],
{
    let lines = wrap_lines(data);
    let mut out: Vec<String> = Vec::new();
    let mut i: usize = 0;
    while i < lines.len()
        invariant
            i <= lines@.len() == logical_lines(data@).len(),
            forall|j: int| 0 <= j < lines@.len() ==> (#[trigger] lines@[j])@ == logical_lines(data@)[j],
            out@.len() == i,
            forall|j: int| 0 <= j < i ==> (#[trigger] out@[j])@ == logical_lines(data@)[j],
        decreases lines@.len() - i,
    {
        out.push(string_of(lines[i].as_slice()));
        i = i + 1;
    }
    out
}

/// `ls` joined with LF between consecutive lines.
pub open spec fn join_lines(ls: Seq<Seq<char>>, n: nat) -> Seq<char>
    decreases n,
{
    if n == 0 || n > ls.len() {
        Seq::empty()
    } else if n == 1 {
        ls[0]
    } else {
        join_lines(ls, (n - 1) as nat) + seq!['\n'] + ls[n - 1]
    }
}

/// `c` without a leading wrapper tag `<PDF>`, `<XBRL>` or `<XML>`.
pub open spec fn strip_open_tag(c: Seq<u8>) -> Seq<u8> {
    if starts_with(c, seq![60u8, 80, 68, 70, 62]) {
        c.subrange(5, c.len() as int)
    } else if starts_with(c, seq![60u8, 88, 66, 82, 76, 62]) {
        c.subrange(6, c.len() as int)
    } else if starts_with(c, seq![60u8, 88, 77, 76, 62]) {
        c.subrange(5, c.len() as int)
    } else {
        c
    }
}

/// `c` without a trailing wrapper tag `</PDF>`, `</XBRL>` or `</XML>`.
pub open spec fn strip_close_tag(c: Seq<u8>) -> Seq<u8> {
    if ends_with(c, seq![60u8, 47, 80, 68, 70, 62]) {
        c.subrange(0, c.len() - 6)
    } else if ends_with(c, seq![60u8, 47, 88, 66, 82, 76, 62]) {
        c.subrange(0, c.len() - 7)
    } else if ends_with(c, seq![60u8, 47, 88, 77, 76, 62]) {
        c.subrange(0, c.len() - 6)
    } else {
        c
    }
}

/// A textual payload once cleaned: trimmed, unwrapped from a wrapper tag
/// pair, and for the tab dialects with its wrapped lines repaired.
pub open spec fn cleaned(content: Seq<u8>, format: SubmissionFormat, is_binary: bool) -> Seq<u8> {
    let c = strip_close_tag(trim_spec(strip_open_tag(trim_spec(content))));
    if !is_binary && (format == SubmissionFormat::TabPrivacy || format
        == SubmissionFormat::TabDefault) {
        let ls = logical_lines(c);
        encode_utf8(join_lines(ls, ls.len()))
    } else {
        trim_spec(c)
    }
}

fn has_prefix(c: &[u8], p: &[u8]) -> (r: bool)
    ensures
        r == starts_with(c@, p@),
{
    if p.len() > c.len() {
        return false;
    }
    let mut i: usize = 0;
    while i < p.len()
        invariant
            i <= p@.len() <= c@.len(),
            forall|j: int| 0 <= j < i ==> c@[j] == p@[j],
        decreases p@.len() - i,
    {
        if c[i] != p[i] {
            assert(c@.subrange(0, p@.len() as int)[i as int] != p@[i as int]);
            return false;
        }
        i = i + 1;
    }
    assert(c@.subrange(0, p@.len() as int) =~= p@);
    true
}

fn has_suffix(c: &[u8], p: &[u8]) -> (r: bool)
    ensures
        r == ends_with(c@, p@),
{
    if p.len() > c.len() {
        return false;
    }
    let off = c.len() - p.len();
    let mut i: usize = 0;
    while i < p.len()
        invariant
            i <= p@.len() <= c@.len(),
            off == c@.len() - p@.len(),
            forall|j: int| 0 <= j < i ==> c@[off + j] == p@[j],
        decreases p@.len() - i,
    {
        let cn = c.len();
        assert(off + i < cn);
        if c[off + i] != p[i] {
            assert(c@.subrange(off as int, c@.len() as int)[i as int] != p@[i as int]);
            return false;
        }
        i = i + 1;
    }
    assert(c@.subrange(off as int, c@.len() as int) =~= p@);
    true
}

/// Joins lines with LF.
fn join_chars(ls: &Vec<Vec<char>>) -> (r: Vec<char>)
    ensures
        r@ == join_lines(Seq::new(ls@.len(), |i: int| ls@[i]@), ls@.len()),
{
    let ghost v = Seq::new(ls@.len(), |i: int| ls@[i]@);
    let mut out: Vec<char> = Vec::new();
    let mut i: usize = 0;
    while i < ls.len()
        invariant
            i <= ls@.len(),
            v == Seq::new(ls@.len(), |i: int| ls@[i]@),
            out@ == join_lines(v, i as nat),
        decreases ls@.len() - i,
    {
        if i > 0 {
            out.push('\n');
        }
        let mut add = slice_to_vec(ls[i].as_slice());
        out.append(&mut add);
        i = i + 1;
        proof {
            if i == 1 {
                assert(out@ =~= join_lines(v, i as nat));
            } else {
                assert(out@ =~= join_lines(v, i as nat));
            }
        }
    }
    out
}

/// Cleans a textual payload: trims it, strips a wrapper tag pair
/// (`<PDF>`, `<XBRL>`, `<XML>`), and for the tab dialects repairs wrapped
/// lines.
pub fn clean_document_content(content: &[u8], format: SubmissionFormat, is_binary: bool) -> (r: Vec<
    u8,
>)
    ensures
        r@ == cleaned(content@, format, is_binary),
{
    let c0 = trim(content);
    let pdf: Vec<u8> = vec![60, 80, 68, 70, 62];
    let xbrl: Vec<u8> = vec![60, 88, 66, 82, 76, 62];
    let xml: Vec<u8> = vec![60, 88, 77, 76, 62];
    assert(pdf@ =~= seq![60u8, 80, 68, 70, 62]);
    assert(xbrl@ =~= seq![60u8, 88, 66, 82, 76, 62]);
    assert(xml@ =~= seq![60u8, 88, 77, 76, 62]);
    let n0 = c0.len();
    let c1 = if has_prefix(c0, pdf.as_slice()) {
        slice_subrange(c0, 5, n0)
    } else if has_prefix(c0, xbrl.as_slice()) {
        slice_subrange(c0, 6, n0)
    } else if has_prefix(c0, xml.as_slice()) {
        slice_subrange(c0, 5, n0)
    } else {
        c0
    };
    let c2 = trim(c1);
    let epdf: Vec<u8> = vec![60, 47, 80, 68, 70, 62];
    let exbrl: Vec<u8> = vec![60, 47, 88, 66, 82, 76, 62];
    let exml: Vec<u8> = vec![60, 47, 88, 77, 76, 62];
    assert(epdf@ =~= seq![60u8, 47, 80, 68, 70, 62]);
    assert(exbrl@ =~= seq![60u8, 47, 88, 66, 82, 76, 62]);
    assert(exml@ =~= seq![60u8, 47, 88, 77, 76, 62]);
    let n2 = c2.len();
    let c3 = if has_suffix(c2, epdf.as_slice()) {
        slice_subrange(c2, 0, n2 - 6)
    } else if has_suffix(c2, exbrl.as_slice()) {
        slice_subrange(c2, 0, n2 - 7)
    } else if has_suffix(c2, exml.as_slice()) {
        slice_subrange(c2, 0, n2 - 6)
    } else {
        c2
    };
    if !is_binary && (format == SubmissionFormat::TabPrivacy || format
        == SubmissionFormat::TabDefault) {
        let lines = wrap_lines(c3);
        let joined = join_chars(&lines);
        proof {
            assert(Seq::new(lines@.len(), |i: int| lines@[i]@) =~= logical_lines(c3@));
        }
        let text = string_of(joined.as_slice());
        slice_to_vec(text.as_str().as_bytes())
    } else {
        slice_to_vec(trim(c3))
    }
}

/// Where the payload of a document ends: at its `</TEXT>`, or at its end.
pub open spec fn payload_end(doc: Seq<u8>, from: int) -> int {
    match first_occ(doc, text_end(), from) {
        Some(e) => e,
        None => doc.len() as int,
    }
}

/// The raw payload of a document whose `<TEXT>` is at `ts`.
pub open spec fn raw_payload(doc: Seq<u8>, ts: int) -> Seq<u8> {
    doc.subrange(ts + 6, payload_end(doc, ts + 6))
}

/// The payload that raw text content yields: decoded when UU-encoded,
/// else cleaned.
pub open spec fn payload_of(raw: Seq<u8>, format: SubmissionFormat) -> Seq<u8> {
    if is_uu(raw) {
        uu_decoded(raw)
    } else {
        cleaned(raw, format, false)
    }
}

/// Parses one `<DOCUMENT>` block: its metadata block, then its payload,
/// decoded when UU-encoded and cleaned otherwise. A block without `<TEXT>`
/// is an `InvalidStructure` error.
pub fn parse_single_document(doc_data: &[u8], format: SubmissionFormat, standardize: bool) -> (r:
    Result<(DocumentMetadata, Vec<u8>), ParseError>)
    requires
        starts_with(doc_data@, doc_start()),
    ensures
        r is Err <==> first_occ(doc_data@, text_start(), 0) is None,
        r is Err ==> r matches Err(ParseError::InvalidStructure(_)),
        r matches Ok(p) ==> {
            let ts = first_occ(doc_data@, text_start(), 0)->0;
            &&& 10 <= ts
            &&& p.0.fields_view() == doc_meta_fields(doc_data@.subrange(10, ts), standardize)
            &&& fields_distinct(p.0.fields_view())
            &&& p.1@ == payload_of(raw_payload(doc_data@, ts), format)
            &&& p.0.size_bytes == p.1@.len()
            &&& p.0.start_byte is None
            &&& p.0.end_byte is None
        },
{
    let ts_tag = text_start_tag();
    let found = find(doc_data, ts_tag.as_slice());
    proof {
        lemma_first_occ(doc_data@, text_start(), 0, found);
    }
    let ts = match found {
        Some(ts) => ts,
        None => {
            return Err(ParseError::InvalidStructure("Missing <TEXT> tag".to_owned()));
        },
    };
    if ts < 10 {
        proof {
            assert(doc_data@.subrange(0, 10) == doc_start());
            assert(doc_data@.subrange(ts as int, ts + 6) == text_start());
            assert(doc_data@[ts as int] == doc_data@.subrange(ts as int, ts + 6)[0]);
            assert(doc_data@[ts + 1] == doc_data@.subrange(ts as int, ts + 6)[1]);
            assert(doc_data@[ts as int] == doc_data@.subrange(0, 10)[ts as int]);
            if ts + 1 < 10 {
                assert(doc_data@[ts + 1] == doc_data@.subrange(0, 10)[ts + 1]);
            }
        }
        return Err(ParseError::InvalidStructure("Missing <TEXT> tag".to_owned()));
    }
    let meta_slice = slice_subrange(doc_data, 10, ts);
    let mut meta = parse_document_metadata(meta_slice, standardize);
    let te_tag = text_end_tag();
    let dn = doc_data.len();
    assert(ts + 6 <= dn);
    let cs = ts + 6;
    let found_end = find_from(doc_data, te_tag.as_slice(), cs);
    proof {
        lemma_first_occ(doc_data@, text_end(), cs as int, found_end);
    }
    let ce = match found_end {
        Some(e) => e,
        None => doc_data.len(),
    };
    let raw = slice_subrange(doc_data, cs, ce);
    let content = if is_uuencoded(raw) {
        decode_uuencoded(raw)
    } else {
        clean_document_content(raw, format, false)
    };
    meta.size_bytes = content.len();
    Ok((meta, content))
}

/// The key under which the filter reads a document's type.
pub open spec fn type_key(standardize: bool) -> Seq<char> {
    if standardize {
        "type"@
    } else {
        "TYPE"@
    }
}

/// The document's type is one of `filter`.
pub open spec fn is_selected(m: DocumentMetadata, filter: Seq<String>, standardize: bool) -> bool {
    fields_selected(m.fields_view(), filter, standardize)
}

/// The type among `fs` is one of `filter`.
pub open spec fn fields_selected(
    fs: Seq<(Seq<char>, Seq<char>)>,
    filter: Seq<String>,
    standardize: bool,
) -> bool {
    match field_get(fs, type_key(standardize)) {
        Some(t) => exists|j: int| 0 <= j < filter.len() && (#[trigger] filter[j])@ == t,
        None => false,
    }
}

/// The indices, among the first `n`, of the documents that the filter keeps.
pub open spec fn selected(
    metas: Seq<DocumentMetadata>,
    filter: Seq<String>,
    standardize: bool,
    n: nat,
) -> Seq<int>
    decreases n,
{
    if n == 0 || n > metas.len() {
        Seq::empty()
    } else {
        let p = selected(metas, filter, standardize, (n - 1) as nat);
        if is_selected(metas[n - 1], filter, standardize) {
            p.push(n - 1)
        } else {
            p
        }
    }
}

fn type_matches(m: &DocumentMetadata, filter: &Vec<String>, standardize: bool) -> (r: bool)
    ensures
        r == is_selected(*m, filter@, standardize),
{
    let key = if standardize {
        "type".to_owned()
    } else {
        "TYPE".to_owned()
    };
    match field_index(&m.fields, &key) {
        None => false,
        Some(i) => {
            let t = &m.fields[i].1;
            assert(field_get(m.fields_view(), type_key(standardize)) == Some(t@));
            let mut j: usize = 0;
            while j < filter.len()
                invariant
                    j <= filter@.len(),
                    field_get(m.fields_view(), type_key(standardize)) == Some(t@),
                    forall|q: int| 0 <= q < j ==> filter@[q]@ != t@,
                decreases filter@.len() - j,
            {
                if filter[j] == *t {
                    return true;
                }
                j = j + 1;
            }
            false
        },
    }
}

/// Applies the type filter. With no filter both lists are returned as
/// they are. Otherwise the payloads are narrowed to the selected documents,
/// and so is the metadata unless `keep_filtered_metadata` is set.
pub fn apply_filter(
    doc_metas: Vec<DocumentMetadata>,
    documents: Vec<Vec<u8>>,
    options: &ParseOptions,
) -> (r: (Vec<DocumentMetadata>, Vec<Vec<u8>>))
    requires
        doc_metas@.len() == documents@.len(),
    ensures
        options.filter_document_types@.len() == 0 ==> r.0@ == doc_metas@ && r.1@ == documents@,
        options.filter_document_types@.len() > 0 ==> {
            let sel = selected(
                doc_metas@,
                options.filter_document_types@,
                options.standardize_metadata,
                doc_metas@.len(),
            );
            &&& r.1@.len() == sel.len()
            &&& forall|k: int| 0 <= k < sel.len() ==> r.1@[k] == documents@[#[trigger] sel[k]]
            &&& options.keep_filtered_metadata ==> r.0@ == doc_metas@
            &&& !options.keep_filtered_metadata ==> r.0@.len() == sel.len() && forall|k: int|
                0 <= k < sel.len() ==> r.0@[k] == doc_metas@[#[trigger] sel[k]]
        },
{
    if options.filter_document_types.len() == 0 {
        return (doc_metas, documents);
    }
    let ghost m0 = doc_metas@;
    let ghost d0 = documents@;
    let ghost f = options.filter_document_types@;
    let ghost sd = options.standardize_metadata;
    let n = doc_metas.len();
    let mut metas = doc_metas;
    let mut docs = documents;
    let mut out_metas: Vec<DocumentMetadata> = Vec::new();
    let mut out_docs: Vec<Vec<u8>> = Vec::new();
    let mut i: usize = 0;
    while i < n
        invariant
            i <= n == m0.len() == d0.len(),
            metas@ == m0.subrange(i as int, n as int),
            docs@ == d0.subrange(i as int, n as int),
            f == options.filter_document_types@,
            sd == options.standardize_metadata,
            out_docs@.len() == selected(m0, f, sd, i as nat).len(),
            forall|k: int|
                0 <= k < out_docs@.len() ==> out_docs@[k] == d0[#[trigger] selected(
                    m0,
                    f,
                    sd,
                    i as nat,
                )[k]],
            options.keep_filtered_metadata ==> out_metas@ == m0.subrange(0, i as int),
            !options.keep_filtered_metadata ==> out_metas@.len() == selected(m0, f, sd, i as nat).len()
                && forall|k: int|
                0 <= k < out_metas@.len() ==> out_metas@[k] == m0[#[trigger] selected(
                    m0,
                    f,
                    sd,
                    i as nat,
                )[k]],
        decreases n - i,
    {
        let m = metas.remove(0);
        let d = docs.remove(0);
        assert(m == m0[i as int]);
        assert(d == d0[i as int]);
        let keep = type_matches(&m, &options.filter_document_types, options.standardize_metadata);
        if keep {
            out_docs.push(d);
        }
        if options.keep_filtered_metadata || keep {
            out_metas.push(m);
        }
        proof {
            assert(metas@ =~= m0.subrange(i + 1, n as int));
            assert(docs@ =~= d0.subrange(i + 1, n as int));
        }
        i = i + 1;
        proof {
            assert(options.keep_filtered_metadata ==> out_metas@ =~= m0.subrange(0, i as int));
        }
    }
    proof {
        assert(m0.subrange(0, n as int) =~= m0);
    }
    (out_metas, out_docs)
}

/// Number of leading tabs of `l`.
pub open spec fn indent_of(l: Seq<char>) -> nat
    decreases l.len(),
{
    if l.len() > 0 && l[0] == '\t' {
        1 + indent_of(l.drop_first())
    } else {
        0
    }
}

/// `<SEC-DOCUMENT>`
pub open spec fn sec_document_tag() -> Seq<char> {
    seq!['<', 'S', 'E', 'C', '-', 'D', 'O', 'C', 'U', 'M', 'E', 'N', 'T', '>']
}

/// `<SEC-HEADER>`
pub open spec fn sec_header_tag() -> Seq<char> {
    seq!['<', 'S', 'E', 'C', '-', 'H', 'E', 'A', 'D', 'E', 'R', '>']
}

/// The tag and value of a `<TAG>filename : date` line: the value is
/// `filename : date` with each part trimmed when a ` : ` follows the tag,
/// else the trimmed rest of the line.
pub open spec fn sec_header(line: Seq<char>) -> Option<(Seq<char>, Seq<char>)> {
    match first_char(line, '>') {
        Some(gt) => if gt >= 1 {
            let tag = line.subrange(1, gt);
            let rest = line.subrange(gt + 1, line.len() as int);
            match first_index(rest, seq![' ', ':', ' ']) {
                Some(c) => Some(
                    (
                        tag,
                        ws_trim(rest.subrange(0, c)) + seq![' ', ':', ' '] + ws_trim(
                            rest.subrange(c + 3, rest.len() as int),
                        ),
                    ),
                ),
                None => Some((tag, ws_trim(rest))),
            }
        } else {
            None
        },
        None => None,
    }
}

/// The key as stored: its canonical form when standardizing.
pub open spec fn stored_key(k: Seq<char>, standardize: bool) -> Seq<char> {
    if standardize {
        standardized_key(k)
    } else {
        k
    }
}

/// The value as stored: reduced by the key's pattern when standardizing.
pub open spec fn stored_value(k: Seq<char>, v: Seq<char>, standardize: bool) -> Seq<char> {
    if standardize {
        transformed_value(k, v)
    } else {
        v
    }
}

/// The tree and the current section path after one logical line of a
/// tab-indented header.
pub open spec fn tab_step(
    es: Seq<(Seq<char>, Tree)>,
    path: Seq<Seq<char>>,
    line: Seq<char>,
    standardize: bool,
) -> (Seq<(Seq<char>, Tree)>, Seq<Seq<char>>) {
    let indent = indent_of(line);
    let content = ws_trim_end(line.subrange(indent as int, line.len() as int));
    if content.len() == 0 {
        (es, path)
    } else {
        let p = if indent < path.len() {
            path.subrange(0, indent as int)
        } else {
            path
        };
        match first_char(content, ':') {
            Some(cp) => if chars_start_with(content, sec_document_tag()) || chars_start_with(
                content,
                sec_header_tag(),
            ) {
                match sec_header(content) {
                    Some(kv) => (put_at(es, p, stored_key(kv.0, standardize), Tree::Str(kv.1)), p),
                    None => (es, p),
                }
            } else {
                let key = ws_trim(content.subrange(0, cp));
                let value = ws_trim(content.subrange(cp + 1, content.len() as int));
                let fk = stored_key(key, standardize);
                if value.len() == 0 {
                    (put_at(es, p, fk, Tree::Obj(Seq::empty())), p.push(fk))
                } else {
                    (put_at(es, p, fk, Tree::Str(stored_value(key, value, standardize))), p)
                }
            },
            None => if content[0] == '<' {
                match first_char(content, '>') {
                    Some(gt) => {
                        let key = content.subrange(1, gt);
                        let value = ws_trim(content.subrange(gt + 1, content.len() as int));
                        if key.len() > 0 && key[0] == '/' {
                            (es, p)
                        } else {
                            (
                                put_at(
                                    es,
                                    p,
                                    stored_key(key, standardize),
                                    Tree::Str(stored_value(key, value, standardize)),
                                ),
                                p,
                            )
                        }
                    },
                    None => (es, p),
                }
            } else {
                (es, p)
            },
        }
    }
}

/// Tree and path after the first `n` lines.
pub open spec fn tab_fold(ls: Seq<Seq<char>>, n: nat, standardize: bool) -> (
    Seq<(Seq<char>, Tree)>,
    Seq<Seq<char>>,
)
    decreases n,
{
    if n == 0 || n > ls.len() {
        (Seq::empty(), Seq::empty())
    } else {
        let st = tab_fold(ls, (n - 1) as nat, standardize);
        tab_step(st.0, st.1, ls[n - 1], standardize)
    }
}

/// The tree that a tab-indented header gives.
pub open spec fn tab_tree(data: Seq<u8>, standardize: bool) -> Seq<(Seq<char>, Tree)> {
    let ls = logical_lines(data);
    tab_fold(ls, ls.len(), standardize).0
}

/// Splits a `<SEC-DOCUMENT>filename : date` line into tag and value.
pub fn parse_sec_header_line(line: &[char]) -> (r: Option<(Vec<char>, Vec<char>)>)
    ensures
        match sec_header(line@) {
            Some(kv) => r matches Some(p) && p.0@ == kv.0 && p.1@ == kv.1,
            None => r is None,
        },
{
    let gt = match first_char_at(line, '>') {
        Some(g) => g,
        None => {
            return None;
        },
    };
    if gt < 1 {
        return None;
    }
    let n = line.len();
    let tag = sub_chars(line, 1, gt);
    let rest = sub_chars(line, gt + 1, n);
    let sep: Vec<char> = vec![' ', ':', ' '];
    assert(sep@ =~= seq![' ', ':', ' ']);
    match first_index_at(rest.as_slice(), sep.as_slice()) {
        Some(c) => {
            let rn = rest.len();
            let mut v = trim_chars(rest.as_slice(), 0, c);
            v.push(' ');
            v.push(':');
            v.push(' ');
            let mut date = trim_chars(rest.as_slice(), c + 3, rn);
            v.append(&mut date);
            proof {
                assert(rest@.subrange(0, rn as int) =~= rest@);
            }
            Some((tag, v))
        },
        None => {
            let rn = rest.len();
            let v = trim_chars(rest.as_slice(), 0, rn);
            proof {
                assert(rest@.subrange(0, rn as int) =~= rest@);
            }
            Some((tag, v))
        },
    }
}

proof fn lemma_indent(l: Seq<char>, k: int)
    requires
        0 <= k <= l.len(),
        forall|j: int| 0 <= j < k ==> l[j] == '\t',
        k < l.len() ==> l[k] != '\t',
    ensures
        indent_of(l) == k,
    decreases l.len(),
{
    if k > 0 {
        lemma_indent(l.drop_first(), k - 1);
    }
}

/// `s[from..]` without trailing Unicode whitespace.
fn trim_end_from(s: &[char], from: usize) -> (r: Vec<char>)
    requires
        from <= s@.len(),
    ensures
        r@ == ws_trim_end(s@.subrange(from as int, s@.len() as int)),
{
    let mut e: usize = s.len();
    while e > from && is_whitespace(s[e - 1])
        invariant
            from <= e <= s@.len(),
            ws_trim_end(s@.subrange(from as int, e as int)) == ws_trim_end(
                s@.subrange(from as int, s@.len() as int),
            ),
        decreases e - from,
    {
        proof {
            assert(s@.subrange(from as int, e as int).drop_last() =~= s@.subrange(
                from as int,
                e - 1,
            ));
        }
        e = e - 1;
    }
    sub_chars(s, from, e)
}

/// The key as stored.
fn store_key(k: &[char], standardize: bool) -> (r: String)
    ensures
        r@ == stored_key(k@, standardize),
{
    if standardize {
        let c = standardize_chars(k);
        string_of(c.as_slice())
    } else {
        string_of(k)
    }
}

/// The value as stored.
fn store_value(k: &[char], v: &[char], standardize: bool) -> (r: String)
    ensures
        r@ == stored_value(k@, v@, standardize),
{
    if standardize {
        let c = transform_chars(k, v);
        string_of(c.as_slice())
    } else {
        string_of(v)
    }
}

proof fn lemma_path_truncate(path: Seq<String>, n: int)
    requires
        0 <= n <= path.len(),
    ensures
        path_view(path.subrange(0, n)) == path_view(path).subrange(0, n),
{
    assert(path_view(path.subrange(0, n)) =~= path_view(path).subrange(0, n));
}

proof fn lemma_path_push(path: Seq<String>, k: String)
    ensures
        path_view(path.push(k)) == path_view(path).push(k@),
{
    assert(path_view(path.push(k)) =~= path_view(path).push(k@));
}

/// Applies one logical line of a tab-indented header.
fn tab_line(
    root: &mut Vec<(String, MetadataValue)>,
    path: &mut Vec<String>,
    line: &Vec<char>,
    standardize: bool,
)
    ensures
        (entries_tree(final(root)@), path_view(final(path)@)) == tab_step(
            entries_tree(old(root)@),
            path_view(old(path)@),
            line@,
            standardize,
        ),
{
    let mut indent: usize = 0;
    while indent < line.len() && line[indent] == '\t'
        invariant
            indent <= line@.len(),
            forall|j: int| 0 <= j < indent ==> line@[j] == '\t',
        decreases line@.len() - indent,
    {
        indent = indent + 1;
    }
    proof {
        lemma_indent(line@, indent as int);
    }
    let content = trim_end_from(line.as_slice(), indent);
    if content.len() == 0 {
        return;
    }
    if indent < path.len() {
        proof {
            lemma_path_truncate(path@, indent as int);
        }
        path.truncate(indent);
    }
    let ghost p = path_view(path@);
    let n = content.len();
    match first_char_at(content.as_slice(), ':') {
        Some(cp) => {
            let sd: Vec<char> = vec!['<', 'S', 'E', 'C', '-', 'D', 'O', 'C', 'U', 'M', 'E', 'N', 'T', '>'];
            let sh: Vec<char> = vec!['<', 'S', 'E', 'C', '-', 'H', 'E', 'A', 'D', 'E', 'R', '>'];
            assert(sd@ =~= sec_document_tag());
            assert(sh@ =~= sec_header_tag());
            if starts_with_chars(content.as_slice(), sd.as_slice()) || starts_with_chars(
                content.as_slice(),
                sh.as_slice(),
            ) {
                match parse_sec_header_line(content.as_slice()) {
                    Some(kv) => {
                        let fk = store_key(kv.0.as_slice(), standardize);
                        let v = MetadataValue::String(string_of(kv.1.as_slice()));
                        insert_at_path(root, path.as_slice(), fk, v);
                    },
                    None => {},
                }
            } else {
                let key = trim_chars(content.as_slice(), 0, cp);
                let value = trim_chars(content.as_slice(), cp + 1, n);
                proof {
                    assert(content@.subrange(0, n as int) =~= content@);
                }
                let fk = store_key(key.as_slice(), standardize);
                if value.len() == 0 {
                    let fk2 = fk.clone();
                    let obj = MetadataValue::object();
                    insert_at_path(root, path.as_slice(), fk, obj);
                    proof {
                        lemma_path_push(path@, fk2);
                    }
                    path.push(fk2);
                } else {
                    let fv = store_value(key.as_slice(), value.as_slice(), standardize);
                    insert_at_path(root, path.as_slice(), fk, MetadataValue::String(fv));
                }
            }
        },
        None => {
            if content[0] == '<' {
                match first_char_at(content.as_slice(), '>') {
                    Some(gt) => {
                        if gt >= 1 {
                            let key = sub_chars(content.as_slice(), 1, gt);
                            let value = trim_chars(content.as_slice(), gt + 1, n);
                            if key.len() > 0 && key[0] == '/' {
                            } else {
                                let fk = store_key(key.as_slice(), standardize);
                                let fv = store_value(key.as_slice(), value.as_slice(), standardize);
                                insert_at_path(root, path.as_slice(), fk, MetadataValue::String(fv));
                            }
                        }
                    },
                    None => {},
                }
            }
        },
    }
}

/// Parses a tab-indented header: after the repair of wrapped lines, each
/// line's leading tabs give its depth; `KEY:` opens a section, `KEY: value`
/// and `<KEY>value` set a field, and `<SEC-DOCUMENT>` / `<SEC-HEADER>` lines
/// keep `filename : date` as their value. Repeated keys become lists.
pub fn parse_tab_metadata(data: &[u8], standardize: bool) -> (r: Vec<(String, MetadataValue)>)
    ensures
        entries_tree(r@) == tab_tree(data@, standardize),
        entries_well_keyed(entries_tree(r@)),
{
    proof {
        let ls = logical_lines(data@);
        lemma_tab_fold_well_keyed(ls, ls.len(), standardize);
    }
    let lines = wrap_lines(data);
    let ghost ls = logical_lines(data@);
    let mut root: Vec<(String, MetadataValue)> = Vec::new();
    let mut path: Vec<String> = Vec::new();
    proof {
        assert(entries_tree(root@) =~= Seq::<(Seq<char>, Tree)>::empty());
        assert(path_view(path@) =~= Seq::<Seq<char>>::empty());
    }
    let mut i: usize = 0;
    while i < lines.len()
        invariant
            i <= lines@.len() == ls.len(),
            ls == logical_lines(data@),
            forall|j: int| 0 <= j < lines@.len() ==> (#[trigger] lines@[j])@ == ls[j],
            (entries_tree(root@), path_view(path@)) == tab_fold(ls, i as nat, standardize),
        decreases lines@.len() - i,
    {
        tab_line(&mut root, &mut path, &lines[i], standardize);
        i = i + 1;
    }
    root
}

/// `i` is the first index of a `>` that follows an ASCII letter or digit.
pub open spec fn is_tag_close(line: Seq<u8>, i: int) -> bool {
    1 <= i < line.len() && line[i] == 62 && is_alnum_byte(line[i - 1])
}

/// The index of the last byte of the first well-formed tag name: the
/// alphanumeric byte before the first `>` that follows one.
pub open spec fn tag_end(line: Seq<u8>) -> Option<int> {
    if exists|i: int| is_tag_close(line, i) && forall|j: int| 1 <= j < i ==> !is_tag_close(line, j) {
        Some(
            (choose|i: int|
                is_tag_close(line, i) && forall|j: int| 1 <= j < i ==> !is_tag_close(line, j)) - 1,
        )
    } else {
        None
    }
}

/// Finds the alphanumeric byte that ends the first well-formed tag name.
pub fn find_tag_end(line: &[u8]) -> (r: Option<usize>)
    ensures
        r matches Some(g) ==> tag_end(line@) == Some(g as int) && g + 1 < line@.len(),
        r is None ==> tag_end(line@) is None,
{
    let mut i: usize = 1;
    while i < line.len()
        invariant
            1 <= i,
            forall|j: int| 1 <= j < i ==> !is_tag_close(line@, j),
        decreases line@.len() - i,
    {
        let b = line[i];
        let a = line[i - 1];
        if b == 62 && ((48 <= a && a <= 57) || (65 <= a && a <= 90) || (97 <= a && a <= 122)) {
            assert(is_tag_close(line@, i as int));
            let ghost c = choose|k: int|
                is_tag_close(line@, k) && forall|j: int| 1 <= j < k ==> !is_tag_close(line@, j);
            assert(c == i) by {
                if c < i {
                } else if c > i {
                    assert(!is_tag_close(line@, i as int));
                }
            }
            return Some(i - 1);
        }
        i = i + 1;
    }
    assert(!exists|k: int|
        is_tag_close(line@, k) && forall|j: int| 1 <= j < k ==> !is_tag_close(line@, j)) by {
        assert forall|k: int| is_tag_close(line@, k) implies exists|j: int|
            1 <= j < k && is_tag_close(line@, j) by {
            if k >= i {
                assert(k < line@.len());
            }
        }
    }
    None
}

/// The key and value of one line of an archive header: a trimmed line
/// that opens with `<` and has a well-formed tag name. A closing tag keeps
/// its `/` in the key.
pub open spec fn archive_entry(line: Seq<u8>) -> Option<(Seq<u8>, Seq<u8>)> {
    let t = trim_spec(line);
    if t.len() == 0 || t[0] != 60 {
        None
    } else {
        match tag_end(t) {
            Some(g) => Some((t.subrange(1, g + 1), trim_spec(t.subrange(g + 2, t.len() as int)))),
            None => None,
        }
    }
}

/// The entries that the first `n` lines give.
pub open spec fn archive_entries(lines: Seq<Seq<u8>>, n: nat) -> Seq<(Seq<u8>, Seq<u8>)>
    decreases n,
{
    if n == 0 || n > lines.len() {
        Seq::empty()
    } else {
        let prev = archive_entries(lines, (n - 1) as nat);
        match archive_entry(lines[n - 1]) {
            Some(kv) => prev.push(kv),
            None => prev,
        }
    }
}

/// The lexed `<TAG>value` and `</TAG>` lines of an archive header.
pub open spec fn archive_keyvals(data: Seq<u8>) -> Seq<(Seq<u8>, Seq<u8>)> {
    archive_entries(lines_of(data), lines_of(data).len())
}

/// Lexes an archive header into (key, value) pairs, one per tag line.
pub fn parse_archive_keyvals(data: &[u8]) -> (r: Vec<(Vec<u8>, Vec<u8>)>)
    ensures
        r@.len() == archive_keyvals(data@).len(),
        forall|i: int|
            0 <= i < r@.len() ==> (#[trigger] r@[i]).0@ == archive_keyvals(data@)[i].0 && r@[i].1@
                == archive_keyvals(data@)[i].1,
{
    let lines = split_lines(data);
    let ghost ls = lines_of(data@);
    let mut out: Vec<(Vec<u8>, Vec<u8>)> = Vec::new();
    let mut i: usize = 0;
    while i < lines.len()
        invariant
            i <= lines@.len() == ls.len(),
            ls == lines_of(data@),
            forall|j: int| 0 <= j < lines@.len() ==> (#[trigger] lines@[j])@ == ls[j],
            out@.len() == archive_entries(ls, i as nat).len(),
            forall|j: int|
                0 <= j < out@.len() ==> (#[trigger] out@[j]).0@ == archive_entries(ls, i as nat)[j].0
                    && out@[j].1@ == archive_entries(ls, i as nat)[j].1,
        decreases lines@.len() - i,
    {
        let t = trim(lines[i].as_slice());
        if t.len() > 0 && t[0] == 60 {
            match find_tag_end(t) {
                Some(g) => {
                    let n = t.len();
                    let key = slice_to_vec(slice_subrange(t, 1, g + 1));
                    let value = trim_to_vec(slice_subrange(t, g + 2, n));
                    out.push((key, value));
                },
                None => {},
            }
        }
        i = i + 1;
    }
    out
}

/// `SUBMISSION`
pub open spec fn submission_word() -> Seq<u8> {
    seq![83u8, 85, 66, 77, 73, 83, 83, 73, 79, 78]
}

/// `key` names a section: some entry closes it.
pub open spec fn is_section(kvs: Seq<(Seq<u8>, Seq<u8>)>, key: Seq<u8>) -> bool {
    exists|j: int| 0 <= j < kvs.len() && (#[trigger] kvs[j]).0 == seq![47u8] + key
}

/// Tree and path after one archive entry.
pub open spec fn archive_step(
    es: Seq<(Seq<char>, Tree)>,
    path: Seq<Seq<char>>,
    kv: (Seq<u8>, Seq<u8>),
    kvs: Seq<(Seq<u8>, Seq<u8>)>,
    standardize: bool,
) -> (Seq<(Seq<char>, Tree)>, Seq<Seq<char>>) {
    let key = kv.0;
    let value = kv.1;
    if key == submission_word() {
        (es, path)
    } else if key.len() > 0 && key[0] == 47 {
        (es, if path.len() > 0 { path.drop_last() } else { path })
    } else {
        let ks = text_of_bytes(key);
        let fk = stored_key(ks, standardize);
        if value.len() > 0 {
            (put_at(es, path, fk, Tree::Str(stored_value(ks, text_of_bytes(value), standardize))), path)
        } else if is_section(kvs, key) {
            (put_at(es, path, fk, Tree::Obj(Seq::empty())), path.push(fk))
        } else {
            (put_at(es, path, fk, Tree::Str(Seq::empty())), path)
        }
    }
}

/// Tree and path after the first `n` entries.
pub open spec fn archive_fold(kvs: Seq<(Seq<u8>, Seq<u8>)>, n: nat, standardize: bool) -> (
    Seq<(Seq<char>, Tree)>,
    Seq<Seq<char>>,
)
    decreases n,
{
    if n == 0 || n > kvs.len() {
        (Seq::empty(), Seq::empty())
    } else {
        let st = archive_fold(kvs, (n - 1) as nat, standardize);
        archive_step(st.0, st.1, kvs[n - 1], kvs, standardize)
    }
}

/// The tree that an archive header gives.
pub open spec fn archive_tree(data: Seq<u8>, standardize: bool) -> Seq<(Seq<char>, Tree)> {
    let kvs = archive_keyvals(data);
    archive_fold(kvs, kvs.len(), standardize).0
}

fn bytes_eq(a: &[u8], b: &[u8]) -> (r: bool)
    ensures
        r == (a@ == b@),
{
    if a.len() != b.len() {
        return false;
    }
    let r = has_prefix(a, b);
    proof {
        assert(a@.subrange(0, b@.len() as int) =~= a@);
    }
    r
}

fn section_check(kvs: &Vec<(Vec<u8>, Vec<u8>)>, key: &Vec<u8>) -> (r: bool)
    ensures
        r == exists|j: int| 0 <= j < kvs@.len() && (#[trigger] kvs@[j]).0@ == seq![47u8] + key@,
{
    let mut closing: Vec<u8> = vec![47];
    let mut k2 = key.clone();
    closing.append(&mut k2);
    assert(closing@ =~= seq![47u8] + key@);
    let mut j: usize = 0;
    while j < kvs.len()
        invariant
            j <= kvs@.len(),
            closing@ == seq![47u8] + key@,
            forall|q: int| 0 <= q < j ==> (#[trigger] kvs@[q]).0@ != seq![47u8] + key@,
        decreases kvs@.len() - j,
    {
        if bytes_eq(kvs[j].0.as_slice(), closing.as_slice()) {
            return true;
        }
        j = j + 1;
    }
    false
}

/// Parses an archive header: tags that some line closes are sections,
/// other tags are fields (empty when they have no value); `SUBMISSION`
/// itself is skipped. Repeated keys become lists.
pub fn parse_archive_metadata(data: &[u8], standardize: bool) -> (r: Vec<(String, MetadataValue)>)
    ensures
        entries_tree(r@) == archive_tree(data@, standardize),
        entries_well_keyed(entries_tree(r@)),
{
    proof {
        let kvs = archive_keyvals(data@);
        lemma_archive_fold_well_keyed(kvs, kvs.len(), standardize);
    }
    let kvs = parse_archive_keyvals(data);
    let ghost g = archive_keyvals(data@);
    let mut root: Vec<(String, MetadataValue)> = Vec::new();
    let mut path: Vec<String> = Vec::new();
    proof {
        assert(entries_tree(root@) =~= Seq::<(Seq<char>, Tree)>::empty());
        assert(path_view(path@) =~= Seq::<Seq<char>>::empty());
    }
    let sub: Vec<u8> = vec![83, 85, 66, 77, 73, 83, 83, 73, 79, 78];
    assert(sub@ =~= submission_word());
    let mut i: usize = 0;
    while i < kvs.len()
        invariant
            i <= kvs@.len() == g.len(),
            g == archive_keyvals(data@),
            sub@ == submission_word(),
            forall|j: int| 0 <= j < kvs@.len() ==> (#[trigger] kvs@[j]).0@ == g[j].0 && kvs@[j].1@ == g[j].1,
            (entries_tree(root@), path_view(path@)) == archive_fold(g, i as nat, standardize),
        decreases kvs@.len() - i,
    {
        let ghost p0 = path_view(path@);
        let key = &kvs[i].0;
        let value = &kvs[i].1;
        if bytes_eq(key.as_slice(), sub.as_slice()) {
        } else if key.len() > 0 && key[0] == 47 {
            if path.len() > 0 {
                let _ = path.pop();
                proof {
                    assert(path_view(path@) =~= p0.drop_last());
                }
            }
        } else {
            let ks = bytes_to_chars(key.as_slice());
            let fk = store_key(ks.as_slice(), standardize);
            if value.len() > 0 {
                let vs = bytes_to_chars(value.as_slice());
                let fv = store_value(ks.as_slice(), vs.as_slice(), standardize);
                insert_at_path(&mut root, path.as_slice(), fk, MetadataValue::String(fv));
            } else if section_check(&kvs, key) {
                proof {
                    let w = choose|j: int| 0 <= j < kvs@.len() && (#[trigger] kvs@[j]).0@ == seq![47u8] + key@;
                    assert(g[w].0 == seq![47u8] + g[i as int].0);
                }
                let fk2 = fk.clone();
                insert_at_path(&mut root, path.as_slice(), fk, MetadataValue::object());
                proof {
                    lemma_path_push(path@, fk2);
                }
                path.push(fk2);
            } else {
                proof {
                    if is_section(g, g[i as int].0) {
                        let w = choose|j: int| 0 <= j < g.len() && (#[trigger] g[j]).0 == seq![47u8] + g[i as int].0;
                        assert(kvs@[w].0@ == seq![47u8] + key@);
                    }
                }
                let empty = MetadataValue::String(String::new());
                insert_at_path(&mut root, path.as_slice(), fk, empty);
            }
        }
        i = i + 1;
    }
    root
}

/// The entries once `k` is set to `v`, replacing a present value.
pub open spec fn replace_entry(es: Seq<(Seq<char>, Tree)>, k: Seq<char>, v: Tree) -> Seq<
    (Seq<char>, Tree),
> {
    match key_pos(es, k) {
        Some(i) => es.update(i, (k, v)),
        None => es.push((k, v)),
    }
}

/// The key of the privacy banner.
pub open spec fn privacy_key(standardize: bool) -> Seq<char> {
    if standardize {
        "privacy-enhanced-message"@
    } else {
        "PRIVACY-ENHANCED-MESSAGE"@
    }
}

/// Where the privacy banner ends: at the first blank line, or at 0.
pub open spec fn banner_end(data: Seq<u8>) -> int {
    match first_occ(data, seq![10u8, 10], 0) {
        Some(p) => p,
        None => 0,
    }
}

/// The metadata tree of a header prefix, by its dialect.
#[verifier::opaque]
pub open spec fn header_tree(data: Seq<u8>, standardize: bool) -> Seq<(Seq<char>, Tree)> {
    match format_of(data) {
        SubmissionFormat::TabPrivacy => {
            let pe = banner_end(data);
            let rest = trim_start_spec(data.subrange(pe, data.len() as int));
            replace_entry(
                tab_tree(rest, standardize),
                privacy_key(standardize),
                Tree::Str(text_of_bytes(data.subrange(0, pe))),
            )
        },
        SubmissionFormat::TabDefault => tab_tree(data, standardize),
        SubmissionFormat::Archive => archive_tree(data, standardize),
    }
}

/// Parses the header prefix of a submission by its dialect; a privacy
/// banner is kept whole under its own key.
pub fn parse_submission_metadata(data: &[u8], standardize: bool) -> (r: (
    SubmissionMetadata,
    SubmissionFormat,
))
    ensures
        r.1 == format_of(data@),
        entries_tree(r.0.fields@) == header_tree(data@, standardize),
        entries_well_keyed(entries_tree(r.0.fields@)),
        r.0.documents@.len() == 0,
{
    proof {
        lemma_header_tree_well_keyed(data@, standardize);
    }
    proof {
        reveal(header_tree);
    }
    let format = detect_format(data);
    let fields = match format {
        SubmissionFormat::TabPrivacy => {
            let nn: Vec<u8> = vec![10, 10];
            assert(nn@ =~= seq![10u8, 10]);
            let found = find(data, nn.as_slice());
            proof {
                lemma_first_occ(data@, seq![10u8, 10], 0, found);
            }
            let pe = match found {
                Some(p) => p,
                None => 0,
            };
            let n = data.len();
            let msg = bytes_to_string(slice_subrange(data, 0, pe));
            let rest = trim_start(slice_subrange(data, pe, n));
            let mut fields = parse_tab_metadata(rest, standardize);
            let key = if standardize {
                "privacy-enhanced-message".to_owned()
            } else {
                "PRIVACY-ENHANCED-MESSAGE".to_owned()
            };
            let ghost t0 = entries_tree(fields@);
            let ghost mt = MetadataValue::String(msg).tree();
            let value = MetadataValue::String(msg);
            match find_entry(&fields, &key) {
                Some(i) => {
                    fields.remove(i);
                    fields.insert(i, (key, value));
                    proof {
                        lemma_key_pos_from(t0, privacy_key(standardize), 0);
                        assert(entries_tree(fields@) =~= replace_entry(t0, privacy_key(standardize), mt));
                    }
                },
                None => {
                    fields.push((key, value));
                    proof {
                        assert(entries_tree(fields@) =~= replace_entry(t0, privacy_key(standardize), mt));
                    }
                },
            }
            fields
        },
        SubmissionFormat::TabDefault => parse_tab_metadata(data, standardize),
        SubmissionFormat::Archive => parse_archive_metadata(data, standardize),
    };
    (SubmissionMetadata { fields, documents: Vec::new() }, format)
}

fn find_entry(es: &Vec<(String, MetadataValue)>, k: &String) -> (r: Option<usize>)
    ensures
        r matches Some(i) ==> key_pos(entries_tree(es@), k@) == Some(i as int) && i < es@.len(),
        r is None ==> key_pos(entries_tree(es@), k@) is None,
{
    let ghost t = entries_tree(es@);
    proof {
        lemma_key_pos_from(t, k@, 0);
    }
    let mut i: usize = 0;
    while i < es.len()
        invariant
            i <= es@.len(),
            t == entries_tree(es@),
            crate::tree::key_pos_from(t, k@, 0) == crate::tree::key_pos_from(t, k@, i as int),
        decreases es@.len() - i,
    {
        if es[i].0 == *k {
            return Some(i);
        }
        i = i + 1;
    }
    None
}

/// Every span starts with `<DOCUMENT>`, ends within `data`, and follows
/// the one before it.
pub proof fn lemma_spans_from(data: Seq<u8>, pos: int)
    ensures
        forall|i: int|
            0 <= i < spans_from(data, pos).len() ==> {
                let sp = #[trigger] spans_from(data, pos)[i];
                &&& pos <= sp.0
                &&& sp.0 + 10 <= sp.1 <= data.len()
                &&& occurs_at(data, doc_start(), sp.0)
                &&& i > 0 ==> spans_from(data, pos)[i - 1].1 <= sp.0
            },
    decreases data.len() - pos,
{
    if 0 <= pos <= data.len() {
        match first_occ(data, doc_start(), pos) {
            Some(s) => {
                let a = choose|i: int| first_occurrence_from(data, doc_start(), pos, i);
                match first_occ(data, doc_end(), s) {
                    Some(e) => {
                        let b = choose|i: int| first_occurrence_from(data, doc_end(), s, i);
                        if pos < e + 11 <= data.len() {
                            lemma_spans_from(data, e + 11);
                            let rest = spans_from(data, e + 11);
                            assert forall|i: int| 0 < i < spans_from(data, pos).len() implies
                                spans_from(data, pos)[i] == rest[i - 1] by {}
                        }
                    },
                    None => {},
                }
            },
            None => {},
        }
    }
}

/// The header of a submission: what precedes its first `<DOCUMENT>`.
pub open spec fn header_of(data: Seq<u8>) -> Seq<u8> {
    if doc_spans(data).len() > 0 {
        data.subrange(0, doc_spans(data)[0].0)
    } else {
        data
    }
}

/// The bytes of the `i`-th document block.
pub open spec fn span_bytes(data: Seq<u8>, i: int) -> Seq<u8> {
    data.subrange(doc_spans(data)[i].0, doc_spans(data)[i].1)
}

/// The `i`-th document block has a `<TEXT>` tag.
pub open spec fn span_has_text(data: Seq<u8>, i: int) -> bool {
    first_occ(span_bytes(data, i), text_start(), 0) is Some
}

/// The payload of the `i`-th document block.
#[verifier::opaque]
pub open spec fn span_payload(data: Seq<u8>, i: int, format: SubmissionFormat) -> Seq<u8> {
    let d = span_bytes(data, i);
    payload_of(raw_payload(d, first_occ(d, text_start(), 0)->0), format)
}

/// The metadata fields of the `i`-th document block.
#[verifier::opaque]
pub open spec fn span_fields(data: Seq<u8>, i: int, standardize: bool) -> Seq<(Seq<char>, Seq<char>)> {
    let d = span_bytes(data, i);
    doc_meta_fields(d.subrange(10, first_occ(d, text_start(), 0)->0), standardize)
}

/// Document `j` was parsed into the metadata `m` and the payload `d`.
pub open spec fn parsed_as(
    data: Seq<u8>,
    j: int,
    format: SubmissionFormat,
    standardize: bool,
    m: DocumentMetadata,
    d: Vec<u8>,
) -> bool {
    &&& d@ == span_payload(data, j, format)
    &&& m.fields_view() == span_fields(data, j, standardize)
    &&& m.size_bytes == d@.len()
    &&& m.start_byte is None
    &&& m.end_byte is None
    &&& fields_distinct(m.fields_view())
}

/// `m` and `docs` are what parsing `data` gives under the filter `filter`,
/// the retention policy `keep` and standardization `sd`, up to the
/// documents' offsets: the header tree, and each document's fields, size
/// and payload, in the order of their blocks.
pub open spec fn is_parse_of(
    data: Seq<u8>,
    filter: Seq<String>,
    keep: bool,
    sd: bool,
    m: SubmissionMetadata,
    docs: Seq<Vec<u8>>,
) -> bool {
    let n = doc_spans(data).len();
    let fmt = format_of(header_of(data));
    let metas = m.documents@;
    let sel = span_selection(data, filter, sd, n);
    &&& entries_tree(m.fields@) == header_tree(header_of(data), sd)
    &&& (filter.len() == 0 || !keep) ==> metas.len() == docs.len() && forall|i: int|
        0 <= i < docs.len() ==> (#[trigger] metas[i]).size_bytes == docs[i]@.len()
    &&& filter.len() == 0 ==> docs.len() == n && (forall|i: int|
        0 <= i < n ==> (#[trigger] docs[i])@ == span_payload(data, i, fmt)) && (forall|i: int|
        0 <= i < n ==> (#[trigger] metas[i]).fields_view() == span_fields(data, i, sd))
    &&& filter.len() > 0 && keep ==> metas.len() == n && forall|i: int|
        0 <= i < n ==> (#[trigger] metas[i]).fields_view() == span_fields(data, i, sd)
            && metas[i].size_bytes == span_payload(data, i, fmt).len()
    &&& filter.len() > 0 ==> docs.len() == sel.len() && forall|k: int|
        0 <= k < docs.len() ==> (#[trigger] docs[k])@ == span_payload(data, sel[k], fmt)
    &&& filter.len() > 0 && !keep ==> forall|k: int|
        0 <= k < metas.len() ==> (#[trigger] metas[k]).fields_view() == span_fields(
            data,
            sel[k],
            sd,
        )
}

/// Parses every document block in order.
pub fn parse_documents(
    data: &[u8],
    spans: &Vec<(usize, usize)>,
    format: SubmissionFormat,
    standardize: bool,
) -> (r: Result<(Vec<DocumentMetadata>, Vec<Vec<u8>>), ParseError>)
    requires
        spans@.len() == doc_spans(data@).len(),
        forall|j: int|
            0 <= j < spans@.len() ==> (#[trigger] spans@[j]).0 as int == doc_spans(data@)[j].0
                && spans@[j].1 as int == doc_spans(data@)[j].1,
    ensures
        r is Err <==> exists|i: int| 0 <= i < doc_spans(data@).len() && !span_has_text(data@, i),
        r is Err ==> r matches Err(ParseError::InvalidStructure(_)),
        r matches Ok(md) ==> {
            &&& md.0@.len() == doc_spans(data@).len()
            &&& md.1@.len() == doc_spans(data@).len()
            &&& forall|j: int|
                0 <= j < md.1@.len() ==> parsed_as(data@, j, format, standardize, #[trigger] md.0@[j], md.1@[j])
        },
{
    let ghost sp = doc_spans(data@);
    proof {
        lemma_spans_from(data@, 0);
        reveal(span_payload);
        reveal(span_fields);
    }
    let mut metas: Vec<DocumentMetadata> = Vec::new();
    let mut docs: Vec<Vec<u8>> = Vec::new();
    let mut i: usize = 0;
    while i < spans.len()
        invariant
            i <= spans@.len() == sp.len(),
            sp == doc_spans(data@),
            forall|j: int|
                0 <= j < spans@.len() ==> (#[trigger] spans@[j]).0 as int == sp[j].0 && spans@[j].1
                    as int == sp[j].1,
            forall|j: int|
                0 <= j < sp.len() ==> {
                    let q = #[trigger] sp[j];
                    &&& q.0 + 10 <= q.1 <= data@.len()
                    &&& occurs_at(data@, doc_start(), q.0)
                },
            forall|j: int| 0 <= j < i ==> span_has_text(data@, j),
            metas@.len() == i,
            docs@.len() == i,
            forall|j: int|
                0 <= j < i ==> parsed_as(data@, j, format, standardize, #[trigger] metas@[j], docs@[j]),
        decreases spans@.len() - i,
    {
        let (a, b) = spans[i];
        let block = slice_subrange(data, a, b);
        proof {
            assert(block@ == span_bytes(data@, i as int));
            assert(block@.subrange(0, 10) =~= data@.subrange(a as int, a + 10));
        }
        let ghost om = metas@;
        let ghost od = docs@;
        match parse_single_document(block, format, standardize) {
            Ok((m, d)) => {
                proof {
                    reveal(span_payload);
                    reveal(span_fields);
                    assert(parsed_as(data@, i as int, format, standardize, m, d));
                }
                metas.push(m);
                docs.push(d);
                proof {
                    assert forall|j: int| 0 <= j < i + 1 implies parsed_as(
                        data@,
                        j,
                        format,
                        standardize,
                        #[trigger] metas@[j],
                        docs@[j],
                    ) by {
                        if j < i {
                            assert(metas@[j] == om[j]);
                            assert(docs@[j] == od[j]);
                        }
                    }
                }
            },
            Err(e) => {
                assert(!span_has_text(data@, i as int));
                return Err(e);
            },
        }
        i = i + 1;
    }
    assert(!exists|j: int| 0 <= j < doc_spans(data@).len() && !span_has_text(data@, j));
    Ok((metas, docs))
}

/// The indices, among the first `n` document blocks of `data`, of those
/// whose type the filter keeps.
pub open spec fn span_selection(data: Seq<u8>, filter: Seq<String>, standardize: bool, n: nat) -> Seq<
    int,
>
    decreases n,
{
    if n == 0 {
        Seq::empty()
    } else {
        let p = span_selection(data, filter, standardize, (n - 1) as nat);
        if fields_selected(span_fields(data, n - 1, standardize), filter, standardize) {
            p.push(n - 1)
        } else {
            p
        }
    }
}

proof fn lemma_selection_of_spans(
    data: Seq<u8>,
    metas: Seq<DocumentMetadata>,
    filter: Seq<String>,
    standardize: bool,
    n: nat,
)
    requires
        n <= metas.len(),
        forall|i: int|
            0 <= i < metas.len() ==> (#[trigger] metas[i]).fields_view() == span_fields(
                data,
                i,
                standardize,
            ),
    ensures
        selected(metas, filter, standardize, n) == span_selection(data, filter, standardize, n),
    decreases n,
{
    if n > 0 {
        lemma_selection_of_spans(data, metas, filter, standardize, (n - 1) as nat);
        assert(metas[n - 1].fields_view() == span_fields(data, n - 1, standardize));
    }
}

/// Parses a submission: the header before the first `<DOCUMENT>`, then
/// every document block in order, then the type filter. It fails with
/// `InvalidStructure` exactly when a block has no `<TEXT>` tag. Unless the
/// filter keeps the metadata of dropped documents, payloads and document
/// metadata are parallel, and each document records its payload's length.
pub fn parse_sgml(data: &[u8], options: ParseOptions) -> (r: Result<ParsedSubmission, ParseError>)
    ensures
        r matches Ok(p) ==> is_parse_of(
            data@,
            options.filter_document_types@,
            options.keep_filtered_metadata,
            options.standardize_metadata,
            p.metadata,
            p.documents@,
        ),
        r matches Ok(p) ==> forall|i: int|
            0 <= i < p.metadata.documents@.len() ==> (#[trigger] p.metadata.documents@[i]).start_byte
                is None && p.metadata.documents@[i].end_byte is None && fields_distinct(
                p.metadata.documents@[i].fields_view(),
            ),
        r matches Ok(p) ==> entries_well_keyed(entries_tree(p.metadata.fields@)),
        r is Err <==> exists|i: int| 0 <= i < doc_spans(data@).len() && !span_has_text(data@, i),
        r is Err ==> r matches Err(ParseError::InvalidStructure(_)),
        r matches Ok(p) ==> p.format == format_of(header_of(data@)),
        r matches Ok(p) ==> entries_tree(p.metadata.fields@) == header_tree(
            header_of(data@),
            options.standardize_metadata,
        ),
        r matches Ok(p) ==> (options.filter_document_types@.len() == 0
            || !options.keep_filtered_metadata) ==> p.metadata.documents@.len() == p.documents@.len(),
        r matches Ok(p) ==> (options.filter_document_types@.len() == 0
            || !options.keep_filtered_metadata) ==> forall|i: int|
            0 <= i < p.documents@.len() ==> (#[trigger] p.metadata.documents@[i]).size_bytes
                == p.documents@[i]@.len(),
        r matches Ok(p) ==> options.filter_document_types@.len() == 0 ==> p.documents@.len()
            == doc_spans(data@).len(),
        r matches Ok(p) ==> options.filter_document_types@.len() == 0 ==> forall|i: int|
            0 <= i < doc_spans(data@).len() ==> (#[trigger] p.documents@[i])@ == span_payload(
                data@,
                i,
                p.format,
            ),
        r matches Ok(p) ==> options.filter_document_types@.len() == 0 ==> forall|i: int|
            0 <= i < doc_spans(data@).len() ==> (#[trigger] p.metadata.documents@[i]).fields_view()
                == span_fields(data@, i, options.standardize_metadata),
        r matches Ok(p) ==> options.filter_document_types@.len() > 0
            && options.keep_filtered_metadata ==> p.metadata.documents@.len() == doc_spans(
            data@,
        ).len() && p.documents@.len() <= doc_spans(data@).len() && forall|i: int|
            0 <= i < doc_spans(data@).len() ==> (#[trigger] p.metadata.documents@[i]).fields_view()
                == span_fields(data@, i, options.standardize_metadata)
                && p.metadata.documents@[i].size_bytes == span_payload(data@, i, p.format).len(),
        r matches Ok(p) ==> options.filter_document_types@.len() > 0
            && !options.keep_filtered_metadata ==> forall|i: int|
            0 <= i < p.metadata.documents@.len() ==> is_selected(
                #[trigger] p.metadata.documents@[i],
                options.filter_document_types@,
                options.standardize_metadata,
            ),
        r matches Ok(p) ==> options.filter_document_types@.len() > 0 ==> p.documents@.len()
            == span_selection(
            data@,
            options.filter_document_types@,
            options.standardize_metadata,
            doc_spans(data@).len(),
        ).len(),
        r matches Ok(p) ==> options.filter_document_types@.len() > 0 ==> forall|k: int|
            0 <= k < p.documents@.len() ==> (#[trigger] p.documents@[k])@ == span_payload(
                data@,
                span_selection(
                    data@,
                    options.filter_document_types@,
                    options.standardize_metadata,
                    doc_spans(data@).len(),
                )[k],
                p.format,
            ),
        r matches Ok(p) ==> options.filter_document_types@.len() > 0
            && !options.keep_filtered_metadata ==> forall|k: int|
            0 <= k < p.metadata.documents@.len() ==> (
            #[trigger] p.metadata.documents@[k]).fields_view() == span_fields(
                data@,
                span_selection(
                    data@,
                    options.filter_document_types@,
                    options.standardize_metadata,
                    doc_spans(data@).len(),
                )[k],
                options.standardize_metadata,
            ),
{
    let spans = find_document_boundaries(data);
    let ghost sp = doc_spans(data@);
    proof {
        lemma_spans_from(data@, 0);
    }
    let header_end = if spans.len() > 0 {
        spans[0].0
    } else {
        data.len()
    };
    let header = slice_subrange(data, 0, header_end);
    proof {
        if spans@.len() == 0 {
            assert(header@ =~= data@);
        }
    }
    assert(header@ == header_of(data@));
    let (mut meta, format) = parse_submission_metadata(header, options.standardize_metadata);
    let (metas, docs) = match parse_documents(data, &spans, format, options.standardize_metadata) {
        Ok(md) => md,
        Err(e) => {
            return Err(e);
        },
    };
    let ghost all_metas = metas@;
    let ghost all_docs = docs@;
    let (fm, fd) = apply_filter(metas, docs, &options);
    proof {
        let sel = selected(
            all_metas,
            options.filter_document_types@,
            options.standardize_metadata,
            all_metas.len(),
        );
        if options.filter_document_types@.len() == 0 {
            assert forall|i: int| 0 <= i < doc_spans(data@).len() implies (#[trigger] fd@[i])@
                == span_payload(data@, i, format) by {
                assert(fd@[i] == all_docs[i]);
                assert(parsed_as(data@, i, format, options.standardize_metadata, all_metas[i], all_docs[i]));
            }
            assert forall|i: int| 0 <= i < doc_spans(data@).len() implies (
            #[trigger] fm@[i]).fields_view() == span_fields(data@, i, options.standardize_metadata) by {
                assert(fm@[i] == all_metas[i]);
                assert(parsed_as(data@, i, format, options.standardize_metadata, all_metas[i], all_docs[i]));
            }
        }
        if options.filter_document_types@.len() > 0 {
            lemma_selected(all_metas, options.filter_document_types@, options.standardize_metadata, all_metas.len());
            assert forall|i: int| 0 <= i < all_metas.len() implies (#[trigger] all_metas[i]).fields_view()
                == span_fields(data@, i, options.standardize_metadata) by {
                assert(parsed_as(data@, i, format, options.standardize_metadata, all_metas[i], all_docs[i]));
            }
            lemma_selection_of_spans(
                data@,
                all_metas,
                options.filter_document_types@,
                options.standardize_metadata,
                all_metas.len(),
            );
            assert forall|k: int| 0 <= k < fd@.len() implies (#[trigger] fd@[k])@ == span_payload(
                data@,
                sel[k],
                format,
            ) by {
                let j = sel[k];
                assert(fd@[k] == all_docs[j]);
                assert(parsed_as(data@, j, format, options.standardize_metadata, all_metas[j], all_docs[j]));
            }
            if !options.keep_filtered_metadata {
                assert forall|k: int| 0 <= k < fm@.len() implies (#[trigger] fm@[k]).fields_view()
                    == span_fields(data@, sel[k], options.standardize_metadata) by {
                    let j = sel[k];
                    assert(fm@[k] == all_metas[j]);
                    assert(parsed_as(data@, j, format, options.standardize_metadata, all_metas[j], all_docs[j]));
                }
            }
            if options.keep_filtered_metadata {
                assert forall|k: int| 0 <= k < fm@.len() implies (#[trigger] fm@[k]).fields_view()
                    == span_fields(data@, k, options.standardize_metadata) && fm@[k].size_bytes
                    == span_payload(data@, k, format).len() by {
                    assert(fm@[k] == all_metas[k]);
                    assert(parsed_as(data@, k, format, options.standardize_metadata, all_metas[k], all_docs[k]));
                }
            }
            if !options.keep_filtered_metadata {
                assert forall|k: int| 0 <= k < fd@.len() implies (#[trigger] fm@[k]).size_bytes
                    == fd@[k]@.len() by {
                    let j = sel[k];
                    assert(fm@[k] == all_metas[j]);
                    assert(fd@[k] == all_docs[j]);
                    assert(parsed_as(data@, j, format, options.standardize_metadata, all_metas[j], all_docs[j]));
                }
                assert forall|k: int| 0 <= k < fm@.len() implies is_selected(
                    #[trigger] fm@[k],
                    options.filter_document_types@,
                    options.standardize_metadata,
                ) by {
                    let j = sel[k];
                    assert(fm@[k] == all_metas[j]);
                }
            }
        }
    }
    proof {
        assert forall|k: int| 0 <= k < fm@.len() implies (#[trigger] fm@[k]).start_byte is None
            && fm@[k].end_byte is None && fields_distinct(fm@[k].fields_view()) by {
            if options.filter_document_types@.len() == 0 || options.keep_filtered_metadata {
                assert(fm@[k] == all_metas[k]);
                assert(parsed_as(data@, k, format, options.standardize_metadata, all_metas[k], all_docs[k]));
            } else {
                let sel = selected(
                    all_metas,
                    options.filter_document_types@,
                    options.standardize_metadata,
                    all_metas.len(),
                );
                let j = sel[k];
                assert(fm@[k] == all_metas[j]);
                assert(parsed_as(data@, j, format, options.standardize_metadata, all_metas[j], all_docs[j]));
            }
        }
    }
    meta.documents = fm;
    Ok(ParsedSubmission { metadata: meta, documents: fd, format })
}

/// Assembles a submission from per-document results computed elsewhere,
/// in document order: parses the header of `data`, then applies the
/// type filter to `metas` and `docs`.
pub fn assemble_submission(
    data: &[u8],
    metas: Vec<DocumentMetadata>,
    docs: Vec<Vec<u8>>,
    options: &ParseOptions,
) -> (r: ParsedSubmission)
    requires
        metas@.len() == docs@.len(),
    ensures
        r.format == format_of(header_of(data@)),
        entries_tree(r.metadata.fields@) == header_tree(header_of(data@), options.standardize_metadata),
        entries_well_keyed(entries_tree(r.metadata.fields@)),
        options.filter_document_types@.len() == 0 ==> r.metadata.documents@ == metas@
            && r.documents@ == docs@,
        options.filter_document_types@.len() > 0 ==> {
            let sel = selected(
                metas@,
                options.filter_document_types@,
                options.standardize_metadata,
                metas@.len(),
            );
            &&& r.documents@.len() == sel.len()
            &&& forall|k: int| 0 <= k < sel.len() ==> r.documents@[k] == docs@[#[trigger] sel[k]]
            &&& options.keep_filtered_metadata ==> r.metadata.documents@ == metas@
            &&& !options.keep_filtered_metadata ==> r.metadata.documents@.len() == sel.len()
                && forall|k: int|
                0 <= k < sel.len() ==> r.metadata.documents@[k] == metas@[#[trigger] sel[k]]
        },
{
    let spans = find_document_boundaries(data);
    let header_end = if spans.len() > 0 {
        spans[0].0
    } else {
        data.len()
    };
    proof {
        lemma_spans_from(data@, 0);
    }
    let header = slice_subrange(data, 0, header_end);
    proof {
        if spans@.len() == 0 {
            assert(header@ =~= data@);
        }
    }
    assert(header@ == header_of(data@));
    let (mut meta, format) = parse_submission_metadata(header, options.standardize_metadata);
    let (fm, fd) = apply_filter(metas, docs, options);
    meta.documents = fm;
    ParsedSubmission { metadata: meta, documents: fd, format }
}

/// Every header tree has distinct keys in every object.
pub proof fn lemma_tab_fold_well_keyed(ls: Seq<Seq<char>>, n: nat, standardize: bool)
    ensures
        entries_well_keyed(tab_fold(ls, n, standardize).0),
    decreases n,
{
    if n > 0 && n <= ls.len() {
        lemma_tab_fold_well_keyed(ls, (n - 1) as nat, standardize);
        let st = tab_fold(ls, (n - 1) as nat, standardize);
        let line = ls[n - 1];
        let indent = indent_of(line);
        let content = ws_trim_end(line.subrange(indent as int, line.len() as int));
        let p = if indent < st.1.len() {
            st.1.subrange(0, indent as int)
        } else {
            st.1
        };
        assert(well_keyed(Tree::Obj(Seq::empty())));
        match sec_header(content) {
            Some(kv) => {
                lemma_put_at_well_keyed(st.0, p, stored_key(kv.0, standardize), Tree::Str(kv.1));
            },
            None => {},
        }
        match first_char(content, ':') {
            Some(cp) => {
                let key = ws_trim(content.subrange(0, cp));
                let value = ws_trim(content.subrange(cp + 1, content.len() as int));
                let fk = stored_key(key, standardize);
                lemma_put_at_well_keyed(st.0, p, fk, Tree::Obj(Seq::empty()));
                lemma_put_at_well_keyed(
                    st.0,
                    p,
                    fk,
                    Tree::Str(stored_value(key, value, standardize)),
                );
            },
            None => {},
        }
        match first_char(content, '>') {
            Some(gt) => {
                let key = content.subrange(1, gt);
                let value = ws_trim(content.subrange(gt + 1, content.len() as int));
                lemma_put_at_well_keyed(
                    st.0,
                    p,
                    stored_key(key, standardize),
                    Tree::Str(stored_value(key, value, standardize)),
                );
            },
            None => {},
        }
    }
}

/// Every archive header tree has distinct keys in every object.
pub proof fn lemma_archive_fold_well_keyed(
    kvs: Seq<(Seq<u8>, Seq<u8>)>,
    n: nat,
    standardize: bool,
)
    ensures
        entries_well_keyed(archive_fold(kvs, n, standardize).0),
    decreases n,
{
    if n > 0 && n <= kvs.len() {
        lemma_archive_fold_well_keyed(kvs, (n - 1) as nat, standardize);
        let st = archive_fold(kvs, (n - 1) as nat, standardize);
        let key = kvs[n - 1].0;
        let value = kvs[n - 1].1;
        let ks = text_of_bytes(key);
        let fk = stored_key(ks, standardize);
        assert(well_keyed(Tree::Obj(Seq::empty())));
        lemma_put_at_well_keyed(st.0, st.1, fk, Tree::Obj(Seq::empty()));
        lemma_put_at_well_keyed(st.0, st.1, fk, Tree::Str(Seq::empty()));
        lemma_put_at_well_keyed(
            st.0,
            st.1,
            fk,
            Tree::Str(stored_value(ks, text_of_bytes(value), standardize)),
        );
    }
}

/// The header tree of any prefix has distinct keys in every object.
pub proof fn lemma_header_tree_well_keyed(data: Seq<u8>, standardize: bool)
    ensures
        entries_well_keyed(header_tree(data, standardize)),
{
    reveal(header_tree);
    let pe = banner_end(data);
    let rest = trim_start_spec(data.subrange(pe, data.len() as int));
    let rl = logical_lines(rest);
    lemma_tab_fold_well_keyed(rl, rl.len(), standardize);
    let dl = logical_lines(data);
    lemma_tab_fold_well_keyed(dl, dl.len(), standardize);
    let kvs = archive_keyvals(data);
    lemma_archive_fold_well_keyed(kvs, kvs.len(), standardize);
    if format_of(data) == SubmissionFormat::TabPrivacy {
        let es = tab_tree(rest, standardize);
        let k = privacy_key(standardize);
        let v = Tree::Str(text_of_bytes(data.subrange(0, pe)));
        let r = replace_entry(es, k, v);
        lemma_key_pos_from(es, k, 0);
        assert forall|a: int| 0 <= a < r.len() implies well_keyed(#[trigger] r[a].1) by {
            if a < es.len() && (key_pos(es, k) is None || a != key_pos(es, k)->0) {
                assert(r[a] == es[a]);
            }
        }
        assert forall|a: int, b: int| 0 <= a < b < r.len() implies (#[trigger] r[a]).0 != (
        #[trigger] r[b]).0 by {
            if b < es.len() {
                assert(es[a].0 != es[b].0);
            } else {
                assert(r[a] == es[a]);
            }
        }
    }
}

/// The selected indices are increasing, in range, and select.
pub proof fn lemma_selected(metas: Seq<DocumentMetadata>, filter: Seq<String>, standardize: bool, n: nat)
    requires
        n <= metas.len(),
    ensures
        selected(metas, filter, standardize, n).len() <= n,
        forall|k: int|
            0 <= k < selected(metas, filter, standardize, n).len() ==> {
                let j = #[trigger] selected(metas, filter, standardize, n)[k];
                &&& 0 <= j < n
                &&& is_selected(metas[j], filter, standardize)
            },
    decreases n,
{
    if n > 0 {
        lemma_selected(metas, filter, standardize, (n - 1) as nat);
        let p = selected(metas, filter, standardize, (n - 1) as nat);
        let q = selected(metas, filter, standardize, n);
        assert forall|k: int| 0 <= k < q.len() implies {
            let j = #[trigger] q[k];
            &&& 0 <= j < n
            &&& is_selected(metas[j], filter, standardize)
        } by {
            if k < p.len() {
                assert(q[k] == p[k]);
            }
        }
    }
}

} // verus!
