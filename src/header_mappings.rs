//! Canonical names for header keys, and extraction of the salient part of
//! some values.
use vstd::prelude::*;
use crate::text::{
    chars_at, chars_eq, chars_of, find_char, find_chars, is_digit, is_unicode_ws, is_whitespace,
    ascii_lower, lower_seq, string_of, sub_chars, to_ascii_lower,
};

verus! {

/// How the value of a mapped key is reduced.
#[derive(Debug, Clone, Copy, PartialEq, Eq, Structural)]
pub enum ValuePattern {
    /// The two digits before `" Act"` (`"1934 Act"` gives `"34"`).
    Act,
    /// The digits between the first `[` and the first `]`.
    BracketDigits,
}

/// A canonical key, and the pattern that reduces its value, if any.
pub struct HeaderMapping {
    pub to: &'static str,
    pub pattern: Option<ValuePattern>,
}

impl HeaderMapping {
    pub fn simple(to: &'static str) -> (r: Self)
        ensures
            r.to == to,
            r.pattern is None,
    {
        HeaderMapping { to, pattern: None }
    }

    pub fn with_regex(to: &'static str, pattern: ValuePattern) -> (r: Self)
        ensures
            r.to == to,
            r.pattern == Some(pattern),
    {
        HeaderMapping { to, pattern: Some(pattern) }
    }
}

/// The table: lower-case source key, canonical key, value pattern.
pub open spec fn header_table() -> Seq<(Seq<char>, Seq<char>, Option<ValuePattern>)> {
    seq![
        ("paper"@, "paper"@, None),
        ("accession number"@, "accession-number"@, None),
        ("conformed submission type"@, "type"@, None),
        ("public document count"@, "public-document-count"@, None),
        ("public-document_count"@, "public-document-count"@, None),
        ("conformed period of report"@, "period"@, None),
        ("filed as of date"@, "filing-date"@, None),
        ("date as of change"@, "date-of-filing-date-change"@, None),
        ("effectiveness date"@, "effectiveness-date"@, None),
        ("filer"@, "filer"@, None),
        ("company data"@, "company-data"@, None),
        ("company conformed name"@, "conformed-name"@, None),
        ("central index key"@, "cik"@, None),
        ("state of incorporation"@, "state-of-incorporation"@, None),
        ("fiscal year end"@, "fiscal-year-end"@, None),
        ("filing values"@, "filing-values"@, None),
        ("form type"@, "form-type"@, None),
        ("sec act"@, "act"@, Some(ValuePattern::Act)),
        ("sec file number"@, "file-number"@, None),
        ("film number"@, "film-number"@, None),
        ("business address"@, "business-address"@, None),
        ("street 1"@, "street1"@, None),
        ("street 2"@, "street2"@, None),
        ("city"@, "city"@, None),
        ("state"@, "state"@, None),
        ("zip"@, "zip"@, None),
        ("business phone"@, "phone"@, None),
        ("mail address"@, "mail-address"@, None),
        ("former company"@, "former-company"@, None),
        ("former conformed name"@, "former-conformed-name"@, None),
        ("date of name change"@, "date-changed"@, None),
        ("sros"@, "sros"@, None),
        ("subject company"@, "subject-company"@, None),
        ("standard industrial classification"@, "assigned-sic"@, Some(ValuePattern::BracketDigits)),
        ("irs number"@, "irs-number"@, None),
        ("filed by"@, "filed-by"@, None),
        ("items"@, "items"@, None),
        ("group members"@, "group-members"@, None),
        ("organization name"@, "organization-name"@, None),
        ("recieved date"@, "recieved-date"@, None),
        ("action date"@, "action-date"@, None),
        ("non us state territory"@, "non-us-state-territory"@, None),
        ("address is a non us location"@, "address-is-a-non-us-location"@, None),
        ("ein"@, "ein"@, None),
        ("class-contract-ticker-symbol"@, "class-contract-ticker-symbol"@, None),
        ("class-contract-name"@, "class-contract-name"@, None),
        ("class-contract-id"@, "class-contract-id"@, None),
        ("sec-document"@, "sec-document"@, None),
        ("sec-header"@, "sec-header"@, None),
        ("acceptance-datetime"@, "acceptance-datetime"@, None),
        ("series-and-classes-contracts-data"@, "series-and-classes-contracts-data"@, None),
        ("existing-series-and-classes-contracts"@, "existing-series-and-classes-contracts"@, None),
        ("merger-series-and-classes-contracts"@, "merger-series-and-classes-contracts"@, None),
        ("new-series-and-classes-contracts"@, "new-series-and-classes-contracts"@, None),
        ("series"@, "series"@, None),
        ("owner-cik"@, "owner-cik"@, None),
        ("series-id"@, "series-id"@, None),
        ("series-name"@, "series-name"@, None),
        ("acquiring-data"@, "acquiring-data"@, None),
        ("target-data"@, "target-data"@, None),
        ("new-classes-contracts"@, "new-classes-contracts"@, None),
        ("new-series"@, "new-series"@, None),
        ("relationship"@, "relationship"@, None),
    ]
}

/// The table of header key mappings, in the order of `header_table`.
pub fn get_header_mappings() -> (r: Vec<(&'static str, HeaderMapping)>)
    ensures
        r@.len() == header_table().len(),
        forall|i: int|
            0 <= i < r@.len() ==> (#[trigger] r@[i]).0@ == header_table()[i].0 && r@[i].1.to@
                == header_table()[i].1 && r@[i].1.pattern == header_table()[i].2,
{
    let mut m: Vec<(&'static str, HeaderMapping)> = Vec::new();
    m.push(("paper", HeaderMapping::simple("paper")));
    m.push(("accession number", HeaderMapping::simple("accession-number")));
    m.push(("conformed submission type", HeaderMapping::simple("type")));
    m.push(("public document count", HeaderMapping::simple("public-document-count")));
    m.push(("public-document_count", HeaderMapping::simple("public-document-count")));
    m.push(("conformed period of report", HeaderMapping::simple("period")));
    m.push(("filed as of date", HeaderMapping::simple("filing-date")));
    m.push(("date as of change", HeaderMapping::simple("date-of-filing-date-change")));
    m.push(("effectiveness date", HeaderMapping::simple("effectiveness-date")));
    m.push(("filer", HeaderMapping::simple("filer")));
    m.push(("company data", HeaderMapping::simple("company-data")));
    m.push(("company conformed name", HeaderMapping::simple("conformed-name")));
    m.push(("central index key", HeaderMapping::simple("cik")));
    m.push(("state of incorporation", HeaderMapping::simple("state-of-incorporation")));
    m.push(("fiscal year end", HeaderMapping::simple("fiscal-year-end")));
    m.push(("filing values", HeaderMapping::simple("filing-values")));
    m.push(("form type", HeaderMapping::simple("form-type")));
    m.push(("sec act", HeaderMapping::with_regex("act", ValuePattern::Act)));
    m.push(("sec file number", HeaderMapping::simple("file-number")));
    m.push(("film number", HeaderMapping::simple("film-number")));
    m.push(("business address", HeaderMapping::simple("business-address")));
    m.push(("street 1", HeaderMapping::simple("street1")));
    m.push(("street 2", HeaderMapping::simple("street2")));
    m.push(("city", HeaderMapping::simple("city")));
    m.push(("state", HeaderMapping::simple("state")));
    m.push(("zip", HeaderMapping::simple("zip")));
    m.push(("business phone", HeaderMapping::simple("phone")));
    m.push(("mail address", HeaderMapping::simple("mail-address")));
    m.push(("former company", HeaderMapping::simple("former-company")));
    m.push(("former conformed name", HeaderMapping::simple("former-conformed-name")));
    m.push(("date of name change", HeaderMapping::simple("date-changed")));
    m.push(("sros", HeaderMapping::simple("sros")));
    m.push(("subject company", HeaderMapping::simple("subject-company")));
    m.push(("standard industrial classification", HeaderMapping::with_regex("assigned-sic", ValuePattern::BracketDigits)));
    m.push(("irs number", HeaderMapping::simple("irs-number")));
    m.push(("filed by", HeaderMapping::simple("filed-by")));
    m.push(("items", HeaderMapping::simple("items")));
    m.push(("group members", HeaderMapping::simple("group-members")));
    m.push(("organization name", HeaderMapping::simple("organization-name")));
    m.push(("recieved date", HeaderMapping::simple("recieved-date")));
    m.push(("action date", HeaderMapping::simple("action-date")));
    m.push(("non us state territory", HeaderMapping::simple("non-us-state-territory")));
    m.push(("address is a non us location", HeaderMapping::simple("address-is-a-non-us-location")));
    m.push(("ein", HeaderMapping::simple("ein")));
    m.push(("class-contract-ticker-symbol", HeaderMapping::simple("class-contract-ticker-symbol")));
    m.push(("class-contract-name", HeaderMapping::simple("class-contract-name")));
    m.push(("class-contract-id", HeaderMapping::simple("class-contract-id")));
    m.push(("sec-document", HeaderMapping::simple("sec-document")));
    m.push(("sec-header", HeaderMapping::simple("sec-header")));
    m.push(("acceptance-datetime", HeaderMapping::simple("acceptance-datetime")));
    m.push(("series-and-classes-contracts-data", HeaderMapping::simple("series-and-classes-contracts-data")));
    m.push(("existing-series-and-classes-contracts", HeaderMapping::simple("existing-series-and-classes-contracts")));
    m.push(("merger-series-and-classes-contracts", HeaderMapping::simple("merger-series-and-classes-contracts")));
    m.push(("new-series-and-classes-contracts", HeaderMapping::simple("new-series-and-classes-contracts")));
    m.push(("series", HeaderMapping::simple("series")));
    m.push(("owner-cik", HeaderMapping::simple("owner-cik")));
    m.push(("series-id", HeaderMapping::simple("series-id")));
    m.push(("series-name", HeaderMapping::simple("series-name")));
    m.push(("acquiring-data", HeaderMapping::simple("acquiring-data")));
    m.push(("target-data", HeaderMapping::simple("target-data")));
    m.push(("new-classes-contracts", HeaderMapping::simple("new-classes-contracts")));
    m.push(("new-series", HeaderMapping::simple("new-series")));
    m.push(("relationship", HeaderMapping::simple("relationship")));
    proof {
        assert(m@.len() == header_table().len());
    }
    m
}


/// `k` and `table_key` are equal up to ASCII case (equal lengths, stated
/// first, follow from that).
pub open spec fn key_matches(k: Seq<char>, table_key: Seq<char>) -> bool {
    k.len() == table_key.len() && lower_seq(k) == lower_seq(table_key)
}

/// The first table row at or after `i` whose source key matches `k`.
pub open spec fn lookup_from(k: Seq<char>, i: int) -> Option<int>
    decreases header_table().len() - i,
{
    if i < 0 || i >= header_table().len() {
        None
    } else if key_matches(k, header_table()[i].0) {
        Some(i)
    } else {
        lookup_from(k, i + 1)
    }
}

/// The table row whose source key matches `k`, if any.
pub open spec fn lookup_key(k: Seq<char>) -> Option<int> {
    lookup_from(k, 0)
}

/// `k` in lower case with every run of whitespace made one `-`; `prev_ws`
/// says whether a whitespace run is already open before `k`.
pub open spec fn kebab(k: Seq<char>, prev_ws: bool) -> Seq<char>
    decreases k.len(),
{
    if k.len() == 0 {
        Seq::empty()
    } else if is_unicode_ws(k[0]) {
        (if prev_ws {
            Seq::empty()
        } else {
            seq!['-']
        }) + kebab(k.drop_first(), true)
    } else {
        seq![ascii_lower(k[0])] + kebab(k.drop_first(), false)
    }
}

/// The canonical form of the key `k`.
pub open spec fn standardized_key(k: Seq<char>) -> Seq<char> {
    match lookup_key(k) {
        Some(i) => header_table()[i].1,
        None => kebab(k, false),
    }
}

/// `i` is the first index where `p` occurs in `s`.
pub open spec fn is_first_at(s: Seq<char>, p: Seq<char>, i: int) -> bool {
    chars_at(s, p, i) && forall|j: int| 0 <= j < i ==> !#[trigger] chars_at(s, p, j)
}

/// The first index where `p` occurs in `s`, if any.
pub open spec fn first_index(s: Seq<char>, p: Seq<char>) -> Option<int> {
    if exists|i: int| is_first_at(s, p, i) {
        Some(choose|i: int| is_first_at(s, p, i))
    } else {
        None
    }
}

/// `i` is the first index of the char `c` in `s`.
pub open spec fn is_first_char(s: Seq<char>, c: char, i: int) -> bool {
    0 <= i < s.len() && s[i] == c && forall|j: int| 0 <= j < i ==> s[j] != c
}

/// The first index of the char `c` in `s`, if any.
pub open spec fn first_char(s: Seq<char>, c: char) -> Option<int> {
    if exists|i: int| is_first_char(s, c, i) {
        Some(choose|i: int| is_first_char(s, c, i))
    } else {
        None
    }
}

pub open spec fn all_digits(s: Seq<char>) -> bool {
    forall|i: int| 0 <= i < s.len() ==> is_digit(#[trigger] s[i])
}

/// The two digits just before the first `" Act"` of `v`, else `v`.
pub open spec fn act_value(v: Seq<char>) -> Seq<char> {
    match first_index(v, seq![' ', 'A', 'c', 't']) {
        Some(p) => if p >= 2 && all_digits(v.subrange(p - 2, p)) {
            v.subrange(p - 2, p)
        } else {
            v
        },
        None => v,
    }
}

/// The digits between the first `[` and the first `]` of `v`, else `v`.
pub open spec fn bracket_value(v: Seq<char>) -> Seq<char> {
    match (first_char(v, '['), first_char(v, ']')) {
        (Some(a), Some(b)) => if b > a + 1 && all_digits(v.subrange(a + 1, b)) {
            v.subrange(a + 1, b)
        } else {
            v
        },
        _ => v,
    }
}

/// The value `v` of key `k` once the key's pattern, if any, is applied.
pub open spec fn transformed_value(k: Seq<char>, v: Seq<char>) -> Seq<char> {
    match lookup_key(k) {
        Some(i) => match header_table()[i].2 {
            Some(ValuePattern::Act) => act_value(v),
            Some(ValuePattern::BracketDigits) => bracket_value(v),
            None => v,
        },
        None => v,
    }
}

/// `v` with ASCII upper case made lower case.
pub fn lower_chars(v: &[char]) -> (r: Vec<char>)
    ensures
        r@ == lower_seq(v@),
{
    let mut out: Vec<char> = Vec::new();
    let mut i: usize = 0;
    while i < v.len()
        invariant
            i <= v@.len(),
            out@ == lower_seq(v@.subrange(0, i as int)),
        decreases v@.len() - i,
    {
        out.push(to_ascii_lower(v[i]));
        i = i + 1;
        proof {
            assert(out@ =~= lower_seq(v@.subrange(0, i as int)));
        }
    }
    proof {
        assert(v@.subrange(0, v@.len() as int) =~= v@);
    }
    out
}

/// The table row for `k`: its canonical key and its value pattern.
pub fn find_mapping(k: &[char]) -> (r: Option<(Vec<char>, Option<ValuePattern>)>)
    ensures
        r is Some <==> lookup_key(k@) is Some,
        r matches Some(m) ==> m.0@ == header_table()[lookup_key(k@)->0].1 && m.1
            == header_table()[lookup_key(k@)->0].2,
{
    let table = get_header_mappings();
    let lk = lower_chars(k);
    let mut i: usize = 0;
    while i < table.len()
        invariant
            i <= table@.len(),
            table@.len() == header_table().len(),
            forall|j: int|
                0 <= j < table@.len() ==> (#[trigger] table@[j]).0@ == header_table()[j].0
                    && table@[j].1.to@ == header_table()[j].1 && table@[j].1.pattern
                    == header_table()[j].2,
            lk@ == lower_seq(k@),
            lookup_from(k@, 0) == lookup_from(k@, i as int),
        decreases table@.len() - i,
    {
        let tk = chars_of(table[i].0);
        let ltk = lower_chars(tk.as_slice());
        proof {
            assert(lower_seq(k@).len() == k@.len());
            assert(lower_seq(tk@).len() == tk@.len());
        }
        if chars_eq(lk.as_slice(), ltk.as_slice()) {
            let to = chars_of(table[i].1.to);
            return Some((to, table[i].1.pattern));
        }
        i = i + 1;
    }
    None
}

/// `k` in lower case with every run of whitespace made one `-`.
pub fn kebab_chars(k: &[char]) -> (r: Vec<char>)
    ensures
        r@ == kebab(k@, false),
{
    let mut out: Vec<char> = Vec::new();
    let mut prev = false;
    let mut i: usize = 0;
    proof {
        assert(k@.subrange(0, k@.len() as int) =~= k@);
    }
    while i < k.len()
        invariant
            i <= k@.len(),
            out@ + kebab(k@.subrange(i as int, k@.len() as int), prev) == kebab(k@, false),
        decreases k@.len() - i,
    {
        let ghost rest = k@.subrange(i as int, k@.len() as int);
        proof {
            assert(rest.drop_first() =~= k@.subrange(i + 1, k@.len() as int));
        }
        if is_whitespace(k[i]) {
            if !prev {
                proof {
                    assert(out@.push('-') + kebab(rest.drop_first(), true) =~= out@ + kebab(
                        rest,
                        prev,
                    ));
                }
                out.push('-');
            } else {
                proof {
                    assert(out@ + kebab(rest.drop_first(), true) =~= out@ + kebab(rest, prev));
                }
            }
            prev = true;
        } else {
            proof {
                assert(out@.push(ascii_lower(k@[i as int])) + kebab(rest.drop_first(), false)
                    =~= out@ + kebab(rest, prev));
            }
            out.push(to_ascii_lower(k[i]));
            prev = false;
        }
        i = i + 1;
    }
    proof {
        assert(out@ + kebab(k@.subrange(i as int, k@.len() as int), prev) =~= out@);
    }
    out
}

/// The canonical form of a key given as chars.
pub fn standardize_chars(k: &[char]) -> (r: Vec<char>)
    ensures
        r@ == standardized_key(k@),
{
    match find_mapping(k) {
        Some(m) => m.0,
        None => kebab_chars(k),
    }
}

/// The canonical form of a header key: the table's name for it, matched up
/// to ASCII case, or else the key in lower case with each run of
/// whitespace made one `-`.
pub fn standardize_key(key: &str) -> (r: String)
    ensures
        r@ == standardized_key(key@),
{
    let k = chars_of(key);
    let s = standardize_chars(k.as_slice());
    string_of(s.as_slice())
}

fn all_digits_in(v: &[char], from: usize, to: usize) -> (r: bool)
    requires
        from <= to <= v@.len(),
    ensures
        r == all_digits(v@.subrange(from as int, to as int)),
{
    let mut i: usize = from;
    while i < to
        invariant
            from <= i <= to <= v@.len(),
            forall|j: int| from <= j < i ==> is_digit(v@[j]),
        decreases to - i,
    {
        if !('0' <= v[i] && v[i] <= '9') {
            proof {
                assert(v@.subrange(from as int, to as int)[i - from] == v@[i as int]);
            }
            return false;
        }
        i = i + 1;
    }
    proof {
        assert forall|j: int| 0 <= j < to - from implies is_digit(
            #[trigger] v@.subrange(from as int, to as int)[j],
        ) by {
            assert(v@.subrange(from as int, to as int)[j] == v@[from + j]);
        }
    }
    true
}

/// The first index of `c` in `v`, as `first_char` states it.
pub fn first_char_at(v: &[char], c: char) -> (r: Option<usize>)
    ensures
        r matches Some(i) ==> first_char(v@, c) == Some(i as int) && i < v@.len() && v@[i as int]
            == c,
        r is None ==> first_char(v@, c) is None,
{
    let r = find_char(v, c, 0);
    match r {
        Some(i) => {
            assert(is_first_char(v@, c, i as int));
            let ghost d = choose|j: int| is_first_char(v@, c, j);
            assert(d == i) by {
                if d < i {
                    assert(v@[d] == c);
                } else if d > i {
                    assert(v@[i as int] != c);
                }
            }
        },
        None => {
            assert(!exists|j: int| is_first_char(v@, c, j));
        },
    }
    r
}

/// The first index of `p` in `v`, as `first_index` states it.
pub fn first_index_at(v: &[char], p: &[char]) -> (r: Option<usize>)
    ensures
        r matches Some(i) ==> first_index(v@, p@) == Some(i as int) && chars_at(v@, p@, i as int),
        r is None ==> first_index(v@, p@) is None,
{
    let r = find_chars(v, p, 0);
    match r {
        Some(i) => {
            assert(is_first_at(v@, p@, i as int));
            let ghost c = choose|j: int| is_first_at(v@, p@, j);
            assert(c == i) by {
                if c < i {
                    assert(chars_at(v@, p@, c));
                } else if c > i {
                    assert(!chars_at(v@, p@, i as int));
                }
            }
        },
        None => {
            assert(!exists|j: int| is_first_at(v@, p@, j));
        },
    }
    r
}

/// The two digits before the first `" Act"`, else the value itself.
pub fn act_chars(v: &[char]) -> (r: Vec<char>)
    ensures
        r@ == act_value(v@),
{
    let pat: Vec<char> = vec![' ', 'A', 'c', 't'];
    assert(pat@ =~= seq![' ', 'A', 'c', 't']);
    let whole = sub_chars(v, 0, v.len());
    assert(whole@ =~= v@);
    match first_index_at(v, pat.as_slice()) {
        Some(p) => {
            if p >= 2 && all_digits_in(v, p - 2, p) {
                sub_chars(v, p - 2, p)
            } else {
                whole
            }
        },
        None => whole,
    }
}

/// The digits between the first `[` and the first `]`, else the value.
pub fn bracket_chars(v: &[char]) -> (r: Vec<char>)
    ensures
        r@ == bracket_value(v@),
{
    let whole = sub_chars(v, 0, v.len());
    assert(whole@ =~= v@);
    match first_char_at(v, '[') {
        Some(a) => match first_char_at(v, ']') {
            Some(b) => {
                if b > a + 1 && all_digits_in(v, a + 1, b) {
                    sub_chars(v, a + 1, b)
                } else {
                    whole
                }
            },
            None => whole,
        },
        None => whole,
    }
}

/// The value `v` of key `k`, reduced by the key's pattern if it has one.
pub fn transform_chars(k: &[char], v: &[char]) -> (r: Vec<char>)
    ensures
        r@ == transformed_value(k@, v@),
{
    let whole = sub_chars(v, 0, v.len());
    assert(whole@ =~= v@);
    match find_mapping(k) {
        Some(m) => match m.1 {
            Some(ValuePattern::Act) => act_chars(v),
            Some(ValuePattern::BracketDigits) => bracket_chars(v),
            None => whole,
        },
        None => whole,
    }
}

/// The value of a header field, reduced by its key's pattern: for the SEC
/// act, the two digits before `" Act"`; for the industrial classification,
/// the digits in brackets. Any other value is returned as it is.
pub fn transform_value(key: &str, value: &str) -> (r: String)
    ensures
        r@ == transformed_value(key@, value@),
{
    let k = chars_of(key);
    let v = chars_of(value);
    let t = transform_chars(k.as_slice(), v.as_slice());
    string_of(t.as_slice())
}

/// `s` holds no whitespace, and each of its chars is `-` or already in
/// lower case.
pub open spec fn is_kebab_text(s: Seq<char>) -> bool {
    forall|i: int| 0 <= i < s.len() ==> !is_unicode_ws(#[trigger] s[i]) && ascii_lower(s[i]) == s[i]
}

proof fn lemma_kebab_shape(k: Seq<char>, prev_ws: bool)
    ensures
        is_kebab_text(kebab(k, prev_ws)),
    decreases k.len(),
{
    if k.len() > 0 {
        lemma_kebab_shape(k.drop_first(), is_unicode_ws(k[0]));
        let rest = kebab(k.drop_first(), is_unicode_ws(k[0]));
        if is_unicode_ws(k[0]) {
            if !prev_ws {
                assert(kebab(k, prev_ws) =~= seq!['-'] + rest);
                assert forall|i: int| 0 <= i < kebab(k, prev_ws).len() implies !is_unicode_ws(
                    #[trigger] kebab(k, prev_ws)[i],
                ) && ascii_lower(kebab(k, prev_ws)[i]) == kebab(k, prev_ws)[i] by {
                    if i > 0 {
                        assert(kebab(k, prev_ws)[i] == rest[i - 1]);
                    }
                }
            } else {
                assert(kebab(k, prev_ws) =~= rest);
            }
        } else {
            let c = ascii_lower(k[0]);
            assert(kebab(k, prev_ws) =~= seq![c] + rest);
            assert forall|i: int| 0 <= i < kebab(k, prev_ws).len() implies !is_unicode_ws(
                #[trigger] kebab(k, prev_ws)[i],
            ) && ascii_lower(kebab(k, prev_ws)[i]) == kebab(k, prev_ws)[i] by {
                if i > 0 {
                    assert(kebab(k, prev_ws)[i] == rest[i - 1]);
                } else {
                    assert(kebab(k, prev_ws)[0] == c);
                }
            }
        }
    }
}

proof fn lemma_kebab_of_kebab_text(s: Seq<char>, prev_ws: bool)
    requires
        is_kebab_text(s),
    ensures
        kebab(s, prev_ws) == s,
    decreases s.len(),
{
    if s.len() > 0 {
        assert(is_kebab_text(s.drop_first())) by {
            assert forall|i: int| 0 <= i < s.drop_first().len() implies !is_unicode_ws(
                #[trigger] s.drop_first()[i],
            ) && ascii_lower(s.drop_first()[i]) == s.drop_first()[i] by {
                assert(s.drop_first()[i] == s[i + 1]);
            }
        }
        lemma_kebab_of_kebab_text(s.drop_first(), false);
        assert(seq![s[0]] + s.drop_first() =~= s);
    }
}

/// Kebab-casing is idempotent: the kebab form of any key is its own kebab
/// form, so a key that the table does not hold, and whose kebab form it
/// does not hold either, is standardized the same way twice.
pub proof fn lemma_kebab_idempotent(k: Seq<char>)
    ensures
        kebab(kebab(k, false), false) == kebab(k, false),
        lookup_key(k) is None && lookup_key(kebab(k, false)) is None ==> standardized_key(
            standardized_key(k),
        ) == standardized_key(k),
{
    lemma_kebab_shape(k, false);
    lemma_kebab_of_kebab_text(kebab(k, false), false);
}


/// Keys that differ, up to case, at index `d` do not match.
proof fn lemma_differs_at(k: Seq<char>, t: Seq<char>, d: int)
    requires
        0 <= d < k.len(),
        d < t.len(),
        ascii_lower(k[d]) != ascii_lower(t[d]),
    ensures
        !key_matches(k, t),
{
    assert(lower_seq(k)[d] == ascii_lower(k[d]));
    assert(lower_seq(t)[d] == ascii_lower(t[d]));
}

/// Row by row: a canonical key that is also a source key is found at a
/// row that maps it to itself; any other matches no source key (lengths
/// differ, or the first differing char below shows it) and is its own
/// kebab form.
#[verifier::rlimit(100)]
proof fn lemma_canonical_rows_fixed()
    ensures
        standardized_key(header_table()[0].1) == header_table()[0].1,
        standardized_key(header_table()[1].1) == header_table()[1].1,
        standardized_key(header_table()[2].1) == header_table()[2].1,
        standardized_key(header_table()[3].1) == header_table()[3].1,
        standardized_key(header_table()[4].1) == header_table()[4].1,
        standardized_key(header_table()[5].1) == header_table()[5].1,
        standardized_key(header_table()[6].1) == header_table()[6].1,
        standardized_key(header_table()[7].1) == header_table()[7].1,
        standardized_key(header_table()[8].1) == header_table()[8].1,
        standardized_key(header_table()[9].1) == header_table()[9].1,
        standardized_key(header_table()[10].1) == header_table()[10].1,
        standardized_key(header_table()[11].1) == header_table()[11].1,
        standardized_key(header_table()[12].1) == header_table()[12].1,
        standardized_key(header_table()[13].1) == header_table()[13].1,
        standardized_key(header_table()[14].1) == header_table()[14].1,
        standardized_key(header_table()[15].1) == header_table()[15].1,
        standardized_key(header_table()[16].1) == header_table()[16].1,
        standardized_key(header_table()[17].1) == header_table()[17].1,
        standardized_key(header_table()[18].1) == header_table()[18].1,
        standardized_key(header_table()[19].1) == header_table()[19].1,
        standardized_key(header_table()[20].1) == header_table()[20].1,
        standardized_key(header_table()[21].1) == header_table()[21].1,
        standardized_key(header_table()[22].1) == header_table()[22].1,
        standardized_key(header_table()[23].1) == header_table()[23].1,
        standardized_key(header_table()[24].1) == header_table()[24].1,
        standardized_key(header_table()[25].1) == header_table()[25].1,
        standardized_key(header_table()[26].1) == header_table()[26].1,
        standardized_key(header_table()[27].1) == header_table()[27].1,
        standardized_key(header_table()[28].1) == header_table()[28].1,
        standardized_key(header_table()[29].1) == header_table()[29].1,
        standardized_key(header_table()[30].1) == header_table()[30].1,
        standardized_key(header_table()[31].1) == header_table()[31].1,
        standardized_key(header_table()[32].1) == header_table()[32].1,
        standardized_key(header_table()[33].1) == header_table()[33].1,
        standardized_key(header_table()[34].1) == header_table()[34].1,
        standardized_key(header_table()[35].1) == header_table()[35].1,
        standardized_key(header_table()[36].1) == header_table()[36].1,
        standardized_key(header_table()[37].1) == header_table()[37].1,
        standardized_key(header_table()[38].1) == header_table()[38].1,
        standardized_key(header_table()[39].1) == header_table()[39].1,
        standardized_key(header_table()[40].1) == header_table()[40].1,
        standardized_key(header_table()[41].1) == header_table()[41].1,
        standardized_key(header_table()[42].1) == header_table()[42].1,
        standardized_key(header_table()[43].1) == header_table()[43].1,
        standardized_key(header_table()[44].1) == header_table()[44].1,
        standardized_key(header_table()[45].1) == header_table()[45].1,
        standardized_key(header_table()[46].1) == header_table()[46].1,
        standardized_key(header_table()[47].1) == header_table()[47].1,
        standardized_key(header_table()[48].1) == header_table()[48].1,
        standardized_key(header_table()[49].1) == header_table()[49].1,
        standardized_key(header_table()[50].1) == header_table()[50].1,
        standardized_key(header_table()[51].1) == header_table()[51].1,
        standardized_key(header_table()[52].1) == header_table()[52].1,
        standardized_key(header_table()[53].1) == header_table()[53].1,
        standardized_key(header_table()[54].1) == header_table()[54].1,
        standardized_key(header_table()[55].1) == header_table()[55].1,
        standardized_key(header_table()[56].1) == header_table()[56].1,
        standardized_key(header_table()[57].1) == header_table()[57].1,
        standardized_key(header_table()[58].1) == header_table()[58].1,
        standardized_key(header_table()[59].1) == header_table()[59].1,
        standardized_key(header_table()[60].1) == header_table()[60].1,
        standardized_key(header_table()[61].1) == header_table()[61].1,
        standardized_key(header_table()[62].1) == header_table()[62].1,
{
    reveal_with_fuel(lookup_from, 64);
    reveal_strlit("paper");
    reveal_strlit("accession number");
    reveal_strlit("accession-number");
    reveal_strlit("conformed submission type");
    reveal_strlit("type");
    reveal_strlit("public document count");
    reveal_strlit("public-document-count");
    reveal_strlit("public-document_count");
    reveal_strlit("conformed period of report");
    reveal_strlit("period");
    reveal_strlit("filed as of date");
    reveal_strlit("filing-date");
    reveal_strlit("date as of change");
    reveal_strlit("date-of-filing-date-change");
    reveal_strlit("effectiveness date");
    reveal_strlit("effectiveness-date");
    reveal_strlit("filer");
    reveal_strlit("company data");
    reveal_strlit("company-data");
    reveal_strlit("company conformed name");
    reveal_strlit("conformed-name");
    reveal_strlit("central index key");
    reveal_strlit("cik");
    reveal_strlit("state of incorporation");
    reveal_strlit("state-of-incorporation");
    reveal_strlit("fiscal year end");
    reveal_strlit("fiscal-year-end");
    reveal_strlit("filing values");
    reveal_strlit("filing-values");
    reveal_strlit("form type");
    reveal_strlit("form-type");
    reveal_strlit("sec act");
    reveal_strlit("act");
    reveal_strlit("sec file number");
    reveal_strlit("file-number");
    reveal_strlit("film number");
    reveal_strlit("film-number");
    reveal_strlit("business address");
    reveal_strlit("business-address");
    reveal_strlit("street 1");
    reveal_strlit("street1");
    reveal_strlit("street 2");
    reveal_strlit("street2");
    reveal_strlit("city");
    reveal_strlit("state");
    reveal_strlit("zip");
    reveal_strlit("business phone");
    reveal_strlit("phone");
    reveal_strlit("mail address");
    reveal_strlit("mail-address");
    reveal_strlit("former company");
    reveal_strlit("former-company");
    reveal_strlit("former conformed name");
    reveal_strlit("former-conformed-name");
    reveal_strlit("date of name change");
    reveal_strlit("date-changed");
    reveal_strlit("sros");
    reveal_strlit("subject company");
    reveal_strlit("subject-company");
    reveal_strlit("standard industrial classification");
    reveal_strlit("assigned-sic");
    reveal_strlit("irs number");
    reveal_strlit("irs-number");
    reveal_strlit("filed by");
    reveal_strlit("filed-by");
    reveal_strlit("items");
    reveal_strlit("group members");
    reveal_strlit("group-members");
    reveal_strlit("organization name");
    reveal_strlit("organization-name");
    reveal_strlit("recieved date");
    reveal_strlit("recieved-date");
    reveal_strlit("action date");
    reveal_strlit("action-date");
    reveal_strlit("non us state territory");
    reveal_strlit("non-us-state-territory");
    reveal_strlit("address is a non us location");
    reveal_strlit("address-is-a-non-us-location");
    reveal_strlit("ein");
    reveal_strlit("class-contract-ticker-symbol");
    reveal_strlit("class-contract-name");
    reveal_strlit("class-contract-id");
    reveal_strlit("sec-document");
    reveal_strlit("sec-header");
    reveal_strlit("acceptance-datetime");
    reveal_strlit("series-and-classes-contracts-data");
    reveal_strlit("existing-series-and-classes-contracts");
    reveal_strlit("merger-series-and-classes-contracts");
    reveal_strlit("new-series-and-classes-contracts");
    reveal_strlit("series");
    reveal_strlit("owner-cik");
    reveal_strlit("series-id");
    reveal_strlit("series-name");
    reveal_strlit("acquiring-data");
    reveal_strlit("target-data");
    reveal_strlit("new-classes-contracts");
    reveal_strlit("new-series");
    reveal_strlit("relationship");
    lemma_differs_at("accession-number"@, "accession number"@, 9);
    lemma_differs_at("accession-number"@, "filed as of date"@, 0);
    lemma_differs_at("accession-number"@, "business address"@, 0);
    lemma_kebab_of_kebab_text("accession-number"@, false);
    lemma_differs_at("type"@, "city"@, 0);
    lemma_differs_at("type"@, "sros"@, 0);
    lemma_kebab_of_kebab_text("type"@, false);
    lemma_differs_at("public-document-count"@, "public document count"@, 6);
    lemma_differs_at("public-document-count"@, "public-document_count"@, 15);
    lemma_differs_at("public-document-count"@, "former conformed name"@, 0);
    lemma_differs_at("public-document-count"@, "new-classes-contracts"@, 0);
    lemma_kebab_of_kebab_text("public-document-count"@, false);
    lemma_differs_at("public-document-count"@, "public document count"@, 6);
    lemma_differs_at("public-document-count"@, "public-document_count"@, 15);
    lemma_differs_at("public-document-count"@, "former conformed name"@, 0);
    lemma_differs_at("public-document-count"@, "new-classes-contracts"@, 0);
    lemma_kebab_of_kebab_text("public-document-count"@, false);
    lemma_differs_at("period"@, "series"@, 0);
    lemma_kebab_of_kebab_text("period"@, false);
    lemma_differs_at("filing-date"@, "film number"@, 3);
    lemma_differs_at("filing-date"@, "action date"@, 0);
    lemma_differs_at("filing-date"@, "series-name"@, 0);
    lemma_differs_at("filing-date"@, "target-data"@, 0);
    lemma_kebab_of_kebab_text("filing-date"@, false);
    lemma_differs_at("date-of-filing-date-change"@, "conformed period of report"@, 0);
    lemma_kebab_of_kebab_text("date-of-filing-date-change"@, false);
    lemma_differs_at("effectiveness-date"@, "effectiveness date"@, 13);
    lemma_kebab_of_kebab_text("effectiveness-date"@, false);
    lemma_differs_at("filer"@, "paper"@, 0);
    lemma_differs_at("company-data"@, "company data"@, 7);
    lemma_differs_at("company-data"@, "mail address"@, 0);
    lemma_differs_at("company-data"@, "sec-document"@, 0);
    lemma_differs_at("company-data"@, "relationship"@, 0);
    lemma_kebab_of_kebab_text("company-data"@, false);
    lemma_differs_at("conformed-name"@, "business phone"@, 0);
    lemma_differs_at("conformed-name"@, "former company"@, 0);
    lemma_differs_at("conformed-name"@, "acquiring-data"@, 0);
    lemma_kebab_of_kebab_text("conformed-name"@, false);
    lemma_differs_at("cik"@, "zip"@, 0);
    lemma_differs_at("cik"@, "ein"@, 0);
    lemma_kebab_of_kebab_text("cik"@, false);
    lemma_differs_at("state-of-incorporation"@, "company conformed name"@, 0);
    lemma_differs_at("state-of-incorporation"@, "state of incorporation"@, 5);
    lemma_differs_at("state-of-incorporation"@, "non us state territory"@, 0);
    lemma_kebab_of_kebab_text("state-of-incorporation"@, false);
    lemma_differs_at("fiscal-year-end"@, "fiscal year end"@, 6);
    lemma_differs_at("fiscal-year-end"@, "sec file number"@, 0);
    lemma_differs_at("fiscal-year-end"@, "subject company"@, 0);
    lemma_kebab_of_kebab_text("fiscal-year-end"@, false);
    lemma_differs_at("filing-values"@, "filing values"@, 6);
    lemma_differs_at("filing-values"@, "group members"@, 0);
    lemma_differs_at("filing-values"@, "recieved date"@, 0);
    lemma_kebab_of_kebab_text("filing-values"@, false);
    lemma_differs_at("form-type"@, "form type"@, 4);
    lemma_differs_at("form-type"@, "owner-cik"@, 0);
    lemma_differs_at("form-type"@, "series-id"@, 0);
    lemma_kebab_of_kebab_text("form-type"@, false);
    lemma_differs_at("act"@, "zip"@, 0);
    lemma_differs_at("act"@, "ein"@, 0);
    lemma_kebab_of_kebab_text("act"@, false);
    lemma_differs_at("file-number"@, "film number"@, 3);
    lemma_differs_at("file-number"@, "action date"@, 0);
    lemma_differs_at("file-number"@, "series-name"@, 0);
    lemma_differs_at("file-number"@, "target-data"@, 0);
    lemma_kebab_of_kebab_text("file-number"@, false);
    lemma_differs_at("film-number"@, "film number"@, 4);
    lemma_differs_at("film-number"@, "action date"@, 0);
    lemma_differs_at("film-number"@, "series-name"@, 0);
    lemma_differs_at("film-number"@, "target-data"@, 0);
    lemma_kebab_of_kebab_text("film-number"@, false);
    lemma_differs_at("business-address"@, "accession number"@, 0);
    lemma_differs_at("business-address"@, "filed as of date"@, 0);
    lemma_differs_at("business-address"@, "business address"@, 8);
    lemma_kebab_of_kebab_text("business-address"@, false);
    lemma_differs_at("street1"@, "sec act"@, 1);
    lemma_kebab_of_kebab_text("street1"@, false);
    lemma_differs_at("street2"@, "sec act"@, 1);
    lemma_kebab_of_kebab_text("street2"@, false);
    lemma_differs_at("state"@, "paper"@, 0);
    lemma_differs_at("state"@, "filer"@, 0);
    lemma_differs_at("phone"@, "paper"@, 1);
    lemma_differs_at("phone"@, "filer"@, 0);
    lemma_differs_at("phone"@, "state"@, 0);
    lemma_differs_at("phone"@, "items"@, 0);
    lemma_kebab_of_kebab_text("phone"@, false);
    lemma_differs_at("mail-address"@, "company data"@, 0);
    lemma_differs_at("mail-address"@, "mail address"@, 4);
    lemma_differs_at("mail-address"@, "sec-document"@, 0);
    lemma_differs_at("mail-address"@, "relationship"@, 0);
    lemma_kebab_of_kebab_text("mail-address"@, false);
    lemma_differs_at("former-company"@, "business phone"@, 0);
    lemma_differs_at("former-company"@, "former company"@, 6);
    lemma_differs_at("former-company"@, "acquiring-data"@, 0);
    lemma_kebab_of_kebab_text("former-company"@, false);
    lemma_differs_at("former-conformed-name"@, "public document count"@, 0);
    lemma_differs_at("former-conformed-name"@, "public-document_count"@, 0);
    lemma_differs_at("former-conformed-name"@, "former conformed name"@, 6);
    lemma_differs_at("former-conformed-name"@, "new-classes-contracts"@, 0);
    lemma_kebab_of_kebab_text("former-conformed-name"@, false);
    lemma_differs_at("date-changed"@, "company data"@, 0);
    lemma_differs_at("date-changed"@, "mail address"@, 0);
    lemma_differs_at("date-changed"@, "sec-document"@, 0);
    lemma_differs_at("date-changed"@, "relationship"@, 0);
    lemma_kebab_of_kebab_text("date-changed"@, false);
    lemma_differs_at("sros"@, "city"@, 0);
    lemma_differs_at("subject-company"@, "fiscal year end"@, 0);
    lemma_differs_at("subject-company"@, "sec file number"@, 1);
    lemma_differs_at("subject-company"@, "subject company"@, 7);
    lemma_kebab_of_kebab_text("subject-company"@, false);
    lemma_differs_at("assigned-sic"@, "company data"@, 0);
    lemma_differs_at("assigned-sic"@, "mail address"@, 0);
    lemma_differs_at("assigned-sic"@, "sec-document"@, 0);
    lemma_differs_at("assigned-sic"@, "relationship"@, 0);
    lemma_kebab_of_kebab_text("assigned-sic"@, false);
    lemma_differs_at("irs-number"@, "irs number"@, 3);
    lemma_differs_at("irs-number"@, "sec-header"@, 0);
    lemma_differs_at("irs-number"@, "new-series"@, 0);
    lemma_kebab_of_kebab_text("irs-number"@, false);
    lemma_differs_at("filed-by"@, "street 1"@, 0);
    lemma_differs_at("filed-by"@, "street 2"@, 0);
    lemma_differs_at("filed-by"@, "filed by"@, 5);
    lemma_kebab_of_kebab_text("filed-by"@, false);
    lemma_differs_at("items"@, "paper"@, 0);
    lemma_differs_at("items"@, "filer"@, 0);
    lemma_differs_at("items"@, "state"@, 0);
    lemma_differs_at("group-members"@, "filing values"@, 0);
    lemma_differs_at("group-members"@, "group members"@, 5);
    lemma_differs_at("group-members"@, "recieved date"@, 0);
    lemma_kebab_of_kebab_text("group-members"@, false);
    lemma_differs_at("organization-name"@, "date as of change"@, 0);
    lemma_differs_at("organization-name"@, "central index key"@, 0);
    lemma_differs_at("organization-name"@, "organization name"@, 12);
    lemma_differs_at("organization-name"@, "class-contract-id"@, 0);
    lemma_kebab_of_kebab_text("organization-name"@, false);
    lemma_differs_at("recieved-date"@, "filing values"@, 0);
    lemma_differs_at("recieved-date"@, "group members"@, 0);
    lemma_differs_at("recieved-date"@, "recieved date"@, 8);
    lemma_kebab_of_kebab_text("recieved-date"@, false);
    lemma_differs_at("action-date"@, "film number"@, 0);
    lemma_differs_at("action-date"@, "action date"@, 6);
    lemma_differs_at("action-date"@, "series-name"@, 0);
    lemma_differs_at("action-date"@, "target-data"@, 0);
    lemma_kebab_of_kebab_text("action-date"@, false);
    lemma_differs_at("non-us-state-territory"@, "company conformed name"@, 0);
    lemma_differs_at("non-us-state-territory"@, "state of incorporation"@, 0);
    lemma_differs_at("non-us-state-territory"@, "non us state territory"@, 3);
    lemma_kebab_of_kebab_text("non-us-state-territory"@, false);
    lemma_differs_at("address-is-a-non-us-location"@, "address is a non us location"@, 7);
    lemma_differs_at("address-is-a-non-us-location"@, "class-contract-ticker-symbol"@, 0);
    lemma_kebab_of_kebab_text("address-is-a-non-us-location"@, false);
    lemma_differs_at("ein"@, "zip"@, 0);
    lemma_differs_at("class-contract-ticker-symbol"@, "address is a non us location"@, 0);
    lemma_differs_at("class-contract-name"@, "date of name change"@, 0);
    lemma_differs_at("class-contract-id"@, "date as of change"@, 0);
    lemma_differs_at("class-contract-id"@, "central index key"@, 1);
    lemma_differs_at("class-contract-id"@, "organization name"@, 0);
    lemma_differs_at("sec-document"@, "company data"@, 0);
    lemma_differs_at("sec-document"@, "mail address"@, 0);
    lemma_differs_at("sec-header"@, "irs number"@, 0);
    lemma_differs_at("acceptance-datetime"@, "date of name change"@, 0);
    lemma_differs_at("acceptance-datetime"@, "class-contract-name"@, 0);
    lemma_differs_at("owner-cik"@, "form type"@, 0);
    lemma_differs_at("series-id"@, "form type"@, 0);
    lemma_differs_at("series-id"@, "owner-cik"@, 0);
    lemma_differs_at("series-name"@, "film number"@, 0);
    lemma_differs_at("series-name"@, "action date"@, 0);
    lemma_differs_at("acquiring-data"@, "business phone"@, 0);
    lemma_differs_at("acquiring-data"@, "former company"@, 0);
    lemma_differs_at("target-data"@, "film number"@, 0);
    lemma_differs_at("target-data"@, "action date"@, 0);
    lemma_differs_at("target-data"@, "series-name"@, 0);
    lemma_differs_at("new-classes-contracts"@, "public document count"@, 0);
    lemma_differs_at("new-classes-contracts"@, "public-document_count"@, 0);
    lemma_differs_at("new-classes-contracts"@, "former conformed name"@, 0);
    lemma_differs_at("new-series"@, "irs number"@, 0);
    lemma_differs_at("new-series"@, "sec-header"@, 0);
    lemma_differs_at("relationship"@, "company data"@, 0);
    lemma_differs_at("relationship"@, "mail address"@, 0);
    lemma_differs_at("relationship"@, "sec-document"@, 0);
}


/// Each canonical key of the table standardizes to itself.
pub proof fn lemma_canonical_keys_fixed()
    ensures
        forall|i: int|
            0 <= i < header_table().len() ==> standardized_key(#[trigger] header_table()[i].1)
                == header_table()[i].1,
{
    lemma_canonical_rows_fixed();
    assert forall|i: int| 0 <= i < header_table().len() implies standardized_key(
        #[trigger] header_table()[i].1,
    ) == header_table()[i].1 by {
        if i == 0 {
        } else if i == 1 {
        } else if i == 2 {
        } else if i == 3 {
        } else if i == 4 {
        } else if i == 5 {
        } else if i == 6 {
        } else if i == 7 {
        } else if i == 8 {
        } else if i == 9 {
        } else if i == 10 {
        } else if i == 11 {
        } else if i == 12 {
        } else if i == 13 {
        } else if i == 14 {
        } else if i == 15 {
        } else if i == 16 {
        } else if i == 17 {
        } else if i == 18 {
        } else if i == 19 {
        } else if i == 20 {
        } else if i == 21 {
        } else if i == 22 {
        } else if i == 23 {
        } else if i == 24 {
        } else if i == 25 {
        } else if i == 26 {
        } else if i == 27 {
        } else if i == 28 {
        } else if i == 29 {
        } else if i == 30 {
        } else if i == 31 {
        } else if i == 32 {
        } else if i == 33 {
        } else if i == 34 {
        } else if i == 35 {
        } else if i == 36 {
        } else if i == 37 {
        } else if i == 38 {
        } else if i == 39 {
        } else if i == 40 {
        } else if i == 41 {
        } else if i == 42 {
        } else if i == 43 {
        } else if i == 44 {
        } else if i == 45 {
        } else if i == 46 {
        } else if i == 47 {
        } else if i == 48 {
        } else if i == 49 {
        } else if i == 50 {
        } else if i == 51 {
        } else if i == 52 {
        } else if i == 53 {
        } else if i == 54 {
        } else if i == 55 {
        } else if i == 56 {
        } else if i == 57 {
        } else if i == 58 {
        } else if i == 59 {
        } else if i == 60 {
        } else if i == 61 {
        } else if i == 62 {
        }
    }
}

proof fn lemma_lookup_from_range(k: Seq<char>, i: int)
    requires
        0 <= i,
    ensures
        lookup_from(k, i) matches Some(j) ==> i <= j < header_table().len(),
    decreases header_table().len() - i,
{
    if i < header_table().len() && !key_matches(k, header_table()[i].0) {
        lemma_lookup_from_range(k, i + 1);
    }
}

/// Standardizing is idempotent on keys that the table maps: their
/// canonical form standardizes to itself.
pub proof fn lemma_standardize_idempotent(k: Seq<char>)
    requires
        lookup_key(k) is Some,
    ensures
        standardized_key(standardized_key(k)) == standardized_key(k),
{
    lemma_lookup_from_range(k, 0);
    lemma_canonical_keys_fixed();
    let i = lookup_key(k)->0;
    assert(standardized_key(header_table()[i].1) == header_table()[i].1);
}

} // verus!
