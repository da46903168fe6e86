use secsgml::bytes::trim;
use secsgml::parse::{
    apply_filter, assemble_submission, parse_single_document, clean_document_content, detect_format, find_document_boundaries,
    fix_line_wraparound, parse_sgml, parse_tag_line,
};
use secsgml::types::{
    DocumentMetadata, MetadataValue, ParseError, ParseOptions, SubmissionFormat,
};

#[test]
fn test_detect_format() {
    assert_eq!(detect_format(b"<SEC-DOCUMENT>"), SubmissionFormat::TabDefault);
    assert_eq!(detect_format(b"-----BEGIN PRIVACY"), SubmissionFormat::TabPrivacy);
    assert_eq!(detect_format(b"<SUBMISSION>"), SubmissionFormat::Archive);
}

#[test]
fn test_parse_tag_line() {
    let (key, value) = parse_tag_line(b"<TYPE>10-K").unwrap();
    assert_eq!(key, b"TYPE");
    assert_eq!(value, b"10-K");

    let (key, value) = parse_tag_line(b"<FILENAME>form10k.htm").unwrap();
    assert_eq!(key, b"FILENAME");
    assert_eq!(value, b"form10k.htm");
}

#[test]
fn test_find_document_boundaries() {
    let data = b"header<DOCUMENT>doc1</DOCUMENT>middle<DOCUMENT>doc2</DOCUMENT>end";
    let bounds = find_document_boundaries(data);
    assert_eq!(bounds.len(), 2);
}

#[test]
fn boundaries_cover_exactly_the_blocks() {
    let data = b"header<DOCUMENT>doc1</DOCUMENT>middle<DOCUMENT>doc2</DOCUMENT>end";
    let bounds = find_document_boundaries(data);
    assert_eq!(&data[bounds[0].0..bounds[0].1], b"<DOCUMENT>doc1</DOCUMENT>");
    assert_eq!(&data[bounds[1].0..bounds[1].1], b"<DOCUMENT>doc2</DOCUMENT>");
    let open_only = b"<DOCUMENT>a</DOCUMENT><DOCUMENT>never closed";
    assert_eq!(find_document_boundaries(open_only).len(), 1);
}

#[test]
fn test_fix_line_wraparound() {
    let short_line = "short line";
    let long_line = "x".repeat(1023);
    let continuation = "continued";

    let input = format!("{}\n{}\n{}", short_line, long_line, continuation);
    let result = fix_line_wraparound(input.as_bytes());

    assert_eq!(result.len(), 2);
    assert_eq!(result[0], short_line);
    assert_eq!(result[1], format!("{}{}", long_line, continuation));
}

#[test]
fn wraparound_joins_a_long_line_with_the_next_only() {
    let long_line = "y".repeat(1023);
    let input = format!("{}\n{}\n{}\n", long_line, "abcdefghi", "next");
    let result = fix_line_wraparound(input.as_bytes());
    assert_eq!(result.len(), 2);
    assert_eq!(result[0].len(), 1032);
    assert_eq!(result[1], "next");
}

#[test]
fn test_clean_document_content() {
    let content = b"  <PDF>actual content</PDF>  ";
    let cleaned = clean_document_content(content, SubmissionFormat::Archive, false);
    assert_eq!(cleaned, b"actual content");
}

#[test]
fn clean_strips_xbrl_and_xml_wrappers() {
    let x = clean_document_content(b"\n<XBRL>\n<a/>\n</XBRL>\n", SubmissionFormat::Archive, false);
    assert_eq!(x, b"<a/>");
    let y = clean_document_content(b"<XML>z</XML>", SubmissionFormat::TabDefault, false);
    assert_eq!(y, b"z");
}

#[test]
fn trim_removes_ascii_whitespace_only() {
    assert_eq!(trim(b" \t\r\nab c\n"), b"ab c");
    assert_eq!(trim(b"\x0bx"), b"\x0bx");
}

const TAB_SUBMISSION: &[u8] = b"<SEC-DOCUMENT>0001.txt : 20200101
<SEC-HEADER>0001.hdr.sgml : 20200101
ACCESSION NUMBER:\t\t0000000000-20-000001
CONFORMED SUBMISSION TYPE:\t10-K
FILER:
\tCOMPANY DATA:
\t\tCOMPANY CONFORMED NAME:\t\t\tACME CORP
\t\tCENTRAL INDEX KEY:\t\t\t0000000001
\t\tSTANDARD INDUSTRIAL CLASSIFICATION:\tSERVICES [7370]
\tFILING VALUES:
\t\tSEC ACT:\t\t1934 Act
FILER:
\tCOMPANY DATA:
\t\tCOMPANY CONFORMED NAME:\t\t\tOTHER CORP
</SEC-HEADER>
<DOCUMENT>
<TYPE>10-K
<SEQUENCE>1
<FILENAME>form10k.htm
<TEXT>
Annual report.
</TEXT>
</DOCUMENT>
<DOCUMENT>
<TYPE>EX-99
<SEQUENCE>2
<TEXT>
<PDF>
begin 644 data.bin
#0V%T
`
end
</PDF>
</TEXT>
</DOCUMENT>
";

fn get<'a>(es: &'a [(String, MetadataValue)], key: &str) -> &'a MetadataValue {
    &es.iter().find(|(k, _)| k == key).expect("key present").1
}

#[test]
fn tab_header_builds_nested_tree() {
    let p = parse_sgml(TAB_SUBMISSION, ParseOptions::new()).unwrap();
    assert_eq!(p.format, SubmissionFormat::TabDefault);
    let f = &p.metadata.fields;
    assert_eq!(get(f, "sec-document").as_str(), Some("0001.txt : 20200101"));
    assert_eq!(get(f, "accession-number").as_str(), Some("0000000000-20-000001"));
    assert_eq!(get(f, "type").as_str(), Some("10-K"));
    match get(f, "filer") {
        MetadataValue::List(items) => {
            assert_eq!(items.len(), 2);
            let first = items[0].as_object().unwrap();
            let company = get(first, "company-data").as_object().unwrap();
            assert_eq!(get(company, "conformed-name").as_str(), Some("ACME CORP"));
            assert_eq!(get(company, "cik").as_str(), Some("0000000001"));
            assert_eq!(get(company, "assigned-sic").as_str(), Some("7370"));
            let values = get(first, "filing-values").as_object().unwrap();
            assert_eq!(get(values, "act").as_str(), Some("34"));
            let second = items[1].as_object().unwrap();
            let company2 = get(second, "company-data").as_object().unwrap();
            assert_eq!(get(company2, "conformed-name").as_str(), Some("OTHER CORP"));
        }
        _ => panic!("repeated FILER should be a list"),
    }
}

#[test]
fn documents_carry_metadata_and_decoded_payloads() {
    let p = parse_sgml(TAB_SUBMISSION, ParseOptions::new()).unwrap();
    assert_eq!(p.documents.len(), 2);
    assert_eq!(p.metadata.documents.len(), 2);
    assert_eq!(p.documents[0], b"Annual report.");
    assert_eq!(p.documents[1], b"Cat");
    let d0 = &p.metadata.documents[0];
    assert_eq!(d0.doc_type(), Some("10-K"));
    assert_eq!(d0.filename(), Some("form10k.htm"));
    assert_eq!(d0.sequence(), Some("1"));
    for (m, d) in p.metadata.documents.iter().zip(p.documents.iter()) {
        assert_eq!(m.size_bytes, d.len());
        assert!(m.start_byte.is_none());
    }
}

#[test]
fn preserve_original_keeps_raw_keys() {
    let p = parse_sgml(TAB_SUBMISSION, ParseOptions::preserve_original()).unwrap();
    assert_eq!(get(&p.metadata.fields, "CONFORMED SUBMISSION TYPE").as_str(), Some("10-K"));
    assert_eq!(p.metadata.documents[0].fields[0].0, "TYPE");
}

#[test]
fn filter_discards_or_keeps_metadata() {
    let opts = ParseOptions::new().with_filter(vec!["EX-99".to_string()]);
    let p = parse_sgml(TAB_SUBMISSION, opts).unwrap();
    assert_eq!(p.documents.len(), 1);
    assert_eq!(p.metadata.documents.len(), 1);
    assert_eq!(p.documents[0], b"Cat");

    let mut keep = ParseOptions::new().with_filter(vec!["EX-99".to_string()]);
    keep.keep_filtered_metadata = true;
    let q = parse_sgml(TAB_SUBMISSION, keep).unwrap();
    assert_eq!(q.documents.len(), 1);
    assert_eq!(q.metadata.documents.len(), 2);

    let none = ParseOptions::new().with_filter(vec!["S-1".to_string()]);
    let r = parse_sgml(TAB_SUBMISSION, none).unwrap();
    assert_eq!(r.documents.len(), 0);
    assert_eq!(r.metadata.documents.len(), 0);
}

#[test]
fn apply_filter_without_types_is_identity() {
    let m = DocumentMetadata { fields: vec![], size_bytes: 3, start_byte: None, end_byte: None };
    let (metas, docs) = apply_filter(vec![m], vec![b"abc".to_vec()], &ParseOptions::new());
    assert_eq!(metas.len(), 1);
    assert_eq!(docs, vec![b"abc".to_vec()]);
}

#[test]
fn missing_text_tag_is_a_structural_error() {
    let data = b"<SEC-HEADER>\n</SEC-HEADER>\n<DOCUMENT>\n<TYPE>X\n</DOCUMENT>\n";
    match parse_sgml(data, ParseOptions::new()) {
        Err(ParseError::InvalidStructure(_)) => {}
        _ => panic!("expected InvalidStructure"),
    }
}

#[test]
fn missing_closing_text_runs_to_end_of_block() {
    let data = b"<SUBMISSION>\n<DOCUMENT>\n<TYPE>X\n<TEXT>\nbody\n</DOCUMENT>\n";
    let p = parse_sgml(data, ParseOptions::new()).unwrap();
    assert_eq!(p.documents[0], b"body\n</DOCUMENT>");
}

#[test]
fn archive_header_sections_and_repeats() {
    let data = b"<SUBMISSION>
<ACCESSION-NUMBER>0000000000-20-000002
<TYPE>8-K
<FILER>
<COMPANY-DATA>
<CONFORMED-NAME>ONE
</COMPANY-DATA>
</FILER>
<FILER>
<COMPANY-DATA>
<CONFORMED-NAME>TWO
</COMPANY-DATA>
</FILER>
<FLAG>
<DOCUMENT>
<TYPE>8-K
<TEXT>
hello
</TEXT>
</DOCUMENT>
</SUBMISSION>
";
    let p = parse_sgml(data, ParseOptions::new()).unwrap();
    assert_eq!(p.format, SubmissionFormat::Archive);
    let f = &p.metadata.fields;
    assert_eq!(get(f, "accession-number").as_str(), Some("0000000000-20-000002"));
    assert_eq!(get(f, "flag").as_str(), Some(""));
    match get(f, "filer") {
        MetadataValue::List(items) => {
            assert_eq!(items.len(), 2);
            let c0 = get(items[0].as_object().unwrap(), "company-data").as_object().unwrap();
            assert_eq!(get(c0, "conformed-name").as_str(), Some("ONE"));
            let c1 = get(items[1].as_object().unwrap(), "company-data").as_object().unwrap();
            assert_eq!(get(c1, "conformed-name").as_str(), Some("TWO"));
        }
        _ => panic!("repeated FILER should be a list"),
    }
    assert_eq!(p.documents[0], b"hello");
}

#[test]
fn repeated_scalars_become_a_list_in_order() {
    let data = b"<SUBMISSION>\n<ITEMS>1.01\n<ITEMS>2.02\n<ITEMS>9.01\n";
    let p = parse_sgml(data, ParseOptions::new()).unwrap();
    match get(&p.metadata.fields, "items") {
        MetadataValue::List(items) => {
            let v: Vec<&str> = items.iter().map(|x| x.as_str().unwrap()).collect();
            assert_eq!(v, vec!["1.01", "2.02", "9.01"]);
        }
        _ => panic!("expected a list"),
    }
}

#[test]
fn privacy_banner_is_kept_whole() {
    let data = b"-----BEGIN PRIVACY-ENHANCED MESSAGE-----\nProc-Type: 2001,MIC-CLEAR\n\n<SEC-HEADER>0001.hdr.sgml : 20200101\nFORM TYPE:\t4\n";
    let p = parse_sgml(data, ParseOptions::new()).unwrap();
    assert_eq!(p.format, SubmissionFormat::TabPrivacy);
    let f = &p.metadata.fields;
    assert_eq!(
        get(f, "privacy-enhanced-message").as_str(),
        Some("-----BEGIN PRIVACY-ENHANCED MESSAGE-----\nProc-Type: 2001,MIC-CLEAR")
    );
    assert_eq!(get(f, "form-type").as_str(), Some("4"));
    assert_eq!(get(f, "sec-header").as_str(), Some("0001.hdr.sgml : 20200101"));
}

#[test]
fn latin1_bytes_are_lifted() {
    let data = b"<SUBMISSION>\n<CONFORMED-NAME>CAF\xc9\n";
    let p = parse_sgml(data, ParseOptions::new()).unwrap();
    assert_eq!(get(&p.metadata.fields, "conformed-name").as_str(), Some("CAF\u{c9}"));
}

#[test]
fn assembling_per_document_results_matches_parse() {
    let spans = find_document_boundaries(TAB_SUBMISSION);
    let format = detect_format(&TAB_SUBMISSION[..spans[0].0]);
    let mut metas = Vec::new();
    let mut docs = Vec::new();
    for (s, e) in spans {
        let (m, d) = parse_single_document(&TAB_SUBMISSION[s..e], format, true).unwrap();
        metas.push(m);
        docs.push(d);
    }
    let a = assemble_submission(TAB_SUBMISSION, metas, docs, &ParseOptions::new());
    let p = parse_sgml(TAB_SUBMISSION, ParseOptions::new()).unwrap();
    assert_eq!(a.format, p.format);
    assert_eq!(a.documents, p.documents);
    assert_eq!(a.metadata.documents.len(), p.metadata.documents.len());
    assert_eq!(a.metadata.fields.len(), p.metadata.fields.len());
}

#[test]
fn default_value_is_an_empty_object() {
    let v = MetadataValue::default();
    assert_eq!(v.as_object().map(|o| o.len()), Some(0));
    assert!(v.as_str().is_none());
    let mut w = MetadataValue::object();
    w.as_object_mut().unwrap().push(("k".to_string(), MetadataValue::string("v".to_string())));
    assert_eq!(w.as_object().unwrap()[0].1.as_str(), Some("v"));
}
