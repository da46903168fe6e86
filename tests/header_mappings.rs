use secsgml::header_mappings::{get_header_mappings, standardize_key, transform_value};

#[test]
fn test_standardize_key() {
    assert_eq!(standardize_key("CENTRAL INDEX KEY"), "cik");
    assert_eq!(standardize_key("central index key"), "cik");
    assert_eq!(standardize_key("COMPANY CONFORMED NAME"), "conformed-name");
    assert_eq!(standardize_key("UNKNOWN FIELD"), "unknown-field");
    assert_eq!(standardize_key("some  multiple   spaces"), "some-multiple-spaces");
}

#[test]
fn test_transform_value_sic() {
    let result = transform_value("STANDARD INDUSTRIAL CLASSIFICATION", "SERVICES [7370]");
    assert_eq!(result, "7370");
}

#[test]
fn test_transform_value_sec_act() {
    let result = transform_value("SEC ACT", "1934 Act");
    assert_eq!(result, "34");
}

#[test]
fn test_transform_value_no_regex() {
    let result = transform_value("COMPANY CONFORMED NAME", "ACME CORP");
    assert_eq!(result, "ACME CORP");
}

#[test]
fn standardize_key_keeps_whitespace_runs_at_the_ends() {
    assert_eq!(standardize_key("  foo   bar "), "-foo-bar-");
    assert_eq!(standardize_key("Tab\tSeparated"), "tab-separated");
}

#[test]
fn standardize_key_is_idempotent_on_canonical_keys() {
    for (_, mapping) in get_header_mappings() {
        let once = standardize_key(mapping.to);
        let twice = standardize_key(&once);
        assert_eq!(once, twice);
    }
}

#[test]
fn table_has_every_mapping_once() {
    let table = get_header_mappings();
    assert_eq!(table.len(), 63);
    assert_eq!(standardize_key("Filed As Of Date"), "filing-date");
    assert_eq!(standardize_key("PUBLIC-DOCUMENT_COUNT"), "public-document-count");
}

#[test]
fn transform_value_leaves_unmatched_patterns() {
    assert_eq!(transform_value("SEC ACT", "Act of 1934"), "Act of 1934");
    assert_eq!(transform_value("SEC ACT", "X4 Act"), "X4 Act");
    assert_eq!(transform_value("STANDARD INDUSTRIAL CLASSIFICATION", "NONE []"), "NONE []");
    assert_eq!(transform_value("STANDARD INDUSTRIAL CLASSIFICATION", "A [12x]"), "A [12x]");
    assert_eq!(transform_value("standard industrial classification", "X [0001]"), "0001");
    assert_eq!(transform_value("sec act", "1933 Act"), "33");
}
