use secsgml::json::parse_sgml_to_json;
use secsgml::parse::parse_sgml;
use secsgml::types::ParseOptions;
use secsgml::write::{
    build_tar_header, calculate_tar_positions, pad_to_block, write_sgml_bytes_to_tar,
    write_tar_archive,
};

const BLOCK_SIZE: usize = 512;

#[test]
fn test_pad_to_block() {
    assert_eq!(pad_to_block(0), 0);
    assert_eq!(pad_to_block(1), 511);
    assert_eq!(pad_to_block(512), 0);
    assert_eq!(pad_to_block(513), 511);
    assert_eq!(pad_to_block(1024), 0);
}

#[test]
fn test_build_tar_header() {
    let header = build_tar_header("test.txt", 100).unwrap();

    // Check filename
    assert_eq!(&header[0..8], b"test.txt");

    // Check magic
    assert_eq!(&header[257..262], b"ustar");

    // Check type flag
    assert_eq!(header[156], b'0');
}

#[test]
fn header_fields_and_checksum() {
    let h = build_tar_header("a.txt", 100).unwrap();
    assert_eq!(h.len(), 512);
    assert_eq!(&h[100..108], b"0000644\0");
    assert_eq!(&h[124..136], b"00000000144\0");
    assert_eq!(&h[136..148], b"00000000000\0");
    assert_eq!(&h[263..265], b"00");
    let mut sum: u32 = 0;
    for (i, b) in h.iter().enumerate() {
        sum += if (148..156).contains(&i) { 32 } else { *b as u32 };
    }
    assert_eq!(&h[148..156], format!("{:06o}\0 ", sum).as_bytes());
    let long = "n".repeat(150);
    let hl = build_tar_header(&long, 0).unwrap();
    assert_eq!(&hl[0..100], "n".repeat(100).as_bytes());
    assert_eq!(hl[100], b'0');
}

#[test]
fn test_write_to_tar() {
    let sgml = br#"<SEC-DOCUMENT>test.txt
<DOCUMENT>
<TYPE>10-K
<SEQUENCE>1
<FILENAME>form10k.htm
<TEXT>
Test content here.
</TEXT>
</DOCUMENT>
"#;

    let mut submission = parse_sgml(sgml, ParseOptions::new()).unwrap();
    let tar_data = write_tar_archive(&mut submission.metadata, &submission.documents).unwrap();

    // Should have at least: metadata header + metadata + doc header + doc + 2 end blocks
    assert!(tar_data.len() >= BLOCK_SIZE * 4);

    // First entry should be metadata.json
    assert_eq!(&tar_data[0..13], b"metadata.json");
}

const TWO_DOCS: &[u8] = br#"<SEC-DOCUMENT>test.txt
<DOCUMENT>
<TYPE>10-K
<SEQUENCE>1
<FILENAME>doc1.htm
<TEXT>
First document content.
</TEXT>
</DOCUMENT>
<DOCUMENT>
<TYPE>EX-99
<SEQUENCE>2
<FILENAME>doc2.htm
<TEXT>
Second document.
</TEXT>
</DOCUMENT>
"#;

#[test]
fn test_position_calculation() {
    let submission = parse_sgml(TWO_DOCS, ParseOptions::new()).unwrap();

    let mut metadata = submission.metadata.duplicate();
    calculate_tar_positions(&mut metadata, &submission.documents).unwrap();

    // Positions should be 10-digit strings
    assert_eq!(metadata.documents[0].start_byte.as_ref().unwrap().len(), 10);
    assert_eq!(metadata.documents[0].end_byte.as_ref().unwrap().len(), 10);

    // Second doc should start after first
    let doc1_end: usize = metadata.documents[0].end_byte.as_ref().unwrap().parse().unwrap();
    let doc2_start: usize = metadata.documents[1].start_byte.as_ref().unwrap().parse().unwrap();
    assert!(doc2_start > doc1_end);
}

fn octal(field: &[u8]) -> usize {
    let s = std::str::from_utf8(field).unwrap().trim_end_matches('\0');
    usize::from_str_radix(s, 8).unwrap()
}

#[test]
fn archive_offsets_point_at_payloads() {
    let submission = parse_sgml(TWO_DOCS, ParseOptions::new()).unwrap();
    let mut metadata = submission.metadata.duplicate();
    let tar = write_tar_archive(&mut metadata, &submission.documents).unwrap();
    assert_eq!(tar.len() % 512, 0);
    assert!(tar[tar.len() - 1024..].iter().all(|b| *b == 0));

    let json_len = octal(&tar[124..135]);
    let json: serde_json::Value = serde_json::from_slice(&tar[512..512 + json_len]).unwrap();
    let docs = json["documents"].as_array().unwrap();
    assert_eq!(docs.len(), 2);
    let mut prev_end: Option<usize> = None;
    for (i, d) in docs.iter().enumerate() {
        let start: usize = d["secsgml_start_byte"].as_str().unwrap().parse().unwrap();
        let end: usize = d["secsgml_end_byte"].as_str().unwrap().parse().unwrap();
        assert_eq!(&tar[start..end], submission.documents[i].as_slice());
        assert_eq!(d["secsgml_size_bytes"].as_u64().unwrap() as usize, end - start);
        let header = start - 512;
        assert_eq!(&tar[header..header + 8], format!("doc{}.htm", i + 1).as_bytes());
        if let Some(e) = prev_end {
            assert!(start >= e + (512 - e % 512) % 512 + 512);
        }
        prev_end = Some(end);
    }
    assert_eq!(json["sec-document"], "test.txt");
    assert_eq!(docs[0]["type"], "10-K");
}

#[test]
fn member_names_fall_back_to_sequence_and_index() {
    let data = b"<SUBMISSION>\n<DOCUMENT>\n<SEQUENCE>7\n<TEXT>\na\n</TEXT>\n</DOCUMENT>\n<DOCUMENT>\n<TEXT>\nb\n</TEXT>\n</DOCUMENT>\n";
    let tar = write_sgml_bytes_to_tar(data, ParseOptions::new()).unwrap();
    let json_len = octal(&tar[124..135]);
    let first = 512 + json_len + pad_to_block(json_len);
    assert_eq!(&tar[first..first + 6], b"7.txt\0");
    let second = first + 1024;
    assert_eq!(&tar[second..second + 6], b"2.txt\0");
    assert_eq!(tar[first + 512], b'a');
    assert_eq!(tar[second + 512], b'b');
}

#[test]
fn json_output_flattens_fields() {
    let (json, docs) = parse_sgml_to_json(TWO_DOCS, vec![], false, true).unwrap();
    let v: serde_json::Value = serde_json::from_slice(&json).unwrap();
    assert_eq!(v["sec-document"], "test.txt");
    assert_eq!(v["documents"][1]["filename"], "doc2.htm");
    assert_eq!(v["documents"][1]["secsgml_size_bytes"], 16);
    assert!(v["documents"][0].get("secsgml_start_byte").is_none());
    assert_eq!(docs[1], b"Second document.");
    let (json2, _) = parse_sgml_to_json(TWO_DOCS, vec![], false, true).unwrap();
    assert_eq!(json, json2);
}

#[test]
fn json_escapes_quotes_backslashes_and_controls() {
    let data = b"<SUBMISSION>\n<CONFORMED-NAME>A \"B\" \\ C\x01\td\n";
    let (json, _) = parse_sgml_to_json(data, vec![], false, true).unwrap();
    let text = String::from_utf8(json.clone()).unwrap();
    assert!(text.contains(r#""A \"B\" \\ C\u0001\td""#));
    let v: serde_json::Value = serde_json::from_slice(&json).unwrap();
    assert_eq!(v["conformed-name"], "A \"B\" \\ C\u{1}\td");
}
