use secsgml::uudecode::{
    a2b_uu, check_begin_line, decode_uu_line, decode_uuencoded, is_uuencoded, UuDecodeError,
};

/// Encodes one line the standard way, zero sextets as backticks.
fn encode_line(data: &[u8]) -> Vec<u8> {
    encode_line_with(data, true)
}

/// Encodes one line, zero sextets as backticks or as spaces.
fn encode_line_with(data: &[u8], backtick: bool) -> Vec<u8> {
    let enc = |v: u8| if v == 0 && backtick { b'`' } else { v + 32 };
    let mut out = vec![enc(data.len() as u8)];
    for chunk in data.chunks(3) {
        let b0 = chunk[0];
        let b1 = if chunk.len() > 1 { chunk[1] } else { 0 };
        let b2 = if chunk.len() > 2 { chunk[2] } else { 0 };
        out.push(enc(b0 >> 2));
        out.push(enc(((b0 & 3) << 4) | (b1 >> 4)));
        out.push(enc(((b1 & 15) << 2) | (b2 >> 6)));
        out.push(enc(b2 & 63));
    }
    out
}

#[test]
fn cat_round_trips() {
    assert_eq!(encode_line(b"Cat"), b"#0V%T");
    let stream = b"begin 644 cat.txt\n#0V%T\n`\nend\n";
    assert_eq!(decode_uuencoded(stream), b"Cat");
}

#[test]
fn short_strings_round_trip() {
    let samples: Vec<Vec<u8>> = vec![
        vec![],
        vec![0],
        vec![0, 0, 0],
        vec![0, 65],
        vec![255, 254, 253, 252],
        (0u8..45).collect(),
        b"hello, world".to_vec(),
    ];
    for s in samples {
        let mut stream = b"begin 600 x\n".to_vec();
        stream.extend(encode_line(&s));
        stream.extend(b"\n`\nend\n");
        assert_eq!(decode_uuencoded(&stream), s);
    }
}

#[test]
fn strict_decoder_reports_illegal_and_trailing_chars() {
    assert_eq!(a2b_uu(b"#0V%T"), Ok(b"Cat".to_vec()));
    assert_eq!(a2b_uu(b"#0V%T  ``\r\n"), Ok(b"Cat".to_vec()));
    assert_eq!(a2b_uu(b"#0V\x7f%"), Err(UuDecodeError::IllegalChar));
    assert_eq!(a2b_uu(b"#0V%Tx"), Err(UuDecodeError::TrailingGarbage));
    assert_eq!(a2b_uu(b""), Ok(vec![]));
    assert_eq!(a2b_uu(b"#0V"), Ok(vec![b'C', b'`', 0]));
}

#[test]
fn lenient_line_drops_illegal_chars() {
    assert_eq!(decode_uu_line(b"#0V\xc3%Tzz"), Some(b"Cat".to_vec()));
    assert_eq!(decode_uu_line(b"\x01\x02"), None);
}

#[test]
fn begin_line_detection() {
    assert!(check_begin_line(b"begin 644 a"));
    assert!(!check_begin_line(b"begin 644 "));
    assert!(!check_begin_line(b"begin 64x name"));
    assert!(is_uuencoded(b"\n  begin 644 file.pdf\nM...\n"));
    assert!(is_uuencoded(b"<PDF>\nbegin 644 file.pdf\n"));
    assert!(!is_uuencoded(b"one\ntwo\nbegin 644 file.pdf\n"));
    assert!(!is_uuencoded(b"plain text"));
}

#[test]
fn decoding_stops_at_blank_line_and_skips_before_begin() {
    let stream = b"noise\nbegin 644 f\r\n#0V%T\r\n\r\n#0V%T\n";
    assert_eq!(decode_uuencoded(stream), b"Cat");
    assert_eq!(decode_uuencoded(b"no begin here\n#0V%T\n"), b"");
}

#[test]
fn space_for_zero_round_trips() {
    let samples: Vec<Vec<u8>> = vec![vec![], vec![0, 65], vec![0, 0, 0, 7], (0u8..45).collect()];
    for s in samples {
        let mut stream = b"begin 644 f\n".to_vec();
        stream.extend(encode_line_with(&s, false));
        stream.extend(b"\n`\nend\n");
        assert_eq!(decode_uuencoded(&stream), s);
    }
}
