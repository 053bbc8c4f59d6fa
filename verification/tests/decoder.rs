use pdf_xref::parser::{
    parse_header, parse_record, parse_xref_table, read_xref_table, ObjType, XrefRecord,
};
use pdf_xref::{ByteStream, XrefError};

fn record(byte_offset: u64, generation: u64, obj_type: ObjType) -> XrefRecord {
    XrefRecord { byte_offset, generation, obj_type }
}

fn decode(bytes: &[u8], offset: u64) -> Result<Vec<XrefRecord>, XrefError> {
    let mut stream = ByteStream::new(bytes.to_vec());
    stream.seek_from_start(offset);
    parse_xref_table(&mut stream)
}

const TABLE: &[u8] = b"xref\n0 3\n0000000000 65535 f\n0000000017 00000 n\n0000000100 00000 n\n";

#[test]
fn obj_type_from_text() {
    assert_eq!(ObjType::new("f"), Ok(ObjType::F));
    assert_eq!(ObjType::new("n"), Ok(ObjType::N));
    assert_eq!(ObjType::new(""), Err(()));
    assert_eq!(ObjType::new("F"), Err(()));
    assert_eq!(ObjType::new("fn"), Err(()));
    assert_eq!(ObjType::new("f\n"), Err(()));
    assert_eq!(ObjType::new("\u{e9}"), Err(()));
}

#[test]
fn obj_type_from_token() {
    assert_eq!(ObjType::from_token(b"f"), Some(ObjType::F));
    assert_eq!(ObjType::from_token(b"n"), Some(ObjType::N));
    assert_eq!(ObjType::from_token(b""), None);
    assert_eq!(ObjType::from_token(b"x"), None);
    assert_eq!(ObjType::from_token(b"nn"), None);
}

#[test]
fn synthetic_table_decodes_to_its_three_records() {
    let table = decode(TABLE, 0).unwrap();
    assert_eq!(table.len(), 3);
    assert_eq!(
        table,
        vec![
            record(0, 65535, ObjType::F),
            record(17, 0, ObjType::N),
            record(100, 0, ObjType::N),
        ]
    );
}

#[test]
fn decoding_leaves_the_cursor_behind_the_last_record() {
    let mut bytes = TABLE.to_vec();
    bytes.extend_from_slice(b"trailer\n");
    let mut stream = ByteStream::new(bytes);
    parse_xref_table(&mut stream).unwrap();
    assert_eq!(stream.position(), TABLE.len() as u64);
    assert_eq!(stream.read_line(), b"trailer".to_vec());
}

#[test]
fn decoding_twice_gives_the_same_table() {
    let mut stream = ByteStream::new(TABLE.to_vec());
    let first = parse_xref_table(&mut stream);
    let end = stream.position();
    stream.seek_from_start(0);
    let second = parse_xref_table(&mut stream);
    assert_eq!(first, second);
    assert_eq!(stream.position(), end);
}

#[test]
fn records_as_a_pdf_writes_them() {
    let bytes = b"junk xref\r\n0 2\r\n0000000000 65535 f \r\n0000000009 00001 n \r\n";
    assert_eq!(
        decode(bytes, 5),
        Ok(vec![record(0, 65535, ObjType::F), record(9, 1, ObjType::N)])
    );
}

#[test]
fn lines_may_end_in_a_lone_carriage_return() {
    let bytes = b"xref\r7 1\r0000000042 00003 n\r";
    assert_eq!(decode(bytes, 0), Ok(vec![record(42, 3, ObjType::N)]));
}

#[test]
fn terminators_after_the_keyword_are_skipped() {
    let bytes = b"xref\n\r\n\n0 1\n5 6 f\n";
    assert_eq!(decode(bytes, 0), Ok(vec![record(5, 6, ObjType::F)]));
}

#[test]
fn empty_table() {
    assert_eq!(decode(b"xref\n0 0\n", 0), Ok(Vec::new()));
    assert_eq!(decode(b"xref\n0 0", 0), Ok(Vec::new()));
}

#[test]
fn missing_keyword_is_a_malformed_header() {
    for bytes in [&b""[..], b"xre", b"xrfe\n0 0\n", b"Xref\n0 0\n", b" xref\n0 0\n"] {
        let mut stream = ByteStream::new(bytes.to_vec());
        assert_eq!(parse_xref_table(&mut stream), Err(XrefError::MalformedHeader));
        assert_eq!(stream.position(), 0);
    }
    assert_eq!(decode(TABLE, 1), Err(XrefError::MalformedHeader));
    assert_eq!(decode(TABLE, TABLE.len() as u64), Err(XrefError::MalformedHeader));
    assert_eq!(decode(TABLE, u64::MAX), Err(XrefError::MalformedHeader));
}

#[test]
fn header_without_a_count_is_missing_count() {
    for bytes in [
        &b"xref"[..],
        b"xref\n",
        b"xref\n3\n",
        b"xref\n0 x\n",
        b"xref\n0 -1\n",
        b"xref\n0 18446744073709551616\n",
        b"xref\n\n   \n",
    ] {
        assert_eq!(decode(bytes, 0), Err(XrefError::MissingCount));
    }
}

#[test]
fn header_count_is_the_second_token() {
    assert_eq!(parse_header(b"0 3"), Some(3));
    assert_eq!(parse_header(b"  12\t 7  "), Some(7));
    assert_eq!(parse_header(b"first 2 more"), Some(2));
    assert_eq!(parse_header(b"0"), None);
    assert_eq!(parse_header(b""), None);
    assert_eq!(parse_header(b"0 three"), None);
}

#[test]
fn record_line_has_exactly_three_tokens() {
    assert_eq!(parse_record(b"0000000017 00000 n"), Some(record(17, 0, ObjType::N)));
    assert_eq!(parse_record(b"  1\t2  f \r"), Some(record(1, 2, ObjType::F)));
    assert_eq!(parse_record(b""), None);
    assert_eq!(parse_record(b"1 2"), None);
    assert_eq!(parse_record(b"1 2 f 3"), None);
    assert_eq!(parse_record(b"a 2 f"), None);
    assert_eq!(parse_record(b"1 b f"), None);
    assert_eq!(parse_record(b"1 2 x"), None);
    assert_eq!(parse_record(b"1 2 ff"), None);
    assert_eq!(parse_record(b"18446744073709551616 0 n"), None);
}

#[test]
fn fewer_lines_than_announced_is_a_malformed_record() {
    let bytes = b"xref\n0 5\n0000000000 65535 f\n0000000017 00000 n\n0000000100 00000 n\n";
    assert_eq!(decode(bytes, 0), Err(XrefError::MalformedRecord));
}

#[test]
fn bad_record_fails_the_whole_table() {
    let bytes = b"xref\n0 3\n0000000000 65535 f\n0000000017 00000 q\n0000000100 00000 n\n";
    let mut stream = ByteStream::new(bytes.to_vec());
    assert_eq!(parse_xref_table(&mut stream), Err(XrefError::MalformedRecord));
    assert_eq!(stream.position(), 47);
}

#[test]
fn huge_count_fails_at_the_end_of_the_stream() {
    let bytes = b"xref\n0 18446744073709551615\n1 2 n\n";
    assert_eq!(decode(bytes, 0), Err(XrefError::MalformedRecord));
}

fn pdf_with_table_at(offset_line: &[u8]) -> Vec<u8> {
    let mut bytes = b"%PDF-1.4\n".to_vec();
    bytes.extend_from_slice(TABLE);
    bytes.extend_from_slice(b"trailer\n<< /Size 3 >>\nstartxref\n");
    bytes.extend_from_slice(offset_line);
    bytes.extend_from_slice(b"\n%%EOF\n");
    bytes
}

#[test]
fn whole_file_gives_the_table() {
    let mut stream = ByteStream::new(pdf_with_table_at(b"9"));
    assert_eq!(
        read_xref_table(&mut stream),
        Ok(vec![
            record(0, 65535, ObjType::F),
            record(17, 0, ObjType::N),
            record(100, 0, ObjType::N),
        ])
    );
    assert_eq!(stream.position(), 9 + TABLE.len() as u64);
}

#[test]
fn whole_file_twice_gives_the_same_table() {
    let mut stream = ByteStream::new(pdf_with_table_at(b"9"));
    let first = read_xref_table(&mut stream);
    let second = read_xref_table(&mut stream);
    assert!(first.is_ok());
    assert_eq!(first, second);
}

#[test]
fn whole_file_failures() {
    let mut stream = ByteStream::new(Vec::new());
    assert_eq!(read_xref_table(&mut stream), Err(XrefError::IoFailure));

    let mut stream = ByteStream::new(b"no marker here\n".to_vec());
    assert_eq!(read_xref_table(&mut stream), Err(XrefError::MarkerNotFound));

    let mut stream = ByteStream::new(pdf_with_table_at(b"nine"));
    assert_eq!(read_xref_table(&mut stream), Err(XrefError::InvalidOffset));

    let mut stream = ByteStream::new(pdf_with_table_at(b"10"));
    assert_eq!(read_xref_table(&mut stream), Err(XrefError::MalformedHeader));

    let mut stream = ByteStream::new(pdf_with_table_at(b"100000"));
    assert_eq!(read_xref_table(&mut stream), Err(XrefError::MalformedHeader));

    let mut stream = ByteStream::new(b"xref\n\n7\n0\n%%EOF".to_vec());
    assert_eq!(read_xref_table(&mut stream), Err(XrefError::MissingCount));

    let mut stream = ByteStream::new(b"xref\n0 2\n1 2 n\n0\n%%EOF".to_vec());
    assert_eq!(read_xref_table(&mut stream), Err(XrefError::MalformedRecord));
}

#[test]
fn marker_deeper_than_sixteen_lines_is_not_found() {
    // The file ends in a terminator, so the first scan gives an empty line:
    // with 14 lines after it the marker is the sixteenth line.
    let mut bytes = pdf_with_table_at(b"9");
    for _ in 0..14 {
        bytes.extend_from_slice(b"pad\n");
    }
    let mut stream = ByteStream::new(bytes.clone());
    assert!(read_xref_table(&mut stream).is_ok());

    bytes.extend_from_slice(b"pad\n");
    let mut stream = ByteStream::new(bytes);
    assert_eq!(read_xref_table(&mut stream), Err(XrefError::MarkerNotFound));
}
