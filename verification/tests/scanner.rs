use pdf_xref::utils::{read_previous_line, scan_previous_line};
use pdf_xref::{ByteStream, XrefError};

fn stream_at_last_byte(bytes: &[u8]) -> ByteStream {
    let mut stream = ByteStream::new(bytes.to_vec());
    stream.seek_from_end(-1).unwrap();
    stream
}

#[test]
fn test_read_previous_line() {
    let mut reader = ByteStream::new(b"fuga\r\nfoo\nhoge".to_vec());
    reader.seek_from_end(-1).unwrap();

    let res = read_previous_line(&mut reader);
    assert!(res.is_ok(), "want Ok but got Err({:?})", res.err());
    assert_eq!(res.unwrap(), "hoge".to_string());

    let res = read_previous_line(&mut reader);
    assert!(res.is_ok(), "want Ok but got Err({:?})", res.err());
    assert_eq!(res.unwrap(), "foo".to_string());

    let res = read_previous_line(&mut reader);
    assert!(res.is_ok(), "want Ok but got Err({:?})", res.err());
    assert_eq!(res.unwrap(), "fuga".to_string());
}

#[test]
fn cursor_rests_on_last_byte_of_line_before() {
    let mut stream = stream_at_last_byte(b"fuga\r\nfoo\nhoge");
    assert_eq!(stream.position(), 13);
    scan_previous_line(&mut stream).unwrap();
    assert_eq!(stream.position(), 8);
    scan_previous_line(&mut stream).unwrap();
    assert_eq!(stream.position(), 3);
    scan_previous_line(&mut stream).unwrap();
    assert_eq!(stream.position(), 0);
}

#[test]
fn terminator_run_is_one_boundary() {
    let mut stream = stream_at_last_byte(b"a\r\n\n\r\rb");
    assert_eq!(scan_previous_line(&mut stream).unwrap(), b"b".to_vec());
    assert_eq!(stream.position(), 0);
    assert_eq!(scan_previous_line(&mut stream).unwrap(), b"a".to_vec());
}

#[test]
fn crlf_near_the_start_gives_no_empty_line() {
    let mut stream = stream_at_last_byte(b"a\r\nb");
    assert_eq!(read_previous_line(&mut stream).unwrap(), "b");
    assert_eq!(read_previous_line(&mut stream).unwrap(), "a");
}

#[test]
fn scan_from_a_terminator_gives_an_empty_line() {
    let mut stream = stream_at_last_byte(b"%%EOF\r\n");
    assert_eq!(scan_previous_line(&mut stream).unwrap(), Vec::<u8>::new());
    assert_eq!(stream.position(), 4);
    assert_eq!(scan_previous_line(&mut stream).unwrap(), b"%%EOF".to_vec());
}

#[test]
fn scan_from_the_middle_of_a_line_takes_its_head() {
    let mut stream = ByteStream::new(b"one\ntwo three".to_vec());
    stream.seek_from_start(6);
    assert_eq!(scan_previous_line(&mut stream).unwrap(), b"two".to_vec());
    assert_eq!(stream.position(), 2);
}

#[test]
fn first_line_of_the_stream_is_returned_whole() {
    let mut stream = stream_at_last_byte(b"only line");
    assert_eq!(read_previous_line(&mut stream).unwrap(), "only line");
    assert_eq!(stream.position(), 0);
}

#[test]
fn leading_terminators_leave_the_cursor_on_byte_zero() {
    let mut stream = stream_at_last_byte(b"\n\nx");
    assert_eq!(scan_previous_line(&mut stream).unwrap(), b"x".to_vec());
    assert_eq!(stream.position(), 0);
    assert_eq!(scan_previous_line(&mut stream).unwrap(), Vec::<u8>::new());
    assert_eq!(stream.position(), 0);
}

#[test]
fn trailing_whitespace_is_trimmed() {
    let mut stream = stream_at_last_byte(b"head\n  1234 \t \x0c");
    assert_eq!(scan_previous_line(&mut stream).unwrap(), b"  1234".to_vec());
}

#[test]
fn scan_of_an_empty_stream_fails() {
    let mut empty = ByteStream::new(Vec::new());
    assert_eq!(scan_previous_line(&mut empty), Err(XrefError::IoFailure));
    assert_eq!(read_previous_line(&mut empty), Err(XrefError::IoFailure));
    assert_eq!(empty.position(), 0);
}

#[test]
fn scan_from_the_end_starts_with_the_last_byte() {
    let mut stream = ByteStream::new(b"fuga\r\nfoo\nhoge".to_vec());
    stream.seek_from_end(0).unwrap();
    assert_eq!(read_previous_line(&mut stream).unwrap(), "hoge");
    assert_eq!(read_previous_line(&mut stream).unwrap(), "foo");
    assert_eq!(read_previous_line(&mut stream).unwrap(), "fuga");

    let mut stream = ByteStream::new(b"abc".to_vec());
    stream.seek_from_start(1000);
    assert_eq!(scan_previous_line(&mut stream).unwrap(), b"abc".to_vec());
    assert_eq!(stream.position(), 0);
}

#[test]
fn bytes_that_are_not_utf8_are_replaced() {
    let mut stream = stream_at_last_byte(b"ok\nab\xffcd");
    assert_eq!(read_previous_line(&mut stream).unwrap(), "ab\u{fffd}cd");
    assert_eq!(read_previous_line(&mut stream).unwrap(), "ok");
}

#[test]
fn valid_utf8_is_decoded() {
    let mut stream = stream_at_last_byte("x\n\u{e9}t\u{e9}".as_bytes());
    assert_eq!(read_previous_line(&mut stream).unwrap(), "\u{e9}t\u{e9}");
}

#[test]
fn raw_bytes_are_kept_by_the_byte_scan() {
    let mut stream = stream_at_last_byte(b"ok\nab\xffcd");
    assert_eq!(scan_previous_line(&mut stream).unwrap(), b"ab\xffcd".to_vec());
}
