use pdf_xref::{ByteStream, XrefError};

#[test]
fn new_stream_starts_at_byte_zero() {
    let stream = ByteStream::new(b"abc".to_vec());
    assert_eq!(stream.len(), 3);
    assert_eq!(stream.position(), 0);
    assert_eq!(stream.get(0), Some(b'a'));
    assert_eq!(stream.get(2), Some(b'c'));
    assert_eq!(stream.get(3), None);
    assert_eq!(stream.get(u64::MAX), None);
}

#[test]
fn seek_from_start_takes_any_offset() {
    let mut stream = ByteStream::new(b"abc".to_vec());
    stream.seek_from_start(2);
    assert_eq!(stream.position(), 2);
    stream.seek_from_start(1000);
    assert_eq!(stream.position(), 1000);
}

#[test]
fn seek_from_end_counts_from_the_length() {
    let mut stream = ByteStream::new(b"abcde".to_vec());
    assert_eq!(stream.seek_from_end(-1), Ok(4));
    assert_eq!(stream.position(), 4);
    assert_eq!(stream.seek_from_end(0), Ok(5));
    assert_eq!(stream.seek_from_end(-5), Ok(0));
    assert_eq!(stream.seek_from_end(3), Ok(8));
    assert_eq!(stream.position(), 8);
}

#[test]
fn seek_before_byte_zero_fails_and_moves_nothing() {
    let mut stream = ByteStream::new(b"abcde".to_vec());
    stream.seek_from_start(2);
    assert_eq!(stream.seek_from_end(-6), Err(XrefError::IoFailure));
    assert_eq!(stream.position(), 2);
    assert_eq!(stream.seek_from_end(i64::MIN), Err(XrefError::IoFailure));
    assert_eq!(stream.position(), 2);

    let mut empty = ByteStream::new(Vec::new());
    assert_eq!(empty.seek_from_end(-1), Err(XrefError::IoFailure));
    assert_eq!(empty.seek_from_end(0), Ok(0));
}

#[test]
fn read_line_takes_each_kind_of_terminator() {
    let mut stream = ByteStream::new(b"one\ntwo\r\nthree\rfour".to_vec());
    assert_eq!(stream.read_line(), b"one".to_vec());
    assert_eq!(stream.position(), 4);
    assert_eq!(stream.read_line(), b"two".to_vec());
    assert_eq!(stream.position(), 9);
    assert_eq!(stream.read_line(), b"three".to_vec());
    assert_eq!(stream.position(), 15);
    assert_eq!(stream.read_line(), b"four".to_vec());
    assert_eq!(stream.position(), 19);
    assert_eq!(stream.read_line(), Vec::<u8>::new());
    assert_eq!(stream.position(), 19);
}

#[test]
fn read_line_gives_empty_lines() {
    let mut stream = ByteStream::new(b"\n\n\r\r\nx".to_vec());
    assert_eq!(stream.read_line(), Vec::<u8>::new());
    assert_eq!(stream.position(), 1);
    assert_eq!(stream.read_line(), Vec::<u8>::new());
    assert_eq!(stream.position(), 2);
    assert_eq!(stream.read_line(), Vec::<u8>::new());
    assert_eq!(stream.position(), 3);
    assert_eq!(stream.read_line(), Vec::<u8>::new());
    assert_eq!(stream.position(), 5);
    assert_eq!(stream.read_line(), b"x".to_vec());
}

#[test]
fn read_line_past_the_end_moves_nothing() {
    let mut stream = ByteStream::new(b"abc".to_vec());
    stream.seek_from_start(10);
    assert_eq!(stream.read_line(), Vec::<u8>::new());
    assert_eq!(stream.position(), 10);
}
