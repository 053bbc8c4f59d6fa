//! The reverse line scanner: one line per call, walking from the cursor
//! toward the start of the stream.
//!
//! A line is a run of bytes that holds no line terminator. A scan takes the
//! run that ends with the byte under the cursor, steps over the terminators
//! before it, however many, and leaves the cursor on the last byte of the
//! line before. Line feeds and carriage returns in any mix are one boundary.
//! A cursor at or past the end of the stream has no byte under it; a scan
//! from there starts with the last byte of the stream.

use vstd::prelude::*;
use vstd::utf8::{decode_utf8, valid_utf8};
use crate::bytes::{byte_is_eol, is_eol, lossy_text, trim_end, trim_end_len, utf8_lossy};
use crate::error::XrefError;
use crate::stream::ByteStream;

verus! {

/// Where the run of bytes without a terminator that ends just before index
/// `end` begins.
pub open spec fn line_start(data: Seq<u8>, end: int) -> int
    decreases end,
{
    if 0 < end <= data.len() && !is_eol(data[end - 1]) {
        line_start(data, end - 1)
    } else {
        end
    }
}

/// Where the run of terminators that ends just before index `end` begins.
pub open spec fn content_end(data: Seq<u8>, end: int) -> int
    decreases end,
{
    if 0 < end <= data.len() && is_eol(data[end - 1]) {
        content_end(data, end - 1)
    } else {
        end
    }
}

/// The index behind the first byte that a scan from `cursor` reads: behind
/// the byte under the cursor, or the end of `data` if the cursor has none.
pub open spec fn scan_end(data: Seq<u8>, cursor: int) -> int {
    if cursor < data.len() {
        cursor + 1
    } else {
        data.len() as int
    }
}

/// The line that a scan from `cursor` finds: empty if the first byte read
/// is a terminator, else every byte from it back to the nearest terminator
/// or to the start of `data`.
pub open spec fn previous_line(data: Seq<u8>, cursor: int) -> Seq<u8> {
    data.subrange(line_start(data, scan_end(data, cursor)), scan_end(data, cursor))
}

/// Where a scan from `cursor` leaves the cursor: on the last byte before
/// the line that is not a terminator, or on byte 0 if there is none.
pub open spec fn previous_cursor(data: Seq<u8>, cursor: int) -> int {
    let stop = content_end(data, line_start(data, scan_end(data, cursor)));
    if stop > 0 {
        stop - 1
    } else {
        0
    }
}

/// Where the cursor stands after `n` backward scans that began at `cursor`.
pub open spec fn cursor_after(data: Seq<u8>, cursor: int, n: nat) -> int
    decreases n,
{
    if n == 0 {
        cursor
    } else {
        previous_cursor(data, cursor_after(data, cursor, (n - 1) as nat))
    }
}

/// `line_start` is an index from which no terminator stands before `end`,
/// and before which one does, unless it is the start of the data.
pub proof fn lemma_line_start(data: Seq<u8>, end: int)
    requires
        0 <= end <= data.len(),
    ensures
        0 <= line_start(data, end) <= end,
        forall|i: int| line_start(data, end) <= i < end ==> !is_eol(#[trigger] data[i]),
        line_start(data, end) > 0 ==> is_eol(data[line_start(data, end) - 1]),
    decreases end,
{
    if 0 < end && !is_eol(data[end - 1]) {
        lemma_line_start(data, end - 1);
    }
}

/// `line_start` is the only such index: the start of a line is told by no
/// terminator from it up to `end`, and a terminator just before it unless
/// the data starts there.
pub proof fn lemma_line_start_unique(data: Seq<u8>, end: int, start: int)
    requires
        0 <= start <= end <= data.len(),
        forall|i: int| start <= i < end ==> !is_eol(#[trigger] data[i]),
        start > 0 ==> is_eol(data[start - 1]),
    ensures
        line_start(data, end) == start,
    decreases end,
{
    if start < end {
        lemma_line_start_unique(data, end - 1, start);
    }
}

/// `content_end` is an index from which only terminators stand before
/// `end`, and before which the byte is none, unless it is the start of the
/// data.
pub proof fn lemma_content_end(data: Seq<u8>, end: int)
    requires
        0 <= end <= data.len(),
    ensures
        0 <= content_end(data, end) <= end,
        forall|i: int| content_end(data, end) <= i < end ==> is_eol(#[trigger] data[i]),
        content_end(data, end) > 0 ==> !is_eol(data[content_end(data, end) - 1]),
    decreases end,
{
    if 0 < end && is_eol(data[end - 1]) {
        lemma_content_end(data, end - 1);
    }
}

/// `content_end` is the only such index.
pub proof fn lemma_content_end_unique(data: Seq<u8>, end: int, stop: int)
    requires
        0 <= stop <= end <= data.len(),
        forall|i: int| stop <= i < end ==> is_eol(#[trigger] data[i]),
        stop > 0 ==> !is_eol(data[stop - 1]),
    ensures
        content_end(data, end) == stop,
    decreases end,
{
    if stop < end {
        lemma_content_end_unique(data, end - 1, stop);
    }
}

/// A scan never moves the cursor forward, and leaves it on a byte of the
/// stream.
pub proof fn lemma_previous_cursor_bounds(data: Seq<u8>, cursor: int)
    requires
        data.len() > 0,
        0 <= cursor,
    ensures
        0 <= previous_cursor(data, cursor) <= cursor,
        previous_cursor(data, cursor) < data.len(),
{
    let end = scan_end(data, cursor);
    lemma_line_start(data, end);
    lemma_content_end(data, line_start(data, end));
}

/// `n + 1` scans are one scan and then `n` more.
pub proof fn lemma_cursor_after_first_scan(data: Seq<u8>, cursor: int, n: nat)
    ensures
        cursor_after(data, cursor, n + 1) == cursor_after(data, previous_cursor(data, cursor), n),
    decreases n,
{
    if n > 0 {
        lemma_cursor_after_first_scan(data, cursor, (n - 1) as nat);
    } else {
        assert(cursor_after(data, cursor, 0) == cursor);
        assert(cursor_after(data, cursor, 1) == previous_cursor(data, cursor));
    }
}

/// However many scans are made, the cursor moves toward the start only,
/// and from the first scan on it stands on a byte of the stream.
pub proof fn lemma_cursor_stays_inside(data: Seq<u8>, cursor: int, n: nat)
    requires
        data.len() > 0,
        0 <= cursor,
    ensures
        0 <= cursor_after(data, cursor, n) <= cursor,
        n > 0 ==> cursor_after(data, cursor, n) < data.len(),
    decreases n,
{
    if n > 0 {
        lemma_cursor_stays_inside(data, cursor, (n - 1) as nat);
        lemma_previous_cursor_bounds(data, cursor_after(data, cursor, (n - 1) as nat));
    }
}

/// Scans one line backward from the cursor and returns its bytes without
/// trailing whitespace.
///
/// Fails with `IoFailure`, moving nothing, exactly when the stream is
/// empty: there is no byte to read, and none to step back to.
pub fn scan_previous_line(stream: &mut ByteStream) -> (r: Result<Vec<u8>, XrefError>)
    ensures
        final(stream)@.data == old(stream)@.data,
        match r {
            Ok(line) => {
                &&& old(stream)@.data.len() > 0
                &&& line@ == trim_end(
                    previous_line(old(stream)@.data, old(stream)@.cursor as int),
                )
                &&& final(stream)@.cursor == previous_cursor(
                    old(stream)@.data,
                    old(stream)@.cursor as int,
                )
            },
            Err(e) => {
                &&& e == XrefError::IoFailure
                &&& old(stream)@.data.len() == 0
                &&& final(stream)@.cursor == old(stream)@.cursor
            },
        },
{
    let len: usize = stream.len();
    if len == 0 {
        return Err(XrefError::IoFailure);
    }
    let pos: u64 = stream.position();
    let ghost data = stream@.data;
    let end: usize = if pos < len as u64 {
        pos as usize + 1
    } else {
        len
    };
    let mut start: usize = end;
    while start > 0 && !eol_at(stream, start - 1)
        invariant
            stream@.data == data,
            start <= end <= data.len(),
            line_start(data, end as int) == line_start(data, start as int),
        decreases start,
    {
        start = start - 1;
    }
    let mut raw: Vec<u8> = Vec::new();
    let mut i: usize = start;
    assert(raw@ =~= data.subrange(start as int, i as int));
    while i < end
        invariant
            stream@.data == data,
            start <= i <= end <= data.len(),
            raw@ == data.subrange(start as int, i as int),
        decreases end - i,
    {
        match stream.get(i as u64) {
            Some(b) => raw.push(b),
            None => {},
        }
        assert(raw@ =~= data.subrange(start as int, i as int + 1));
        i = i + 1;
    }
    assert(raw@ == previous_line(data, pos as int));
    let keep: usize = trim_end_len(raw.as_slice());
    raw.truncate(keep);
    assert(raw@ == trim_end(previous_line(data, pos as int)));
    let mut rest: usize = start;
    while rest > 0 && eol_at(stream, rest - 1)
        invariant
            stream@.data == data,
            rest <= start <= data.len(),
            raw@ == trim_end(previous_line(data, pos as int)),
            content_end(data, start as int) == content_end(data, rest as int),
        decreases rest,
    {
        rest = rest - 1;
    }
    if rest > 0 {
        stream.seek_from_start((rest - 1) as u64);
    } else {
        stream.seek_from_start(0);
    }
    Ok(raw)
}

/// Whether the byte at `index` is a line terminator.
fn eol_at(stream: &ByteStream, index: usize) -> (r: bool)
    requires
        index < stream@.data.len(),
    ensures
        r == is_eol(stream@.data[index as int]),
{
    match stream.get(index as u64) {
        Some(b) => byte_is_eol(b),
        None => false,
    }
}

/// Scans one line backward from the cursor and returns it as text, without
/// trailing whitespace. A line that is UTF-8 comes back as the text that it
/// encodes. Bytes that are not UTF-8 do not fail the scan: the text holds a
/// replacement character in their place.
///
/// Fails with `IoFailure`, moving nothing, exactly when the stream is empty.
pub fn read_previous_line(stream: &mut ByteStream) -> (r: Result<String, XrefError>)
    ensures
        final(stream)@.data == old(stream)@.data,
        match r {
            Ok(text) => {
                let line = trim_end(previous_line(old(stream)@.data, old(stream)@.cursor as int));
                &&& old(stream)@.data.len() > 0
                &&& text@ == utf8_lossy(line)
                &&& valid_utf8(line) ==> text@ == decode_utf8(line)
                &&& final(stream)@.cursor == previous_cursor(
                    old(stream)@.data,
                    old(stream)@.cursor as int,
                )
            },
            Err(e) => {
                &&& e == XrefError::IoFailure
                &&& old(stream)@.data.len() == 0
                &&& final(stream)@.cursor == old(stream)@.cursor
            },
        },
{
    match scan_previous_line(stream) {
        Ok(line) => Ok(lossy_text(line.as_slice())),
        Err(e) => Err(e),
    }
}

} // verus!
