//! Finding and decoding the cross-reference table.
//!
//! The table is found from the end of the file: [`check_eof_with_limit`]
//! looks for the last `%%EOF` line, [`parse_xref_table_pos`] reads the line
//! before it as the table's byte offset, and [`parse_xref_table`] decodes the
//! table at that offset. [`read_xref_table`] does the three in turn.

use vstd::prelude::*;
use vstd::string::StringSliceAdditionalSpecFns;
use vstd::utf8::{
    encode_utf8, encode_utf8_decode_utf8, is_ascii_chars, is_ascii_chars_encode_utf8,
};
use crate::bytes::{
    has_prefix, is_eol, parse_decimal, parse_u64, split_tokens, starts_with, tokens, trim_end,
    views,
};
use crate::error::XrefError;
use crate::stream::{line_at, next_line_start, ByteStream};
use crate::utils::{cursor_after, previous_cursor, previous_line, scan_previous_line};

verus! {

/// How many lines [`read_xref_table`] scans from the end for the `%%EOF` marker.
pub const EOF_SCAN_LIMIT: usize = 16;

/// Whether a cross-reference entry is free (`f`) or in use (`n`).
#[derive(Clone, Copy, Debug, PartialEq, Eq)]
pub enum ObjType {
    /// The object is free.
    F,
    /// The object is in use.
    N,
}

/// One entry of a cross-reference table.
#[derive(Clone, Copy, Debug, PartialEq, Eq)]
pub struct XrefRecord {
    /// Where the object starts in the file; for a free entry, the number of
    /// the next free object.
    pub byte_offset: u64,
    /// The object's generation number.
    pub generation: u64,
    /// Free or in use.
    pub obj_type: ObjType,
}

/// The type that a token of a record names: `f` or `n`, and nothing else.
pub open spec fn obj_type_of(token: Seq<u8>) -> Option<ObjType> {
    if token == seq![102u8] {
        Some(ObjType::F)
    } else if token == seq![110u8] {
        Some(ObjType::N)
    } else {
        None
    }
}

/// The UTF-8 encoding of `text` is the single byte `b` exactly when `text`
/// is the single character with that code.
proof fn lemma_single_ascii(text: Seq<char>, c: char, b: u8)
    requires
        c as u32 == b as u32,
        b < 128,
    ensures
        encode_utf8(text) == seq![b] <==> text == seq![c],
{
    let one = seq![c];
    assert(is_ascii_chars(one));
    is_ascii_chars_encode_utf8(one);
    assert(encode_utf8(one) =~= seq![b]);
    encode_utf8_decode_utf8(one);
    encode_utf8_decode_utf8(text);
}

impl ObjType {
    /// The type that `text` names: `Ok` for `"f"` and `"n"`, `Err` for
    /// every other text.
    pub open spec fn of_text(text: Seq<char>) -> Result<ObjType, ()> {
        if text == seq!['f'] {
            Ok(ObjType::F)
        } else if text == seq!['n'] {
            Ok(ObjType::N)
        } else {
            Err(())
        }
    }

    /// Decodes the type token of a record.
    pub fn new(str: &str) -> (r: Result<Self, ()>)
        ensures
            r == Self::of_text(str@),
    {
        let bytes = str.as_bytes();
        proof {
            lemma_single_ascii(str@, 'f', 102u8);
            lemma_single_ascii(str@, 'n', 110u8);
        }
        match Self::from_token(bytes) {
            Some(t) => Ok(t),
            None => Err(()),
        }
    }

    /// Decodes the type token of a record from its bytes.
    pub fn from_token(token: &[u8]) -> (r: Option<Self>)
        ensures
            r == obj_type_of(token@),
    {
        if token.len() != 1 {
            return None;
        }
        let b: u8 = token[0];
        if b == 102 {
            assert(token@ =~= seq![102u8]);
            Some(ObjType::F)
        } else if b == 110 {
            assert(token@ =~= seq![110u8]);
            Some(ObjType::N)
        } else {
            None
        }
    }
}

/// The bytes `%%EOF`.
pub open spec fn eof_marker() -> Seq<u8> {
    seq![37u8, 37u8, 69u8, 79u8, 70u8]
}

/// Whether line number `depth`, counted backward from the line that ends at
/// `cursor` as number 0, starts with `%%EOF`.
pub open spec fn marker_at_depth(data: Seq<u8>, cursor: int, depth: nat) -> bool {
    has_prefix(trim_end(previous_line(data, cursor_after(data, cursor, depth))), eof_marker())
}

/// Whether line number `depth` is the nearest to `cursor` that starts with
/// `%%EOF`.
pub open spec fn first_marker_at(data: Seq<u8>, cursor: int, depth: nat) -> bool {
    &&& marker_at_depth(data, cursor, depth)
    &&& forall|j: nat| j < depth ==> !marker_at_depth(data, cursor, j)
}

/// Whether none of the `limit` lines scanned backward from the last byte
/// of `data` starts with `%%EOF`.
pub open spec fn eof_missing(data: Seq<u8>, limit: nat) -> bool {
    let last = data.len() - 1;
    forall|k: nat| k < limit ==> !marker_at_depth(data, last, k)
}

/// Whether `end` is where the cursor stands once the nearest `%%EOF` line
/// to the end of `data`, one of the last `limit` lines, has been scanned.
pub open spec fn eof_located(data: Seq<u8>, limit: nat, end: int) -> bool {
    let last = data.len() - 1;
    exists|k: nat|
        {
            &&& k < limit
            &&& #[trigger] first_marker_at(data, last, k)
            &&& end == cursor_after(data, last, k + 1)
        }
}

/// Looks for the `%%EOF` marker, scanning backward from the last byte of
/// the stream over at most `limit` lines.
///
/// Succeeds at the first line that starts with `%%EOF`, with the cursor
/// where that scan left it, so that the next backward scan yields the line
/// before the marker. Fails with `MarkerNotFound` after exactly `limit`
/// lines without one, and with `IoFailure` on an empty stream, which has no
/// last byte to start from.
pub fn check_eof_with_limit(stream: &mut ByteStream, limit: usize) -> (r: Result<(), XrefError>)
    ensures
        final(stream)@.data == old(stream)@.data,
        old(stream)@.data.len() == 0 ==> {
            &&& r == Err::<(), XrefError>(XrefError::IoFailure)
            &&& final(stream)@.cursor == old(stream)@.cursor
        },
        old(stream)@.data.len() > 0 && eof_missing(old(stream)@.data, limit as nat) ==> {
            &&& r == Err::<(), XrefError>(XrefError::MarkerNotFound)
            &&& final(stream)@.cursor == cursor_after(
                old(stream)@.data,
                old(stream)@.data.len() - 1,
                limit as nat,
            )
        },
        old(stream)@.data.len() > 0 && !eof_missing(old(stream)@.data, limit as nat) ==> {
            &&& r == Ok::<(), XrefError>(())
            &&& eof_located(old(stream)@.data, limit as nat, final(stream)@.cursor as int)
        },
{
    proof {
        stream.lemma_len_fits();
    }
    match stream.seek_from_end(-1) {
        Ok(_) => {},
        Err(_) => {
            return Err(XrefError::IoFailure);
        },
    }
    let ghost data = stream@.data;
    let ghost last = data.len() - 1;
    let mut n: usize = 0;
    while n < limit
        invariant
            n <= limit,
            stream@.data == data,
            data == old(stream)@.data,
            data.len() > 0,
            last == data.len() - 1,
            stream@.cursor == cursor_after(data, last, n as nat),
            forall|j: nat| j < n ==> !marker_at_depth(data, last, j),
        decreases limit - n,
    {
        match scan_previous_line(stream) {
            Ok(line) => {
                if starts_with(line.as_slice(), &[37u8, 37u8, 69u8, 79u8, 70u8]) {
                    proof {
                        assert(first_marker_at(data, last, n as nat));
                        assert(!eof_missing(data, limit as nat));
                        assert(eof_located(data, limit as nat, stream@.cursor as int));
                    }
                    return Ok(());
                }
                assert(!marker_at_depth(data, last, n as nat));
            },
            Err(e) => {
                return Err(e);
            },
        }
        n = n + 1;
    }
    Err(XrefError::MarkerNotFound)
}

/// Reads the line before the cursor as the byte offset of the table.
///
/// The line, without trailing whitespace, has to be an unsigned decimal
/// number that fits `u64`; else the result is `InvalidOffset`. Whether the
/// line before it is `startxref` is not looked at. Fails with `IoFailure`,
/// moving nothing, exactly when the stream is empty.
pub fn parse_xref_table_pos(stream: &mut ByteStream) -> (r: Result<u64, XrefError>)
    ensures
        final(stream)@.data == old(stream)@.data,
        old(stream)@.data.len() == 0 ==> {
            &&& r == Err::<u64, XrefError>(XrefError::IoFailure)
            &&& final(stream)@.cursor == old(stream)@.cursor
        },
        old(stream)@.data.len() > 0 ==> {
            &&& r == offset_of_line(
                trim_end(previous_line(old(stream)@.data, old(stream)@.cursor as int)),
            )
            &&& final(stream)@.cursor == previous_cursor(
                old(stream)@.data,
                old(stream)@.cursor as int,
            )
        },
{
    match scan_previous_line(stream) {
        Ok(line) => match parse_u64(line.as_slice()) {
            Some(n) => Ok(n),
            None => Err(XrefError::InvalidOffset),
        },
        Err(e) => Err(e),
    }
}

/// The offset that a line states: its decimal value, or `InvalidOffset`
/// where it is no decimal number that fits `u64`.
pub open spec fn offset_of_line(line: Seq<u8>) -> Result<u64, XrefError> {
    match parse_decimal(line) {
        Some(n) => Ok(n),
        None => Err(XrefError::InvalidOffset),
    }
}

/// The bytes `xref`.
pub open spec fn xref_keyword() -> Seq<u8> {
    seq![120u8, 114u8, 101u8, 102u8]
}

/// Whether the four bytes of `data` from index `start` on are `xref`.
pub open spec fn keyword_at(data: Seq<u8>, start: int) -> bool {
    0 <= start && start + 4 <= data.len() && data.subrange(start, start + 4) == xref_keyword()
}

/// The index of the first byte at or after `start` that is no line
/// terminator, or the end of `data`.
pub open spec fn skip_eol(data: Seq<u8>, start: int) -> int
    decreases data.len() - start,
{
    if 0 <= start < data.len() && is_eol(data[start]) {
        skip_eol(data, start + 1)
    } else {
        start
    }
}

/// The number of records that a subsection header announces: its second
/// token as a decimal number. The first token, the number of the first
/// object, and any token after the second are not looked at.
pub open spec fn header_count(line: Seq<u8>) -> Option<u64> {
    let t = tokens(line);
    if t.len() >= 2 {
        parse_decimal(t[1])
    } else {
        None
    }
}

/// The record that a line states: exactly three tokens, a decimal offset,
/// a decimal generation and `f` or `n`.
pub open spec fn record_of(line: Seq<u8>) -> Option<XrefRecord> {
    let t = tokens(line);
    if t.len() == 3 && parse_decimal(t[0]) is Some && parse_decimal(t[1]) is Some && obj_type_of(
        t[2],
    ) is Some {
        Some(
            XrefRecord {
                byte_offset: parse_decimal(t[0])->0,
                generation: parse_decimal(t[1])->0,
                obj_type: obj_type_of(t[2])->0,
            },
        )
    } else {
        None
    }
}

/// Where line number `n` begins, counted forward from the line at `start`
/// as number 0.
pub open spec fn nth_line_start(data: Seq<u8>, start: int, n: nat) -> int
    decreases n,
{
    if n == 0 {
        start
    } else {
        next_line_start(data, nth_line_start(data, start, (n - 1) as nat))
    }
}

/// The record on line number `i` counted from the line at `first`.
pub open spec fn record_at(data: Seq<u8>, first: int, i: nat) -> Option<XrefRecord> {
    record_of(line_at(data, nth_line_start(data, first, i)))
}

/// What decoding `count` records from the line at `first` on gives: the
/// table `r` of all of them with the cursor `end` behind the last, or
/// `MalformedRecord` with the cursor behind the first line that is no record.
pub open spec fn records_at(
    data: Seq<u8>,
    first: int,
    count: nat,
    r: Result<Seq<XrefRecord>, XrefError>,
    end: int,
) -> bool {
    match r {
        Ok(table) => {
            &&& table.len() == count
            &&& forall|i: nat| i < count ==> record_at(data, first, i) == Some(table[i as int])
            &&& end == nth_line_start(data, first, count)
        },
        Err(e) => {
            &&& e == XrefError::MalformedRecord
            &&& exists|k: nat|
                {
                    &&& k < count
                    &&& #[trigger] record_at(data, first, k) is None
                    &&& forall|i: nat| i < k ==> record_at(data, first, i) is Some
                    &&& end == nth_line_start(data, first, k + 1)
                }
        },
    }
}

/// What decoding the table at index `start` of `data` gives: the result
/// `r`, and the cursor `end` that the decoding leaves.
pub open spec fn table_at(
    data: Seq<u8>,
    start: int,
    r: Result<Seq<XrefRecord>, XrefError>,
    end: int,
) -> bool {
    if !keyword_at(data, start) {
        r == Err::<Seq<XrefRecord>, XrefError>(XrefError::MalformedHeader) && end == start
    } else {
        let header = skip_eol(data, start + 4);
        let first = next_line_start(data, header);
        match header_count(line_at(data, header)) {
            None => r == Err::<Seq<XrefRecord>, XrefError>(XrefError::MissingCount) && end
                == first,
            Some(count) => records_at(data, first, count as nat, r, end),
        }
    }
}

/// A decoding result with the table as a sequence.
pub open spec fn table_view(r: Result<Vec<XrefRecord>, XrefError>) -> Result<
    Seq<XrefRecord>,
    XrefError,
> {
    match r {
        Ok(table) => Ok(table@),
        Err(e) => Err(e),
    }
}

/// Decodes one record line.
pub fn parse_record(line: &[u8]) -> (r: Option<XrefRecord>)
    ensures
        r == record_of(line@),
{
    let t = split_tokens(line);
    if t.len() != 3 {
        return None;
    }
    assert(views(t@)[0] == t@[0]@ && views(t@)[1] == t@[1]@ && views(t@)[2] == t@[2]@);
    let byte_offset: u64 = match parse_u64(t[0].as_slice()) {
        Some(n) => n,
        None => {
            return None;
        },
    };
    let generation: u64 = match parse_u64(t[1].as_slice()) {
        Some(n) => n,
        None => {
            return None;
        },
    };
    match ObjType::from_token(t[2].as_slice()) {
        Some(obj_type) => Some(XrefRecord { byte_offset, generation, obj_type }),
        None => None,
    }
}

/// Decodes a subsection header line into the number of records it announces.
pub fn parse_header(line: &[u8]) -> (r: Option<u64>)
    ensures
        r == header_count(line@),
{
    let t = split_tokens(line);
    if t.len() < 2 {
        return None;
    }
    assert(views(t@)[1] == t@[1]@);
    parse_u64(t[1].as_slice())
}

/// Decodes the cross-reference table that starts at the cursor.
///
/// The bytes at the cursor have to be `xref`, else the result is
/// `MalformedHeader` and the cursor stays. Line terminators after the
/// keyword are skipped, and the line that follows is the subsection
/// header: its second token is the number of records, else the result is
/// `MissingCount`. Then that many lines follow, each one record, else the
/// result is `MalformedRecord`. A table is returned only whole: it has
/// exactly as many records as the header announces, in the order of the
/// lines.
pub fn parse_xref_table(stream: &mut ByteStream) -> (r: Result<Vec<XrefRecord>, XrefError>)
    ensures
        final(stream)@.data == old(stream)@.data,
        table_at(
            old(stream)@.data,
            old(stream)@.cursor as int,
            table_view(r),
            final(stream)@.cursor as int,
        ),
{
    let ghost data = stream@.data;
    let start: u64 = stream.position();
    let len: u64 = stream.len() as u64;
    if len < 4 || start > len - 4 {
        return Err(XrefError::MalformedHeader);
    }
    // The keyword, byte by byte: x, r, e, f.
    if !(byte_is(stream, start, 120) && byte_is(stream, start + 1, 114) && byte_is(
        stream,
        start + 2,
        101,
    ) && byte_is(stream, start + 3, 102)) {
        assert(data.subrange(start as int, start + 4)[0] == data[start as int]);
        assert(data.subrange(start as int, start + 4)[1] == data[start + 1]);
        assert(data.subrange(start as int, start + 4)[2] == data[start + 2]);
        assert(data.subrange(start as int, start + 4)[3] == data[start + 3]);
        return Err(XrefError::MalformedHeader);
    }
    assert(data.subrange(start as int, start + 4) =~= xref_keyword());
    // Line feeds and carriage returns behind the keyword.
    let mut header: u64 = start + 4;
    while header < len && (byte_is(stream, header, 10) || byte_is(stream, header, 13))
        invariant
            stream@ == old(stream)@,
            data == stream@.data,
            len == data.len(),
            start + 4 <= header <= len,
            skip_eol(data, start + 4) == skip_eol(data, header as int),
        decreases len - header,
    {
        header = header + 1;
    }
    stream.seek_from_start(header);
    let header_line = stream.read_line();
    let ghost first = next_line_start(data, header as int);
    let count: u64 = match parse_header(header_line.as_slice()) {
        Some(n) => n,
        None => {
            return Err(XrefError::MissingCount);
        },
    };
    let mut table: Vec<XrefRecord> = Vec::new();
    let mut i: u64 = 0;
    while i < count
        invariant
            i <= count,
            stream@.data == data,
            data == old(stream)@.data,
            start == old(stream)@.cursor,
            keyword_at(data, start as int),
            header == skip_eol(data, start + 4),
            first == next_line_start(data, header as int),
            header_count(line_at(data, header as int)) == Some(count),
            table@.len() == i,
            stream@.cursor == nth_line_start(data, first, i as nat),
            forall|j: nat| j < i ==> record_at(data, first, j) == Some(table@[j as int]),
        decreases count - i,
    {
        let line = stream.read_line();
        match parse_record(line.as_slice()) {
            Some(record) => {
                table.push(record);
            },
            None => {
                assert(record_at(data, first, i as nat) is None);
                return Err(XrefError::MalformedRecord);
            },
        }
        i = i + 1;
    }
    Ok(table)
}

/// Whether the stream has the byte `b` at `index`.
fn byte_is(stream: &ByteStream, index: u64, b: u8) -> (r: bool)
    ensures
        r == (index < stream@.data.len() && stream@.data[index as int] == b),
{
    match stream.get(index) {
        Some(found) => found == b,
        None => false,
    }
}

/// What recovering the table of `data` gives, for a stream whose cursor
/// stood at `start`: the result `r` and the cursor `end` that is left.
///
/// An empty stream fails with `IoFailure` and nothing moves. Else the
/// marker is looked for in the last [`EOF_SCAN_LIMIT`] lines; without it the
/// result is `MarkerNotFound`. Else the line before the marker has to state
/// the table's offset, and the table is decoded there.
pub open spec fn recovers(
    data: Seq<u8>,
    start: int,
    r: Result<Seq<XrefRecord>, XrefError>,
    end: int,
) -> bool {
    if data.len() == 0 {
        r == Err::<Seq<XrefRecord>, XrefError>(XrefError::IoFailure) && end == start
    } else if eof_missing(data, EOF_SCAN_LIMIT as nat) {
        &&& r == Err::<Seq<XrefRecord>, XrefError>(XrefError::MarkerNotFound)
        &&& end == cursor_after(data, data.len() - 1, EOF_SCAN_LIMIT as nat)
    } else {
        exists|at: int| #[trigger]
            eof_located(data, EOF_SCAN_LIMIT as nat, at) && table_from_offset_line(
                data,
                at,
                r,
                end,
            )
    }
}

/// What reading the offset line that ends at `cursor` and decoding the
/// table at that offset gives.
pub open spec fn table_from_offset_line(
    data: Seq<u8>,
    cursor: int,
    r: Result<Seq<XrefRecord>, XrefError>,
    end: int,
) -> bool {
    match parse_decimal(trim_end(previous_line(data, cursor))) {
        None => {
            &&& r == Err::<Seq<XrefRecord>, XrefError>(XrefError::InvalidOffset)
            &&& end == previous_cursor(data, cursor)
        },
        Some(offset) => table_at(data, offset as int, r, end),
    }
}

/// Recovers the cross-reference table of a PDF file held in `stream`.
///
/// Wherever the cursor stands, the search starts from the last byte.
pub fn read_xref_table(stream: &mut ByteStream) -> (r: Result<Vec<XrefRecord>, XrefError>)
    ensures
        final(stream)@.data == old(stream)@.data,
        recovers(
            old(stream)@.data,
            old(stream)@.cursor as int,
            table_view(r),
            final(stream)@.cursor as int,
        ),
{
    match check_eof_with_limit(stream, EOF_SCAN_LIMIT) {
        Ok(()) => {},
        Err(e) => {
            return Err(e);
        },
    }
    let ghost data = stream@.data;
    let ghost at = stream@.cursor as int;
    let xref_byte: u64 = match parse_xref_table_pos(stream) {
        Ok(n) => n,
        Err(e) => {
            return Err(e);
        },
    };
    stream.seek_from_start(xref_byte);
    parse_xref_table(stream)
}

/// The marker search has one outcome: the cursor that it leaves is told
/// by the bytes and the limit.
pub proof fn lemma_eof_located_unique(data: Seq<u8>, limit: nat, end1: int, end2: int)
    requires
        eof_located(data, limit, end1),
        eof_located(data, limit, end2),
    ensures
        end1 == end2,
        !eof_missing(data, limit),
{
    let last = data.len() - 1;
    let k1 = choose|k: nat|
        k < limit && #[trigger] first_marker_at(data, last, k) && end1 == cursor_after(
            data,
            last,
            k + 1,
        );
    let k2 = choose|k: nat|
        k < limit && #[trigger] first_marker_at(data, last, k) && end2 == cursor_after(
            data,
            last,
            k + 1,
        );
    assert(k1 == k2);
}

/// A table is never shorter than its header announces: if the stream ends
/// before line `k` of the `count` records, no table is returned.
pub proof fn lemma_table_needs_all_its_lines(
    data: Seq<u8>,
    first: int,
    count: nat,
    k: nat,
    table: Seq<XrefRecord>,
    end: int,
)
    requires
        k < count,
        nth_line_start(data, first, k) >= data.len(),
    ensures
        record_at(data, first, k) is None,
        !records_at(data, first, count, Ok(table), end),
{
    assert(line_at(data, nth_line_start(data, first, k)) =~= Seq::<u8>::empty());
    assert(tokens(Seq::<u8>::empty()) =~= Seq::<Seq<u8>>::empty());
}

/// Decoding the records is a function of the bytes, the first line and the
/// count: two outcomes that the contract allows are the same outcome.
pub proof fn lemma_records_at_unique(
    data: Seq<u8>,
    first: int,
    count: nat,
    r1: Result<Seq<XrefRecord>, XrefError>,
    end1: int,
    r2: Result<Seq<XrefRecord>, XrefError>,
    end2: int,
)
    requires
        records_at(data, first, count, r1, end1),
        records_at(data, first, count, r2, end2),
    ensures
        r1 == r2,
        end1 == end2,
{
    match (r1, r2) {
        (Ok(t1), Ok(t2)) => {
            assert forall|i: int| 0 <= i < count implies t1[i] == t2[i] by {
                assert(record_at(data, first, i as nat) == Some(t1[i]));
                assert(record_at(data, first, i as nat) == Some(t2[i]));
            }
            assert(t1 =~= t2);
        },
        (Err(_), Err(_)) => {
            let k1 = choose|k: nat|
                {
                    &&& k < count
                    &&& #[trigger] record_at(data, first, k) is None
                    &&& forall|i: nat| i < k ==> record_at(data, first, i) is Some
                    &&& end1 == nth_line_start(data, first, k + 1)
                };
            let k2 = choose|k: nat|
                {
                    &&& k < count
                    &&& #[trigger] record_at(data, first, k) is None
                    &&& forall|i: nat| i < k ==> record_at(data, first, i) is Some
                    &&& end2 == nth_line_start(data, first, k + 1)
                };
            assert(k1 == k2);
        },
        (Ok(t), Err(_)) => {
            let k = choose|k: nat| k < count && #[trigger] record_at(data, first, k) is None;
            assert(record_at(data, first, k) == Some(t[k as int]));
        },
        (Err(_), Ok(t)) => {
            let k = choose|k: nat| k < count && #[trigger] record_at(data, first, k) is None;
            assert(record_at(data, first, k) == Some(t[k as int]));
        },
    }
}

/// Decoding a table is a function of the bytes and the cursor: decoding
/// the same bytes from the same cursor a second time gives the same table,
/// or the same error, and leaves the cursor in the same place.
pub proof fn lemma_table_at_unique(
    data: Seq<u8>,
    start: int,
    r1: Result<Seq<XrefRecord>, XrefError>,
    end1: int,
    r2: Result<Seq<XrefRecord>, XrefError>,
    end2: int,
)
    requires
        table_at(data, start, r1, end1),
        table_at(data, start, r2, end2),
    ensures
        r1 == r2,
        end1 == end2,
{
    if keyword_at(data, start) {
        let header = skip_eol(data, start + 4);
        let first = next_line_start(data, header);
        match header_count(line_at(data, header)) {
            None => {},
            Some(count) => {
                lemma_records_at_unique(data, first, count as nat, r1, end1, r2, end2);
            },
        }
    }
}

/// Recovering the table of a file is a function of its bytes: a second
/// run on the same bytes gives the same table, or the same error, and
/// leaves the cursor in the same place.
pub proof fn lemma_recovers_unique(
    data: Seq<u8>,
    start: int,
    r1: Result<Seq<XrefRecord>, XrefError>,
    end1: int,
    r2: Result<Seq<XrefRecord>, XrefError>,
    end2: int,
)
    requires
        recovers(data, start, r1, end1),
        recovers(data, start, r2, end2),
    ensures
        r1 == r2,
        end1 == end2,
{
    let limit = EOF_SCAN_LIMIT as nat;
    if data.len() > 0 && !eof_missing(data, limit) {
        let at1 = choose|at: int| #[trigger]
            eof_located(data, limit, at) && table_from_offset_line(data, at, r1, end1);
        let at2 = choose|at: int| #[trigger]
            eof_located(data, limit, at) && table_from_offset_line(data, at, r2, end2);
        lemma_eof_located_unique(data, limit, at1, at2);
        match parse_decimal(trim_end(previous_line(data, at1))) {
            None => {},
            Some(offset) => {
                lemma_table_at_unique(data, offset as int, r1, end1, r2, end2);
            },
        }
    }
}

} // verus!
