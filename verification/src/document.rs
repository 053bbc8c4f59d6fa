//! A file seen as the lines it was written from, and what the backward
//! scans make of such a file.
//!
//! The scanner and the marker search are specified over indices into raw
//! bytes. Here the same bytes are built from lines and the terminators
//! between them, and the laws say that the scans give those lines back, last
//! line first.

use vstd::prelude::*;
use crate::bytes::{has_prefix, is_eol, is_space, lemma_trimmed_len, trim_end};
use crate::parser::{eof_located, eof_marker, eof_missing, first_marker_at, marker_at_depth};
use crate::utils::{
    content_end, cursor_after, lemma_content_end_unique, lemma_cursor_after_first_scan,
    lemma_line_start_unique, line_start, previous_cursor, previous_line,
};

verus! {

/// Whether `s` holds no line terminator.
pub open spec fn no_eol(s: Seq<u8>) -> bool {
    forall|i: int| 0 <= i < s.len() ==> !is_eol(#[trigger] s[i])
}

/// Whether `s` holds line terminators only.
pub open spec fn all_eol(s: Seq<u8>) -> bool {
    forall|i: int| 0 <= i < s.len() ==> is_eol(#[trigger] s[i])
}

/// Whether `lines` and `gaps` are the parts of a file: at least one line,
/// every line with at least one byte and without terminators, and between
/// each two lines a gap of one or more terminators.
pub open spec fn well_formed(lines: Seq<Seq<u8>>, gaps: Seq<Seq<u8>>) -> bool {
    &&& lines.len() >= 1
    &&& gaps.len() == lines.len() - 1
    &&& forall|i: int| 0 <= i < lines.len() ==> (#[trigger] lines[i]).len() > 0 && no_eol(lines[i])
    &&& forall|i: int| 0 <= i < gaps.len() ==> (#[trigger] gaps[i]).len() > 0 && all_eol(gaps[i])
}

/// The bytes of the first `n` lines and of the gaps between them.
pub open spec fn head(lines: Seq<Seq<u8>>, gaps: Seq<Seq<u8>>, n: nat) -> Seq<u8>
    decreases n,
{
    if n == 0 {
        Seq::empty()
    } else if n == 1 {
        lines[0]
    } else {
        head(lines, gaps, (n - 1) as nat) + gaps[n - 2] + lines[n - 1]
    }
}

/// The bytes of all the lines and of the gaps between them.
pub open spec fn joined(lines: Seq<Seq<u8>>, gaps: Seq<Seq<u8>>) -> Seq<u8> {
    head(lines, gaps, lines.len())
}

/// 1 if `tail` has a byte, else 0: the scans that a file ending in
/// terminators costs before its last line is reached.
pub open spec fn tail_depth(tail: Seq<u8>) -> nat {
    if tail.len() > 0 {
        1
    } else {
        0
    }
}

/// The first `n` lines end with line `n - 1`.
proof fn lemma_head_ends_with_line(lines: Seq<Seq<u8>>, gaps: Seq<Seq<u8>>, n: nat)
    requires
        well_formed(lines, gaps),
        1 <= n <= lines.len(),
    ensures
        head(lines, gaps, n).len() >= lines[n - 1].len(),
        head(lines, gaps, n).subrange(
            head(lines, gaps, n).len() - lines[n - 1].len(),
            head(lines, gaps, n).len() as int,
        ) == lines[n - 1],
        !is_eol(head(lines, gaps, n).last()),
        n >= 2 ==> head(lines, gaps, n).len() == head(lines, gaps, (n - 1) as nat).len() + gaps[n
            - 2].len() + lines[n - 1].len(),
{
    let h = head(lines, gaps, n);
    let line = lines[n - 1];
    assert(h.subrange(h.len() - line.len(), h.len() as int) =~= line);
    assert(h.last() == line.last());
}

/// The first `m` lines are the start of the first `n`, for `m <= n`.
proof fn lemma_head_is_prefix(lines: Seq<Seq<u8>>, gaps: Seq<Seq<u8>>, m: nat, n: nat)
    requires
        well_formed(lines, gaps),
        m <= n <= lines.len(),
    ensures
        head(lines, gaps, m).len() <= head(lines, gaps, n).len(),
        head(lines, gaps, n).take(head(lines, gaps, m).len() as int) == head(lines, gaps, m),
    decreases n,
{
    let hm = head(lines, gaps, m);
    let hn = head(lines, gaps, n);
    if m == n {
        assert(hn.take(hn.len() as int) =~= hn);
    } else if n == 1 {
        assert(hn.take(0) =~= hm);
    } else {
        lemma_head_is_prefix(lines, gaps, m, (n - 1) as nat);
        let before = head(lines, gaps, (n - 1) as nat);
        assert(before.take(hm.len() as int) == hm);
        assert(hn.take(hm.len() as int) =~= before.take(hm.len() as int));
    }
}

/// In a file that starts with the lines and gaps, a scan from the last
/// byte of line `m - 1` gives that line and leaves the cursor on the last
/// byte of the line before, or on byte 0 if it was the first line.
proof fn lemma_scan_of_line(lines: Seq<Seq<u8>>, gaps: Seq<Seq<u8>>, tail: Seq<u8>, m: nat)
    requires
        well_formed(lines, gaps),
        1 <= m <= lines.len(),
    ensures
        ({
            let data = joined(lines, gaps) + tail;
            let cursor = head(lines, gaps, m).len() - 1;
            &&& 0 <= cursor < data.len()
            &&& previous_line(data, cursor) == lines[m - 1]
            &&& previous_cursor(data, cursor) == if m >= 2 {
                head(lines, gaps, (m - 1) as nat).len() - 1
            } else {
                0
            }
        }),
{
    let all = joined(lines, gaps);
    let data = all + tail;
    let hm = head(lines, gaps, m);
    let line = lines[m - 1];
    let end = hm.len() as int;
    let start = end - line.len();
    lemma_head_is_prefix(lines, gaps, m, lines.len());
    lemma_head_ends_with_line(lines, gaps, m);
    assert forall|i: int| 0 <= i < end implies data[i] == hm[i] by {
        assert(all.take(end)[i] == all[i]);
    }
    assert forall|i: int| start <= i < end implies !is_eol(#[trigger] data[i]) by {
        assert(hm.subrange(start, end)[i - start] == hm[i]);
        assert(data[i] == line[i - start]);
    }
    assert(data.subrange(start, end) =~= hm.subrange(start, end));
    if m >= 2 {
        let before = head(lines, gaps, (m - 1) as nat);
        let gap = gaps[m - 2];
        let stop = before.len() as int;
        lemma_head_ends_with_line(lines, gaps, (m - 1) as nat);
        assert(hm == before + gap + line);
        assert forall|i: int| stop <= i < start implies is_eol(#[trigger] data[i]) by {
            assert(data[i] == gap[i - stop]);
        }
        assert(data[stop - 1] == before.last());
        assert(is_eol(data[start - 1]));
        lemma_line_start_unique(data, end, start);
        lemma_content_end_unique(data, start, stop);
    } else {
        assert(start == 0);
        lemma_line_start_unique(data, end, 0);
        assert(content_end(data, 0) == 0);
    }
}

/// Scanning a file backward from the last byte of its last line gives its
/// lines back, last line first: scan number `k`, counted from 0, starts on
/// the last byte of line `n - 1 - k` and returns that line, where `n` is
/// the number of lines. What follows the last line plays no part.
pub proof fn lemma_lines_come_back_in_reverse(
    lines: Seq<Seq<u8>>,
    gaps: Seq<Seq<u8>>,
    tail: Seq<u8>,
    k: nat,
)
    requires
        well_formed(lines, gaps),
        k < lines.len(),
    ensures
        ({
            let data = joined(lines, gaps) + tail;
            let cursor = cursor_after(data, joined(lines, gaps).len() - 1, k);
            &&& cursor == head(lines, gaps, (lines.len() - k) as nat).len() - 1
            &&& previous_line(data, cursor) == lines[lines.len() - 1 - k]
        }),
    decreases k,
{
    if k > 0 {
        lemma_lines_come_back_in_reverse(lines, gaps, tail, (k - 1) as nat);
        lemma_scan_of_line(lines, gaps, tail, (lines.len() - (k - 1)) as nat);
    }
    lemma_scan_of_line(lines, gaps, tail, (lines.len() - k) as nat);
}

/// Trailing whitespace decides nothing about the marker: a line starts
/// with `%%EOF` exactly when the line without its trailing whitespace does.
pub proof fn lemma_trim_keeps_marker(line: Seq<u8>)
    ensures
        has_prefix(trim_end(line), eof_marker()) <==> has_prefix(line, eof_marker()),
{
    lemma_trimmed_len(line);
    if has_prefix(line, eof_marker()) {
        assert(line.take(5)[4] == 70);
        assert(!is_space(line[4]));
        assert(trim_end(line).take(5) =~= line.take(5));
    }
    if has_prefix(trim_end(line), eof_marker()) {
        assert(line.take(5) =~= trim_end(line).take(5));
    }
}

/// In a file that ends in terminators only after its last line, the scans
/// from the last byte reach line `n - 1 - k` at depth `k`, one deeper if
/// there are such terminators: the first scan then gives an empty line.
proof fn lemma_depth_of_line(lines: Seq<Seq<u8>>, gaps: Seq<Seq<u8>>, tail: Seq<u8>, k: nat)
    requires
        well_formed(lines, gaps),
        all_eol(tail),
        k < lines.len(),
    ensures
        ({
            let data = joined(lines, gaps) + tail;
            let last = data.len() - 1;
            let depth = k + tail_depth(tail);
            &&& cursor_after(data, last, depth) == head(
                lines,
                gaps,
                (lines.len() - k) as nat,
            ).len() - 1
            &&& marker_at_depth(data, last, depth) <==> has_prefix(
                lines[lines.len() - 1 - k],
                eof_marker(),
            )
            &&& tail.len() > 0 ==> !marker_at_depth(data, last, 0)
        }),
{
    let all = joined(lines, gaps);
    let data = all + tail;
    let last = data.len() - 1;
    lemma_lines_come_back_in_reverse(lines, gaps, tail, k);
    lemma_trim_keeps_marker(lines[lines.len() - 1 - k]);
    lemma_head_ends_with_line(lines, gaps, lines.len());
    if tail.len() > 0 {
        assert(data[last] == tail[tail.len() - 1]);
        assert(line_start(data, last + 1) == last + 1);
        assert(previous_line(data, last) =~= Seq::<u8>::empty());
        assert(trim_end(previous_line(data, last)) =~= Seq::<u8>::empty());
        assert forall|i: int| all.len() <= i < data.len() implies is_eol(#[trigger] data[i]) by {
            assert(data[i] == tail[i - all.len()]);
        }
        assert(data[all.len() - 1] == all.last());
        lemma_content_end_unique(data, last + 1, all.len() as int);
        assert(previous_cursor(data, last) == all.len() - 1);
        lemma_cursor_after_first_scan(data, last, k);
    } else {
        assert(data =~= all);
    }
}

/// A file whose nearest `%%EOF` line to the end is within the limit has
/// its marker found, and the cursor is then left on the last byte of the
/// line before the marker: the next scan gives exactly that line.
///
/// The file is `lines` with `gaps` between them and then `tail`, which
/// holds terminators only. Line `m` is the last that starts with the
/// marker, and there is a line before it.
pub proof fn lemma_marker_is_found(
    lines: Seq<Seq<u8>>,
    gaps: Seq<Seq<u8>>,
    tail: Seq<u8>,
    m: int,
    limit: nat,
)
    requires
        well_formed(lines, gaps),
        all_eol(tail),
        1 <= m < lines.len(),
        has_prefix(lines[m], eof_marker()),
        forall|j: int| m < j < lines.len() ==> !has_prefix(#[trigger] lines[j], eof_marker()),
        lines.len() - 1 - m + tail_depth(tail) < limit,
    ensures
        ({
            let data = joined(lines, gaps) + tail;
            let cursor = head(lines, gaps, m as nat).len() - 1;
            &&& !eof_missing(data, limit)
            &&& eof_located(data, limit, cursor)
            &&& previous_line(data, cursor) == lines[m - 1]
        }),
{
    let data = joined(lines, gaps) + tail;
    let last = data.len() - 1;
    let n = lines.len();
    let t = tail_depth(tail);
    let depth = (n - 1 - m + t) as nat;
    lemma_depth_of_line(lines, gaps, tail, (n - 1 - m) as nat);
    lemma_depth_of_line(lines, gaps, tail, (n - m) as nat);
    lemma_scan_of_line(lines, gaps, tail, m as nat);
    assert forall|j: nat| j < depth implies !marker_at_depth(data, last, j) by {
        if j >= t {
            lemma_depth_of_line(lines, gaps, tail, (j - t) as nat);
        }
    }
    assert(first_marker_at(data, last, depth));
}

/// A file whose last `limit` lines hold no `%%EOF` line has no marker
/// found, however many stand before them: the search sees `limit` lines
/// and no more.
///
/// The file is `lines` with `gaps` between them and then `tail`, which
/// holds terminators only and, if it has a byte, costs the first scan.
pub proof fn lemma_marker_out_of_reach(
    lines: Seq<Seq<u8>>,
    gaps: Seq<Seq<u8>>,
    tail: Seq<u8>,
    limit: nat,
)
    requires
        well_formed(lines, gaps),
        all_eol(tail),
        limit <= lines.len() + tail_depth(tail),
        forall|j: int|
            lines.len() + tail_depth(tail) - limit <= j < lines.len() ==> !has_prefix(
                #[trigger] lines[j],
                eof_marker(),
            ),
    ensures
        eof_missing(joined(lines, gaps) + tail, limit),
{
    let data = joined(lines, gaps) + tail;
    let last = data.len() - 1;
    let t = tail_depth(tail);
    lemma_depth_of_line(lines, gaps, tail, 0);
    assert forall|k: nat| k < limit implies !marker_at_depth(data, last, k) by {
        if k >= t {
            lemma_depth_of_line(lines, gaps, tail, (k - t) as nat);
        }
    }
}

} // verus!
