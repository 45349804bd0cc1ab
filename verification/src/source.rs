//! The lines of a source of bytes.
//!
//! A line ends with a line feed, or with the end of the source.  The line
//! feed is no part of the line, nor is a carriage return that stands
//! directly before it.  A source that ends with a line feed has no line after
//! it.

use vstd::prelude::*;
use vstd::slice::slice_subrange;

verus! {

/// The line feed.
pub const LF: u8 = 0x0a;

/// The carriage return.
pub const CR: u8 = 0x0d;

/// Where the line that holds position `from` ends: at the first line feed at
/// or after `from`, or at the end of the source.
pub open spec fn line_end(source: Seq<u8>, from: int) -> int
    decreases source.len() - from,
{
    if 0 <= from < source.len() && source[from] != LF {
        line_end(source, from + 1)
    } else {
        from
    }
}

/// `line_end` lies at or after `from`, no line feed stands before it, and
/// one stands at it unless it is the end of the source.
pub proof fn lemma_line_end(source: Seq<u8>, from: int)
    requires
        0 <= from <= source.len(),
    ensures
        from <= line_end(source, from) <= source.len(),
        forall|k: int| from <= k < line_end(source, from) ==> #[trigger] source[k] != LF,
        line_end(source, from) < source.len() ==> source[line_end(source, from)] == LF,
    decreases source.len() - from,
{
    if from < source.len() && source[from] != LF {
        lemma_line_end(source, from + 1);
    }
}

/// A position at or after `from` before which no line feed stands, and at
/// which one stands unless it is the end of the source, is `line_end`.
pub proof fn lemma_line_end_is(source: Seq<u8>, from: int, end: int)
    requires
        0 <= from <= end <= source.len(),
        forall|k: int| from <= k < end ==> #[trigger] source[k] != LF,
        end < source.len() ==> source[end] == LF,
    ensures
        line_end(source, from) == end,
    decreases end - from,
{
    if from < end {
        lemma_line_end_is(source, from + 1, end);
    }
}

/// `line` without the carriage return at its end, if it has one.
pub open spec fn without_cr(line: Seq<u8>) -> Seq<u8> {
    if line.len() > 0 && line.last() == CR {
        line.drop_last()
    } else {
        line
    }
}

/// The line that begins at `from`, without its line ending.
pub open spec fn line_at(source: Seq<u8>, from: int) -> Seq<u8> {
    let end = line_end(source, from);
    if end < source.len() {
        without_cr(source.subrange(from, end))
    } else {
        source.subrange(from, end)
    }
}

/// Where the line after the one that begins at `from` begins: after the
/// line feed, or at the end of the source where there is none.
pub open spec fn line_after(source: Seq<u8>, from: int) -> int {
    let end = line_end(source, from);
    if end < source.len() {
        end + 1
    } else {
        end
    }
}

/// The lines of `source` from position `from` on, where a line begins.
pub open spec fn lines_from(source: Seq<u8>, from: int) -> Seq<Seq<u8>>
    decreases source.len() - from,
    via lines_from_decreases
{
    if !(0 <= from < source.len()) {
        Seq::empty()
    } else {
        seq![line_at(source, from)] + lines_from(source, line_after(source, from))
    }
}

#[via_fn]
proof fn lines_from_decreases(source: Seq<u8>, from: int) {
    if 0 <= from < source.len() {
        lemma_line_end(source, from);
    }
}

/// The lines of `source`.
pub open spec fn lines_of(source: Seq<u8>) -> Seq<Seq<u8>> {
    lines_from(source, 0)
}

/// The lines from a position on are the lines of the rest of the source.
pub proof fn lemma_lines_from_is_rest(source: Seq<u8>, from: int)
    requires
        0 <= from <= source.len(),
    ensures
        lines_from(source, from) == lines_of(source.skip(from)),
    decreases source.len() - from,
{
    let rest = source.skip(from);
    if from < source.len() {
        let end = line_end(source, from);
        lemma_line_end(source, from);
        assert(forall|k: int| 0 <= k < rest.len() ==> rest[k] == source[from + k]);
        lemma_line_end_is(rest, 0, end - from);
        assert(rest.subrange(0, end - from) =~= source.subrange(from, end));
        if end < source.len() {
            lemma_lines_from_is_rest(source, end + 1);
            lemma_lines_from_is_rest(rest, end - from + 1);
            assert(rest.skip(end - from + 1) =~= source.skip(end + 1));
        } else {
            assert(lines_from(source, end) =~= lines_from(rest, end - from));
        }
        assert(line_at(rest, 0) == line_at(source, from));
        assert(lines_from(rest, line_after(rest, 0)) == lines_from(
            source,
            line_after(source, from),
        ));
    }
}

/// A line cut from a source, and where the line after it begins.
pub struct Cut<'a> {
    pub line: &'a [u8],
    pub next: usize,
}

/// Cuts the line that begins at `from`.
pub fn cut_line<'a>(source: &'a [u8], from: usize) -> (cut: Cut<'a>)
    requires
        from < source@.len(),
    ensures
        cut.line@ == line_at(source@, from as int),
        cut.next == line_after(source@, from as int),
        from < cut.next <= source@.len(),
{
    let mut end: usize = from;
    while end < source.len() && source[end] != LF
        invariant
            from <= end <= source@.len(),
            line_end(source@, from as int) == line_end(source@, end as int),
        decreases source@.len() - end,
    {
        end += 1;
    }
    if end == source.len() {
        return Cut { line: slice_subrange(source, from, end), next: end };
    }
    let line = if from < end && source[end - 1] == CR {
        slice_subrange(source, from, end - 1)
    } else {
        slice_subrange(source, from, end)
    };
    assert(line@ == without_cr(source@.subrange(from as int, end as int)));
    Cut { line, next: end + 1 }
}

} // verus!
