//! The grammar of one line of a Secretfile.
//!
//! A line is blank (white space, then perhaps a comment that begins with `#`
//! and runs to the end of the line), or an entry `NAME PATH:KEY`, or
//! malformed.  In an entry, `NAME` is everything up to the first white space.
//! `PATH` begins after that white space and ends before the first colon that
//! is not its first character; `KEY` is what follows that colon up to the
//! next white space, and only white space may follow it.

use crate::chars::{run_end, scan, CharClass};
use crate::text::{chars_of, string_of};
use vstd::prelude::*;

verus! {

/// What one line of a Secretfile says.
#[derive(Debug, Clone, PartialEq, Eq)]
pub enum Line {
    /// Nothing: the line is blank or a comment.
    Blank,
    /// That `name` is kept under `key` in the secret at `path`.  The path is
    /// as it was written, with its references to environment variables.
    Entry { name: String, path: String, key: String },
    /// Nothing that the grammar allows.
    Malformed,
}

/// A [`Line`] with its strings as sequences of characters.
pub enum LineView {
    Blank,
    Entry { name: Seq<char>, path: Seq<char>, key: Seq<char> },
    Malformed,
}

impl View for Line {
    type V = LineView;

    open spec fn view(&self) -> LineView {
        match self {
            Line::Blank => LineView::Blank,
            Line::Entry { name, path, key } => LineView::Entry {
                name: name@,
                path: path@,
                key: key@,
            },
            Line::Malformed => LineView::Malformed,
        }
    }
}

/// Whether `line` is blank or a comment: after its leading white space it
/// ends, or goes on with `#` and holds no line feed from there.
pub open spec fn is_blank(line: Seq<char>) -> bool {
    let start = run_end(line, 0, CharClass::Space);
    start == line.len() || (line[start] == '#' && run_end(line, start + 1, CharClass::Inline)
        == line.len())
}

/// Where the parts of an entry line lie: the name is `0..name_end`, the path
/// `path_start..colon` and the key `colon + 1..key_end`.
pub struct Layout {
    pub name_end: int,
    pub path_start: int,
    pub colon: int,
    pub key_end: int,
}

/// Where the parts of `line` would lie if it were an entry.
pub open spec fn layout_of(line: Seq<char>) -> Layout {
    let name_end = run_end(line, 0, CharClass::Visible);
    let path_start = run_end(line, name_end, CharClass::Space);
    let colon = run_end(line, path_start + 1, CharClass::Plain);
    let key_end = run_end(line, colon + 1, CharClass::Visible);
    Layout { name_end, path_start, colon, key_end }
}

/// Whether `line` has the form `NAME PATH:KEY`: a name, white space, a path,
/// a colon, a key, none of them empty, and then only white space.
pub open spec fn is_entry(line: Seq<char>) -> bool {
    let at = layout_of(line);
    &&& 0 < at.name_end < at.path_start < at.colon < line.len()
    &&& line[at.colon] == ':'
    &&& at.colon + 1 < at.key_end
    &&& run_end(line, at.key_end, CharClass::Space) == line.len()
}

/// What `line` says.  A line that is both a comment and of the form of an
/// entry, such as `#NAME PATH:KEY`, is a comment.
pub open spec fn classify(line: Seq<char>) -> LineView {
    if is_blank(line) {
        LineView::Blank
    } else if is_entry(line) {
        let at = layout_of(line);
        LineView::Entry {
            name: line.subrange(0, at.name_end),
            path: line.subrange(at.path_start, at.colon),
            key: line.subrange(at.colon + 1, at.key_end),
        }
    } else {
        LineView::Malformed
    }
}

/// Tests whether a line is blank or a comment.
fn blank(line: &[char]) -> (b: bool)
    ensures
        b == is_blank(line@),
{
    let start = scan(line, 0, CharClass::Space);
    if start == line.len() {
        return true;
    }
    line[start] == '#' && scan(line, start + 1, CharClass::Inline) == line.len()
}

/// Reads one line of a Secretfile, without its line ending.
pub fn parse_line(line: &str) -> (parsed: Line)
    ensures
        parsed@ == classify(line@),
{
    let chars = chars_of(line);
    let text = chars.as_slice();
    if blank(text) {
        return Line::Blank;
    }
    let name_end = scan(text, 0, CharClass::Visible);
    let path_start = scan(text, name_end, CharClass::Space);
    if name_end == 0 || path_start == name_end || path_start == text.len() {
        return Line::Malformed;
    }
    let colon = scan(text, path_start + 1, CharClass::Plain);
    if colon == text.len() || text[colon] != ':' {
        return Line::Malformed;
    }
    let key_end = scan(text, colon + 1, CharClass::Visible);
    if key_end == colon + 1 || scan(text, key_end, CharClass::Space) != text.len() {
        return Line::Malformed;
    }
    Line::Entry {
        name: string_of(text, 0, name_end),
        path: string_of(text, path_start, colon),
        key: string_of(text, colon + 1, key_end),
    }
}

} // verus!
