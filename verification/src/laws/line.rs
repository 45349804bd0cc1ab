//! What holds of every line.

use crate::chars::{is_space, lemma_run_end, lemma_run_end_is, run_end, CharClass};
use crate::environment::Variables;
use crate::error::ErrorView;
use crate::line::{classify, is_blank, is_entry, layout_of, LineView};
use crate::secretfile::{binding_of, Binding};
use vstd::prelude::*;

verus! {

/// Whether `s` is white space throughout.
pub open spec fn is_gap(s: Seq<char>) -> bool {
    forall|k: int| 0 <= k < s.len() ==> is_space(#[trigger] s[k])
}

/// Whether `s` is a token: not empty, and without white space.
pub open spec fn is_token(s: Seq<char>) -> bool {
    s.len() > 0 && forall|k: int| 0 <= k < s.len() ==> !is_space(#[trigger] s[k])
}

/// Whether `s` can be the path of an entry: a token with no colon but
/// perhaps as its first character.
pub open spec fn is_path(s: Seq<char>) -> bool {
    is_token(s) && forall|k: int| 1 <= k < s.len() ==> #[trigger] s[k] != ':'
}

/// An entry line is read as it was put together: a name that does not begin
/// a comment, white space, a path, a colon and a key, with or without white
/// space at the end, is the entry of that name, path and key.
pub proof fn law_entry_line_is_read(
    name: Seq<char>,
    gap: Seq<char>,
    path: Seq<char>,
    key: Seq<char>,
    trail: Seq<char>,
)
    requires
        is_token(name),
        name[0] != '#',
        gap.len() > 0,
        is_gap(gap),
        is_path(path),
        is_token(key),
        is_gap(trail),
    ensures
        classify(name + gap + path + seq![':'] + key + trail) == (LineView::Entry {
            name,
            path,
            key,
        }),
{
    let line = name + gap + path + seq![':'] + key + trail;
    let name_end = name.len() as int;
    let path_start = name_end + gap.len();
    let colon = path_start + path.len();
    let key_end = colon + 1 + key.len();
    assert(forall|k: int| 0 <= k < name_end ==> line[k] == name[k]);
    assert(forall|k: int| name_end <= k < path_start ==> line[k] == gap[k - name_end]);
    assert(forall|k: int| path_start <= k < colon ==> line[k] == path[k - path_start]);
    assert(line[colon] == ':');
    assert(forall|k: int| colon < k < key_end ==> line[k] == key[k - colon - 1]);
    assert(forall|k: int| key_end <= k < line.len() ==> line[k] == trail[k - key_end]);
    assert(!is_space(':'));
    lemma_run_end_is(line, 0, CharClass::Space, 0);
    lemma_run_end_is(line, 0, CharClass::Visible, name_end);
    lemma_run_end_is(line, name_end, CharClass::Space, path_start);
    lemma_run_end_is(line, path_start + 1, CharClass::Plain, colon);
    lemma_run_end_is(line, colon + 1, CharClass::Visible, key_end);
    lemma_run_end_is(line, key_end, CharClass::Space, line.len() as int);
    assert(line.subrange(0, name_end) =~= name);
    assert(line.subrange(path_start, colon) =~= path);
    assert(line.subrange(colon + 1, key_end) =~= key);
}

/// The white space between the name and the path of an entry line.
pub open spec fn gap_of(line: Seq<char>) -> Seq<char> {
    line.subrange(layout_of(line).name_end, layout_of(line).path_start)
}

/// What follows the key of an entry line.
pub open spec fn trail_of(line: Seq<char>) -> Seq<char> {
    line.subrange(layout_of(line).key_end, line.len() as int)
}

/// A line that is read as an entry is put together as one: it is its name,
/// white space, its path, a colon, its key and perhaps more white space.
/// Name and key are tokens, and the path is a token that ends before the
/// first colon that can end it.
pub proof fn law_entry_has_parts(line: Seq<char>)
    requires
        classify(line) is Entry,
    ensures
        is_token(classify(line)->name),
        is_path(classify(line)->path),
        is_token(classify(line)->key),
        gap_of(line).len() > 0,
        is_gap(gap_of(line)),
        is_gap(trail_of(line)),
        line == classify(line)->name + gap_of(line) + classify(line)->path + seq![':']
            + classify(line)->key + trail_of(line),
{
    let at = layout_of(line);
    lemma_run_end(line, 0, CharClass::Visible);
    lemma_run_end(line, at.name_end, CharClass::Space);
    lemma_run_end(line, at.path_start + 1, CharClass::Plain);
    lemma_run_end(line, at.colon + 1, CharClass::Visible);
    lemma_run_end(line, at.key_end, CharClass::Space);
    let name = classify(line)->name;
    let path = classify(line)->path;
    let key = classify(line)->key;
    let gap = gap_of(line);
    let trail = trail_of(line);
    assert(forall|k: int| 0 <= k < name.len() ==> name[k] == line[k]);
    assert(forall|k: int| 0 <= k < path.len() ==> path[k] == line[at.path_start + k]);
    assert(forall|k: int| 0 <= k < key.len() ==> key[k] == line[at.colon + 1 + k]);
    assert(forall|k: int| 0 <= k < gap.len() ==> gap[k] == line[at.name_end + k]);
    assert(forall|k: int| 0 <= k < trail.len() ==> trail[k] == line[at.key_end + k]);
    assert(!is_space(line[at.path_start]));
    assert(line =~= name + gap + path + seq![':'] + key + trail);
}

/// A line that is no comment and holds no white space, so that nothing parts
/// a name from a path, is rejected as malformed.
pub proof fn law_line_without_gap_is_malformed(line: Seq<char>, env: Variables)
    requires
        !is_blank(line),
        forall|k: int| 0 <= k < line.len() ==> !is_space(#[trigger] line[k]),
    ensures
        binding_of(line, env) == Err::<Option<Binding>, ErrorView>(
            ErrorView::MalformedLine(line),
        ),
{
    lemma_run_end(line, 0, CharClass::Visible);
    let name_end = run_end(line, 0, CharClass::Visible);
    lemma_run_end(line, name_end, CharClass::Space);
}

/// Where the second token of `line` lies: the visible characters after the
/// first white space.
pub open spec fn second_token(line: Seq<char>) -> (int, int) {
    let start = layout_of(line).path_start;
    (start, run_end(line, start, CharClass::Visible))
}

/// A line that is neither blank nor a comment and has no colon in its
/// second token is rejected as malformed.
pub proof fn law_line_without_colon_is_malformed(line: Seq<char>, env: Variables)
    requires
        !is_blank(line),
        forall|k: int|
            0 <= k < line.len() && second_token(line).0 <= k < second_token(line).1
                ==> #[trigger] line[k] != ':',
    ensures
        binding_of(line, env) == Err::<Option<Binding>, ErrorView>(
            ErrorView::MalformedLine(line),
        ),
{
    let at = layout_of(line);
    if is_entry(line) {
        lemma_run_end(line, 0, CharClass::Visible);
        lemma_run_end(line, at.name_end, CharClass::Space);
        lemma_run_end(line, at.path_start + 1, CharClass::Plain);
        lemma_run_end(line, at.path_start, CharClass::Visible);
        let token_end = run_end(line, at.path_start, CharClass::Visible);
        assert(!is_space(':'));
        if at.path_start < token_end < at.colon {
            assert(CharClass::Plain.has(line[token_end]));
        }
        assert(token_end > at.colon);
        assert(line[at.colon] != ':');
    }
}

} // verus!
