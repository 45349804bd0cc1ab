//! The character classes of the Secretfile grammar, and maximal runs of them.

use vstd::prelude::*;

verus! {

/// Whether `c` is white space: a character with the Unicode property
/// `White_Space`.
pub open spec fn is_space(c: char) -> bool {
    let u = c as u32;
    ||| 0x09 <= u <= 0x0d
    ||| u == 0x20
    ||| u == 0x85
    ||| u == 0xa0
    ||| u == 0x1680
    ||| 0x2000 <= u <= 0x200a
    ||| u == 0x2028
    ||| u == 0x2029
    ||| u == 0x202f
    ||| u == 0x205f
    ||| u == 0x3000
}

/// Whether `c` may begin the name of an environment variable: an ASCII letter
/// or an underscore.
pub open spec fn is_name_start(c: char) -> bool {
    ||| 'a' <= c <= 'z'
    ||| 'A' <= c <= 'Z'
    ||| c == '_'
}

/// Whether `c` may continue the name of an environment variable: an ASCII
/// letter, an ASCII digit or an underscore.
pub open spec fn is_name_char(c: char) -> bool {
    is_name_start(c) || '0' <= c <= '9'
}

/// A class of characters.
#[derive(Clone, Copy, Debug)]
pub enum CharClass {
    /// White space.
    Space,
    /// Anything but white space.
    Visible,
    /// Anything but white space and the colon.
    Plain,
    /// Anything but the line feed.
    Inline,
    /// What may continue the name of an environment variable.
    Name,
}

impl CharClass {
    /// Whether `c` belongs to the class.
    pub open spec fn has(self, c: char) -> bool {
        match self {
            CharClass::Space => is_space(c),
            CharClass::Visible => !is_space(c),
            CharClass::Plain => !is_space(c) && c != ':',
            CharClass::Inline => c != '\n',
            CharClass::Name => is_name_char(c),
        }
    }

    /// Tests whether `c` belongs to the class.
    pub fn contains(self, c: char) -> (b: bool)
        ensures
            b == self.has(c),
    {
        match self {
            CharClass::Space => is_whitespace(c),
            CharClass::Visible => !is_whitespace(c),
            CharClass::Plain => !is_whitespace(c) && c != ':',
            CharClass::Inline => c != '\n',
            CharClass::Name => is_name_continue(c),
        }
    }
}

/// Tests whether `c` is white space.
pub fn is_whitespace(c: char) -> (b: bool)
    ensures
        b == is_space(c),
{
    let u: u32 = c as u32;
    (0x09 <= u && u <= 0x0d) || u == 0x20 || u == 0x85 || u == 0xa0 || u == 0x1680 || (0x2000 <= u
        && u <= 0x200a) || u == 0x2028 || u == 0x2029 || u == 0x202f || u == 0x205f || u == 0x3000
}

/// Tests whether `c` may begin the name of an environment variable.
pub fn is_name_begin(c: char) -> (b: bool)
    ensures
        b == is_name_start(c),
{
    ('a' <= c && c <= 'z') || ('A' <= c && c <= 'Z') || c == '_'
}

/// Tests whether `c` may continue the name of an environment variable.
pub fn is_name_continue(c: char) -> (b: bool)
    ensures
        b == is_name_char(c),
{
    is_name_begin(c) || ('0' <= c && c <= '9')
}

/// Where the longest run of characters of `class` that starts at `from` ends:
/// the first position at or after `from` whose character is not in `class`,
/// or the length of `s` where there is none.
pub open spec fn run_end(s: Seq<char>, from: int, class: CharClass) -> int
    decreases s.len() - from,
{
    if 0 <= from < s.len() && class.has(s[from]) {
        run_end(s, from + 1, class)
    } else {
        from
    }
}

/// `run_end` is the one position that ends a run: everything before it is in
/// the class, and what stands at it, if anything, is not.
pub proof fn lemma_run_end(s: Seq<char>, from: int, class: CharClass)
    requires
        0 <= from <= s.len(),
    ensures
        from <= run_end(s, from, class) <= s.len(),
        forall|k: int| from <= k < run_end(s, from, class) ==> class.has(#[trigger] s[k]),
        run_end(s, from, class) < s.len() ==> !class.has(s[run_end(s, from, class)]),
    decreases s.len() - from,
{
    if from < s.len() && class.has(s[from]) {
        lemma_run_end(s, from + 1, class);
    }
}

/// A position that ends a run is `run_end`.
pub proof fn lemma_run_end_is(s: Seq<char>, from: int, class: CharClass, end: int)
    requires
        0 <= from <= end <= s.len(),
        forall|k: int| from <= k < end ==> class.has(#[trigger] s[k]),
        end < s.len() ==> !class.has(s[end]),
    ensures
        run_end(s, from, class) == end,
    decreases end - from,
{
    if from < end {
        lemma_run_end_is(s, from + 1, class, end);
    }
}

/// Finds where the longest run of characters of `class` that starts at `from`
/// ends.
pub fn scan(s: &[char], from: usize, class: CharClass) -> (end: usize)
    ensures
        end == run_end(s@, from as int, class),
        from <= end,
        from <= s@.len() ==> end <= s@.len(),
{
    let mut i: usize = from;
    while i < s.len() && class.contains(s[i])
        invariant
            from <= i,
            from <= s@.len() ==> i <= s@.len(),
            run_end(s@, from as int, class) == run_end(s@, i as int, class),
        decreases s@.len() - i,
    {
        i += 1;
    }
    i
}

} // verus!
