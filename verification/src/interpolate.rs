//! References to environment variables in a text, and their replacement.
//!
//! A reference is written `$NAME` or `${NAME}`, where `NAME` is an ASCII
//! letter or an underscore followed by ASCII letters, digits and underscores.
//! The bare form takes the longest name that follows the dollar sign.  A
//! dollar sign that begins neither form stands for itself.

use crate::chars::{is_name_begin, is_name_start, lemma_run_end, run_end, scan, CharClass};
use crate::environment::{Environment, Variables};
use crate::error::{Error, ErrorView};
use crate::text::{chars_of, string_of};
use vstd::prelude::*;
use vstd::string::StringExecFns;

verus! {

/// A reference to an environment variable in a text: the variable's name,
/// and where the reference ends.
pub struct Reference {
    pub name: Seq<char>,
    pub end: int,
}

/// The reference that begins at `at` in `text`, if one does.
pub open spec fn reference_at(text: Seq<char>, at: int) -> Option<Reference> {
    if !(0 <= at < text.len()) || text[at] != '$' {
        None
    } else if at + 1 < text.len() && is_name_start(text[at + 1]) {
        let end = run_end(text, at + 1, CharClass::Name);
        Some(Reference { name: text.subrange(at + 1, end), end })
    } else if at + 2 < text.len() && text[at + 1] == '{' && is_name_start(text[at + 2]) {
        let close = run_end(text, at + 2, CharClass::Name);
        if close < text.len() && text[close] == '}' {
            Some(Reference { name: text.subrange(at + 2, close), end: close + 1 })
        } else {
            None
        }
    } else {
        None
    }
}

/// A reference lies inside the text, is longer than its name, and its name
/// is not empty.
pub proof fn lemma_reference_at(text: Seq<char>, at: int)
    ensures
        match reference_at(text, at) {
            Some(r) => at < at + r.name.len() < r.end <= text.len() && r.name.len() > 0,
            None => true,
        },
{
    if 0 <= at < text.len() {
        lemma_run_end(text, at + 1, CharClass::Name);
        if at + 1 < text.len() {
            lemma_run_end(text, at + 2, CharClass::Name);
        }
    }
}

/// What the part of `text` from `from` on becomes when every reference in
/// it, found from left to right, is replaced by the value that `env` gives
/// the variable, or by nothing where `env` does not define it.
pub open spec fn interpolated_from(text: Seq<char>, env: Variables, from: int) -> Seq<char>
    decreases text.len() - from,
    via interpolated_from_decreases
{
    if !(0 <= from < text.len()) {
        Seq::empty()
    } else {
        match reference_at(text, from) {
            Some(r) => {
                let value = if env.contains_key(r.name) {
                    env[r.name]
                } else {
                    Seq::empty()
                };
                value + interpolated_from(text, env, r.end)
            },
            None => seq![text[from]] + interpolated_from(text, env, from + 1),
        }
    }
}

#[via_fn]
proof fn interpolated_from_decreases(text: Seq<char>, env: Variables, from: int) {
    lemma_reference_at(text, from);
}

/// The name of the first reference in `text`, at or after `from`, to a
/// variable that `env` does not define.
pub open spec fn first_undefined_from(text: Seq<char>, env: Variables, from: int) -> Option<
    Seq<char>,
>
    decreases text.len() - from,
    via first_undefined_from_decreases
{
    if !(0 <= from < text.len()) {
        None
    } else {
        match reference_at(text, from) {
            Some(r) => if env.contains_key(r.name) {
                first_undefined_from(text, env, r.end)
            } else {
                Some(r.name)
            },
            None => first_undefined_from(text, env, from + 1),
        }
    }
}

#[via_fn]
proof fn first_undefined_from_decreases(text: Seq<char>, env: Variables, from: int) {
    lemma_reference_at(text, from);
}

/// `text` with every reference replaced by the variable's value in `env`.
pub open spec fn interpolated(text: Seq<char>, env: Variables) -> Seq<char> {
    interpolated_from(text, env, 0)
}

/// The name of the first reference in `text` to a variable that `env` does
/// not define.
pub open spec fn first_undefined(text: Seq<char>, env: Variables) -> Option<Seq<char>> {
    first_undefined_from(text, env, 0)
}

/// What interpolating `text` in `env` gives: the text with its references
/// replaced, or the error that names the first undefined variable.
pub open spec fn interpolation(text: Seq<char>, env: Variables) -> Result<Seq<char>, ErrorView> {
    match first_undefined(text, env) {
        Some(name) => Err(ErrorView::UndefinedEnvironmentVariable(name)),
        None => Ok(interpolated(text, env)),
    }
}

/// Where a reference found in a slice of characters lies: its name is
/// `name_from..name_to`, and it ends at `end`.
struct Span {
    name_from: usize,
    name_to: usize,
    end: usize,
}

/// Finds the reference that begins at `at`, if one does.
fn find_reference(text: &[char], at: usize) -> (found: Option<Span>)
    requires
        at < text@.len(),
    ensures
        match found {
            Some(span) => {
                &&& at < span.name_from < span.name_to <= span.end <= text@.len()
                &&& reference_at(text@, at as int) == Some(
                    Reference {
                        name: text@.subrange(span.name_from as int, span.name_to as int),
                        end: span.end as int,
                    },
                )
            },
            None => reference_at(text@, at as int) is None,
        },
{
    proof {
        lemma_reference_at(text@, at as int);
    }
    if text[at] != '$' || text.len() - at < 2 {
        return None;
    }
    if is_name_begin(text[at + 1]) {
        let end = scan(text, at + 1, CharClass::Name);
        return Some(Span { name_from: at + 1, name_to: end, end });
    }
    if text[at + 1] != '{' || text.len() - at < 3 || !is_name_begin(text[at + 2]) {
        return None;
    }
    let close = scan(text, at + 2, CharClass::Name);
    if close < text.len() && text[close] == '}' {
        Some(Span { name_from: at + 2, name_to: close, end: close + 1 })
    } else {
        None
    }
}

/// Interpolates environment variables into `text`: replaces every reference
/// `$NAME` or `${NAME}` by the value that `env` gives the variable.
///
/// Where `env` does not define a variable, the result is the error that
/// names it; where it leaves several undefined, the first of them.  The value
/// of a variable is put in as it is: references inside it are not replaced.
pub fn interpolate_env_vars(text: &str, env: &Environment) -> (result: Result<String, Error>)
    ensures
        match interpolation(text@, env@) {
            Ok(replaced) => result matches Ok(s) && s@ == replaced,
            Err(error) => result matches Err(e) && e@ == error,
        },
{
    let chars = chars_of(text);
    let mut replaced = String::new();
    let mut undefined: Option<String> = None;
    let mut at: usize = 0;
    while at < chars.len()
        invariant
            at <= chars@.len(),
            interpolated(chars@, env@) == replaced@ + interpolated_from(chars@, env@, at as int),
            match undefined {
                Some(name) => first_undefined(chars@, env@) == Some(name@),
                None => first_undefined(chars@, env@) == first_undefined_from(
                    chars@,
                    env@,
                    at as int,
                ),
            },
        decreases chars@.len() - at,
    {
        let ghost before = replaced@;
        let ghost rest = interpolated_from(chars@, env@, at as int);
        match find_reference(chars.as_slice(), at) {
            Some(span) => {
                let name = string_of(chars.as_slice(), span.name_from, span.name_to);
                match env.get(name.as_str()) {
                    Some(value) => {
                        replaced.append(value);
                        assert(replaced@ + interpolated_from(chars@, env@, span.end as int)
                            =~= before + rest);
                    },
                    None => {
                        assert(replaced@ + interpolated_from(chars@, env@, span.end as int)
                            =~= before + rest);
                        if undefined.is_none() {
                            undefined = Some(name);
                        }
                    },
                }
                at = span.end;
            },
            None => {
                replaced.push(chars[at]);
                assert(replaced@ + interpolated_from(chars@, env@, at + 1) =~= before + rest);
                at += 1;
            },
        }
    }
    assert(replaced@ + Seq::<char>::empty() =~= replaced@);
    match undefined {
        Some(name) => Err(Error::UndefinedEnvironmentVariable(name)),
        None => Ok(replaced),
    }
}

} // verus!
