//! What holds of every interpolation.

use crate::chars::{
    is_name_char, is_name_start, lemma_run_end, lemma_run_end_is, run_end, CharClass,
};
use crate::environment::Variables;
use crate::interpolate::{
    first_undefined, first_undefined_from, interpolated, interpolated_from, interpolation,
    lemma_reference_at, reference_at, Reference,
};
use vstd::prelude::*;

verus! {

/// Whether `s` is the name of an environment variable.
pub open spec fn is_name(s: Seq<char>) -> bool {
    &&& s.len() > 0
    &&& is_name_start(s[0])
    &&& forall|k: int| 0 <= k < s.len() ==> is_name_char(#[trigger] s[k])
}

/// The bare reference to the variable `name`: `$NAME`.
pub open spec fn bare(name: Seq<char>) -> Seq<char> {
    seq!['$'] + name
}

/// The braced reference to the variable `name`: `${NAME}`.
pub open spec fn braced(name: Seq<char>) -> Seq<char> {
    seq!['$', '{'] + name + seq!['}']
}

/// What a reference to `name` is replaced by in `env`.
pub open spec fn value_of(env: Variables, name: Seq<char>) -> Seq<char> {
    if env.contains_key(name) {
        env[name]
    } else {
        Seq::empty()
    }
}

/// Whether a reference to a variable that `env` does not define begins at
/// `at` in `text`.
pub open spec fn undefined_at(text: Seq<char>, env: Variables, at: int) -> bool {
    reference_at(text, at) matches Some(r) && !env.contains_key(r.name)
}

/// Whether nothing can join the end of a text before `rest` to the beginning
/// of `rest` in one reference: `rest` is empty, or begins with a character
/// that can neither continue a name nor open or close a brace.
pub open spec fn begins_apart(rest: Seq<char>) -> bool {
    rest.len() > 0 ==> !is_name_char(rest[0]) && rest[0] != '{' && rest[0] != '}'
}

/// The name of a reference is a name, and no dollar sign stands inside a
/// reference.
pub proof fn lemma_reference_shape(text: Seq<char>, at: int)
    requires
        reference_at(text, at) is Some,
    ensures
        is_name(reference_at(text, at)->0.name),
        forall|k: int| at < k < reference_at(text, at)->0.end ==> #[trigger] text[k] != '$',
{
    lemma_reference_at(text, at);
    lemma_run_end(text, at + 1, CharClass::Name);
    lemma_run_end(text, at + 2, CharClass::Name);
    let r = reference_at(text, at)->0;
    if is_name_start(text[at + 1]) {
        assert(forall|k: int| 0 <= k < r.name.len() ==> r.name[k] == text[at + 1 + k]);
    } else {
        assert(forall|k: int| 0 <= k < r.name.len() ==> r.name[k] == text[at + 2 + k]);
    }
}

/// Where no reference to an undefined variable begins at or after `from`,
/// none is found from there.
proof fn lemma_none_undefined_from(text: Seq<char>, env: Variables, from: int)
    requires
        forall|k: int| from <= k < text.len() ==> !undefined_at(text, env, k),
    ensures
        first_undefined_from(text, env, from) is None,
    decreases text.len() - from,
{
    if 0 <= from < text.len() {
        lemma_reference_at(text, from);
        assert(!undefined_at(text, env, from));
        match reference_at(text, from) {
            Some(r) => lemma_none_undefined_from(text, env, r.end),
            None => lemma_none_undefined_from(text, env, from + 1),
        }
    }
}

/// The search from `from` finds the reference to an undefined variable at
/// `at`, where none begins between the two.
proof fn lemma_first_undefined_from(text: Seq<char>, env: Variables, from: int, at: int)
    requires
        0 <= from <= at,
        undefined_at(text, env, at),
        forall|k: int| from <= k < at ==> !undefined_at(text, env, k),
    ensures
        first_undefined_from(text, env, from) == Some(reference_at(text, at)->0.name),
    decreases at - from,
{
    if from < at {
        lemma_reference_at(text, from);
        assert(!undefined_at(text, env, from));
        match reference_at(text, from) {
            Some(r) => {
                lemma_reference_shape(text, from);
                if at < r.end {
                    assert(text[at] != '$');
                }
                lemma_first_undefined_from(text, env, r.end, at);
            },
            None => lemma_first_undefined_from(text, env, from + 1, at),
        }
    }
}

/// Interpolation succeeds exactly when every variable that the text refers
/// to is defined.
pub proof fn law_defined_references_resolve(text: Seq<char>, env: Variables)
    ensures
        interpolation(text, env) is Ok <==> forall|at: int| !undefined_at(text, env, at),
{
    if forall|at: int| !undefined_at(text, env, at) {
        lemma_none_undefined_from(text, env, 0);
    }
    if exists|at: int| undefined_at(text, env, at) {
        let at = choose|at: int| undefined_at(text, env, at);
        law_first_undefined_is_reported(text, env, at);
    }
}

/// Where a text refers to a variable that is not defined, interpolation
/// fails, and the error names the first such reference: the one before
/// which no other begins.
pub proof fn law_first_undefined_is_reported(text: Seq<char>, env: Variables, at: int)
    requires
        undefined_at(text, env, at),
    ensures
        interpolation(text, env) is Err,
        (forall|k: int| 0 <= k < at ==> !undefined_at(text, env, k)) ==> interpolation(text, env)
            == Err::<Seq<char>, crate::error::ErrorView>(
            crate::error::ErrorView::UndefinedEnvironmentVariable(reference_at(text, at)->0.name),
        ),
    decreases at,
{
    if forall|k: int| 0 <= k < at ==> !undefined_at(text, env, k) {
        lemma_first_undefined_from(text, env, 0, at);
    } else {
        let k = choose|k: int| 0 <= k < at && undefined_at(text, env, k);
        law_first_undefined_is_reported(text, env, k);
    }
}

/// A run of characters lies in a text where it lies in what is left of the
/// text after its first `d` characters, `d` positions later.
proof fn lemma_run_end_skip(s: Seq<char>, d: int, from: int, class: CharClass)
    requires
        0 <= d <= from <= s.len(),
    ensures
        run_end(s, from, class) == run_end(s.skip(d), from - d, class) + d,
    decreases s.len() - from,
{
    if from < s.len() {
        assert(s.skip(d)[from - d] == s[from]);
        if class.has(s[from]) {
            lemma_run_end_skip(s, d, from + 1, class);
        }
    }
}

/// A reference lies in a text where it lies in what is left of the text
/// after its first `d` characters, `d` positions later.
proof fn lemma_reference_at_skip(text: Seq<char>, d: int, at: int)
    requires
        0 <= d <= at,
        d <= text.len(),
    ensures
        match reference_at(text.skip(d), at - d) {
            Some(r) => reference_at(text, at) == Some(Reference { name: r.name, end: r.end + d }),
            None => reference_at(text, at) is None,
        },
{
    let rest = text.skip(d);
    if at < text.len() {
        assert(rest[at - d] == text[at]);
        lemma_run_end(text, at + 1, CharClass::Name);
        lemma_run_end_skip(text, d, at + 1, CharClass::Name);
        if at + 1 < text.len() {
            assert(rest[at + 1 - d] == text[at + 1]);
            lemma_run_end(text, at + 2, CharClass::Name);
            lemma_run_end_skip(text, d, at + 2, CharClass::Name);
            if at + 2 < text.len() {
                assert(rest[at + 2 - d] == text[at + 2]);
            }
            let end = run_end(text, at + 1, CharClass::Name);
            assert(text.subrange(at + 1, end) =~= rest.subrange(at + 1 - d, end - d));
            let close = run_end(text, at + 2, CharClass::Name);
            assert(text.subrange(at + 2, close) =~= rest.subrange(at + 2 - d, close - d));
            if close < text.len() {
                assert(rest[close - d] == text[close]);
            }
        }
    }
}

/// Interpolation looks forward only: what it makes of a text from a position
/// on is what it makes of the rest of the text alone.
pub proof fn lemma_interpolated_from_is_rest(text: Seq<char>, env: Variables, d: int, from: int)
    requires
        0 <= d <= from <= text.len(),
    ensures
        interpolated_from(text, env, from) == interpolated_from(text.skip(d), env, from - d),
        first_undefined_from(text, env, from) == first_undefined_from(text.skip(d), env, from - d),
    decreases text.len() - from,
{
    if from < text.len() {
        lemma_reference_at(text, from);
        lemma_reference_at_skip(text, d, from);
        assert(text.skip(d)[from - d] == text[from]);
        match reference_at(text, from) {
            Some(r) => lemma_interpolated_from_is_rest(text, env, d, r.end),
            None => lemma_interpolated_from_is_rest(text, env, d, from + 1),
        }
    }
}

/// A reference that begins in `head` is the same in `head` alone and in
/// `head` followed by `rest`, where `rest` begins apart.
proof fn lemma_reference_at_head(head: Seq<char>, rest: Seq<char>, at: int)
    requires
        begins_apart(rest),
        0 <= at < head.len(),
    ensures
        reference_at(head + rest, at) == reference_at(head, at),
{
    let text = head + rest;
    assert(forall|k: int| 0 <= k < head.len() ==> text[k] == head[k]);
    if rest.len() > 0 {
        assert(text[head.len() as int] == rest[0]);
    }
    if at + 1 <= head.len() {
        lemma_run_end(head, at + 1, CharClass::Name);
        lemma_run_end_is(text, at + 1, CharClass::Name, run_end(head, at + 1, CharClass::Name));
        let end = run_end(head, at + 1, CharClass::Name);
        assert(text.subrange(at + 1, end) =~= head.subrange(at + 1, end));
    }
    if at + 2 <= head.len() {
        lemma_run_end(head, at + 2, CharClass::Name);
        lemma_run_end_is(text, at + 2, CharClass::Name, run_end(head, at + 2, CharClass::Name));
        let close = run_end(head, at + 2, CharClass::Name);
        assert(text.subrange(at + 2, close) =~= head.subrange(at + 2, close));
    }
}

/// What interpolation makes of `head` followed by `rest`, from a position in
/// `head` on, where `rest` begins apart.
proof fn lemma_interpolated_from_head(
    head: Seq<char>,
    rest: Seq<char>,
    env: Variables,
    from: int,
)
    requires
        begins_apart(rest),
        0 <= from <= head.len(),
    ensures
        interpolated_from(head + rest, env, from) == interpolated_from(head, env, from)
            + interpolated(rest, env),
        first_undefined_from(head + rest, env, from) == if first_undefined_from(head, env, from)
            is Some {
            first_undefined_from(head, env, from)
        } else {
            first_undefined(rest, env)
        },
    decreases head.len() - from,
{
    let text = head + rest;
    if from < head.len() {
        lemma_reference_at(head, from);
        lemma_reference_at_head(head, rest, from);
        assert(text[from] == head[from]);
        match reference_at(head, from) {
            Some(r) => {
                lemma_interpolated_from_head(head, rest, env, r.end);
                assert(value_of(env, r.name) + (interpolated_from(head, env, r.end) + interpolated(
                    rest,
                    env,
                )) =~= (value_of(env, r.name) + interpolated_from(head, env, r.end))
                    + interpolated(rest, env));
            },
            None => {
                lemma_interpolated_from_head(head, rest, env, from + 1);
                assert(seq![head[from]] + (interpolated_from(head, env, from + 1) + interpolated(
                    rest,
                    env,
                )) =~= (seq![head[from]] + interpolated_from(head, env, from + 1)) + interpolated(
                    rest,
                    env,
                ));
            },
        }
    } else {
        lemma_interpolated_from_is_rest(text, env, from, from);
        assert(text.skip(from) =~= rest);
        assert(Seq::<char>::empty() + interpolated(rest, env) =~= interpolated(rest, env));
    }
}

/// A text can be interpolated in two parts wherever the second part begins
/// apart: the results follow each other, and the first undefined variable is
/// that of the first part, or else that of the second.
pub proof fn law_interpolation_splits(head: Seq<char>, rest: Seq<char>, env: Variables)
    requires
        begins_apart(rest),
    ensures
        interpolated(head + rest, env) == interpolated(head, env) + interpolated(rest, env),
        first_undefined(head + rest, env) == if first_undefined(head, env) is Some {
            first_undefined(head, env)
        } else {
            first_undefined(rest, env)
        },
{
    lemma_interpolated_from_head(head, rest, env, 0);
}

/// A text without a dollar sign is left as it is.
pub proof fn law_plain_text_is_kept(text: Seq<char>, env: Variables)
    requires
        forall|k: int| 0 <= k < text.len() ==> #[trigger] text[k] != '$',
    ensures
        interpolation(text, env) == Ok::<Seq<char>, crate::error::ErrorView>(text),
{
    lemma_plain_text_from(text, env, 0);
    assert(text.skip(0) =~= text);
}

/// A text without a dollar sign is left as it is, from any position on.
proof fn lemma_plain_text_from(text: Seq<char>, env: Variables, from: int)
    requires
        0 <= from <= text.len(),
        forall|k: int| 0 <= k < text.len() ==> #[trigger] text[k] != '$',
    ensures
        interpolated_from(text, env, from) == text.skip(from),
        first_undefined_from(text, env, from) is None,
    decreases text.len() - from,
{
    if from < text.len() {
        lemma_plain_text_from(text, env, from + 1);
        assert(seq![text[from]] + text.skip(from + 1) =~= text.skip(from));
    } else {
        assert(text.skip(from) =~= Seq::<char>::empty());
    }
}

/// A reference in either form, followed by a text that does not continue
/// its name, is replaced by the variable's value, and the text after it is
/// interpolated by itself.
proof fn lemma_reference_then_rest(name: Seq<char>, after: Seq<char>, env: Variables)
    requires
        is_name(name),
        after.len() > 0 ==> !is_name_char(after[0]),
    ensures
        interpolated(bare(name) + after, env) == value_of(env, name) + interpolated(after, env),
        interpolated(braced(name) + after, env) == value_of(env, name) + interpolated(after, env),
        first_undefined(bare(name) + after, env) == if env.contains_key(name) {
            first_undefined(after, env)
        } else {
            Some(name)
        },
        first_undefined(braced(name) + after, env) == first_undefined(bare(name) + after, env),
{
    let n = name.len() as int;
    let short = bare(name) + after;
    assert(forall|k: int| 0 <= k < n ==> short[1 + k] == name[k]);
    assert(short[0] == '$');
    if after.len() > 0 {
        assert(short[1 + n] == after[0]);
    }
    lemma_run_end_is(short, 1, CharClass::Name, 1 + n);
    assert(short.subrange(1, 1 + n) =~= name);
    assert(reference_at(short, 0) == Some(Reference { name, end: 1 + n }));
    lemma_interpolated_from_is_rest(short, env, 1 + n, 1 + n);
    assert(short.skip(1 + n) =~= after);

    let long = braced(name) + after;
    assert(forall|k: int| 0 <= k < n ==> long[2 + k] == name[k]);
    assert(long[0] == '$');
    assert(long[1] == '{');
    assert(long[2 + n] == '}');
    assert(!is_name_start('{'));
    assert(!is_name_char('}'));
    lemma_run_end_is(long, 2, CharClass::Name, 2 + n);
    assert(long.subrange(2, 2 + n) =~= name);
    assert(reference_at(long, 0) == Some(Reference { name, end: 3 + n }));
    lemma_interpolated_from_is_rest(long, env, 3 + n, 3 + n);
    assert(long.skip(3 + n) =~= after);
}

/// A reference is replaced by the variable's value, and what stands before
/// and after it is interpolated by itself: so it is for the bare form, where
/// the text after it does not continue the name, and for the braced form.
pub proof fn law_reference_is_replaced(
    before: Seq<char>,
    name: Seq<char>,
    after: Seq<char>,
    env: Variables,
)
    requires
        is_name(name),
        after.len() > 0 ==> !is_name_char(after[0]),
    ensures
        interpolated(before + bare(name) + after, env) == interpolated(before, env) + value_of(
            env,
            name,
        ) + interpolated(after, env),
        first_undefined(before + bare(name) + after, env) == if first_undefined(before, env)
            is Some {
            first_undefined(before, env)
        } else if env.contains_key(name) {
            first_undefined(after, env)
        } else {
            Some(name)
        },
{
    lemma_reference_then_rest(name, after, env);
    assert((bare(name) + after)[0] == '$');
    law_interpolation_splits(before, bare(name) + after, env);
    assert(before + bare(name) + after =~= before + (bare(name) + after));
    assert(interpolated(before, env) + value_of(env, name) + interpolated(after, env)
        =~= interpolated(before, env) + (value_of(env, name) + interpolated(after, env)));
}

/// The two forms of a reference resolve alike: wherever a bare reference
/// stands whose name the text after it does not continue, the braced
/// reference to the same variable gives the same result in its place.
pub proof fn law_bare_and_braced_agree(
    before: Seq<char>,
    name: Seq<char>,
    after: Seq<char>,
    env: Variables,
)
    requires
        is_name(name),
        after.len() > 0 ==> !is_name_char(after[0]),
    ensures
        interpolation(before + bare(name) + after, env) == interpolation(
            before + braced(name) + after,
            env,
        ),
{
    lemma_reference_then_rest(name, after, env);
    assert((bare(name) + after)[0] == '$');
    assert((braced(name) + after)[0] == '$');
    law_interpolation_splits(before, bare(name) + after, env);
    law_interpolation_splits(before, braced(name) + after, env);
    assert(before + bare(name) + after =~= before + (bare(name) + after));
    assert(before + braced(name) + after =~= before + (braced(name) + after));
}

} // verus!
