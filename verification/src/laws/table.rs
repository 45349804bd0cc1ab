//! What holds of every table that is read from lines.

use crate::environment::Variables;
use crate::error::ErrorView;
use crate::interpolate::{first_undefined, interpolated};
use crate::laws::interpolation::{
    law_defined_references_resolve, law_first_undefined_is_reported, undefined_at,
};
use crate::laws::line::{is_gap, is_path, is_token, law_entry_has_parts, law_entry_line_is_read};
use crate::line::{classify, is_blank, LineView};
use crate::secretfile::{
    binding_of_bytes, lemma_error_stays, parsed, table_of, LocationView, Table,
};
use crate::source::lines_of;
use vstd::prelude::*;
use vstd::utf8::{decode_utf8, valid_utf8};

verus! {

/// Whether line `i` of `lines` is an entry that binds `name` in `env`.
pub open spec fn binds(lines: Seq<Seq<u8>>, env: Variables, i: int, name: Seq<char>) -> bool {
    &&& 0 <= i < lines.len()
    &&& binding_of_bytes(lines[i], env) matches Ok(Some(binding))
    &&& binding.0 == name
}

/// The location that line `i` of `lines` gives in `env`, where it is an
/// entry.
pub open spec fn location_at(lines: Seq<Seq<u8>>, env: Variables, i: int) -> LocationView
    recommends
        0 <= i < lines.len(),
        binding_of_bytes(lines[i], env) matches Ok(Some(_)),
{
    match binding_of_bytes(lines[i], env) {
        Ok(Some(binding)) => binding.1,
        _ => arbitrary(),
    }
}

/// Reading succeeds exactly when every line can be read.
pub proof fn law_read_is_all_or_nothing(lines: Seq<Seq<u8>>, env: Variables)
    ensures
        table_of(lines, env) is Ok <==> forall|i: int|
            0 <= i < lines.len() ==> (#[trigger] binding_of_bytes(lines[i], env)) is Ok,
    decreases lines.len(),
{
    if lines.len() > 0 {
        let before = lines.drop_last();
        law_read_is_all_or_nothing(before, env);
        assert(forall|i: int| 0 <= i < before.len() ==> before[i] == lines[i]);
        if table_of(lines, env) is Ok {
            assert forall|i: int| 0 <= i < lines.len() implies (#[trigger] binding_of_bytes(
                lines[i],
                env,
            )) is Ok by {
                if i < before.len() {
                    assert(binding_of_bytes(before[i], env) is Ok);
                }
            }
        }
    }
}

/// Reading fails with the error of the first line that cannot be read,
/// however many lines that can be read stand before it, and whatever
/// follows it.
pub proof fn law_first_error_ends_reading(lines: Seq<Seq<u8>>, env: Variables, i: int)
    requires
        0 <= i < lines.len(),
        forall|j: int| 0 <= j < i ==> (#[trigger] binding_of_bytes(lines[j], env)) is Ok,
        binding_of_bytes(lines[i], env) is Err,
    ensures
        table_of(lines, env) == Err::<Table, ErrorView>(binding_of_bytes(lines[i], env)->Err_0),
{
    let before = lines.take(i);
    let upto = lines.take(i + 1);
    assert forall|j: int| 0 <= j < before.len() implies (#[trigger] binding_of_bytes(
        before[j],
        env,
    )) is Ok by {
        assert(before[j] == lines[j]);
    }
    law_read_is_all_or_nothing(before, env);
    assert(upto.drop_last() =~= before);
    assert(upto.last() == lines[i]);
    lemma_error_stays(upto, lines.skip(i + 1), env);
    assert(upto + lines.skip(i + 1) =~= lines);
}

/// A table that was read holds a name exactly when some line binds it.
pub proof fn law_names_come_from_entries(lines: Seq<Seq<u8>>, env: Variables, name: Seq<char>)
    requires
        table_of(lines, env) is Ok,
    ensures
        table_of(lines, env)->Ok_0.contains_key(name) <==> exists|i: int|
            binds(lines, env, i, name),
    decreases lines.len(),
{
    if lines.len() > 0 {
        let before = lines.drop_last();
        let last = lines.len() - 1;
        law_names_come_from_entries(before, env, name);
        assert(forall|i: int| 0 <= i < before.len() ==> before[i] == lines[i]);
        if exists|i: int| binds(before, env, i, name) {
            let i = choose|i: int| binds(before, env, i, name);
            assert(binds(lines, env, i, name));
        }
        if exists|i: int| binds(lines, env, i, name) {
            let i = choose|i: int| binds(lines, env, i, name);
            if i < last {
                assert(binds(before, env, i, name));
            }
        }
        if binds(lines, env, last, name) {
        }
    }
}

/// Whether line `i` of `lines` is the last that binds `name` in `env`.
pub open spec fn binds_last(lines: Seq<Seq<u8>>, env: Variables, i: int, name: Seq<char>) -> bool {
    binds(lines, env, i, name) && forall|j: int|
        i < j < lines.len() ==> !binds(lines, env, j, name)
}

/// Where several lines bind one name, the table holds the location that the
/// last of them gives.
pub proof fn law_last_entry_wins(lines: Seq<Seq<u8>>, env: Variables, i: int, name: Seq<char>)
    requires
        table_of(lines, env) is Ok,
        binds_last(lines, env, i, name),
    ensures
        table_of(lines, env)->Ok_0.contains_key(name),
        table_of(lines, env)->Ok_0[name] == location_at(lines, env, i),
    decreases lines.len(),
{
    let last = lines.len() - 1;
    if i < last {
        let before = lines.drop_last();
        assert(forall|j: int| 0 <= j < before.len() ==> before[j] == lines[j]);
        assert(binds(before, env, i, name));
        assert forall|j: int| i < j < before.len() implies !binds(before, env, j, name) by {
            assert(!binds(lines, env, j, name));
        }
        law_last_entry_wins(before, env, i, name);
        assert(!binds(lines, env, last, name));
    }
}

/// A table that was read holds nothing but what the lines say: each of its
/// names is bound by some line, to the location that the last such line
/// gives.
pub proof fn law_table_holds_last_entries(lines: Seq<Seq<u8>>, env: Variables, name: Seq<char>)
    requires
        table_of(lines, env) matches Ok(table) && table.contains_key(name),
    ensures
        exists|i: int|
            binds_last(lines, env, i, name) && table_of(lines, env)->Ok_0[name] == location_at(
                lines,
                env,
                i,
            ),
    decreases lines.len(),
{
    let last = lines.len() - 1;
    if lines.len() > 0 {
        let table = table_of(lines, env)->Ok_0;
        if binds(lines, env, last, name) {
            assert(binds_last(lines, env, last, name) && table[name] == location_at(
                lines,
                env,
                last,
            ));
        } else {
            let before = lines.drop_last();
            assert(forall|j: int| 0 <= j < before.len() ==> before[j] == lines[j]);
            law_table_holds_last_entries(before, env, name);
            let i = choose|i: int|
                binds_last(before, env, i, name) && table_of(before, env)->Ok_0[name]
                    == location_at(before, env, i);
            assert(binds(lines, env, i, name));
            assert forall|j: int| i < j < lines.len() implies !binds(lines, env, j, name) by {
                if j < last {
                    assert(!binds(before, env, j, name));
                }
            }
            assert(before[i] == lines[i]);
            assert(binds_last(lines, env, i, name) && table[name] == location_at(lines, env, i));
        }
    }
}

/// A source in which every line is blank or a comment gives the empty
/// table.
pub proof fn law_blank_source_is_empty(source: Seq<u8>, env: Variables)
    requires
        forall|i: int|
            0 <= i < lines_of(source).len() ==> valid_utf8(#[trigger] lines_of(source)[i])
                && is_blank(decode_utf8(lines_of(source)[i])),
    ensures
        parsed(source, env) == Ok::<Table, ErrorView>(Map::empty()),
{
    lemma_blank_lines_are_empty(lines_of(source), env);
}

/// Lines that are all blank or comments give the empty table.
proof fn lemma_blank_lines_are_empty(lines: Seq<Seq<u8>>, env: Variables)
    requires
        forall|i: int|
            0 <= i < lines.len() ==> valid_utf8(#[trigger] lines[i]) && is_blank(
                decode_utf8(lines[i]),
            ),
    ensures
        table_of(lines, env) == Ok::<Table, ErrorView>(Map::empty()),
    decreases lines.len(),
{
    if lines.len() > 0 {
        let before = lines.drop_last();
        assert(forall|i: int| 0 <= i < before.len() ==> before[i] == lines[i]);
        lemma_blank_lines_are_empty(before, env);
        assert(valid_utf8(lines[lines.len() - 1]));
    }
}

/// Whether line `i` of `lines` is an entry of `name` whose path refers to
/// defined variables only, and which gives `location`: its key in its path,
/// interpolated in `env`.
pub open spec fn resolves_to(
    lines: Seq<Seq<u8>>,
    env: Variables,
    i: int,
    name: Seq<char>,
    location: LocationView,
) -> bool {
    &&& 0 <= i < lines.len()
    &&& valid_utf8(lines[i])
    &&& classify(decode_utf8(lines[i])) matches LineView::Entry { name: n, path, key }
    &&& n == name
    &&& forall|at: int| !undefined_at(path, env, at)
    &&& location == LocationView::Keyed(interpolated(path, env), key)
}

/// The locations of a table that was read are resolved: each is the key of
/// an entry of its name, in the path of that entry with every reference
/// replaced by the value of a defined variable.
pub proof fn law_locations_are_resolved(lines: Seq<Seq<u8>>, env: Variables, name: Seq<char>)
    requires
        table_of(lines, env) matches Ok(table) && table.contains_key(name),
    ensures
        exists|i: int| resolves_to(lines, env, i, name, table_of(lines, env)->Ok_0[name]),
{
    law_table_holds_last_entries(lines, env, name);
    let table = table_of(lines, env)->Ok_0;
    let i = choose|i: int|
        binds_last(lines, env, i, name) && table[name] == location_at(lines, env, i);
    law_defined_references_resolve(classify(decode_utf8(lines[i]))->path, env);
    assert(resolves_to(lines, env, i, name, table[name]));
}

/// The names of a table that was read are tokens.
pub proof fn law_names_are_tokens(lines: Seq<Seq<u8>>, env: Variables, name: Seq<char>)
    requires
        table_of(lines, env) matches Ok(table) && table.contains_key(name),
    ensures
        is_token(name),
{
    law_names_come_from_entries(lines, env, name);
    let i = choose|i: int| binds(lines, env, i, name);
    law_entry_has_parts(decode_utf8(lines[i]));
}

/// A malformed line fails the whole file with the error that holds the
/// line, however many lines that can be read stand before it.
pub proof fn law_malformed_line_fails(lines: Seq<Seq<u8>>, env: Variables, i: int)
    requires
        0 <= i < lines.len(),
        forall|j: int| 0 <= j < i ==> (#[trigger] binding_of_bytes(lines[j], env)) is Ok,
        valid_utf8(lines[i]),
        classify(decode_utf8(lines[i])) is Malformed,
    ensures
        table_of(lines, env) == Err::<Table, ErrorView>(
            ErrorView::MalformedLine(decode_utf8(lines[i])),
        ),
{
    law_first_error_ends_reading(lines, env, i);
}

/// A line that is not valid UTF-8 fails the whole file, however many lines
/// that can be read stand before it.
pub proof fn law_undecodable_line_fails(lines: Seq<Seq<u8>>, env: Variables, i: int)
    requires
        0 <= i < lines.len(),
        forall|j: int| 0 <= j < i ==> (#[trigger] binding_of_bytes(lines[j], env)) is Ok,
        !valid_utf8(lines[i]),
    ensures
        table_of(lines, env) == Err::<Table, ErrorView>(ErrorView::IoFailure),
{
    law_first_error_ends_reading(lines, env, i);
}

/// A line whose path refers to a variable that is not defined fails the
/// whole file with the error that names the first such variable of the
/// path, however many lines that can be read stand before it.
pub proof fn law_undefined_variable_fails(lines: Seq<Seq<u8>>, env: Variables, i: int, at: int)
    requires
        0 <= i < lines.len(),
        forall|j: int| 0 <= j < i ==> (#[trigger] binding_of_bytes(lines[j], env)) is Ok,
        valid_utf8(lines[i]),
        classify(decode_utf8(lines[i])) is Entry,
        undefined_at(classify(decode_utf8(lines[i]))->path, env, at),
    ensures
        first_undefined(classify(decode_utf8(lines[i]))->path, env) is Some,
        table_of(lines, env) == Err::<Table, ErrorView>(
            ErrorView::UndefinedEnvironmentVariable(
                first_undefined(classify(decode_utf8(lines[i]))->path, env)->0,
            ),
        ),
{
    law_first_undefined_is_reported(classify(decode_utf8(lines[i]))->path, env, at);
    law_first_error_ends_reading(lines, env, i);
}

/// An entry line whose path refers to defined variables only binds its name
/// to its key in the interpolated path: a table that was read holds that
/// location for the name, unless a later line binds the name again.
pub proof fn law_entry_is_found(
    lines: Seq<Seq<u8>>,
    env: Variables,
    i: int,
    name: Seq<char>,
    gap: Seq<char>,
    path: Seq<char>,
    key: Seq<char>,
    trail: Seq<char>,
)
    requires
        table_of(lines, env) is Ok,
        0 <= i < lines.len(),
        valid_utf8(lines[i]),
        decode_utf8(lines[i]) == name + gap + path + seq![':'] + key + trail,
        is_token(name),
        name[0] != '#',
        gap.len() > 0,
        is_gap(gap),
        is_path(path),
        is_token(key),
        is_gap(trail),
        forall|j: int| i < j < lines.len() ==> !binds(lines, env, j, name),
    ensures
        forall|at: int| !undefined_at(path, env, at),
        table_of(lines, env)->Ok_0.contains_key(name),
        table_of(lines, env)->Ok_0[name] == LocationView::Keyed(interpolated(path, env), key),
{
    law_entry_line_is_read(name, gap, path, key, trail);
    law_read_is_all_or_nothing(lines, env);
    assert(binding_of_bytes(lines[i], env) is Ok);
    law_defined_references_resolve(path, env);
    assert(binds(lines, env, i, name));
    law_last_entry_wins(lines, env, i, name);
}

} // verus!
