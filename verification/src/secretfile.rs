//! The Secretfile: a table from credential names to locations in a secret
//! store, read from text.

use crate::assoc::Assoc;
use crate::environment::{Environment, Variables};
use crate::error::{Error, ErrorView};
use crate::interpolate::{interpolate_env_vars, interpolation};
use crate::line::{classify, parse_line, Line, LineView};
use crate::source::{cut_line, lines_from, lines_of};
use crate::text::decode;
use vstd::prelude::*;
use vstd::string::StringExecFns;
use vstd::utf8::{decode_utf8, encode_utf8, valid_utf8};

verus! {

/// Where a credential is kept in the secret store.
#[derive(Debug, PartialEq, Eq)]
pub enum Location {
    /// In a secret that holds a dictionary: the path of the secret, and the
    /// key of the credential in it.
    Keyed(String, String),
}

/// A [`Location`] with its strings as sequences of characters.
pub enum LocationView {
    Keyed(Seq<char>, Seq<char>),
}

impl View for Location {
    type V = LocationView;

    open spec fn view(&self) -> LocationView {
        match self {
            Location::Keyed(path, key) => LocationView::Keyed(path@, key@),
        }
    }
}

impl Clone for Location {
    /// The same location.
    fn clone(&self) -> (copy: Self)
        ensures
            copy@ == self@,
    {
        match self {
            Location::Keyed(path, key) => Location::Keyed(path.clone(), key.clone()),
        }
    }
}

/// What a table holds: the location of each name.
pub type Table = Map<Seq<char>, LocationView>;

/// What an entry binds: a name, and the location that it is kept at.
pub type Binding = (Seq<char>, LocationView);

/// What one line of text says in `env`: nothing, or that a name is kept at a
/// location, or why it cannot be read.  The path of an entry is interpolated
/// in `env`; its name and key are taken as they are.
pub open spec fn binding_of(line: Seq<char>, env: Variables) -> Result<Option<Binding>, ErrorView> {
    match classify(line) {
        LineView::Blank => Ok(None),
        LineView::Malformed => Err(ErrorView::MalformedLine(line)),
        LineView::Entry { name, path, key } => match interpolation(path, env) {
            Ok(resolved) => Ok(Some((name, LocationView::Keyed(resolved, key)))),
            Err(error) => Err(error),
        },
    }
}

/// What one line of bytes says in `env`: what the text says that it encodes
/// in UTF-8, or that it encodes none.
pub open spec fn binding_of_bytes(line: Seq<u8>, env: Variables) -> Result<
    Option<Binding>,
    ErrorView,
> {
    if valid_utf8(line) {
        binding_of(decode_utf8(line), env)
    } else {
        Err(ErrorView::IoFailure)
    }
}

/// The table that `lines` make in `env`, read in order: each entry binds its
/// name, in place of any entry of that name before it.  Where a line cannot
/// be read, the result is the error of the first such line.
pub open spec fn table_of(lines: Seq<Seq<u8>>, env: Variables) -> Result<Table, ErrorView>
    decreases lines.len(),
{
    if lines.len() == 0 {
        Ok(Map::empty())
    } else {
        match table_of(lines.drop_last(), env) {
            Err(error) => Err(error),
            Ok(table) => match binding_of_bytes(lines.last(), env) {
                Err(error) => Err(error),
                Ok(None) => Ok(table),
                Ok(Some((name, location))) => Ok(table.insert(name, location)),
            },
        }
    }
}

/// What reading the Secretfile `source` in `env` gives.
pub open spec fn parsed(source: Seq<u8>, env: Variables) -> Result<Table, ErrorView> {
    table_of(lines_of(source), env)
}

/// Once a line has failed, the lines after it change nothing.
pub proof fn lemma_error_stays(lines: Seq<Seq<u8>>, more: Seq<Seq<u8>>, env: Variables)
    requires
        table_of(lines, env) is Err,
    ensures
        table_of(lines + more, env) == table_of(lines, env),
    decreases more.len(),
{
    if more.len() == 0 {
        assert(lines + more =~= lines);
    } else {
        lemma_error_stays(lines, more.drop_last(), env);
        assert((lines + more).drop_last() =~= lines + more.drop_last());
    }
}

/// A table from the names under which an application asks for its
/// credentials to their locations in the secret store.  It is made by
/// reading a Secretfile, and does not change afterwards.  It holds each name
/// once, and keeps its entries in the order of their names.
#[derive(Debug)]
pub struct Secretfile {
    mappings: Assoc<Location>,
}

impl View for Secretfile {
    type V = Table;

    /// The table as a map from each name to its location.
    closed spec fn view(&self) -> Table {
        self.mappings@.map_values(|location: Location| location@)
    }
}

impl Clone for Secretfile {
    /// A table that holds the same.
    fn clone(&self) -> (copy: Self)
        ensures
            copy@ == self@,
    {
        let copy = Secretfile { mappings: self.mappings.clone() };
        assert(copy@ =~= self@);
        copy
    }
}

/// Reads one line of a Secretfile, given as bytes without the line ending.
pub fn read_line(line: &[u8], env: &Environment) -> (result: Result<
    Option<(String, Location)>,
    Error,
>)
    ensures
        match binding_of_bytes(line@, env@) {
            Ok(None) => result matches Ok(None),
            Ok(Some((name, location))) => result matches Ok(Some(binding)) && binding.0@ == name
                && binding.1@ == location,
            Err(error) => result matches Err(e) && e@ == error,
        },
{
    let text = match decode(line) {
        Some(text) => text,
        None => {
            return Err(Error::IoFailure);
        },
    };
    match parse_line(text) {
        Line::Blank => Ok(None),
        Line::Malformed => Err(Error::MalformedLine(String::from_str(text))),
        Line::Entry { name, path, key } => match interpolate_env_vars(path.as_str(), env) {
            Ok(resolved) => Ok(Some((name, Location::Keyed(resolved, key)))),
            Err(error) => Err(error),
        },
    }
}

impl Secretfile {
    /// A table without entries.
    fn new() -> (table: Self)
        ensures
            table@ == Map::<Seq<char>, LocationView>::empty(),
    {
        let table = Secretfile { mappings: Assoc::new() };
        assert(table@ =~= Map::<Seq<char>, LocationView>::empty());
        table
    }

    /// Binds `name` to `location`, in place of what it was bound to before.
    fn insert(&mut self, name: String, location: Location)
        ensures
            final(self)@ == old(self)@.insert(name@, location@),
    {
        self.mappings.insert(name, location);
        assert(self@ =~= old(self)@.insert(name@, location@));
    }

    /// Reads a Secretfile from the bytes of `source`, resolving the
    /// references to environment variables in its paths against `env`.
    ///
    /// The lines are read in order.  The first line that is not valid UTF-8,
    /// that is malformed, or whose path refers to a variable that `env` does
    /// not define ends the reading with its error, and no table is returned.
    pub fn read(source: &[u8], env: &Environment) -> (result: Result<Secretfile, Error>)
        ensures
            match parsed(source@, env@) {
                Ok(table) => result matches Ok(secretfile) && secretfile@ == table,
                Err(error) => result matches Err(e) && e@ == error,
            },
    {
        let mut table = Secretfile::new();
        let mut at: usize = 0;
        let ghost mut done: Seq<Seq<u8>> = Seq::empty();
        assert(done + lines_from(source@, 0) =~= lines_of(source@));
        while at < source.len()
            invariant
                at <= source@.len(),
                lines_of(source@) == done + lines_from(source@, at as int),
                table_of(done, env@) == Ok::<Table, ErrorView>(table@),
            decreases source@.len() - at,
        {
            let cut = cut_line(source, at);
            proof {
                let rest = lines_from(source@, cut.next as int);
                assert(done.push(cut.line@).drop_last() =~= done);
                assert(done + (seq![cut.line@] + rest) =~= done.push(cut.line@) + rest);
                if binding_of_bytes(cut.line@, env@) is Err {
                    lemma_error_stays(done.push(cut.line@), rest, env@);
                }
                done = done.push(cut.line@);
            }
            match read_line(cut.line, env) {
                Ok(None) => {},
                Ok(Some(binding)) => {
                    table.insert(binding.0, binding.1);
                },
                Err(error) => {
                    return Err(error);
                },
            }
            at = cut.next;
        }
        assert(done + lines_from(source@, at as int) =~= done);
        Ok(table)
    }

    /// Reads a Secretfile from a string.
    pub fn from_str(s: &str, env: &Environment) -> (result: Result<Secretfile, Error>)
        ensures
            match parsed(encode_utf8(s@), env@) {
                Ok(table) => result matches Ok(secretfile) && secretfile@ == table,
                Err(error) => result matches Err(e) && e@ == error,
            },
    {
        Secretfile::read(s.as_bytes(), env)
    }

    /// The location of the credential `name`, if the table holds one.
    pub fn get(&self, name: &str) -> (found: Option<&Location>)
        ensures
            match found {
                Some(location) => self@.contains_key(name@) && location@ == self@[name@],
                None => !self@.contains_key(name@),
            },
    {
        self.mappings.get(name)
    }
}

} // verus!
