//! Secretfiles: small declarative tables that bind the names under which an
//! application asks for its credentials to locations in a secret store.
//!
//! A Secretfile is read line by line.  Blank lines and `#` comments are
//! skipped, and every other line must have the form `NAME PATH:KEY`.
//! References to environment variables in `PATH`, written `$VAR` or `${VAR}`,
//! are replaced by their values from an [`Environment`] that the caller hands
//! in.  Reading is all or nothing: the first line that cannot be read fails
//! the whole file.
//!
//! [`Secretfile::read`] reads a table from bytes and [`Secretfile::get`]
//! looks a name up in it.  What reading gives is said by the functions
//! `parsed`, `classify` and `interpolation` of the modules [`secretfile`],
//! [`line`] and [`interpolate`]; the module [`laws`] proves what follows
//! from them for every file, line and path.

mod assoc;
pub mod chars;
pub mod environment;
pub mod error;
pub mod interpolate;
pub mod laws;
pub mod line;
pub mod secretfile;
pub mod source;
pub mod text;

pub use crate::environment::Environment;
pub use crate::error::Error;
pub use crate::secretfile::{Location, Secretfile};
