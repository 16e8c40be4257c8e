//! Kernel symbol-type corpus library.
//!
//! The crate parses `.symtypes` dumps, deduplicates type declarations across
//! many source files into a corpus, writes the corpus back out in the
//! consolidated form, and computes structural differences between two corpora.

use vstd::prelude::*;

pub mod diff;
pub mod sym;
pub mod text;

verus! {

/// The error type of `std::io`, opaque to the verifier; it is carried inside
/// [`Error::IO`] so that callers can report the underlying OS failure.
#[verifier::external_type_specification]
#[verifier::external_body]
pub struct ExIoError(std::io::Error);

/// An error of the library: either an I/O failure with a human description and
/// the underlying OS error, or a parse failure described by a
/// `"<path>:<line>: <detail>"` message.
pub enum Error {
    IO { desc: String, io_err: std::io::Error },
    Parse(String),
}

impl Error {
    /// Wraps an OS error together with a human description.
    pub fn new_io(desc: &str, io_err: std::io::Error) -> (r: Error)
        ensures
            r matches Error::IO { desc: d, io_err: e } && d@ == desc@,
    {
        Error::IO { desc: desc.to_owned(), io_err }
    }

    /// Builds a parse error from its description.
    pub fn new_parse(desc: &str) -> (r: Error)
        ensures
            r matches Error::Parse(d) && d@ == desc@,
    {
        Error::Parse(desc.to_owned())
    }
}

} // verus!
