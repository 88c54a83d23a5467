//! Why a table could not be built.

use vstd::prelude::*;

verus! {

/// The ways in which loading a table fails. A lookup that finds nothing is
/// no error: it answers with no code.
#[derive(Debug, Clone, PartialEq, Eq)]
pub enum Error {
    /// The source could not be read; the text says why.
    Io(String),
    /// A line is not of the form `start,end,code`. Lines count from 1.
    MalformedInput { line: usize },
}

pub type Result<T> = core::result::Result<T, Error>;

} // verus!
