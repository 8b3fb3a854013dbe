//! What went wrong in the domain, and where.
use vstd::prelude::*;

verus! {

/// What went wrong, and the file and line where it was noticed.
#[derive(Debug)]
pub struct Error {
    pub what: String,
    pub file: String,
    pub line: u32,
}

impl Error {
    /// An error saying `what`, noticed at `file`, `line`.
    pub fn new(what: String, file: String, line: u32) -> (r: Self)
        ensures
            r.what == what,
            r.file == file,
            r.line == line,
    {
        Self { what, file, line }
    }

    /// The message of the error: what went wrong.
    pub fn message(&self) -> (r: String)
        ensures
            r@ == self.what@,
    {
        self.what.clone()
    }
}

} // verus!
