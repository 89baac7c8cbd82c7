//! The error kinds a comparison can fail with.  A failure concerns one
//! file pair only and never aborts the processing of sibling pairs.

use vstd::prelude::*;

verus! {

/// Why comparing one file pair failed.  Each variant carries a detail
/// string, typically the path or diagnostic output involved.
#[derive(Debug, Clone)]
pub enum CompareError {
    /// A compared path does not exist.
    NotFound(String),
    /// Opening, reading, or inspecting a file failed.
    Io(String),
    /// Decoding a file's bytes as text failed.
    Encoding(String),
    /// The external whole-line sort facility failed or produced
    /// undecodable output.
    Sort(String),
    /// Invoking the external whole-file compare facility failed.
    Process(String),
}

impl CompareError {
    /// The detail string the error carries.
    pub fn detail(&self) -> (r: &String)
        ensures
            *self matches CompareError::NotFound(d) ==> r@ == d@,
            *self matches CompareError::Io(d) ==> r@ == d@,
            *self matches CompareError::Encoding(d) ==> r@ == d@,
            *self matches CompareError::Sort(d) ==> r@ == d@,
            *self matches CompareError::Process(d) ==> r@ == d@,
    {
        match self {
            CompareError::NotFound(d) => d,
            CompareError::Io(d) => d,
            CompareError::Encoding(d) => d,
            CompareError::Sort(d) => d,
            CompareError::Process(d) => d,
        }
    }
}

} // verus!
