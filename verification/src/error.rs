//! The error values this library's analyses can produce.  The surrounding
//! binary attaches operating-system detail (the underlying I/O error) when it
//! reports them; the library itself only decides *that* and *why* an analysis
//! failed.

use vstd::prelude::*;

verus! {

/// A dotted bare key such as `package.metadata` could not be lexed.
#[derive(Debug, Clone, PartialEq, Eq)]
pub enum DottedBareKeyLexError {
    /// A dot stands where a key is expected, or ends the input.
    InvalidDotChar,
    /// A quote character: quoted keys are not supported.
    QuotedKey(char),
    /// Any other character that cannot appear in a bare key.
    InvalidChar(char),
}

/// Automatic dependency discovery failed.
#[derive(Debug, Clone, PartialEq, Eq)]
pub enum AutoReqError {
    /// A required external program could not be run or read; carries the
    /// program's name.
    ProcessError(String),
}

/// The package configuration names an asset this library cannot accept.
#[derive(Debug, Clone, PartialEq, Eq)]
pub enum ConfigError {
    /// No file exists at the asset's source path; carries that path.
    AssetFileNotFound(String),
}

/// An error together with the file it was found in, when one is known.
#[derive(Debug, Clone, PartialEq, Eq)]
pub struct FileAnnotatedError<E>(pub Option<String>, pub E);

} // verus!
