//! The library's failure taxonomy. Every fallible operation of the library
//! reports one of these values; rendering them for the user is left to the
//! binary around the library.

use vstd::prelude::*;

use crate::commands::add;
use crate::paths::NormPath;

verus! {

/// All `Result`s of the library's fallible operations use this error type.
#[derive(Debug)]
pub enum AppError {
    /// The configuration document is malformed: it does not follow the
    /// strict schema the library writes.
    ConfigParse,
    /// The configuration cannot be rendered because a mapping segment holds
    /// a byte that the document format cannot carry (a quote, a backslash
    /// or a line break). Carries the offending mapping.
    ConfigSerialize(NormPath),
    /// The configuration nests one mapping inside another, which is not
    /// supported. Carries the nested entry and the entry it is nested in.
    ConfigNestedLinks(NormPath, NormPath),
    /// A configured mapping is an absolute path, which is not valid:
    /// mappings are relative to the repository root. Carries the path.
    ConfigAbsoluteLink(NormPath),
    /// The user configuration directory does not lie below the home
    /// directory, so no repository-relative configuration location exists.
    FsResolveConfig,
    /// A failure specific to the `add` operation. Carries the failure
    /// itself.
    CmdAddError(add::Error),
}

} // verus!
