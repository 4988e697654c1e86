//! The ways the manager's operations can fail.

use vstd::prelude::*;

verus! {

/// A failure of one of the manager's operations.
#[derive(Debug)]
pub enum PkgError {
    /// More than one repository hash begins with the given text.
    AmbiguousPackage { input: String },
    /// No package or repository of that name is known.
    NotFound { name: String },
    /// A package name holds a character other than an ASCII letter or
    /// digit, `-` or `_`.
    InvalidPackageName { name: String },
    /// A package name could name a directory outside the repositories
    /// directory.
    UnsafePackageName { name: String },
    /// A package depends on a package that is not in the table.
    UnknownDependency { package: String, dependency: String },
    /// The dependencies of the packages form a cycle.
    CircularDependency,
    /// A stored commit is not a hexadecimal object id.
    InvalidCommit { commit: String },
    /// The remote's `HEAD` is not a symbolic reference.
    HeadNotSymbolic,
    /// No reference of the remote ends with the requested name.
    RefNotFound { reference: String },
    /// The repository has none of the build files the manager knows.
    NoBuildSystem,
}

} // verus!
