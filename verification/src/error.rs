//! The error taxonomy. Every failure a caller can see names exactly which
//! identifier or metafile failed and why; "metafile absent" is distinguished
//! from "present but malformed" and from any other I/O failure, because the
//! accessors recover the first into a defined default and surface the rest.

use vstd::prelude::*;
use crate::ident::PackageIdent;
use crate::metadata::MetaFile;

verus! {

#[derive(Clone, Debug)]
pub enum Error {
    /// No installed package matches the identifier.
    PackageNotFound(PackageIdent),
    /// The named metafile does not exist under the install directory.
    MetaFileNotFound(MetaFile),
    /// The named metafile exists but its contents cannot be understood.
    MetaFileMalformed(MetaFile),
    /// A filesystem read failed for a reason other than the file being
    /// absent; the underlying cause is carried as text.
    MetaFileIO(String),
    /// A bind-map line is missing its separator or holds an unparsable token.
    MetaFileBadBind,
    /// A dependency list held an identifier that is not fully qualified.
    FullyQualifiedPackageIdentRequired(String),
    /// A runtime path could not be joined into a single path-list string.
    InvalidPathString,
    /// A string could not be parsed as a package identifier.
    InvalidPackageIdent(String),
    /// A string could not be parsed as a package target.
    InvalidPackageTarget(String),
    /// A `TYPE` metafile body names neither known package kind.
    InvalidPackageType(String),
    /// A package's target does not match the platform it is to run on.
    TargetMatchError(String),
}

} // verus!
