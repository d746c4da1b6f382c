//! A package-store resolver: locates installed packages under a
//! directory-encoded store, picks the best match for a (possibly partial)
//! identifier, and gives typed access to the package's metadata files —
//! dependency lists, service bindings, exported configuration, and the
//! computed runtime environment.
//!
//! The library itself never touches the filesystem: callers walk the store
//! and read metafiles, then hand the raw outcomes in as plain values. Every
//! decision — identifier ordering, best-match selection, metafile parsing,
//! error classification, and the legacy path merge — is made here, under
//! contract.

pub mod error;
pub mod ident;
pub mod install;
pub mod metadata;
pub mod store;
pub mod strutil;
pub mod target;
