//! A file-backed task store: task records persisted as delimiter-framed
//! text files with a structured key/value header and a free-form body,
//! a store root resolved through a layered configuration fallback, and
//! listing and status-transition operations over the record files.
pub mod actions;
pub mod codec;
pub mod config;
pub mod header;
pub mod paths;
pub mod store;
pub mod text;

use vstd::prelude::*;

verus! {

/// Ways in which resolving the store root directory can fail.
#[derive(Clone, Copy, Debug, PartialEq, Eq, Structural)]
pub enum ConfigError {
    /// The platform could not supply a home directory.
    HomeDirUnavailable,
    /// The configuration file exists but is not a valid document.
    ConfigParse,
}

/// Ways in which decoding a record file can fail.
#[derive(Clone, Copy, Debug, PartialEq, Eq, Structural)]
pub enum DecodeError {
    /// Fewer than two header delimiters were found.
    MalformedRecord,
    /// The header block is not a valid key/value document, or a
    /// required field is missing.
    HeaderParse,
}

} // verus!
