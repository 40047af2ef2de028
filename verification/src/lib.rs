//! Compose a reusable shell command template out of named transformations,
//! keeping a provenance trail of every step applied.
//!
//! A [`Context`] carries metadata, an environment snapshot and a shell
//! template holding exactly one placeholder token; composition operations
//! rewrite the template around that token and append to the step log.

pub mod placeholder;
pub mod strutil;
pub mod text;
pub mod model;
pub mod ops;
pub mod codec;
pub mod render;
pub mod store;
pub mod dispatch;

use vstd::prelude::*;

verus! {

/// The error taxonomy: every fallible entry point reports one of these.
#[derive(Clone, Copy, Debug, PartialEq, Eq, Structural)]
pub enum FrsError {
    /// The per-user configuration root or the session identity cannot be resolved.
    Configuration,
    /// A named context was loaded but no record exists at its address.
    NotFound,
    /// The composition entry point was given an unrecognized operation name.
    UnknownOperation,
    /// A read, write or directory creation failed.
    Io,
    /// A persisted record cannot be decoded.
    Encoding,
}

} // verus!
