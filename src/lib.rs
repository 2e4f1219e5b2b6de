//! Exhaustive validation of data structures.
//!
//! A validation routine checks every constraint of a value and reports all of
//! its failures at once, each attached to the location where it occurred.
use vstd::prelude::*;

pub mod containers;
pub mod error;
pub mod laws;
pub mod validators;

pub use error::{Error, ErrorBuilder, ErrorMap, Location};

verus! {

/// The outcome of a validation: success, or the report of every failure.
pub type Result<T> = std::result::Result<T, Error>;

/// A type whose values can be validated exhaustively.
pub trait Validate {
    /// Validates the value, reporting every failure found.
    fn validate(&self) -> Result<()>;
}

} // verus!
