//! Language tags as described by BCP 47 (RFC 5646): parsing into typed
//! components, validation, canonicalization and basic range matching.
//!
//! A tag is stored as its normalized text together with the offsets where
//! each component ends; every component is a slice of that text.

pub mod charclass;
pub mod subtags;
pub mod error;
pub mod grammar;
pub mod tables;
pub mod tag;
pub mod laws;

pub use tag::LanguageTag;

pub use error::{ParseError, ValidationError};


