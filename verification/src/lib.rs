//! A verified library for a flat, line-oriented `key = value` text format.
//!
//! The library converts between such text and typed in-memory records.
//! It has three layers:
//!
//! - a value parser ([`IniValue::from_str`]) that classifies one raw text
//!   token into a typed scalar;
//! - a document parser that folds a whole text into a flat key-to-pair
//!   mapping, later lines overwriting earlier ones;
//! - a record binder that maps the document onto named fields driven by a
//!   schema, with required/optional semantics, and serializes a record
//!   back to text in schema order.
//!
//! Every public operation carries a contract that pins its result down
//! exactly; the laws that hold of the format (quoting round trips,
//! last-occurrence-wins for duplicated keys, integer literals kept exact)
//! are stated as public proof functions next to the code they speak of.

use vstd::prelude::*;

pub mod binder;
pub mod document;
pub mod num;
pub mod text;
pub mod value;

pub use binder::{decode, encode, FieldKind, FieldModel, FieldSpec, Schema};
pub use document::{Document, DuplicateKeys, EmptyValues, PairModel, ParseOptions, RawPair};
pub use value::{ErrorModel, IniError, IniKind, IniValue, ValueModel};

verus! {

/// Converts an INI string into a Rust value.
///
/// The library implements this for its own types; callers may implement
/// it for theirs, typically by decoding a document or a schema-driven
/// record first.
pub trait FromIni: Sized {
    /// Converts an INI string into a Rust value.
    fn from_ini(ini: &str) -> Result<Self, IniError>;
}

/// Converts a Rust value into an INI string.
pub trait ToIni {
    /// Renders the value as INI text.
    fn to_ini(&self) -> String;
}

} // verus!
