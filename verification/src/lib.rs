//! A verified pipeline for a bracketed `Key = Value` prototype-definition
//! dialect: a translator that rewrites the dialect into a canonical
//! structured-document text, a decoder that turns the canonical text into
//! typed records, a registry that keys records by their prototype identifier
//! and rejects collisions, and an analyzer that reports the unused
//! identifier ranges of a bounded identifier space.

use vstd::prelude::*;

pub mod errors;
pub mod ini_to_toml;
pub mod manifest;
pub mod pid_usage;
pub mod ranges;
pub mod records;
pub mod registry;
pub mod scalar;
pub mod text;
pub mod toml_de;

verus! {

/// The bound of the prototype identifier space: identifiers live in
/// `[1, MAX_PROTOTYPES - 1]`.
pub const MAX_PROTOTYPES: u16 = 30000;

} // verus!
