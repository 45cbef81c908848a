//! An in-memory INI store: parse INI text into a document, read values back
//! as strings, integers or booleans, and modify, add or remove entries.
use vstd::prelude::*;

pub mod document;
pub mod laws;
pub mod lines;
pub mod model;
pub mod text;
pub mod value;

pub use document::{Document, Entry};
pub use model::{Error, Limits};

verus! {

/// Library version string.
pub const VERSION: &'static str = "V1.0.1";

} // verus!
