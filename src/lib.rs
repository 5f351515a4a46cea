//! Computes RFC 7386 JSON merge patches: the patch that turns one JSON value
//! into another under the merge-patch apply algorithm.
pub mod laws;
pub mod patch;
pub mod value;

pub use patch::generate;
pub use value::{Number, Value};
