//! Partial obfuscation of sensitive JSON values: collect the values of
//! sensitive fields, give each a distinct replacement of the same shape, and
//! replace them in the documents' text.
pub mod chars;
pub mod mapping;
pub mod matcher;
pub mod members;
pub mod obfuscate;
pub mod order;
pub mod replacer;
pub mod rerun;
pub mod sensitive;
pub mod text;
