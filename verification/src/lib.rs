//! Merges the key/value pairs of several `.env` files into the `[env]` section
//! of a TOML document.
//!
//! `collect` gathers the pairs of the files into one ordered list and refuses
//! a key that two files define. `merge` binds the pairs in the section of an
//! existing document, leaves the rest of the document alone, and writes the
//! document with two marker lines around the section. `laws` states what
//! holds of every input.
pub mod args;
pub mod collect;
pub mod document;
pub mod error;
pub mod flatten;
pub mod laws;
pub mod marker;
pub mod merge;
pub mod order;
pub mod source;
pub mod text;
