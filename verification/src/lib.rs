//! Patches a TOML document by a batch of "set this dotted path to this
//! value" and "delete this dotted path" updates, and leaves the rest of the
//! document as it is.
//!
//! A batch is planned before anything is changed: the two lists are split,
//! each path is checked, each value is read, and the updates are put in the
//! order in which they are applied, deepest path first. Each update then
//! changes the document in the way that disturbs it least: a value is
//! overwritten in place, a new value under an existing table becomes a
//! dotted key, and tables are made only where there is no other way.
//!
//! The document itself is kept by `toml_edit`. The contracts speak of its
//! shape, a tree of tables and values. The module `document` says what is
//! taken on trust about `toml_edit`, and the module `text` what is taken on
//! trust about the standard library's handling of characters and numbers.

pub mod apply;
pub mod document;
pub mod error;
pub mod laws;
pub mod patch;
pub mod plan;
pub mod text;
pub mod tree;
pub mod value;

pub use error::TomlPatchError;
pub use patch::{echo_toml, update_toml_values};
