//! Sysctl-style configuration: `key = value` lines read into a nested tree, and the tree
//! held against a schema of `key -> type` lines.
//!
//! - [`text`]: characters, trimming, splitting at dots and into lines.
//! - [`scalar`]: which strings spell an integer, a floating-point number, a boolean.
//! - [`tree`]: the tree, its model, lookup and insertion by dotted key.
//! - [`keyset`]: a set of keys.
//! - [`error`]: the failures.
//! - [`parser`]: reading configuration lines into a tree.
//! - [`schema`]: the scalar types and the declarations of a schema.
//! - [`loader`]: reading a schema, and reading configurations that must conform to it.
//!
//! Each function says in its contract what it returns, over the models that the modules
//! define; the lemmas state what holds of those models in general.

pub mod error;
pub mod keyset;
pub mod loader;
pub mod parser;
pub mod scalar;
pub mod schema;
pub mod text;
pub mod tree;

pub use crate::error::SysctlError;
pub use crate::keyset::KeySet;
pub use crate::loader::SysctlConfigLoader;
pub use crate::parser::{insert_entry_of_line, load_sysctl, load_sysctl_from_reader};
pub use crate::schema::{SysctlConfigSchema, SysctlConfigType};
pub use crate::tree::{SysctlConfig, SysctlConfigValue};
