//! Parsing of package manifests into a typed configuration.
//!
//! A manifest is line-oriented text in a table-of-tables style: a header
//! line `[package.NAME]` opens the definition of one package, and each
//! following line `key = "value"` adds one field to it.  Blank lines and
//! `#` comments are skipped, and tables other than `package` are accepted
//! and ignored.  [`parse_manifest`] turns such text into a [`Config`]: a
//! key-ordered mapping from package name to [`Package`].
//!
//! The grammar itself is stated in [`grammar`] as specification functions;
//! the parser is proved to return exactly what the grammar says, the
//! general laws of the parser stand proved in [`laws`], and [`emit`] writes
//! a configuration back out as manifest text.

pub mod config;
pub mod emit;
pub mod grammar;
pub mod laws;
pub mod package;
pub(crate) mod scan;
pub mod text;

pub use config::Config;
pub use config::ParseError;
pub use config::parse_manifest;
pub use package::Package;
