//! A verified core for a line-oriented configuration language with
//! dot-delimited keys.
//!
//! Raw text lines such as `log.file.dir = /var/log` are parsed into a
//! hierarchical tree of sections and scalar values; an optional flat schema
//! maps literal key strings to declared type names (`bool`, `integer`,
//! `String`, or anything else, which passes through) and each leaf value is
//! checked against it. I/O and JSON rendering live outside this crate.

pub mod builder;
pub mod error;
pub mod literals;
pub mod schema;
pub mod text;
pub mod value;

pub use error::ConfigError;

pub use value::ConfigValue;
pub use value::SpecValue;
