//! A minimal in-memory tabular data store driven by a line-oriented
//! command front end.
//!
//! Values ([`data::Data`]) are tagged scalars that serve both as cell
//! contents and as column identifiers.  A [`table::Table`] is a named,
//! schema-fixed columnar store; a [`database::Database`] is a namespace of
//! uniquely named tables.  Text commands are parsed and bound by the
//! [`command`] module and then executed against a database.

pub mod command;
pub mod data;
pub mod database;
pub mod render;
pub mod table;
