//! A registry of build units (executables, standalone modules and package
//! modules) and the dependency graph between them.
//!
//! - `table`: finite maps with string keys, kept as entry lists.
//! - `dependency`: dependency edges and the edge operations of a unit.
//! - `module`, `package`, `version`, `entry`, `error`: the units and their values.
//! - `graph`: the mathematical model of a registry, its invariants and the
//!   lemmas that the operations rest on.
//! - `registry`: the registry itself, every operation proved to keep the invariants.
//! - `laws`: properties of the registry stated and proved over the model.
//! - `text`: string and path primitives taken from `std`.

pub mod text;
pub mod table;
pub mod dependency;
pub mod error;
pub mod version;
pub mod module;
pub mod package;
pub mod entry;
pub mod graph;
pub mod registry;
pub mod laws;
