//! Pile: a catalog of project directories kept under one workspace root.
//!
//! The library holds the catalog's rules: how a project name is cleaned,
//! where a project's directory lies, how tags are stored in one text field,
//! and how the catalog is queried, added to, renamed and pruned. Reading and
//! writing the catalog file and touching directories happen around it.
use vstd::prelude::*;

pub mod errors;
pub mod text;
pub mod tags;
pub mod catalog;
pub mod query;
pub mod project;
pub mod ops;

pub use errors::Errors;
