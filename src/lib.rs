//! Hierarchical registration of trainable parameters.
//!
//! A host structure (a record or a variant type whose fields hold trainable
//! parameters, nested structures, and arrays, lists, tuples and optionals of
//! them) is described by a [`shape::TypeDef`]. [`shape::expand_derive_model`]
//! turns that description into a [`shape::Registrar`], which walks a live
//! instance and names every leaf and branch with a dotted path. The
//! [`registry::Registry`] keeps, for each host identity, the model entity that
//! holds those names.

use vstd::prelude::*;

pub mod naming;
pub mod table;
pub mod registry;
pub mod shape;
pub mod parameter;
pub mod walk;
pub mod model;
pub mod lock;
pub mod serialize;
