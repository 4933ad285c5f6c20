//! Binds a configuration document — a generic JSON-like value tree — to a
//! structural schema compiled from a network-configuration modeling
//! language, producing a fully-typed instance tree.
//!
//! The schema compiler ([`model`]) turns a raw element tree into a closed
//! set of node kinds — leaf, leaf-list, container, list — resolving
//! choice/case indirection away. The instance binder ([`instance`]) walks a
//! document value ([`doc`]) against that schema to build an addressable
//! instance tree: it coerces scalar values to strings, resolves field names
//! between the document's and the schema's naming conventions, computes
//! composite keys for list entries and rejects duplicates, and wires every
//! node to its parent so that paths and ancestor queries can be answered.
//!
//! Every executable function carries a contract relating it to a
//! mathematical description of compilation and binding, and the stated
//! properties — stable paths, one list entry per element, duplicate keys
//! always detected, choice flattening — are proved, not just tested.

use vstd::prelude::*;

pub mod doc;
pub mod element;
pub mod instance;
pub mod model;
pub mod names;

verus! {

/// A failure while compiling a raw schema element tree into the model.
#[derive(Debug, Clone, PartialEq, Eq)]
pub enum SchemaError {
    /// An element that must carry a `name` attribute lacks one.
    MissingName,
    /// A list element lacks its required key declaration.
    MissingKeyDeclaration,
    /// The designated schema root element cannot be located.
    UnresolvableSchemaRoot,
}

} // verus!
