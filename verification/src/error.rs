//! Error taxonomy: invalid paths and documents at the patch layer, missing
//! or colliding items and workspaces at the store layer.

use vstd::prelude::*;

verus! {

/// Errors raised by the patch engine and the document model.
#[derive(Debug)]
pub enum CoreError {
    /// Malformed dot-path, or an attempt to traverse through a non-object.
    InvalidPath(String),
    /// No field at the given path.
    FieldNotFound(String),
    /// A document could not be read back as a typed snapshot.
    Serialization(String),
    /// A state transition a policy layer refused.
    InvalidStateTransition { from: String, to: String },
    /// A field-level constraint was violated.
    Validation(String),
    /// An internal inconsistency.
    Internal(String),
}

/// Errors raised by the item store.
#[derive(Debug)]
pub enum FsError {
    /// No workspace at the given root.
    WorkspaceNotFound(String),
    /// A workspace already exists at the given root.
    WorkspaceExists(String),
    /// No item with the given identifier.
    ItemNotFound(String),
    /// An item with the same slug already exists.
    ItemExists(String),
    /// The identifier is not of the form `<backend>:<slug>`.
    InvalidUid(String),
    /// The slug is empty or otherwise unusable.
    InvalidSlug(String),
    /// An error from the patch engine.
    Core(CoreError),
    /// A snapshot document could not be read back as a typed item.
    Serialization(String),
}

} // verus!
