use vstd::prelude::*;

verus! {

/// The errors that pathmap operations report.
///
/// The first seven variants are raised by the routing and lifecycle logic in
/// this crate. `GroupAlreadyExists` and `GroupNotFound` are reserved for
/// future explicit group operations: groups are implicit today, derived from
/// key structure, so no operation raises them. The last three wrap failures
/// of outside collaborators (the storage engine, the host's file system, and
/// the serialization codec) as plain messages.
#[derive(Debug)]
pub enum PathmapError {
    NamespaceAlreadyExists(String),
    NamespaceNotFound(String),
    GroupAlreadyExists(String, String),
    GroupNotFound(String, String),
    ValueAlreadyExists(String),
    ValueNotFound(String),
    InvalidPath(String),
    StorageError(String),
    IoError(String),
    SerializationError(String),
}

} // verus!
