//! The kinds of failure that the store reports, kept apart so that a caller
//! can tell them from one another.

use vstd::prelude::*;

verus! {

/// Why a transaction was refused before anything was written.
#[derive(Clone, Copy, Debug, PartialEq, Eq, Structural)]
pub enum ValidationError {
    /// A transaction to insert already carries an identifier.
    UnexpectedId,
    /// A transaction to edit carries no identifier.
    MissingId,
    /// The date is no day of the calendar.
    InvalidDate,
    /// The name is empty.
    EmptyName,
    /// The category is empty.
    EmptyCategory,
    /// The bank is empty.
    EmptyBank,
    /// The transaction has no type tag at all.
    NoTransactionTypes,
    /// One of the type tags is the empty text.
    EmptyTransactionType,
}

/// Why the storage layer could not finish a write. Whatever had been written
/// of it is taken back before the error is returned.
#[derive(Clone, Copy, Debug, PartialEq, Eq, Structural)]
pub enum StorageError {
    /// Two association rows would share the key (transaction id, tag).
    DuplicateLink,
    /// A row with the same identifier is already stored.
    DuplicateId,
    /// No identifier is left above the largest one in use.
    IdentifiersExhausted,
}

/// A failed call on the transaction repository.
#[derive(Clone, Copy, Debug, PartialEq, Eq, Structural)]
pub enum Error {
    /// The transaction was refused as malformed.
    Validation(ValidationError),
    /// No stored transaction has the identifier.
    NotFound,
    /// The write failed in the storage layer and was rolled back.
    Storage(StorageError),
}

/// A reference value was already present in its set.
#[derive(Clone, Copy, Debug, PartialEq, Eq, Structural)]
pub struct DuplicateError;

/// Why no store could be opened. No connection is installed after it.
#[derive(Clone, Copy, Debug, PartialEq, Eq, Structural)]
pub enum InitializationError {
    /// The file exists and the passphrase does not decrypt it.
    WrongPassphrase,
    /// The filesystem denied access to the file or its directory.
    AccessDenied,
    /// The file was decrypted and its content breaks the schema's rules.
    Corrupt,
}

} // verus!
