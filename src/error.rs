use vstd::prelude::*;

verus! {

/// Why an operation of the storage engine failed.
#[derive(Debug, Clone, Copy, PartialEq, Eq, Structural)]
pub enum CoreError {
    /// The request's shape is wrong: no columns, or a row whose length is not
    /// the number of columns.
    MalformedRequest,
    /// The tenant's directory could not be made.
    DirectoryError,
    /// An artifact could not be turned into text.
    SerializationError,
    /// The stored schema is not a schema.
    SchemaCorrupt,
    /// The stored metadata is not metadata.
    MetaCorrupt,
    /// The stored index is not an index.
    IndexCorrupt,
    /// Sealing a payload failed.
    EncryptionError,
    /// A blob did not authenticate: wrong key or altered bytes.
    DecryptionFailed,
    /// A blob is shorter than a nonce.
    InvalidFormat,
    /// The opened bytes are not UTF-8 text.
    InvalidEncoding,
    /// An artifact is not on disk.
    FileNotFound,
    /// An artifact could not be written.
    WriteFailed,
    /// The current time could not be read from the system clock.
    ClockUnavailable,
}

} // verus!
