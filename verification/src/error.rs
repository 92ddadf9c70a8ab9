//! Errors of block storage and transport.
use vstd::prelude::*;

verus! {

/// Errors of block storage and transport.
#[derive(Debug)]
pub enum Error {
    /// A CID could not be read or formed.
    Cid(String),
    /// Bytes could not be decoded.
    Deserialization(String),
    /// A value could not be encoded.
    Serialization(String),
    /// An internal invariant failed.
    Internal(String),
    /// Stored data is malformed.
    InvalidData(String),
    /// An argument is not acceptable.
    InvalidInput(String),
    /// The storage backend failed.
    Storage(String),
}

/// The variant of an `Error`, without its message.
#[derive(Debug, Clone, Copy, PartialEq, Eq, Structural)]
pub enum ErrorKind {
    Cid,
    Deserialization,
    Serialization,
    Internal,
    InvalidData,
    InvalidInput,
    Storage,
}

impl Error {
    /// The variant of this error.
    pub open spec fn kind(&self) -> ErrorKind {
        match self {
            Error::Cid(_) => ErrorKind::Cid,
            Error::Deserialization(_) => ErrorKind::Deserialization,
            Error::Serialization(_) => ErrorKind::Serialization,
            Error::Internal(_) => ErrorKind::Internal,
            Error::InvalidData(_) => ErrorKind::InvalidData,
            Error::InvalidInput(_) => ErrorKind::InvalidInput,
            Error::Storage(_) => ErrorKind::Storage,
        }
    }

    /// The variant of this error.
    pub fn error_kind(&self) -> (r: ErrorKind)
        ensures r == self.kind(),
    {
        match self {
            Error::Cid(_) => ErrorKind::Cid,
            Error::Deserialization(_) => ErrorKind::Deserialization,
            Error::Serialization(_) => ErrorKind::Serialization,
            Error::Internal(_) => ErrorKind::Internal,
            Error::InvalidData(_) => ErrorKind::InvalidData,
            Error::InvalidInput(_) => ErrorKind::InvalidInput,
            Error::Storage(_) => ErrorKind::Storage,
        }
    }

    /// The message this error carries.
    pub fn message(&self) -> (r: String)
        ensures
            r@ == match self {
                Error::Cid(m) => m@,
                Error::Deserialization(m) => m@,
                Error::Serialization(m) => m@,
                Error::Internal(m) => m@,
                Error::InvalidData(m) => m@,
                Error::InvalidInput(m) => m@,
                Error::Storage(m) => m@,
            },
    {
        match self {
            Error::Cid(m) => m.clone(),
            Error::Deserialization(m) => m.clone(),
            Error::Serialization(m) => m.clone(),
            Error::Internal(m) => m.clone(),
            Error::InvalidData(m) => m.clone(),
            Error::InvalidInput(m) => m.clone(),
            Error::Storage(m) => m.clone(),
        }
    }
}

} // verus!
