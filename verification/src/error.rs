use vstd::prelude::*;

use crate::constants::{EEXIST, EINVAL, EIO, EMSGSIZE, ENOENT, ENOMEM, ENOSPC, EOVERFLOW};

verus! {

/// `std::io::Error` is carried through unchanged by the `IoError` variant.
#[verifier::external_type_specification]
#[verifier::external_body]
pub struct ExIoError(std::io::Error);

/// Every way an operation of the store can fail.
#[derive(Debug)]
pub enum DbError {
    KeyNotFound,
    OutOfMemory,
    AllocationFailed,
    OlderTimestamp,
    InvalidArgument,
    InvalidDevice,
    InvalidKeySize,
    InvalidValueSize,
    DatabaseFull,
    DuplicateKey,
    CorruptedData,
    OutOfSpace,
    NumericOverflow,
    SizeMismatch { expected: usize, actual: usize },
    SystemError(i32),
    IoError(std::io::Error),
    ShuttingDown,
    ChannelError,
    InvalidRecord,
    NoDevice,
}

/// The error that a POSIX error number stands for.
pub open spec fn errno_to_error(errno: i32) -> DbError {
    if errno == ENOENT {
        DbError::KeyNotFound
    } else if errno == ENOMEM {
        DbError::OutOfMemory
    } else if errno == EEXIST {
        DbError::OlderTimestamp
    } else if errno == EINVAL {
        DbError::InvalidKeySize
    } else if errno == ENOSPC {
        DbError::DatabaseFull
    } else if errno == EOVERFLOW {
        DbError::NumericOverflow
    } else if errno == EMSGSIZE {
        DbError::SizeMismatch { expected: 0, actual: 0 }
    } else {
        DbError::SystemError(errno)
    }
}

/// The POSIX error number reported for an error.
pub open spec fn error_to_errno(e: DbError) -> i32 {
    match e {
        DbError::InvalidKeySize | DbError::InvalidValueSize => EINVAL,
        DbError::KeyNotFound => ENOENT,
        DbError::DatabaseFull => ENOSPC,
        DbError::OutOfMemory | DbError::AllocationFailed => ENOMEM,
        DbError::OlderTimestamp => EEXIST,
        DbError::NumericOverflow => EOVERFLOW,
        DbError::SystemError(e) => e,
        DbError::SizeMismatch { .. } => EMSGSIZE,
        _ => EIO,
    }
}

impl DbError {
    /// The POSIX error number of this error.
    pub fn errno(&self) -> (r: i32)
        ensures
            r == error_to_errno(*self),
    {
        match self {
            DbError::InvalidKeySize | DbError::InvalidValueSize => EINVAL,
            DbError::KeyNotFound => ENOENT,
            DbError::DatabaseFull => ENOSPC,
            DbError::OutOfMemory | DbError::AllocationFailed => ENOMEM,
            DbError::OlderTimestamp => EEXIST,
            DbError::NumericOverflow => EOVERFLOW,
            DbError::SystemError(e) => *e,
            DbError::SizeMismatch { .. } => EMSGSIZE,
            DbError::IoError(_) => EIO,
            _ => EIO,
        }
    }

    /// The error that a POSIX error number stands for.
    pub fn from_errno(errno: i32) -> (r: DbError)
        ensures
            r == errno_to_error(errno),
    {
        match errno {
            2 => DbError::KeyNotFound,
            12 => DbError::OutOfMemory,
            17 => DbError::OlderTimestamp,
            22 => DbError::InvalidKeySize,
            28 => DbError::DatabaseFull,
            75 => DbError::NumericOverflow,
            90 => DbError::SizeMismatch { expected: 0, actual: 0 },
            _ => DbError::SystemError(errno),
        }
    }
}

impl From<i32> for DbError {
    fn from(errno: i32) -> (r: DbError) {
        DbError::from_errno(errno)
    }
}

impl vstd::std_specs::convert::FromSpecImpl<i32> for DbError {
    open spec fn obeys_from_spec() -> bool {
        true
    }

    open spec fn from_spec(errno: i32) -> DbError {
        errno_to_error(errno)
    }
}

/// Turning an error number into an error and asking that error for its number
/// gives the number back, for every `i32`.
pub proof fn lemma_errno_round_trip(errno: i32)
    ensures
        error_to_errno(errno_to_error(errno)) == errno,
{
}

} // verus!
