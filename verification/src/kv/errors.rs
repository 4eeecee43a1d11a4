//! The error type shared by every operation of the store.
use vstd::prelude::*;
use vstd::std_specs::convert::FromSpecImpl;

verus! {

/// `std::io::Error`, carried through unread.
#[verifier::external_type_specification]
#[verifier::external_body]
pub struct ExIoError(std::io::Error);

/// `std::array::TryFromSliceError`, carried through unread.
#[verifier::external_type_specification]
#[verifier::external_body]
pub struct ExTryFromSliceError(std::array::TryFromSliceError);

/// `std::string::FromUtf8Error`, carried through unread.
#[verifier::external_type_specification]
#[verifier::external_body]
pub struct ExFromUtf8Error(std::string::FromUtf8Error);

/// `bincode::ErrorKind`, carried through unread.
#[verifier::external_type_specification]
#[verifier::external_body]
pub struct ExBincodeErrorKind(bincode::ErrorKind);

/// What can go wrong in the store.
///
/// `EOF` is the clean end of the log: replay and record reads consume it, and
/// no operation of the engine hands it to a caller. The three `…Decode`
/// variants tell the ways in which a record can be corrupt apart.
#[derive(Debug)]
pub enum XKVError {
    /// A failure of the underlying device, with its cause.
    IO(std::io::Error),
    /// The supplied directory cannot be used.
    InvalidDataPath,
    /// The key is not live in the store.
    KeyNotFound,
    /// A read found no byte at its offset.
    EOF,
    /// The fixed-width header is malformed: fewer bytes than a header has.
    SliceDecode(std::array::TryFromSliceError),
    /// The state tag of a header is none of the known ones.
    ReprDecode(Box<bincode::ErrorKind>),
    /// The bytes of a key or of a value are not valid UTF-8.
    StringDecode(std::string::FromUtf8Error),
}

impl From<std::io::Error> for XKVError {
    fn from(err: std::io::Error) -> (e: XKVError) {
        XKVError::IO(err)
    }
}

impl FromSpecImpl<std::io::Error> for XKVError {
    open spec fn obeys_from_spec() -> bool {
        true
    }

    open spec fn from_spec(err: std::io::Error) -> XKVError {
        XKVError::IO(err)
    }
}

impl From<std::array::TryFromSliceError> for XKVError {
    fn from(value: std::array::TryFromSliceError) -> (e: XKVError) {
        XKVError::SliceDecode(value)
    }
}

impl FromSpecImpl<std::array::TryFromSliceError> for XKVError {
    open spec fn obeys_from_spec() -> bool {
        true
    }

    open spec fn from_spec(value: std::array::TryFromSliceError) -> XKVError {
        XKVError::SliceDecode(value)
    }
}

impl From<Box<bincode::ErrorKind>> for XKVError {
    fn from(value: Box<bincode::ErrorKind>) -> (e: XKVError) {
        XKVError::ReprDecode(value)
    }
}

impl FromSpecImpl<Box<bincode::ErrorKind>> for XKVError {
    open spec fn obeys_from_spec() -> bool {
        true
    }

    open spec fn from_spec(value: Box<bincode::ErrorKind>) -> XKVError {
        XKVError::ReprDecode(value)
    }
}

impl From<std::string::FromUtf8Error> for XKVError {
    fn from(value: std::string::FromUtf8Error) -> (e: XKVError) {
        XKVError::StringDecode(value)
    }
}

impl FromSpecImpl<std::string::FromUtf8Error> for XKVError {
    open spec fn obeys_from_spec() -> bool {
        true
    }

    open spec fn from_spec(value: std::string::FromUtf8Error) -> XKVError {
        XKVError::StringDecode(value)
    }
}

} // verus!
