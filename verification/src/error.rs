//! The ways in which reading a tilemap fails.

use vstd::prelude::*;

verus! {

/// `std::io::Error`: the error of an input or output operation, carried as
/// it is.
#[verifier::external_type_specification]
#[verifier::external_body]
pub struct ExIoError(std::io::Error);

/// Why a tilemap could not be read.
#[derive(Debug)]
pub enum ReadError {
    /// The input ended inside a structure, or a compressed block could not
    /// be unpacked.
    IoError(std::io::Error),
    /// The input does not begin with the magic string.
    InvalidMagic,
    /// The version of the file is above the last one that is supported.
    UnsupportedVersion(u16),
    /// A property has a type byte that stands for no type.
    InvalidType(u8),
    /// The unpacked data of a layer or sublayer has a length that its grid
    /// cannot have.
    InvalidLayerLength,
    /// A block or a data section has a tag that is not known.
    InvalidHeader(String),
}

/// Why a tilemap could not be read, without what only the host knows of an
/// input error.
pub enum Failure {
    /// The input ended inside a structure, or a compressed block could not
    /// be unpacked.
    Io,
    /// The input does not begin with the magic string.
    InvalidMagic,
    /// The version of the file is above the last one that is supported.
    UnsupportedVersion(u16),
    /// A property has a type byte that stands for no type.
    InvalidType(u8),
    /// The unpacked data of a layer or sublayer has a length that its grid
    /// cannot have.
    InvalidLayerLength,
    /// A block or a data section has a tag that is not known.
    InvalidHeader(Seq<char>),
}

impl View for ReadError {
    type V = Failure;

    open spec fn view(&self) -> Failure {
        match self {
            ReadError::IoError(_) => Failure::Io,
            ReadError::InvalidMagic => Failure::InvalidMagic,
            ReadError::UnsupportedVersion(version) => Failure::UnsupportedVersion(*version),
            ReadError::InvalidType(ty) => Failure::InvalidType(*ty),
            ReadError::InvalidLayerLength => Failure::InvalidLayerLength,
            ReadError::InvalidHeader(tag) => Failure::InvalidHeader(tag@),
        }
    }
}

impl From<std::io::Error> for ReadError {
    fn from(error: std::io::Error) -> (e: ReadError)
        ensures
            e == ReadError::IoError(error),
    {
        ReadError::IoError(error)
    }
}

impl vstd::std_specs::convert::FromSpecImpl<std::io::Error> for ReadError {
    open spec fn obeys_from_spec() -> bool {
        true
    }

    open spec fn from_spec(error: std::io::Error) -> ReadError {
        ReadError::IoError(error)
    }
}

/// `std::io::Error::from` on `ErrorKind::UnexpectedEof`: the error of an
/// input that ended too early.
#[verifier::external_body]
pub(crate) fn unexpected_end() -> std::io::Error {
    std::io::Error::from(std::io::ErrorKind::UnexpectedEof)
}

/// `std::io::Error::new` with `ErrorKind::InvalidData`: the error of data
/// that cannot be written, with the reason in words.
#[verifier::external_body]
pub(crate) fn invalid_data(reason: &str) -> std::io::Error {
    std::io::Error::new(std::io::ErrorKind::InvalidData, reason)
}

} // verus!
