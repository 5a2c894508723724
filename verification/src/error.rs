use vstd::prelude::*;

use crate::decode::DecodeError;
use crate::torrent::TorrentError;

verus! {

#[verifier::external_type_specification]
#[verifier::external_body]
pub struct ExIoError(std::io::Error);

/// The caller-level error: an I/O failure while reading the file, a decode
/// failure with its position, or well-formed bencode that is not valid
/// torrent metadata. It only composes the underlying errors for reporting;
/// no recovery happens at this level.
#[derive(Debug)]
pub enum RunError {
    IO(std::io::Error),
    Decode(DecodeError),
    Torrent(TorrentError),
}

impl From<std::io::Error> for RunError {
    fn from(value: std::io::Error) -> (r: Self) {
        RunError::IO(value)
    }
}

impl vstd::std_specs::convert::FromSpecImpl<std::io::Error> for RunError {
    open spec fn obeys_from_spec() -> bool {
        true
    }

    open spec fn from_spec(value: std::io::Error) -> Self {
        RunError::IO(value)
    }
}

impl From<DecodeError> for RunError {
    fn from(value: DecodeError) -> (r: Self) {
        RunError::Decode(value)
    }
}

impl vstd::std_specs::convert::FromSpecImpl<DecodeError> for RunError {
    open spec fn obeys_from_spec() -> bool {
        true
    }

    open spec fn from_spec(value: DecodeError) -> Self {
        RunError::Decode(value)
    }
}

impl From<TorrentError> for RunError {
    fn from(value: TorrentError) -> (r: Self) {
        RunError::Torrent(value)
    }
}

impl vstd::std_specs::convert::FromSpecImpl<TorrentError> for RunError {
    open spec fn obeys_from_spec() -> bool {
        true
    }

    open spec fn from_spec(value: TorrentError) -> Self {
        RunError::Torrent(value)
    }
}

} // verus!
