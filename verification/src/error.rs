//! Why a value is not a metainfo document.

use crate::decode::DecodeError;
use vstd::prelude::*;

verus! {

/// The fields of a metainfo document.
#[derive(Debug, Clone, Copy, PartialEq, Eq)]
pub enum Field {
    /// The document itself.
    Root,
    Announce,
    Info,
    Name,
    PieceLength,
    Pieces,
    Length,
    Files,
    Path,
}

/// Why bytes or a value are not a metainfo document.
#[derive(Debug, Clone, Copy, PartialEq, Eq)]
pub enum MetainfoError {
    /// The bytes are not an encoded value.
    Decode(DecodeError),
    /// A dictionary lacks the key of this field.
    MissingField(Field),
    /// The field holds a value of another type than it must.
    WrongType(Field),
    /// The field's bytes are not UTF-8 text.
    InvalidUtf8(Field),
    /// The field holds a number below 0 or beyond what this machine can
    /// address.
    OutOfRange(Field),
    /// The piece length is 0 or less.
    InvalidPieceLength,
    /// The length of `pieces` is no multiple of 20.
    InvalidDigestSequenceLength,
    /// The info dictionary holds both `length` and `files`, or neither.
    ConflictingFileLayout,
}

} // verus!
