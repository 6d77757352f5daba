//! Error types of the slab store.

use vstd::prelude::*;
use crate::tag::MagicTag;
use crate::id::Id;

verus! {

/// An opaque view of a record tag, carried by [`Error::IncorrectTag`].
#[derive(Copy, Clone, Debug, PartialEq, Eq, Structural)]
pub struct Tag(pub MagicTag);

/// Errors of the general slab-store operations.
#[derive(Copy, Clone, Debug, PartialEq, Eq, Structural)]
pub enum Error {
    /// The backing region could not be created.
    MapFailed,
    /// The backing region could not be resized.
    ResizeFailed,
    /// The backing region could not be flushed.
    FlushFailed,
    /// A tag byte whose selector names no record kind.
    UnknownTag { position: usize, byte: u8 },
    /// A valid tag of the wrong kind for the operation.
    IncorrectTag { position: usize, found: Tag },
    /// An identifier whose marker does not match the record it points at.
    IdCheck(Id),
    /// A partially written record was reached through a live-id operation.
    EntryCorrupt { position: usize },
    /// The record was already deleted.
    AlreadyDeleted { position: usize },
    /// A deleted record cannot be replaced.
    CannotReplaceDeleted { position: usize },
    /// Replacement data must have the same length as the old data.
    MismatchedLengths { position: usize, new: usize, old: usize },
    /// A variable-length integer failed to parse.
    InvalidVarint { position: usize },
}

/// Errors of opening an existing store.
#[derive(Clone, Debug, PartialEq)]
pub enum OpenError {
    /// Any general error met during the opening scan.
    General(Error),
    /// The backing is too small to hold the header.
    TooSmall { found: usize, expected: usize },
    /// The header magic bytes are wrong.
    Magic,
    /// The stamped specialization magic has the wrong length.
    SpecMagicLen { found: usize, expected: usize },
    /// The stamped specialization magic differs from the expected bytes.
    SpecMagic { found: Vec<u8>, expected: Vec<u8> },
    /// The header names an unknown format version.
    UnknownVersion([u8; 2]),
    /// A partially written record remains and the strategy forbids recovery.
    PartialWrite { position: usize, length: usize },
    /// A nonzero byte lies beyond the end tag.
    DataAfterEnd { end: usize, first_data_at: usize, first_data: u8 },
    /// No end tag was found.
    NoEnd,
}

/// Errors of the single-pass retain operation.
#[derive(Copy, Clone, Debug, PartialEq, Eq, Structural)]
pub enum RetainError {
    /// The ids to keep were not strictly ascending.
    UnsortedInputs,
    /// A requested record is only partially written.
    RetainPartial,
}

} // verus!
