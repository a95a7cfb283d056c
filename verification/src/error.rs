use vstd::prelude::*;

verus! {

/// A required torrent or tracker field, named when it is missing or has the
/// wrong type.
#[derive(Debug, Clone, Copy, PartialEq, Eq, Structural)]
pub enum MetadataField {
    Root,
    Announce,
    Info,
    Name,
    PieceLength,
    Length,
    Pieces,
    Interval,
    MinInterval,
    Complete,
    Incomplete,
    Peers,
}

/// Errors of the bencode codec and of metadata extraction.
///
/// `MalformedEncoding` and `InvalidKeyType` carry the byte offset at which
/// the offending token starts.
#[derive(Debug, Clone, Copy, PartialEq, Eq, Structural)]
pub enum BencodeError {
    /// The bytes at the given offset are not a well-formed bencode token.
    MalformedEncoding(usize),
    /// The input ended in the middle of a token.
    UnexpectedEof,
    /// A dictionary key decoded to something other than a byte-string; the
    /// offset is where the key starts.
    InvalidKeyType(usize),
    /// A required torrent or tracker field is absent or has the wrong type.
    InvalidMetadata(MetadataField),
}

} // verus!
