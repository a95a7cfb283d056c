use vstd::prelude::*;

use crate::frame::be32;
use crate::hashing::{sha1_digest, sha1_of};
use crate::peers::{PeerError, PeerMessage, PeerMessageType};
use crate::util::{append_bytes, copy_bytes};

verus! {

/// Bytes requested from a peer at a time.
pub const BLOCK_SIZE: u32 = 16384;

/// Number of blocks a piece of the given size splits into, the last one
/// possibly shorter.
pub fn block_count(piece_length: u32) -> (r: u32)
    requires
        piece_length > 0,
    ensures
        r == (piece_length + BLOCK_SIZE - 1) / (BLOCK_SIZE as int),
{
    let q = piece_length / BLOCK_SIZE;
    let rem = piece_length % BLOCK_SIZE;
    proof {
        assert((piece_length + BLOCK_SIZE - 1) / (BLOCK_SIZE as int) == q + if rem == 0 {
            0int
        } else {
            1int
        }) by (nonlinear_arith)
            requires
                q == piece_length / BLOCK_SIZE,
                rem == piece_length % BLOCK_SIZE,
                piece_length > 0,
                BLOCK_SIZE == 16384,
        ;
    }
    if rem == 0 {
        q
    } else {
        q + 1
    }
}

/// Length of the block starting at `begin` within a piece of the given
/// length: a full block, or whatever remains.
pub open spec fn spec_block_length(piece_length: int, begin: int) -> int {
    if piece_length - begin < BLOCK_SIZE {
        piece_length - begin
    } else {
        BLOCK_SIZE as int
    }
}

/// The 12-byte payload of a block request: piece index, byte offset within
/// the piece, and block length, each big-endian.
pub fn request_payload(piece_index: u32, begin: u32, length: u32) -> (r: Vec<u8>)
    ensures
        r@ == crate::frame::be32_bytes(piece_index as int) + crate::frame::be32_bytes(
            begin as int,
        ) + crate::frame::be32_bytes(length as int),
        r@.len() == 12,
{
    let mut out: Vec<u8> = Vec::new();
    crate::frame::push_be32(&mut out, piece_index);
    crate::frame::push_be32(&mut out, begin);
    crate::frame::push_be32(&mut out, length);
    out
}

/// Splits a piece message's payload into the embedded piece index, the
/// byte offset, and the block data; a payload shorter than its 8-byte
/// header is a protocol violation.
pub fn parse_piece_payload(payload: &Vec<u8>) -> (r: Result<(u32, u32, Vec<u8>), PeerError>)
    ensures
        if payload@.len() < 8 {
            r == Err::<(u32, u32, Vec<u8>), PeerError>(PeerError::ProtocolViolation)
        } else {
            r matches Ok((idx, begin, data)) && idx == be32(
                payload@[0],
                payload@[1],
                payload@[2],
                payload@[3],
            ) && begin == be32(payload@[4], payload@[5], payload@[6], payload@[7]) && data@
                == payload@.skip(8)
        },
{
    if payload.len() < 8 {
        return Err(PeerError::ProtocolViolation);
    }
    let idx = crate::frame::read_be32(payload[0], payload[1], payload[2], payload[3]);
    let begin = crate::frame::read_be32(payload[4], payload[5], payload[6], payload[7]);
    let mut data: Vec<u8> = Vec::new();
    let mut i: usize = 8;
    proof {
        assert(payload@.len() == payload.len());
    }
    while i < payload.len()
        invariant
            8 <= i <= payload@.len(),
            payload@.len() <= usize::MAX,
            data@ =~= payload@.subrange(8, i as int),
        decreases payload@.len() - i,
    {
        data.push(payload[i]);
        i = i + 1;
    }
    proof {
        assert(payload@.subrange(8, payload@.len() as int) =~= payload@.skip(8));
    }
    Ok((idx, begin, data))
}

/// Checks an assembled piece against its expected SHA-1 digest.  A
/// mismatching buffer is never reported as verified.
pub fn verify_piece(data: &Vec<u8>, expected_hash: &[u8; 20]) -> (r: Result<(), PeerError>)
    ensures
        r is Ok <==> sha1_of(data@) == expected_hash@,
        r is Err ==> r == Err::<(), PeerError>(PeerError::IntegrityFailed),
{
    let digest = sha1_digest(data.as_slice());
    let mut i: usize = 0;
    while i < 20
        invariant
            i <= 20,
            digest@ == sha1_of(data@),
            forall|j: int| 0 <= j < i ==> digest@[j] == expected_hash@[j],
        decreases 20 - i,
    {
        if digest[i] != expected_hash[i] {
            proof {
                assert(digest@[i as int] != expected_hash@[i as int]);
            }
            return Err(PeerError::IntegrityFailed);
        }
        i = i + 1;
    }
    proof {
        assert(digest@ =~= expected_hash@);
    }
    Ok(())
}

/// Where a piece download stands.
#[derive(Debug, Clone, Copy, PartialEq, Eq, Structural)]
pub enum DownloadPhase {
    /// After the handshake: the peer's bitfield must arrive first.
    AwaitingBitfield,
    /// Interested was sent; only an unchoke may follow.
    AwaitingUnchoke,
    /// A block request is outstanding; a piece message must answer it.
    AwaitingPiece,
    /// All blocks arrived and the digest matched.
    Complete,
    /// The digest did not match; the assembled bytes were discarded.
    Failed,
}

/// What the caller must do next with the connection.
#[derive(Debug, PartialEq)]
pub enum DownloadAction {
    /// Send an interested message.
    SendInterested,
    /// Send a block request with this piece index, offset and length.
    SendRequest { index: u32, begin: u32, length: u32 },
    /// The piece is complete and verified: these are its bytes.
    Finished(Vec<u8>),
}

/// The piece-download state machine: handshake done, it consumes the
/// peer's messages one by one and says what to send next, assembling
/// blocks in order and verifying the finished piece.  It performs no I/O;
/// the caller moves bytes and feeds decoded messages in.
#[derive(Debug)]
pub struct PieceDownload {
    /// Which piece is being fetched.
    pub piece_index: u32,
    /// Total size of the piece in bytes.
    pub piece_length: u32,
    /// The piece's expected SHA-1 digest from the torrent metadata.
    pub expected_hash: [u8; 20],
    /// Block data received so far, in order.
    pub assembled: Vec<u8>,
    /// Where the download stands.
    pub phase: DownloadPhase,
}

impl PieceDownload {
    /// The state's internal consistency: the assembled bytes never exceed
    /// the piece, nothing is assembled before requests begin, and a
    /// completed download holds exactly the piece.
    pub open spec fn wf(self) -> bool {
        &&& self.piece_length > 0
        &&& self.assembled@.len() <= self.piece_length
        &&& (self.phase is AwaitingBitfield ==> self.assembled@.len() == 0)
        &&& (self.phase is AwaitingUnchoke ==> self.assembled@.len() == 0)
        &&& (self.phase is AwaitingPiece ==> self.assembled@.len() < self.piece_length)
        &&& (self.phase is Complete ==> self.assembled@.len() == self.piece_length
            && sha1_of(self.assembled@) == self.expected_hash@)
    }

    /// A fresh download of one piece.
    pub fn new(piece_index: u32, piece_length: u32, expected_hash: [u8; 20]) -> (r: PieceDownload)
        requires
            piece_length > 0,
        ensures
            r.wf(),
            r.piece_index == piece_index,
            r.piece_length == piece_length,
            r.expected_hash@ == expected_hash@,
            r.assembled@.len() == 0,
            r.phase is AwaitingBitfield,
    {
        PieceDownload {
            piece_index,
            piece_length,
            expected_hash,
            assembled: Vec::new(),
            phase: DownloadPhase::AwaitingBitfield,
        }
    }

    /// Feeds one received message to the state machine and returns the
    /// next action: after the bitfield, send interested; after the
    /// unchoke, request blocks in order; after each matching piece
    /// message, request the next block or, when the piece is complete,
    /// verify it.  Any other message, a response not matching the
    /// outstanding request, or a failed digest is a fatal error.
    pub fn on_message(&mut self, msg: &PeerMessage) -> (r: Result<DownloadAction, PeerError>)
        requires
            old(self).wf(),
            old(self).phase is AwaitingBitfield || old(self).phase is AwaitingUnchoke || old(self).phase is AwaitingPiece,
        ensures
            final(self).wf(),
            final(self).piece_index == old(self).piece_index,
            final(self).piece_length == old(self).piece_length,
            final(self).expected_hash@ == old(self).expected_hash@,
            match old(self).phase {
                DownloadPhase::AwaitingBitfield => if msg.id is Bitfield {
                    r == Ok::<DownloadAction, PeerError>(DownloadAction::SendInterested) && final(self).phase is AwaitingUnchoke
                } else {
                    r == Err::<DownloadAction, PeerError>(
                        PeerError::UnexpectedMessage {
                            expected: PeerMessageType::Bitfield,
                            actual: msg.id,
                        },
                    ) && final(self).phase == old(self).phase
                },
                DownloadPhase::AwaitingUnchoke => if msg.id is Unchoke {
                    r == Ok::<DownloadAction, PeerError>(
                        DownloadAction::SendRequest {
                            index: old(self).piece_index,
                            begin: 0,
                            length: spec_block_length(old(self).piece_length as int, 0) as u32,
                        },
                    ) && final(self).phase is AwaitingPiece
                } else {
                    r == Err::<DownloadAction, PeerError>(
                        PeerError::UnexpectedMessage {
                            expected: PeerMessageType::Unchoke,
                            actual: msg.id,
                        },
                    ) && final(self).phase == old(self).phase
                },
                DownloadPhase::AwaitingPiece => if !(msg.id is Piece) {
                    r == Err::<DownloadAction, PeerError>(
                        PeerError::UnexpectedMessage {
                            expected: PeerMessageType::Piece,
                            actual: msg.id,
                        },
                    ) && final(self).phase == old(self).phase && final(self).assembled@ == old(self).assembled@
                } else if msg.payload@.len() < 8 || be32(
                    msg.payload@[0],
                    msg.payload@[1],
                    msg.payload@[2],
                    msg.payload@[3],
                ) != old(self).piece_index || be32(
                    msg.payload@[4],
                    msg.payload@[5],
                    msg.payload@[6],
                    msg.payload@[7],
                ) != old(self).assembled@.len() || msg.payload@.len() - 8 != spec_block_length(
                    old(self).piece_length as int,
                    old(self).assembled@.len() as int,
                ) {
                    r == Err::<DownloadAction, PeerError>(PeerError::ProtocolViolation) && final(self).phase == old(self).phase && final(self).assembled@ == old(self).assembled@
                } else {
                    final(self).assembled@ == old(self).assembled@ + msg.payload@.skip(8) && (if
                    final(self).assembled@.len() < old(self).piece_length {
                        r == Ok::<DownloadAction, PeerError>(
                            DownloadAction::SendRequest {
                                index: old(self).piece_index,
                                begin: final(self).assembled@.len() as u32,
                                length: spec_block_length(
                                    old(self).piece_length as int,
                                    final(self).assembled@.len() as int,
                                ) as u32,
                            },
                        ) && final(self).phase is AwaitingPiece
                    } else if sha1_of(final(self).assembled@) == old(self).expected_hash@ {
                        r matches Ok(DownloadAction::Finished(data)) && data@ == final(self).assembled@ && final(self).phase is Complete
                    } else {
                        r == Err::<DownloadAction, PeerError>(PeerError::IntegrityFailed) && final(self).phase is Failed
                    })
                },
                _ => true,
            },
    {
        match self.phase {
            DownloadPhase::AwaitingBitfield => {
                if let PeerMessageType::Bitfield = msg.id {
                    self.phase = DownloadPhase::AwaitingUnchoke;
                    Ok(DownloadAction::SendInterested)
                } else {
                    Err(
                        PeerError::UnexpectedMessage {
                            expected: PeerMessageType::Bitfield,
                            actual: msg.id,
                        },
                    )
                }
            },
            DownloadPhase::AwaitingUnchoke => {
                if let PeerMessageType::Unchoke = msg.id {
                    self.phase = DownloadPhase::AwaitingPiece;
                    let length = self.block_length_at(0);
                    Ok(DownloadAction::SendRequest { index: self.piece_index, begin: 0, length })
                } else {
                    Err(
                        PeerError::UnexpectedMessage {
                            expected: PeerMessageType::Unchoke,
                            actual: msg.id,
                        },
                    )
                }
            },
            DownloadPhase::AwaitingPiece => {
                if let PeerMessageType::Piece = msg.id {
                    self.on_piece_message(msg)
                } else {
                    Err(
                        PeerError::UnexpectedMessage {
                            expected: PeerMessageType::Piece,
                            actual: msg.id,
                        },
                    )
                }
            },
            _ => {
                proof {
                    assert(false);
                }
                Err(PeerError::ProtocolViolation)
            },
        }
    }

    /// Length of the block starting at `begin`.
    fn block_length_at(&self, begin: u32) -> (r: u32)
        requires
            begin < self.piece_length,
        ensures
            r == spec_block_length(self.piece_length as int, begin as int),
    {
        let remaining = self.piece_length - begin;
        if remaining < BLOCK_SIZE {
            remaining
        } else {
            BLOCK_SIZE
        }
    }

    /// Handles a piece message while a request is outstanding.
    fn on_piece_message(&mut self, msg: &PeerMessage) -> (r: Result<DownloadAction, PeerError>)
        requires
            old(self).wf(),
            old(self).phase is AwaitingPiece,
            msg.id is Piece,
        ensures
            final(self).wf(),
            final(self).piece_index == old(self).piece_index,
            final(self).piece_length == old(self).piece_length,
            final(self).expected_hash@ == old(self).expected_hash@,
            if msg.payload@.len() < 8 || be32(
                msg.payload@[0],
                msg.payload@[1],
                msg.payload@[2],
                msg.payload@[3],
            ) != old(self).piece_index || be32(
                msg.payload@[4],
                msg.payload@[5],
                msg.payload@[6],
                msg.payload@[7],
            ) != old(self).assembled@.len() || msg.payload@.len() - 8 != spec_block_length(
                old(self).piece_length as int,
                old(self).assembled@.len() as int,
            ) {
                r == Err::<DownloadAction, PeerError>(PeerError::ProtocolViolation) && final(self).phase == old(self).phase && final(self).assembled@ == old(self).assembled@
            } else {
                final(self).assembled@ == old(self).assembled@ + msg.payload@.skip(8) && (if final(self).assembled@.len() < old(self).piece_length {
                    r == Ok::<DownloadAction, PeerError>(
                        DownloadAction::SendRequest {
                            index: old(self).piece_index,
                            begin: final(self).assembled@.len() as u32,
                            length: spec_block_length(
                                old(self).piece_length as int,
                                final(self).assembled@.len() as int,
                            ) as u32,
                        },
                    ) && final(self).phase is AwaitingPiece
                } else if sha1_of(final(self).assembled@) == old(self).expected_hash@ {
                    r matches Ok(DownloadAction::Finished(data)) && data@ == final(self).assembled@ && final(self).phase is Complete
                } else {
                    r == Err::<DownloadAction, PeerError>(PeerError::IntegrityFailed) && final(self).phase is Failed
                })
            },
    {
        let begin_expected = self.assembled.len() as u32;
        let block_len = self.block_length_at(begin_expected);
        let (idx, begin, data) = match parse_piece_payload(&msg.payload) {
            Ok(t) => t,
            Err(e) => {
                return Err(e);
            },
        };
        if idx != self.piece_index || begin != begin_expected {
            return Err(PeerError::ProtocolViolation);
        }
        if data.len() != block_len as usize {
            return Err(PeerError::ProtocolViolation);
        }
        append_bytes(&mut self.assembled, &data);
        if self.assembled.len() < self.piece_length as usize {
            let next_begin = self.assembled.len() as u32;
            let length = self.block_length_at(next_begin);
            Ok(DownloadAction::SendRequest { index: self.piece_index, begin: next_begin, length })
        } else {
            match verify_piece(&self.assembled, &self.expected_hash) {
                Ok(_) => {
                    self.phase = DownloadPhase::Complete;
                    let copy = copy_bytes(&self.assembled);
                    Ok(DownloadAction::Finished(copy))
                },
                Err(_) => {
                    self.phase = DownloadPhase::Failed;
                    Err(PeerError::IntegrityFailed)
                },
            }
        }
    }
}

} // verus!
