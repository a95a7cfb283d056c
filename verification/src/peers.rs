use vstd::prelude::*;

use crate::error::{BencodeError, MetadataField};

verus! {

/// Errors of the handshake, the message framing and the piece download.
#[derive(Debug, Clone, Copy, PartialEq, Eq, Structural)]
pub enum PeerError {
    /// The handshake response did not arrive before the caller's timeout.
    HandshakeTimeout,
    /// The connection closed before a full handshake arrived.
    ConnectionClosed,
    /// The handshake's protocol identifier is not the BitTorrent one.
    ProtocolMismatch,
    /// The peer answered with a different info-hash: it does not serve this
    /// torrent.
    InfoHashMismatch,
    /// A message of the named kind was required next, another arrived.
    UnexpectedMessage { expected: PeerMessageType, actual: PeerMessageType },
    /// A piece response did not match the outstanding request.
    ProtocolViolation,
    /// An outgoing frame would exceed the frame size bound.
    FrameTooLarge,
    /// The assembled piece's SHA-1 digest differs from the expected one.
    IntegrityFailed,
}

/// The kind of a peer wire message.  `KeepAlive` is carried by a
/// zero-length frame without an id byte; an id byte outside the assigned
/// range is kept as `Unknown` rather than silently mapped.
#[derive(Debug, Clone, Copy, PartialEq, Eq, Structural)]
pub enum PeerMessageType {
    Choke,
    Unchoke,
    Interested,
    NotInterested,
    Have,
    Bitfield,
    Request,
    Piece,
    Cancel,
    KeepAlive,
    Unknown(u8),
}

/// The message kind denoted by a wire id byte.
pub open spec fn type_of_id(id: u8) -> PeerMessageType {
    if id == 0 {
        PeerMessageType::Choke
    } else if id == 1 {
        PeerMessageType::Unchoke
    } else if id == 2 {
        PeerMessageType::Interested
    } else if id == 3 {
        PeerMessageType::NotInterested
    } else if id == 4 {
        PeerMessageType::Have
    } else if id == 5 {
        PeerMessageType::Bitfield
    } else if id == 6 {
        PeerMessageType::Request
    } else if id == 7 {
        PeerMessageType::Piece
    } else if id == 8 {
        PeerMessageType::Cancel
    } else {
        PeerMessageType::Unknown(id)
    }
}

/// The wire id byte of a message kind; meaningless for `KeepAlive`, which
/// has no id byte on the wire.
pub open spec fn id_of_type(t: PeerMessageType) -> u8 {
    match t {
        PeerMessageType::Choke => 0,
        PeerMessageType::Unchoke => 1,
        PeerMessageType::Interested => 2,
        PeerMessageType::NotInterested => 3,
        PeerMessageType::Have => 4,
        PeerMessageType::Bitfield => 5,
        PeerMessageType::Request => 6,
        PeerMessageType::Piece => 7,
        PeerMessageType::Cancel => 8,
        PeerMessageType::KeepAlive => 0,
        PeerMessageType::Unknown(b) => b,
    }
}

/// A message kind that the wire can carry faithfully: not `KeepAlive`
/// (which has no id byte) and not an `Unknown` colliding with an assigned
/// id.
pub open spec fn wire_type(t: PeerMessageType) -> bool {
    !(t is KeepAlive) && (t matches PeerMessageType::Unknown(b) ==> b > 8)
}

/// Reading back the id of a faithfully carried kind gives the kind.
pub proof fn lemma_type_id_round_trip(t: PeerMessageType)
    requires
        wire_type(t),
    ensures
        type_of_id(id_of_type(t)) == t,
{
}

/// Maps a wire id byte to its message kind.
pub fn message_type_from_id(id: u8) -> (r: PeerMessageType)
    ensures
        r == type_of_id(id),
{
    if id == 0 {
        PeerMessageType::Choke
    } else if id == 1 {
        PeerMessageType::Unchoke
    } else if id == 2 {
        PeerMessageType::Interested
    } else if id == 3 {
        PeerMessageType::NotInterested
    } else if id == 4 {
        PeerMessageType::Have
    } else if id == 5 {
        PeerMessageType::Bitfield
    } else if id == 6 {
        PeerMessageType::Request
    } else if id == 7 {
        PeerMessageType::Piece
    } else if id == 8 {
        PeerMessageType::Cancel
    } else {
        PeerMessageType::Unknown(id)
    }
}

/// The wire id byte of a message kind other than `KeepAlive`.
pub fn message_id(t: PeerMessageType) -> (r: u8)
    requires
        !(t is KeepAlive),
    ensures
        r == id_of_type(t),
{
    match t {
        PeerMessageType::Choke => 0,
        PeerMessageType::Unchoke => 1,
        PeerMessageType::Interested => 2,
        PeerMessageType::NotInterested => 3,
        PeerMessageType::Have => 4,
        PeerMessageType::Bitfield => 5,
        PeerMessageType::Request => 6,
        PeerMessageType::Piece => 7,
        PeerMessageType::Cancel => 8,
        PeerMessageType::KeepAlive => 0,
        PeerMessageType::Unknown(b) => b,
    }
}

/// One peer wire message: its frame length (id byte plus payload), its
/// kind, and its payload bytes.
#[derive(Debug, PartialEq)]
pub struct PeerMessage {
    /// The value of the frame's length prefix.
    pub length: u32,
    /// The message kind.
    pub id: PeerMessageType,
    /// The payload, interpreted according to `id`.
    pub payload: Vec<u8>,
}

/// The 19 bytes of the literal `BitTorrent protocol`.
pub open spec fn protocol_name() -> Seq<u8> {
    seq![
        0x42u8,
        0x69,
        0x74,
        0x54,
        0x6f,
        0x72,
        0x72,
        0x65,
        0x6e,
        0x74,
        0x20,
        0x70,
        0x72,
        0x6f,
        0x74,
        0x6f,
        0x63,
        0x6f,
        0x6c,
    ]
}

/// The fixed 68-byte handshake record exchanged once per connection.
#[derive(Debug, PartialEq)]
pub struct Handshake {
    /// Length of the protocol identifier, always 19.
    pub length: u8,
    /// The protocol identifier, `BitTorrent protocol`.
    pub p_str: [u8; 19],
    /// Reserved bytes; sent as zero, tolerated as anything on receipt.
    pub reserved: [u8; 8],
    /// The info-hash of the torrent being requested.
    pub info_hash: [u8; 20],
    /// The sender's peer id.
    pub peer_id: [u8; 20],
}

/// The 68-byte wire form of a handshake.
pub open spec fn handshake_bytes(h: Handshake) -> Seq<u8> {
    seq![h.length] + h.p_str@ + h.reserved@ + h.info_hash@ + h.peer_id@
}

impl Handshake {
    /// A handshake for the given torrent and local peer id.
    pub fn new(info_hash: [u8; 20], peer_id: [u8; 20]) -> (r: Handshake)
        ensures
            r.length == 19,
            r.p_str@ == protocol_name(),
            r.reserved@ == Seq::new(8, |i: int| 0u8),
            r.info_hash@ == info_hash@,
            r.peer_id@ == peer_id@,
    {
        let p_str: [u8; 19] = [
            0x42, 0x69, 0x74, 0x54, 0x6f, 0x72, 0x72, 0x65, 0x6e, 0x74, 0x20, 0x70, 0x72, 0x6f,
            0x74, 0x6f, 0x63, 0x6f, 0x6c,
        ];
        let reserved: [u8; 8] = [0, 0, 0, 0, 0, 0, 0, 0];
        proof {
            assert(p_str@ =~= protocol_name());
            assert(reserved@ =~= Seq::new(8, |i: int| 0u8));
        }
        Handshake { length: 19, p_str, reserved, info_hash, peer_id }
    }

    /// The 68 bytes sent on the wire for this handshake.
    pub fn to_bytes(&self) -> (r: Vec<u8>)
        ensures
            r@ == handshake_bytes(*self),
            r@.len() == 68,
    {
        let mut out: Vec<u8> = Vec::new();
        out.push(self.length);
        append_array_19(&mut out, &self.p_str);
        append_array_8(&mut out, &self.reserved);
        append_array_20(&mut out, &self.info_hash);
        append_array_20(&mut out, &self.peer_id);
        proof {
            assert(Seq::<u8>::empty().push(self.length) =~= seq![self.length]);
            assert(out@ == seq![self.length] + self.p_str@ + self.reserved@ + self.info_hash@
                + self.peer_id@);
        }
        out
    }

    /// Reads a handshake back from exactly 68 received bytes.
    pub fn from_bytes(buf: &[u8]) -> (r: Result<Handshake, PeerError>)
        ensures
            if buf@.len() < 68 {
                r == Err::<Handshake, PeerError>(PeerError::ConnectionClosed)
            } else {
                r matches Ok(h) && h.length == buf@[0] && h.p_str@ == buf@.subrange(1, 20)
                    && h.reserved@ == buf@.subrange(20, 28) && h.info_hash@ == buf@.subrange(
                    28,
                    48,
                ) && h.peer_id@ == buf@.subrange(48, 68)
            },
    {
        if buf.len() < 68 {
            return Err(PeerError::ConnectionClosed);
        }
        let length = buf[0];
        let p_str = copy_array_19(buf, 1);
        let reserved = copy_array_8(buf, 20);
        let info_hash = copy_array_20(buf, 28);
        let peer_id = copy_array_20(buf, 48);
        Ok(Handshake { length, p_str, reserved, info_hash, peer_id })
    }

    /// Checks a received handshake against the expected info-hash, per the
    /// protocol: the identifier must be `BitTorrent protocol` with length
    /// byte 19, the info-hash must match, and the reserved bytes are not
    /// examined.  On success the remote peer id is returned.
    pub fn validate(&self, expected_info_hash: &[u8; 20]) -> (r: Result<[u8; 20], PeerError>)
        ensures
            match r {
                Ok(pid) => self.length == 19 && self.p_str@ == protocol_name() && self.info_hash@
                    == expected_info_hash@ && pid@ == self.peer_id@,
                Err(e) => if !(self.length == 19 && self.p_str@ == protocol_name()) {
                    e == PeerError::ProtocolMismatch
                } else {
                    e == PeerError::InfoHashMismatch && self.info_hash@ != expected_info_hash@
                },
            },
    {
        let expected_name: [u8; 19] = [
            0x42, 0x69, 0x74, 0x54, 0x6f, 0x72, 0x72, 0x65, 0x6e, 0x74, 0x20, 0x70, 0x72, 0x6f,
            0x74, 0x6f, 0x63, 0x6f, 0x6c,
        ];
        proof {
            assert(expected_name@ =~= protocol_name());
        }
        if self.length != 19 {
            return Err(PeerError::ProtocolMismatch);
        }
        let mut i: usize = 0;
        while i < 19
            invariant
                i <= 19,
                expected_name@ == protocol_name(),
                forall|j: int| 0 <= j < i ==> self.p_str@[j] == protocol_name()[j],
            decreases 19 - i,
        {
            if self.p_str[i] != expected_name[i] {
                proof {
                    assert(self.p_str@[i as int] != protocol_name()[i as int]);
                }
                return Err(PeerError::ProtocolMismatch);
            }
            i = i + 1;
        }
        proof {
            assert(self.p_str@ =~= protocol_name());
        }
        let mut i: usize = 0;
        while i < 20
            invariant
                i <= 20,
                self.length == 19,
                self.p_str@ == protocol_name(),
                forall|j: int| 0 <= j < i ==> self.info_hash@[j] == expected_info_hash@[j],
            decreases 20 - i,
        {
            if self.info_hash[i] != expected_info_hash[i] {
                proof {
                    assert(self.info_hash@[i as int] != expected_info_hash@[i as int]);
                }
                return Err(PeerError::InfoHashMismatch);
            }
            i = i + 1;
        }
        proof {
            assert(self.info_hash@ =~= expected_info_hash@);
        }
        Ok(self.peer_id)
    }
}

/// Appends a 19-byte array to a vector.
fn append_array_19(out: &mut Vec<u8>, a: &[u8; 19])
    ensures
        final(out)@ == old(out)@ + a@,
{
    let mut i: usize = 0;
    while i < 19
        invariant
            i <= 19,
            out@ == old(out)@ + a@.subrange(0, i as int),
        decreases 19 - i,
    {
        out.push(a[i]);
        proof {
            assert((old(out)@ + a@.subrange(0, i as int)).push(a@[i as int]) =~= old(out)@
                + a@.subrange(0, i + 1));
        }
        i = i + 1;
    }
    proof {
        assert(a@.subrange(0, 19) =~= a@);
    }
}

/// Appends an 8-byte array to a vector.
fn append_array_8(out: &mut Vec<u8>, a: &[u8; 8])
    ensures
        final(out)@ == old(out)@ + a@,
{
    let mut i: usize = 0;
    while i < 8
        invariant
            i <= 8,
            out@ == old(out)@ + a@.subrange(0, i as int),
        decreases 8 - i,
    {
        out.push(a[i]);
        proof {
            assert((old(out)@ + a@.subrange(0, i as int)).push(a@[i as int]) =~= old(out)@
                + a@.subrange(0, i + 1));
        }
        i = i + 1;
    }
    proof {
        assert(a@.subrange(0, 8) =~= a@);
    }
}

/// Appends a 20-byte array to a vector.
fn append_array_20(out: &mut Vec<u8>, a: &[u8; 20])
    ensures
        final(out)@ == old(out)@ + a@,
{
    let mut i: usize = 0;
    while i < 20
        invariant
            i <= 20,
            out@ == old(out)@ + a@.subrange(0, i as int),
        decreases 20 - i,
    {
        out.push(a[i]);
        proof {
            assert((old(out)@ + a@.subrange(0, i as int)).push(a@[i as int]) =~= old(out)@
                + a@.subrange(0, i + 1));
        }
        i = i + 1;
    }
    proof {
        assert(a@.subrange(0, 20) =~= a@);
    }
}

/// Copies 19 bytes out of a buffer.
fn copy_array_19(buf: &[u8], start: usize) -> (r: [u8; 19])
    requires
        start + 19 <= buf@.len(),
    ensures
        r@ == buf@.subrange(start as int, start + 19),
{
    let mut a: [u8; 19] = [0; 19];
    proof {
        assert(buf@.len() == buf.len());
    }
    let mut i: usize = 0;
    while i < 19
        invariant
            i <= 19,
            start + 19 <= buf@.len(),
            buf@.len() <= usize::MAX,
            forall|j: int| 0 <= j < i ==> a@[j] == buf@[start + j],
        decreases 19 - i,
    {
        a[i] = buf[start + i];
        i = i + 1;
    }
    proof {
        assert(a@ =~= buf@.subrange(start as int, start + 19));
    }
    a
}

/// Copies 8 bytes out of a buffer.
fn copy_array_8(buf: &[u8], start: usize) -> (r: [u8; 8])
    requires
        start + 8 <= buf@.len(),
    ensures
        r@ == buf@.subrange(start as int, start + 8),
{
    let mut a: [u8; 8] = [0; 8];
    proof {
        assert(buf@.len() == buf.len());
    }
    let mut i: usize = 0;
    while i < 8
        invariant
            i <= 8,
            start + 8 <= buf@.len(),
            buf@.len() <= usize::MAX,
            forall|j: int| 0 <= j < i ==> a@[j] == buf@[start + j],
        decreases 8 - i,
    {
        a[i] = buf[start + i];
        i = i + 1;
    }
    proof {
        assert(a@ =~= buf@.subrange(start as int, start + 8));
    }
    a
}

/// Copies 20 bytes out of a buffer.
pub(crate) fn copy_array_20(buf: &[u8], start: usize) -> (r: [u8; 20])
    requires
        start + 20 <= buf@.len(),
    ensures
        r@ == buf@.subrange(start as int, start + 20),
{
    let mut a: [u8; 20] = [0; 20];
    proof {
        assert(buf@.len() == buf.len());
    }
    let mut i: usize = 0;
    while i < 20
        invariant
            i <= 20,
            start + 20 <= buf@.len(),
            buf@.len() <= usize::MAX,
            forall|j: int| 0 <= j < i ==> a@[j] == buf@[start + j],
        decreases 20 - i,
    {
        a[i] = buf[start + i];
        i = i + 1;
    }
    proof {
        assert(a@ =~= buf@.subrange(start as int, start + 20));
    }
    a
}

/// One peer's address: an IPv4 address and a port.
#[derive(Debug, Clone, Copy, PartialEq, Eq)]
pub struct PeerAddress {
    /// The four address bytes, in network order.
    pub ip: [u8; 4],
    /// The port, read big-endian from the wire.
    pub port: u16,
}

/// The peers offered by a tracker.
#[derive(Debug, PartialEq)]
pub struct Address(pub Vec<PeerAddress>);

/// The address list matches the compact bytes: one entry per 6-byte chunk,
/// four address bytes then a big-endian port.
pub open spec fn peers_match(list: Seq<PeerAddress>, s: Seq<u8>) -> bool {
    &&& list.len() == s.len() / 6
    &&& forall|i: int|
        0 <= i < list.len() ==> (#[trigger] list[i]).ip@ == s.subrange(6 * i, 6 * i + 4)
            && list[i].port == s[6 * i + 4] * 256 + s[6 * i + 5]
}

impl Address {
    /// Decodes a compact peer list: each 6 bytes are four address bytes and
    /// a big-endian port.  A length that is not a multiple of 6 is
    /// rejected.
    pub fn from_compact(bytes: &[u8]) -> (r: Result<Address, BencodeError>)
        ensures
            if bytes@.len() % 6 == 0 {
                r matches Ok(a) && peers_match(a.0@, bytes@)
            } else {
                r == Err::<Address, BencodeError>(
                    BencodeError::InvalidMetadata(MetadataField::Peers),
                )
            },
    {
        let n = bytes.len();
        if n % 6 != 0 {
            return Err(BencodeError::InvalidMetadata(MetadataField::Peers));
        }
        let count = n / 6;
        proof {
            assert(bytes@.len() == bytes.len());
        }
        let mut list: Vec<PeerAddress> = Vec::new();
        let mut i: usize = 0;
        while i < count
            invariant
                i <= count,
                count == bytes@.len() / 6,
                6 * count <= bytes@.len(),
                bytes@.len() <= usize::MAX,
                list@.len() == i,
                forall|j: int|
                    0 <= j < i ==> (#[trigger] list@[j]).ip@ == bytes@.subrange(6 * j, 6 * j + 4)
                        && list@[j].port == bytes@[6 * j + 4] * 256 + bytes@[6 * j + 5],
            decreases count - i,
        {
            let base = 6 * i;
            let ip: [u8; 4] = [bytes[base], bytes[base + 1], bytes[base + 2], bytes[base + 3]];
            let port: u16 = (bytes[base + 4] as u16) * 256 + (bytes[base + 5] as u16);
            proof {
                assert(ip@ =~= bytes@.subrange(6 * i as int, 6 * i as int + 4));
            }
            list.push(PeerAddress { ip, port });
            i = i + 1;
        }
        Ok(Address(list))
    }
}

} // verus!
