use vstd::prelude::*;

use crate::peers::{id_of_type, type_of_id, PeerError, PeerMessage, PeerMessageType};

verus! {

/// Largest frame the encoder will emit: id byte plus payload.
pub const MAX_FRAME: u32 = 8388608;

/// The value of four big-endian bytes.
pub open spec fn be32(b0: u8, b1: u8, b2: u8, b3: u8) -> int {
    b0 * 0x1000000 + b1 * 0x10000 + b2 * 0x100 + b3
}

/// The four big-endian bytes of a value below 2^32.
pub open spec fn be32_bytes(n: int) -> Seq<u8> {
    seq![
        (n / 0x1000000) as u8,
        ((n / 0x10000) % 0x100) as u8,
        ((n / 0x100) % 0x100) as u8,
        (n % 0x100) as u8,
    ]
}

/// One frame decoded from the front of a receive buffer: the length prefix
/// value, the message kind, the payload, and how many bytes the frame
/// occupies.  `None` means more bytes are needed; nothing is consumed then.
pub open spec fn spec_decode_frame(s: Seq<u8>) -> Option<(int, PeerMessageType, Seq<u8>, int)> {
    if s.len() < 4 {
        None
    } else {
        let len = be32(s[0], s[1], s[2], s[3]);
        if len == 0 {
            Some((0, PeerMessageType::KeepAlive, Seq::empty(), 4))
        } else if s.len() < 4 + len {
            None
        } else {
            Some((len, type_of_id(s[4]), s.subrange(5, 4 + len), 4 + len))
        }
    }
}

/// The frame a message encodes to: a big-endian length prefix covering the
/// id byte and the payload, then the id byte, then the payload; a
/// `KeepAlive` is a bare zero-length prefix.
pub open spec fn spec_encode_frame(t: PeerMessageType, payload: Seq<u8>) -> Seq<u8> {
    if t is KeepAlive {
        be32_bytes(0)
    } else {
        be32_bytes(payload.len() as int + 1) + seq![id_of_type(t)] + payload
    }
}

/// Appends the four big-endian bytes of `n`.
pub fn push_be32(out: &mut Vec<u8>, n: u32)
    ensures
        final(out)@ == old(out)@ + be32_bytes(n as int),
{
    let b0 = (n / 0x1000000) as u8;
    let b1 = ((n / 0x10000) % 0x100) as u8;
    let b2 = ((n / 0x100) % 0x100) as u8;
    let b3 = (n % 0x100) as u8;
    out.push(b0);
    out.push(b1);
    out.push(b2);
    out.push(b3);
    proof {
        assert(old(out)@.push(b0).push(b1).push(b2).push(b3) =~= old(out)@ + be32_bytes(n as int));
    }
}

/// Reads four big-endian bytes.
pub fn read_be32(b0: u8, b1: u8, b2: u8, b3: u8) -> (r: u32)
    ensures
        r == be32(b0, b1, b2, b3),
{
    (b0 as u32) * 0x1000000 + (b1 as u32) * 0x10000 + (b2 as u32) * 0x100 + (b3 as u32)
}

/// Reading back the four bytes of a value gives the value.
pub proof fn lemma_be32_round_trip(n: int)
    requires
        0 <= n < 0x100000000,
    ensures
        be32(
            be32_bytes(n)[0],
            be32_bytes(n)[1],
            be32_bytes(n)[2],
            be32_bytes(n)[3],
        ) == n,
{
    assert(be32(
        (n / 0x1000000) as u8,
        ((n / 0x10000) % 0x100) as u8,
        ((n / 0x100) % 0x100) as u8,
        (n % 0x100) as u8,
    ) == n) by (nonlinear_arith)
        requires
            0 <= n < 0x100000000,
    ;
}

/// Frames peer messages onto a byte stream and back, tolerating arbitrary
/// fragmentation of the stream.
pub struct MessageDecoder;

impl MessageDecoder {
    /// Appends the frame for `item` to `dst`, or refuses a frame larger
    /// than `MAX_FRAME`, leaving `dst` untouched.
    pub fn encode(&mut self, item: PeerMessage, dst: &mut Vec<u8>) -> (r: Result<(), PeerError>)
        ensures
            if item.payload@.len() + 1 > MAX_FRAME {
                r == Err::<(), PeerError>(PeerError::FrameTooLarge) && final(dst)@ == old(dst)@
            } else {
                r == Ok::<(), PeerError>(()) && final(dst)@ == old(dst)@ + spec_encode_frame(
                    item.id,
                    item.payload@,
                )
            },
    {
        if item.payload.len() > (MAX_FRAME - 1) as usize {
            return Err(PeerError::FrameTooLarge);
        }
        match item.id {
            PeerMessageType::KeepAlive => {
                push_be32(dst, 0);
            },
            _ => {
                let ghost base = dst@;
                push_be32(dst, item.payload.len() as u32 + 1);
                let id = crate::peers::message_id(item.id);
                dst.push(id);
                let mut i: usize = 0;
                while i < item.payload.len()
                    invariant
                        i <= item.payload@.len(),
                        dst@ == base + be32_bytes(item.payload@.len() as int + 1) + seq![
                            id_of_type(item.id),
                        ] + item.payload@.subrange(0, i as int),
                    decreases item.payload@.len() - i,
                {
                    dst.push(item.payload[i]);
                    proof {
                        assert((base + be32_bytes(item.payload@.len() as int + 1) + seq![
                            id_of_type(item.id),
                        ] + item.payload@.subrange(0, i as int)).push(item.payload@[i as int])
                            =~= base + be32_bytes(item.payload@.len() as int + 1) + seq![
                            id_of_type(item.id),
                        ] + item.payload@.subrange(0, i + 1));
                    }
                    i = i + 1;
                }
                proof {
                    assert(item.payload@.subrange(0, item.payload@.len() as int)
                        =~= item.payload@);
                    assert((base + be32_bytes(item.payload@.len() as int + 1)).push(id_of_type(item.id))
                        =~= base + be32_bytes(item.payload@.len() as int + 1) + seq![
                        id_of_type(item.id),
                    ]);
                }
            },
        }
        Ok(())
    }

    /// Decodes one frame from the front of `src` if a whole one is
    /// buffered, consuming exactly that frame; otherwise reports that more
    /// bytes are needed and consumes nothing, so the call can simply be
    /// repeated once more bytes have arrived.
    pub fn decode(&mut self, src: &mut Vec<u8>) -> (r: Result<Option<PeerMessage>, PeerError>)
        ensures
            match spec_decode_frame(old(src)@) {
                None => r == Ok::<Option<PeerMessage>, PeerError>(None) && final(src)@ == old(
                    src,
                )@,
                Some((len, t, pl, consumed)) => r matches Ok(Some(m)) && m.length == len && m.id
                    == t && m.payload@ == pl && final(src)@ == old(src)@.skip(consumed),
            },
    {
        if src.len() < 4 {
            return Ok(None);
        }
        let len = read_be32(src[0], src[1], src[2], src[3]);
        if len == 0 {
            consume(src, 4);
            return Ok(Some(PeerMessage { length: 0, id: PeerMessageType::KeepAlive, payload: Vec::new() }));
        }
        let total64: u64 = 4u64 + len as u64;
        if (src.len() as u64) < total64 {
            return Ok(None);
        }
        let total = total64 as usize;
        let id = src[4];
        let message_type = crate::peers::message_type_from_id(id);
        let mut payload: Vec<u8> = Vec::new();
        let mut i: usize = 5;
        proof {
            assert(src@.len() == src.len());
        }
        while i < total
            invariant
                5 <= i <= total,
                total == 4 + len,
                total <= src@.len(),
                src@.len() <= usize::MAX,
                src@ == old(src)@,
                payload@ =~= src@.subrange(5, i as int),
            decreases total - i,
        {
            payload.push(src[i]);
            i = i + 1;
        }
        consume(src, total);
        Ok(Some(PeerMessage { length: len, id: message_type, payload }))
    }
}

/// Drops the first `n` bytes of a buffer.
fn consume(src: &mut Vec<u8>, n: usize)
    requires
        n <= old(src)@.len(),
    ensures
        final(src)@ == old(src)@.skip(n as int),
{
    let mut rest: Vec<u8> = Vec::new();
    let total = src.len();
    let mut i = n;
    while i < total
        invariant
            n <= i <= total,
            total == src@.len(),
            src@ == old(src)@,
            src@.len() <= usize::MAX,
            rest@ =~= src@.subrange(n as int, i as int),
        decreases total - i,
    {
        rest.push(src[i]);
        i = i + 1;
    }
    proof {
        assert(rest@ =~= old(src)@.skip(n as int));
    }
    *src = rest;
}

/// Once a whole frame is buffered, later bytes cannot change it: decoding
/// a fragmented stream yields the same frames as decoding it whole.
pub proof fn lemma_frame_decode_prefix_stable(s1: Seq<u8>, s2: Seq<u8>)
    requires
        s1.len() <= s2.len(),
        s2.subrange(0, s1.len() as int) == s1,
        spec_decode_frame(s1) is Some,
    ensures
        spec_decode_frame(s2) == spec_decode_frame(s1),
{
    assert forall|j: int| 0 <= j < s1.len() implies s2[j] == s1[j] by {
        assert(s2.subrange(0, s1.len() as int)[j] == s2[j]);
    }
    let len = be32(s1[0], s1[1], s1[2], s1[3]);
    if len != 0 {
        assert(s1.len() >= 4 + len);
        assert(s2.subrange(5, 4 + len) =~= s1.subrange(5, 4 + len));
    }
}

/// Decoding the frame of a faithfully representable message yields the
/// message back: framing is lossless under the size bound.
pub proof fn lemma_frame_round_trip(t: PeerMessageType, payload: Seq<u8>, rest: Seq<u8>)
    requires
        crate::peers::wire_type(t) || t is KeepAlive,
        t is KeepAlive ==> payload.len() == 0,
        payload.len() + 1 <= MAX_FRAME,
    ensures
        spec_decode_frame(spec_encode_frame(t, payload) + rest) matches Some((
            len,
            t2,
            pl2,
            consumed,
        )) && t2 == t && pl2 == payload && consumed == spec_encode_frame(t, payload).len() && (t
            is KeepAlive ==> len == 0) && (!(t is KeepAlive) ==> len == payload.len() + 1),
{
    let e = spec_encode_frame(t, payload);
    let s = e + rest;
    if t is KeepAlive {
        assert(e == be32_bytes(0));
        assert(s[0] == e[0] && s[1] == e[1] && s[2] == e[2] && s[3] == e[3]);
        assert(be32(s[0], s[1], s[2], s[3]) == 0);
    } else {
        let n = payload.len() + 1 as int;
        assert(0 <= n < 0x100000000);
        lemma_be32_round_trip(n);
        assert(e == be32_bytes(n) + seq![id_of_type(t)] + payload);
        assert forall|j: int| 0 <= j < e.len() implies s[j] == e[j] by {}
        assert(s[0] == be32_bytes(n)[0] && s[1] == be32_bytes(n)[1] && s[2] == be32_bytes(n)[2]
            && s[3] == be32_bytes(n)[3]);
        assert(be32(s[0], s[1], s[2], s[3]) == n);
        assert(s.len() >= 4 + n);
        assert(s[4] == e[4]);
        assert(e[4] == id_of_type(t));
        crate::peers::lemma_type_id_round_trip(t);
        assert forall|j: int| 0 <= j < payload.len() implies s.subrange(5, 4 + n)[j] == payload[j]
            by {
            assert(s.subrange(5, 4 + n)[j] == s[5 + j]);
            assert(s[5 + j] == e[5 + j]);
            assert(e[5 + j] == payload[j]);
        }
        assert(s.subrange(5, 4 + n) =~= payload);
    }
}

} // verus!
