use vstd::prelude::*;

use crate::error::{BencodeError, MetadataField};
use crate::hashing::{ascii_to_string, hex_digit};
use crate::peers::{peers_match, Address};
use crate::torrent::dict_get;
use crate::util::copy_bytes;
use crate::value::{BencodeValue, SpecValue};

verus! {

/// What the core hands the tracker collaborator; the HTTP transport and
/// the URL-encoding of these fields stay outside the core.
#[derive(Debug, PartialEq)]
pub struct TrackerRequest {
    /// This client's 20-byte peer id, as text.
    pub peer_id: String,
    /// The port this client listens on.
    pub port: u16,
    /// Bytes uploaded so far.
    pub uploaded: u64,
    /// Bytes downloaded so far.
    pub downloaded: u64,
    /// Bytes still missing.
    pub left: u64,
    /// Whether the compact binary peer list is requested; always 1 here.
    pub compact: u8,
}

impl Default for TrackerRequest {
    /// An empty request asking for the compact peer list.
    fn default() -> (r: TrackerRequest)
        ensures
            r.peer_id@ == Seq::<char>::empty(),
            r.port == 0,
            r.uploaded == 0,
            r.downloaded == 0,
            r.left == 0,
            r.compact == 1,
    {
        TrackerRequest {
            peer_id: String::new(),
            port: 0,
            uploaded: 0,
            downloaded: 0,
            left: 0,
            compact: 1,
        }
    }
}

/// A tracker's successful answer.
#[derive(Debug, PartialEq)]
pub struct TrackerResponseSuccess {
    /// Seconds to wait between announces.
    pub interval: i64,
    /// Minimum seconds to wait between announces.
    pub min_interval: i64,
    /// Number of leechers.
    pub incomplete: i64,
    /// Number of seeders.
    pub complete: i64,
    /// The peers offered.
    pub peers: Address,
}

/// A tracker's answer: either the success fields or a failure reason.
#[derive(Debug, PartialEq)]
pub enum TrackerResponse {
    /// The announce succeeded.
    Success(TrackerResponseSuccess),
    /// The tracker refused, with the reason's bytes.
    Failure(Vec<u8>),
}

/// The model of a tracker's answer.
pub enum SpecTrackerReply {
    Failure(Seq<u8>),
    Success { interval: int, min_interval: int, complete: int, incomplete: int, peers: Seq<u8> },
}

/// The bytes of the key `failure reason`.
pub open spec fn failure_reason_key() -> Seq<u8> {
    seq![0x66u8, 0x61, 0x69, 0x6c, 0x75, 0x72, 0x65, 0x20, 0x72, 0x65, 0x61, 0x73, 0x6f, 0x6e]
}

/// The bytes of the key `interval`.
pub open spec fn interval_key() -> Seq<u8> {
    seq![0x69u8, 0x6e, 0x74, 0x65, 0x72, 0x76, 0x61, 0x6c]
}

/// The bytes of the key `min interval`.
pub open spec fn min_interval_key() -> Seq<u8> {
    seq![0x6du8, 0x69, 0x6e, 0x20, 0x69, 0x6e, 0x74, 0x65, 0x72, 0x76, 0x61, 0x6c]
}

/// The bytes of the key `complete`.
pub open spec fn complete_key() -> Seq<u8> {
    seq![0x63u8, 0x6f, 0x6d, 0x70, 0x6c, 0x65, 0x74, 0x65]
}

/// The bytes of the key `incomplete`.
pub open spec fn incomplete_key() -> Seq<u8> {
    seq![0x69u8, 0x6e, 0x63, 0x6f, 0x6d, 0x70, 0x6c, 0x65, 0x74, 0x65]
}

/// The bytes of the key `peers`.
pub open spec fn peers_key() -> Seq<u8> {
    seq![0x70u8, 0x65, 0x65, 0x72, 0x73]
}

/// The tracker reply carried by a decoded response: a failure reason if
/// that key is present, else the five required success fields, with the
/// compact peer string's length a whole number of 6-byte entries; the
/// first missing or mistyped field is reported by name.
pub open spec fn spec_tracker_reply(v: SpecValue) -> Result<SpecTrackerReply, BencodeError> {
    match v {
        SpecValue::Dict(ps) => match dict_get(ps, failure_reason_key()) {
            Some(SpecValue::Str(f)) => Ok(SpecTrackerReply::Failure(f)),
            _ => match dict_get(ps, interval_key()) {
                Some(SpecValue::Int(iv)) => match dict_get(ps, min_interval_key()) {
                    Some(SpecValue::Int(miv)) => match dict_get(ps, complete_key()) {
                        Some(SpecValue::Int(c)) => match dict_get(ps, incomplete_key()) {
                            Some(SpecValue::Int(ic)) => match dict_get(ps, peers_key()) {
                                Some(SpecValue::Str(pb)) => if pb.len() % 6 == 0 {
                                    Ok(
                                        SpecTrackerReply::Success {
                                            interval: iv,
                                            min_interval: miv,
                                            complete: c,
                                            incomplete: ic,
                                            peers: pb,
                                        },
                                    )
                                } else {
                                    Err(BencodeError::InvalidMetadata(MetadataField::Peers))
                                },
                                _ => Err(BencodeError::InvalidMetadata(MetadataField::Peers)),
                            },
                            _ => Err(BencodeError::InvalidMetadata(MetadataField::Incomplete)),
                        },
                        _ => Err(BencodeError::InvalidMetadata(MetadataField::Complete)),
                    },
                    _ => Err(BencodeError::InvalidMetadata(MetadataField::MinInterval)),
                },
                _ => Err(BencodeError::InvalidMetadata(MetadataField::Interval)),
            },
        },
        _ => Err(BencodeError::InvalidMetadata(MetadataField::Root)),
    }
}

/// Reads a decoded tracker response: a `failure reason` entry wins, else
/// all of `interval`, `min interval`, `complete`, `incomplete` and the
/// compact `peers` string are required, and the peer string is split into
/// addresses.
pub fn parse_tracker_response(v: &BencodeValue) -> (r: Result<TrackerResponse, BencodeError>)
    ensures
        match spec_tracker_reply(v@) {
            Ok(SpecTrackerReply::Failure(f)) => r matches Ok(TrackerResponse::Failure(fb))
                && fb@ == f,
            Ok(
                SpecTrackerReply::Success { interval, min_interval, complete, incomplete, peers },
            ) => r matches Ok(TrackerResponse::Success(t)) && t.interval == interval
                && t.min_interval == min_interval && t.complete == complete && t.incomplete
                == incomplete && peers_match(t.peers.0@, peers),
            Err(e) => r == Err::<TrackerResponse, BencodeError>(e),
        },
{
    let ps = match v {
        BencodeValue::BDictionary(ps) => ps,
        _ => {
            return Err(BencodeError::InvalidMetadata(MetadataField::Root));
        },
    };
    let failure_key_bytes: [u8; 14] = [
        0x66, 0x61, 0x69, 0x6c, 0x75, 0x72, 0x65, 0x20, 0x72, 0x65, 0x61, 0x73, 0x6f, 0x6e,
    ];
    proof {
        assert(failure_key_bytes@ =~= failure_reason_key());
    }
    match crate::torrent::dict_lookup(ps, failure_key_bytes.as_slice()) {
        Some(BencodeValue::BString(f)) => {
            return Ok(TrackerResponse::Failure(copy_bytes(f)));
        },
        _ => {},
    }
    let interval_key_bytes: [u8; 8] = [0x69, 0x6e, 0x74, 0x65, 0x72, 0x76, 0x61, 0x6c];
    proof {
        assert(interval_key_bytes@ =~= interval_key());
    }
    let interval = match crate::torrent::dict_lookup(ps, interval_key_bytes.as_slice()) {
        Some(BencodeValue::BInteger(iv)) => *iv,
        _ => {
            return Err(BencodeError::InvalidMetadata(MetadataField::Interval));
        },
    };
    let min_interval_key_bytes: [u8; 12] = [
        0x6d, 0x69, 0x6e, 0x20, 0x69, 0x6e, 0x74, 0x65, 0x72, 0x76, 0x61, 0x6c,
    ];
    proof {
        assert(min_interval_key_bytes@ =~= min_interval_key());
    }
    let min_interval = match crate::torrent::dict_lookup(ps, min_interval_key_bytes.as_slice()) {
        Some(BencodeValue::BInteger(miv)) => *miv,
        _ => {
            return Err(BencodeError::InvalidMetadata(MetadataField::MinInterval));
        },
    };
    let complete_key_bytes: [u8; 8] = [0x63, 0x6f, 0x6d, 0x70, 0x6c, 0x65, 0x74, 0x65];
    proof {
        assert(complete_key_bytes@ =~= complete_key());
    }
    let complete = match crate::torrent::dict_lookup(ps, complete_key_bytes.as_slice()) {
        Some(BencodeValue::BInteger(c)) => *c,
        _ => {
            return Err(BencodeError::InvalidMetadata(MetadataField::Complete));
        },
    };
    let incomplete_key_bytes: [u8; 10] = [
        0x69, 0x6e, 0x63, 0x6f, 0x6d, 0x70, 0x6c, 0x65, 0x74, 0x65,
    ];
    proof {
        assert(incomplete_key_bytes@ =~= incomplete_key());
    }
    let incomplete = match crate::torrent::dict_lookup(ps, incomplete_key_bytes.as_slice()) {
        Some(BencodeValue::BInteger(ic)) => *ic,
        _ => {
            return Err(BencodeError::InvalidMetadata(MetadataField::Incomplete));
        },
    };
    let peers_key_bytes: [u8; 5] = [0x70, 0x65, 0x65, 0x72, 0x73];
    proof {
        assert(peers_key_bytes@ =~= peers_key());
    }
    let peer_bytes = match crate::torrent::dict_lookup(ps, peers_key_bytes.as_slice()) {
        Some(BencodeValue::BString(pb)) => pb,
        _ => {
            return Err(BencodeError::InvalidMetadata(MetadataField::Peers));
        },
    };
    let peers = match Address::from_compact(peer_bytes.as_slice()) {
        Ok(a) => a,
        Err(e) => {
            return Err(e);
        },
    };
    Ok(
        TrackerResponse::Success(
            TrackerResponseSuccess { interval, min_interval, incomplete, complete, peers },
        ),
    )
}

/// The percent-encoding of a byte sequence: `%` and two lowercase hex
/// digits for every byte.
pub open spec fn url_encoding(s: Seq<u8>) -> Seq<char>
    decreases s.len(),
{
    if s.len() == 0 {
        Seq::empty()
    } else {
        seq![0x25u8 as char, hex_digit(s[0] / 16), hex_digit(s[0] % 16)] + url_encoding(
            s.drop_first(),
        )
    }
}

/// Percent-encodes an info-hash for use in a tracker URL: every byte
/// becomes `%` followed by its two lowercase hex digits.
pub fn url_encode(info_hash: &[u8; 20]) -> (r: String)
    ensures
        r@ == url_encoding(info_hash@),
{
    let mut out: Vec<u8> = Vec::new();
    let ghost target = url_encoding(info_hash@);
    proof {
        lemma_url_encoding_len(info_hash@);
    }
    let mut i: usize = 0;
    while i < 20
        invariant
            i <= 20,
            target == url_encoding(info_hash@),
            out@.len() == 3 * i,
            forall|j: int| 0 <= j < out@.len() ==> #[trigger] out@[j] < 0x80,
            forall|j: int| 0 <= j < out@.len() ==> target[j] == #[trigger] out@[j] as char,
        decreases 20 - i,
    {
        let b = info_hash[i];
        let hi = b / 16;
        let lo = b % 16;
        let hi_ch: u8 = if hi < 10 {
            0x30 + hi
        } else {
            0x57 + hi
        };
        let lo_ch: u8 = if lo < 10 {
            0x30 + lo
        } else {
            0x57 + lo
        };
        proof {
            lemma_url_encoding_index(info_hash@, i as int);
            assert(hi_ch as char == hex_digit(info_hash@[i as int] / 16));
            assert(lo_ch as char == hex_digit(info_hash@[i as int] % 16));
        }
        out.push(0x25);
        out.push(hi_ch);
        out.push(lo_ch);
        i = i + 1;
    }
    let s = ascii_to_string(out);
    proof {
        assert(s@ =~= target);
    }
    s
}

/// A percent-encoding is three characters per byte.
proof fn lemma_url_encoding_len(s: Seq<u8>)
    ensures
        url_encoding(s).len() == 3 * s.len(),
    decreases s.len(),
{
    if s.len() > 0 {
        lemma_url_encoding_len(s.drop_first());
    }
}

/// The three characters a byte contributes to a percent-encoding.
proof fn lemma_url_encoding_index(s: Seq<u8>, i: int)
    requires
        0 <= i < s.len(),
    ensures
        url_encoding(s).len() == 3 * s.len(),
        url_encoding(s)[3 * i] == 0x25u8 as char,
        url_encoding(s)[3 * i + 1] == hex_digit(s[i] / 16),
        url_encoding(s)[3 * i + 2] == hex_digit(s[i] % 16),
    decreases i,
{
    lemma_url_encoding_len(s);
    if i == 0 {
    } else {
        lemma_url_encoding_index(s.drop_first(), i - 1);
        lemma_url_encoding_len(s.drop_first());
        assert(s.drop_first()[i - 1] == s[i]);
    }
}

} // verus!
