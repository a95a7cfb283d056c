use vstd::prelude::*;

use crate::encode::Encoder;
use crate::error::{BencodeError, MetadataField};
use crate::hashing::{sha1_digest, sha1_of};
use crate::peers::copy_array_20;
use crate::util::{bytes_equal, copy_bytes};
use crate::value::{encoding, views_of_pairs, BencodeValue, SpecValue};

verus! {

/// The fields of a single-file torrent's info dictionary.  Text fields are
/// kept as the raw bytes they were decoded from.
#[derive(Debug, PartialEq)]
pub struct Info {
    /// The advisory file name.
    pub name: Vec<u8>,
    /// All pieces' SHA-1 digests, concatenated, 20 bytes each.
    pub pieces: Vec<u8>,
    /// Bytes per piece, except possibly the last.
    pub piece_length: i64,
    /// Total length of the single file.
    pub length: i64,
}

/// The metadata a download needs from a torrent file.
#[derive(Debug, PartialEq)]
pub struct Torrent {
    /// The info dictionary's fields.
    pub info: Info,
    /// The tracker URL, as raw bytes.
    pub announce: Vec<u8>,
}

/// The value under the first occurrence of `key`.
pub open spec fn dict_get(ps: Seq<(Seq<u8>, SpecValue)>, key: Seq<u8>) -> Option<SpecValue>
    decreases ps.len(),
{
    if ps.len() == 0 {
        None
    } else if ps[0].0 == key {
        Some(ps[0].1)
    } else {
        dict_get(ps.drop_first(), key)
    }
}

/// Entries that do not match the key do not affect the lookup.
proof fn lemma_dict_get_skip(ps: Seq<(Seq<u8>, SpecValue)>, key: Seq<u8>, i: int)
    requires
        0 <= i <= ps.len(),
        forall|j: int| 0 <= j < i ==> (#[trigger] ps[j]).0 != key,
    ensures
        dict_get(ps, key) == dict_get(ps.skip(i), key),
    decreases i,
{
    if i > 0 {
        assert(ps[0].0 != key);
        assert(ps.drop_first() =~= ps.skip(1));
        assert forall|j: int| 0 <= j < i - 1 implies (#[trigger] ps.drop_first()[j]).0 != key by {
            assert(ps.drop_first()[j] == ps[j + 1]);
        }
        lemma_dict_get_skip(ps.drop_first(), key, i - 1);
        assert(dict_get(ps, key) == dict_get(ps.drop_first(), key));
        assert(ps.drop_first().skip(i - 1) =~= ps.skip(i));
    } else {
        assert(ps.skip(0) =~= ps);
    }
}

/// Looks a key up in a decoded dictionary, returning the first match.
pub fn dict_lookup<'a>(ps: &'a Vec<(Vec<u8>, BencodeValue)>, key: &[u8]) -> (r: Option<
    &'a BencodeValue,
>)
    ensures
        match dict_get(views_of_pairs(ps@), key@) {
            Some(v) => r matches Some(ev) && ev@ == v,
            None => r is None,
        },
{
    let ghost model = views_of_pairs(ps@);
    proof {
        crate::value::lemma_views_of_pairs(ps@);
    }
    let mut i: usize = 0;
    while i < ps.len()
        invariant
            i <= ps@.len(),
            model == views_of_pairs(ps@),
            model.len() == ps@.len(),
            forall|j: int| 0 <= j < ps@.len() ==> #[trigger] model[j] == (ps@[j].0@, ps@[j].1@),
            forall|j: int| 0 <= j < i ==> (#[trigger] model[j]).0 != key@,
        decreases ps@.len() - i,
    {
        let pair = &ps[i];
        if bytes_equal(&pair.0, key) {
            proof {
                lemma_dict_get_skip(model, key@, i as int);
                assert(model.skip(i as int)[0] == model[i as int]);
                assert(model.skip(i as int).len() > 0);
                assert(dict_get(model.skip(i as int), key@) == Some(model[i as int].1));
            }
            return Some(&pair.1);
        }
        i = i + 1;
    }
    proof {
        lemma_dict_get_skip(model, key@, ps@.len() as int);
        assert(model.skip(ps@.len() as int).len() == 0);
    }
    None
}

/// The bytes of the key `announce`.
pub open spec fn announce_key() -> Seq<u8> {
    seq![0x61u8, 0x6e, 0x6e, 0x6f, 0x75, 0x6e, 0x63, 0x65]
}

/// The bytes of the key `info`.
pub open spec fn info_key() -> Seq<u8> {
    seq![0x69u8, 0x6e, 0x66, 0x6f]
}

/// The bytes of the key `name`.
pub open spec fn name_key() -> Seq<u8> {
    seq![0x6eu8, 0x61, 0x6d, 0x65]
}

/// The bytes of the key `piece length`.
pub open spec fn piece_length_key() -> Seq<u8> {
    seq![0x70u8, 0x69, 0x65, 0x63, 0x65, 0x20, 0x6c, 0x65, 0x6e, 0x67, 0x74, 0x68]
}

/// The bytes of the key `length`.
pub open spec fn length_key() -> Seq<u8> {
    seq![0x6cu8, 0x65, 0x6e, 0x67, 0x74, 0x68]
}

/// The bytes of the key `pieces`.
pub open spec fn pieces_key() -> Seq<u8> {
    seq![0x70u8, 0x69, 0x65, 0x63, 0x65, 0x73]
}

/// The metadata extracted from a decoded torrent: announce URL bytes, file
/// name bytes, piece length, total length, and the concatenated piece
/// digests, or the first missing or mistyped field.  The top level must be
/// a dictionary, every field is required, and the digest string must split
/// into whole 20-byte digests.
pub open spec fn spec_extract(v: SpecValue) -> Result<
    (Seq<u8>, Seq<u8>, int, int, Seq<u8>),
    BencodeError,
> {
    match v {
        SpecValue::Dict(ps) => match dict_get(ps, announce_key()) {
            Some(SpecValue::Str(a)) => match dict_get(ps, info_key()) {
                Some(SpecValue::Dict(ips)) => match dict_get(ips, name_key()) {
                    Some(SpecValue::Str(nm)) => match dict_get(ips, piece_length_key()) {
                        Some(SpecValue::Int(pl)) => match dict_get(ips, length_key()) {
                            Some(SpecValue::Int(l)) => match dict_get(ips, pieces_key()) {
                                Some(SpecValue::Str(pc)) => if pc.len() % 20 == 0 {
                                    Ok((a, nm, pl, l, pc))
                                } else {
                                    Err(BencodeError::InvalidMetadata(MetadataField::Pieces))
                                },
                                _ => Err(BencodeError::InvalidMetadata(MetadataField::Pieces)),
                            },
                            _ => Err(BencodeError::InvalidMetadata(MetadataField::Length)),
                        },
                        _ => Err(BencodeError::InvalidMetadata(MetadataField::PieceLength)),
                    },
                    _ => Err(BencodeError::InvalidMetadata(MetadataField::Name)),
                },
                _ => Err(BencodeError::InvalidMetadata(MetadataField::Info)),
            },
            _ => Err(BencodeError::InvalidMetadata(MetadataField::Announce)),
        },
        _ => Err(BencodeError::InvalidMetadata(MetadataField::Root)),
    }
}

impl Torrent {
    /// An empty torrent, fields zeroed, to be filled by extraction.
    pub fn new() -> (r: Torrent)
        ensures
            r.announce@ == Seq::<u8>::empty(),
            r.info.name@ == Seq::<u8>::empty(),
            r.info.pieces@ == Seq::<u8>::empty(),
            r.info.piece_length == 0,
            r.info.length == 0,
    {
        Torrent {
            info: Info { name: Vec::new(), pieces: Vec::new(), piece_length: 0, length: 0 },
            announce: Vec::new(),
        }
    }

    /// Reads the announce URL and the info dictionary's fields out of a
    /// decoded torrent, exactly as `spec_extract` describes: each required
    /// field that is absent or mistyped is reported by name, and nothing
    /// is extracted from a malformed file.
    pub fn from_value(v: &BencodeValue) -> (r: Result<Torrent, BencodeError>)
        ensures
            match spec_extract(v@) {
                Ok(t5) => r matches Ok(t) && t.announce@ == t5.0 && t.info.name@ == t5.1
                    && t.info.piece_length == t5.2 && t.info.length == t5.3 && t.info.pieces@
                    == t5.4,
                Err(e) => r == Err::<Torrent, BencodeError>(e),
            },
    {
        let ps = match v {
            BencodeValue::BDictionary(ps) => ps,
            _ => {
                return Err(BencodeError::InvalidMetadata(MetadataField::Root));
            },
        };
        let announce_key_bytes: [u8; 8] = [0x61, 0x6e, 0x6e, 0x6f, 0x75, 0x6e, 0x63, 0x65];
        proof {
            assert(announce_key_bytes@ =~= announce_key());
        }
        let announce = match dict_lookup(ps, announce_key_bytes.as_slice()) {
            Some(BencodeValue::BString(a)) => copy_bytes(a),
            _ => {
                return Err(BencodeError::InvalidMetadata(MetadataField::Announce));
            },
        };
        let info_key_bytes: [u8; 4] = [0x69, 0x6e, 0x66, 0x6f];
        proof {
            assert(info_key_bytes@ =~= info_key());
        }
        let ips = match dict_lookup(ps, info_key_bytes.as_slice()) {
            Some(BencodeValue::BDictionary(ips)) => ips,
            _ => {
                return Err(BencodeError::InvalidMetadata(MetadataField::Info));
            },
        };
        let name_key_bytes: [u8; 4] = [0x6e, 0x61, 0x6d, 0x65];
        proof {
            assert(name_key_bytes@ =~= name_key());
        }
        let name = match dict_lookup(ips, name_key_bytes.as_slice()) {
            Some(BencodeValue::BString(nm)) => copy_bytes(nm),
            _ => {
                return Err(BencodeError::InvalidMetadata(MetadataField::Name));
            },
        };
        let piece_length_key_bytes: [u8; 12] = [
            0x70, 0x69, 0x65, 0x63, 0x65, 0x20, 0x6c, 0x65, 0x6e, 0x67, 0x74, 0x68,
        ];
        proof {
            assert(piece_length_key_bytes@ =~= piece_length_key());
        }
        let piece_length = match dict_lookup(ips, piece_length_key_bytes.as_slice()) {
            Some(BencodeValue::BInteger(pl)) => *pl,
            _ => {
                return Err(BencodeError::InvalidMetadata(MetadataField::PieceLength));
            },
        };
        let length_key_bytes: [u8; 6] = [0x6c, 0x65, 0x6e, 0x67, 0x74, 0x68];
        proof {
            assert(length_key_bytes@ =~= length_key());
        }
        let length = match dict_lookup(ips, length_key_bytes.as_slice()) {
            Some(BencodeValue::BInteger(l)) => *l,
            _ => {
                return Err(BencodeError::InvalidMetadata(MetadataField::Length));
            },
        };
        let pieces_key_bytes: [u8; 6] = [0x70, 0x69, 0x65, 0x63, 0x65, 0x73];
        proof {
            assert(pieces_key_bytes@ =~= pieces_key());
        }
        let pieces = match dict_lookup(ips, pieces_key_bytes.as_slice()) {
            Some(BencodeValue::BString(pc)) => copy_bytes(pc),
            _ => {
                return Err(BencodeError::InvalidMetadata(MetadataField::Pieces));
            },
        };
        if pieces.len() % 20 != 0 {
            return Err(BencodeError::InvalidMetadata(MetadataField::Pieces));
        }
        Ok(Torrent { info: Info { name, pieces, piece_length, length }, announce })
    }
}

/// The SHA-1 digest of a value's bencode encoding; applied to the info
/// dictionary this is the torrent's info-hash, stable because the encoder
/// reproduces the decoded bytes exactly.
pub fn info_hash(info: &BencodeValue) -> (r: [u8; 20])
    ensures
        r@ == sha1_of(encoding(info@)),
{
    let mut encoder = Encoder::new();
    match encoder.encode(info) {
        Ok(_) => {},
        Err(_) => {},
    }
    proof {
        assert(Seq::<u8>::empty() + encoding(info@) =~= encoding(info@));
    }
    sha1_digest(encoder.buf.as_slice())
}

/// Splits the concatenated piece digests into one 20-byte digest per
/// piece, in piece-index order; a length that is not a multiple of 20 is
/// rejected.
pub fn piece_hashes(pieces: &Vec<u8>) -> (r: Result<Vec<[u8; 20]>, BencodeError>)
    ensures
        if pieces@.len() % 20 == 0 {
            r matches Ok(hs) && hs@.len() == pieces@.len() / 20 && (forall|i: int|
                0 <= i < hs@.len() ==> (#[trigger] hs@[i])@ == pieces@.subrange(
                    20 * i,
                    20 * i + 20,
                ))
        } else {
            r == Err::<Vec<[u8; 20]>, BencodeError>(
                BencodeError::InvalidMetadata(MetadataField::Pieces),
            )
        },
{
    let n = pieces.len();
    if n % 20 != 0 {
        return Err(BencodeError::InvalidMetadata(MetadataField::Pieces));
    }
    let count = n / 20;
    let mut out: Vec<[u8; 20]> = Vec::new();
    let mut i: usize = 0;
    while i < count
        invariant
            i <= count,
            count == pieces@.len() / 20,
            20 * count <= pieces@.len(),
            pieces@.len() <= usize::MAX,
            out@.len() == i,
            forall|j: int|
                0 <= j < i ==> (#[trigger] out@[j])@ == pieces@.subrange(20 * j, 20 * j + 20),
        decreases count - i,
    {
        let h = copy_array_20(pieces.as_slice(), 20 * i);
        out.push(h);
        i = i + 1;
    }
    Ok(out)
}

} // verus!
