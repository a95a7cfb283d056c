use vstd::prelude::*;

use crate::error::BencodeError;
use crate::hashing::{hex_of, hex_string, sha1_digest, sha1_of};
use crate::value::{
    dec_digits, encoding, encoding_of_items, encoding_of_pairs, lemma_encoding_of_items_push,
    lemma_encoding_of_pairs_push, lemma_views_of_items_subrange_push,
    lemma_views_of_pairs_subrange_push, views_of_items, views_of_pairs, BencodeValue, SpecValue,
};

verus! {

/// Appends the shortest decimal representation of `n`.
fn push_decimal(buf: &mut Vec<u8>, n: u64)
    ensures
        final(buf)@ == old(buf)@ + dec_digits(n as nat),
    decreases n,
{
    if n < 10 {
        buf.push(0x30 + n as u8);
        proof {
            assert(old(buf)@.push((0x30 + n) as u8) =~= old(buf)@ + dec_digits(n as nat));
        }
    } else {
        push_decimal(buf, n / 10);
        let d = (n % 10) as u8;
        buf.push(0x30 + d);
        proof {
            assert((old(buf)@ + dec_digits((n / 10) as nat)).push((0x30 + n % 10) as u8) =~= old(
                buf,
            )@ + dec_digits(n as nat));
        }
    }
}

/// A bencode encoder accumulating output bytes.
///
/// Every `encode_*` method appends exactly `encoding` of its argument's
/// model, so the output is a deterministic function of the values encoded,
/// and encoding a decoded dictionary reproduces the bytes it was decoded
/// from.
pub struct Encoder {
    /// The bytes produced so far.
    pub buf: Vec<u8>,
}

impl Encoder {
    /// An encoder with an empty output buffer.
    pub fn new() -> (r: Encoder)
        ensures
            r.buf@ == Seq::<u8>::empty(),
    {
        Encoder { buf: Vec::new() }
    }

    /// Appends `<len>:<bytes>`.
    pub fn encode_string(&mut self, bytes: &Vec<u8>) -> (r: Result<(), BencodeError>)
        ensures
            r == Ok::<(), BencodeError>(()),
            final(self).buf@ == old(self).buf@ + encoding(SpecValue::Str(bytes@)),
    {
        let ghost base = self.buf@;
        push_decimal(&mut self.buf, bytes.len() as u64);
        self.buf.push(0x3a);
        let ghost mid = self.buf@;
        let mut i: usize = 0;
        while i < bytes.len()
            invariant
                i <= bytes@.len(),
                mid == base + dec_digits(bytes@.len()) + seq![0x3au8],
                self.buf@ == mid + bytes@.subrange(0, i as int),
            decreases bytes@.len() - i,
        {
            self.buf.push(bytes[i]);
            proof {
                assert(bytes@.subrange(0, i as int).push(bytes@[i as int]) =~= bytes@.subrange(
                    0,
                    i + 1,
                ));
                assert((mid + bytes@.subrange(0, i as int)).push(bytes@[i as int]) =~= mid
                    + bytes@.subrange(0, i + 1));
            }
            i = i + 1;
        }
        proof {
            assert(bytes@.subrange(0, bytes@.len() as int) =~= bytes@);
            assert((base + dec_digits(bytes@.len())).push(0x3au8) =~= base + dec_digits(
                bytes@.len(),
            ) + seq![0x3au8]);
            assert(base + dec_digits(bytes@.len()) + seq![0x3au8] + bytes@ =~= base + encoding(
                SpecValue::Str(bytes@),
            ));
        }
        Ok(())
    }

    /// Appends `i<digits>e`.
    pub fn encode_integer(&mut self, integer: i64) -> (r: Result<(), BencodeError>)
        ensures
            r == Ok::<(), BencodeError>(()),
            final(self).buf@ == old(self).buf@ + encoding(SpecValue::Int(integer as int)),
    {
        let ghost base = self.buf@;
        self.buf.push(0x69);
        if integer < 0 {
            self.buf.push(0x2d);
            let mag: u64 = if integer == i64::MIN {
                9223372036854775808u64
            } else {
                (-integer) as u64
            };
            proof {
                assert(mag as nat == (-(integer as int)) as nat);
            }
            push_decimal(&mut self.buf, mag);
        } else {
            push_decimal(&mut self.buf, integer as u64);
        }
        self.buf.push(0x65);
        proof {
            let i = integer as int;
            if integer < 0 {
                assert(base.push(0x69u8).push(0x2du8) + dec_digits((-i) as nat) =~= base
                    + seq![0x69u8] + (seq![0x2du8] + dec_digits((-i) as nat)));
                assert((base + seq![0x69u8] + (seq![0x2du8] + dec_digits((-i) as nat))).push(0x65u8)
                    =~= base + encoding(SpecValue::Int(i)));
            } else {
                assert(base.push(0x69u8) + dec_digits(i as nat) =~= base + seq![0x69u8]
                    + dec_digits(i as nat));
                assert((base + seq![0x69u8] + dec_digits(i as nat)).push(0x65u8) =~= base
                    + encoding(SpecValue::Int(i)));
            }
        }
        Ok(())
    }

    /// Appends the encoding of any value.
    pub fn encode(&mut self, input: &BencodeValue) -> (r: Result<(), BencodeError>)
        ensures
            r == Ok::<(), BencodeError>(()),
            final(self).buf@ == old(self).buf@ + encoding(input@),
        decreases input,
    {
        match input {
            BencodeValue::BString(b) => self.encode_string(b),
            BencodeValue::BInteger(i) => self.encode_integer(*i),
            BencodeValue::BList(xs) => self.encode_list(xs),
            BencodeValue::BDictionary(ps) => self.encode_dictionary(ps),
        }
    }

    /// Appends `l`, each element's encoding in order, then `e`.
    pub fn encode_list(&mut self, list: &Vec<BencodeValue>) -> (r: Result<(), BencodeError>)
        ensures
            r == Ok::<(), BencodeError>(()),
            final(self).buf@ == old(self).buf@ + encoding(SpecValue::List(views_of_items(list@))),
        decreases list,
    {
        let ghost base = self.buf@;
        self.buf.push(0x6c);
        proof {
            assert(views_of_items(list@.subrange(0, 0)) =~= Seq::<SpecValue>::empty());
            assert(base.push(0x6cu8) =~= base + seq![0x6cu8] + encoding_of_items(
                views_of_items(list@.subrange(0, 0)),
            ));
        }
        let mut i: usize = 0;
        while i < list.len()
            invariant
                i <= list@.len(),
                self.buf@ == base + seq![0x6cu8] + encoding_of_items(
                    views_of_items(list@.subrange(0, i as int)),
                ),
            decreases list@.len() - i,
        {
            match self.encode(&list[i]) {
                Ok(_) => {},
                Err(e) => {
                    return Err(e);
                },
            }
            proof {
                lemma_views_of_items_subrange_push(list@, i as int);
                lemma_encoding_of_items_push(
                    views_of_items(list@.subrange(0, i as int)),
                    list@[i as int]@,
                );
                assert((base + seq![0x6cu8] + encoding_of_items(
                    views_of_items(list@.subrange(0, i as int)),
                )) + encoding(list@[i as int]@) =~= base + seq![0x6cu8] + (encoding_of_items(
                    views_of_items(list@.subrange(0, i as int)),
                ) + encoding(list@[i as int]@)));
            }
            i = i + 1;
        }
        self.buf.push(0x65);
        proof {
            assert(list@.subrange(0, list@.len() as int) =~= list@);
            assert((base + seq![0x6cu8] + encoding_of_items(views_of_items(list@))).push(0x65u8)
                =~= base + encoding(SpecValue::List(views_of_items(list@))));
        }
        Ok(())
    }

    /// Appends `d`, each key and value's encoding in stored order, then `e`.
    pub fn encode_dictionary(&mut self, map: &Vec<(Vec<u8>, BencodeValue)>) -> (r: Result<
        (),
        BencodeError,
    >)
        ensures
            r == Ok::<(), BencodeError>(()),
            final(self).buf@ == old(self).buf@ + encoding(SpecValue::Dict(views_of_pairs(map@))),
        decreases map,
    {
        let ghost base = self.buf@;
        self.buf.push(0x64);
        proof {
            assert(views_of_pairs(map@.subrange(0, 0)) =~= Seq::<(Seq<u8>, SpecValue)>::empty());
            assert(base.push(0x64u8) =~= base + seq![0x64u8] + encoding_of_pairs(
                views_of_pairs(map@.subrange(0, 0)),
            ));
        }
        let mut i: usize = 0;
        while i < map.len()
            invariant
                i <= map@.len(),
                self.buf@ == base + seq![0x64u8] + encoding_of_pairs(
                    views_of_pairs(map@.subrange(0, i as int)),
                ),
            decreases map@.len() - i,
        {
            let pair = &map[i];
            let ghost mid = self.buf@;
            match self.encode_string(&pair.0) {
                Ok(_) => {},
                Err(e) => {
                    return Err(e);
                },
            }
            match self.encode(&pair.1) {
                Ok(_) => {},
                Err(e) => {
                    return Err(e);
                },
            }
            proof {
                let kb = map@[i as int].0@;
                let vv = map@[i as int].1@;
                lemma_views_of_pairs_subrange_push(map@, i as int);
                lemma_encoding_of_pairs_push(views_of_pairs(map@.subrange(0, i as int)), kb, vv);
                assert(encoding(SpecValue::Str(kb)) == dec_digits(kb.len()) + seq![0x3au8] + kb);
                assert((mid + encoding(SpecValue::Str(kb))) + encoding(vv) =~= mid + (dec_digits(
                    kb.len(),
                ) + seq![0x3au8] + kb + encoding(vv)));
                assert((base + seq![0x64u8] + encoding_of_pairs(
                    views_of_pairs(map@.subrange(0, i as int)),
                )) + (dec_digits(kb.len()) + seq![0x3au8] + kb + encoding(vv)) =~= base
                    + seq![0x64u8] + (encoding_of_pairs(views_of_pairs(map@.subrange(0, i as int)))
                    + (dec_digits(kb.len()) + seq![0x3au8] + kb + encoding(vv))));
            }
            i = i + 1;
        }
        self.buf.push(0x65);
        proof {
            assert(map@.subrange(0, map@.len() as int) =~= map@);
            assert((base + seq![0x64u8] + encoding_of_pairs(views_of_pairs(map@))).push(0x65u8)
                =~= base + encoding(SpecValue::Dict(views_of_pairs(map@))));
        }
        Ok(())
    }

    /// SHA-1 of the bytes encoded so far: fills `info_hash` with the raw
    /// 20-byte digest and returns its lowercase hex rendering.
    pub fn encode_sha1(&self, info_hash: &mut [u8; 20]) -> (r: String)
        ensures
            final(info_hash)@ == sha1_of(self.buf@),
            r@ == hex_of(sha1_of(self.buf@)),
    {
        let digest = sha1_digest(self.buf.as_slice());
        *info_hash = digest;
        hex_string(digest.as_slice())
    }
}

} // verus!
