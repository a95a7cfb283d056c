use vstd::prelude::*;

use crate::error::BencodeError;
use crate::value::{
    all_digits, dec_digits, depth_of, depth_of_items, depth_of_pairs, digits_value, encoding,
    encoding_of_items, encoding_of_pairs, int_literal, is_digit_byte, lemma_views_of_items_push,
    lemma_views_of_pairs_push, views_of_items, views_of_pairs, wf, wf_items, wf_pairs,
    BencodeValue, SpecValue,
};

verus! {

/// Nesting depth that the decoder accepts before rejecting the input, a
/// hardening bound against adversarial inputs.
pub const MAX_DEPTH: u32 = 512;

/// Index of the first occurrence of `b` in `s` at or after `i`.
pub open spec fn find_byte(s: Seq<u8>, i: int, b: u8) -> Option<int>
    decreases s.len() - i,
{
    if i < 0 || i >= s.len() {
        None
    } else if s[i] == b {
        Some(i)
    } else {
        find_byte(s, i + 1, b)
    }
}

/// `find_byte` returns the first occurrence, or scans the whole tail.
pub proof fn lemma_find_byte(s: Seq<u8>, i: int, b: u8)
    requires
        0 <= i <= s.len(),
    ensures
        match find_byte(s, i, b) {
            Some(k) => i <= k < s.len() && s[k] == b && (forall|j: int|
                i <= j < k ==> s[j] != b),
            None => forall|j: int| i <= j < s.len() ==> s[j] != b,
        },
    decreases s.len() - i,
{
    if i < s.len() && s[i] != b {
        lemma_find_byte(s, i + 1, b);
    }
}

/// The decoded form of `i<token>e` starting at the token: its value and the
/// position just past the closing `e`.  The token is an optional `-` followed
/// by at least one ASCII digit, and the value must fit in a signed 64-bit
/// word; the decoder is otherwise lenient (it accepts leading zeros and
/// `-0`).
pub open spec fn spec_parse_number(s: Seq<u8>, p: int) -> Result<(int, int), BencodeError> {
    match find_byte(s, p, 0x65) {
        None => Err(BencodeError::UnexpectedEof),
        Some(k) => {
            let t = s.subrange(p, k);
            if is_int_token(t) && i64::MIN <= int_token_value(t) <= i64::MAX {
                Ok((int_token_value(t), k + 1))
            } else {
                Err(BencodeError::MalformedEncoding(p as usize))
            }
        },
    }
}

/// An optional `-` followed by at least one ASCII digit.
pub open spec fn is_int_token(t: Seq<u8>) -> bool {
    if t.len() == 0 {
        false
    } else if t[0] == 0x2d {
        t.len() >= 2 && all_digits(t.drop_first())
    } else {
        all_digits(t)
    }
}

/// The signed value denoted by an integer token.
pub open spec fn int_token_value(t: Seq<u8>) -> int {
    if t.len() > 0 && t[0] == 0x2d {
        -(digits_value(t.drop_first()) as int)
    } else {
        digits_value(t) as int
    }
}

/// The decoded form of `<digits>:` starting at the first digit: the byte
/// count and the position just past the `:`.  The count must fit in a signed
/// 64-bit word.
pub open spec fn spec_parse_len(s: Seq<u8>, p: int) -> Result<(int, int), BencodeError> {
    match find_byte(s, p, 0x3a) {
        None => Err(BencodeError::UnexpectedEof),
        Some(k) => {
            let t = s.subrange(p, k);
            if all_digits(t) && t.len() > 0 && digits_value(t) <= i64::MAX {
                Ok((digits_value(t) as int, k + 1))
            } else {
                Err(BencodeError::MalformedEncoding(p as usize))
            }
        },
    }
}

/// The value decoded from `s` at `pos` with the given remaining nesting
/// budget, and the position just past it.  This is the decoder's full
/// functional specification; the executable `Parser` is proved to return
/// exactly this.
pub open spec fn spec_parse(s: Seq<u8>, pos: int, depth: int) -> Result<
    (SpecValue, int),
    BencodeError,
>
    decreases depth, s.len() - pos, 0int,
{
    if pos < 0 || pos >= s.len() {
        Err(BencodeError::UnexpectedEof)
    } else {
        let c = s[pos];
        if c == 0x69 {
            match spec_parse_number(s, pos + 1) {
                Ok((i, p2)) => Ok((SpecValue::Int(i), p2)),
                Err(e) => Err(e),
            }
        } else if is_digit_byte(c) {
            match spec_parse_len(s, pos) {
                Ok((n, q)) => if q + n > s.len() {
                    Err(BencodeError::UnexpectedEof)
                } else {
                    Ok((SpecValue::Str(s.subrange(q, q + n)), q + n))
                },
                Err(e) => Err(e),
            }
        } else if c == 0x6c {
            if depth < 1 {
                Err(BencodeError::MalformedEncoding(pos as usize))
            } else {
                match spec_parse_items(s, pos + 1, depth - 1) {
                    Ok((xs, p2)) => Ok((SpecValue::List(xs), p2)),
                    Err(e) => Err(e),
                }
            }
        } else if c == 0x64 {
            if depth < 1 {
                Err(BencodeError::MalformedEncoding(pos as usize))
            } else {
                match spec_parse_pairs(s, pos + 1, depth - 1) {
                    Ok((ps, p2)) => Ok((SpecValue::Dict(ps), p2)),
                    Err(e) => Err(e),
                }
            }
        } else {
            Err(BencodeError::MalformedEncoding(pos as usize))
        }
    }
}

/// List elements decoded from `s` at `pos` up to and past a closing `e`.
///
/// The guard `pos < p2 <= s.len()` on each element's end position always
/// holds (decoding consumes at least one byte); it is written out so that the
/// recursion visibly terminates.
pub open spec fn spec_parse_items(s: Seq<u8>, pos: int, depth: int) -> Result<
    (Seq<SpecValue>, int),
    BencodeError,
>
    decreases depth, s.len() - pos, 1int,
{
    if pos < 0 || pos >= s.len() {
        Err(BencodeError::UnexpectedEof)
    } else if s[pos] == 0x65 {
        Ok((Seq::empty(), pos + 1))
    } else {
        match spec_parse(s, pos, depth) {
            Err(e) => Err(e),
            Ok((v, p2)) => if pos < p2 <= s.len() {
                match spec_parse_items(s, p2, depth) {
                    Err(e) => Err(e),
                    Ok((rest, p3)) => Ok((seq![v] + rest, p3)),
                }
            } else {
                Err(BencodeError::MalformedEncoding(pos as usize))
            },
        }
    }
}

/// Dictionary pairs decoded from `s` at `pos` up to and past a closing `e`.
/// Each key must decode to a byte-string.
pub open spec fn spec_parse_pairs(s: Seq<u8>, pos: int, depth: int) -> Result<
    (Seq<(Seq<u8>, SpecValue)>, int),
    BencodeError,
>
    decreases depth, s.len() - pos, 1int,
{
    if pos < 0 || pos >= s.len() {
        Err(BencodeError::UnexpectedEof)
    } else if s[pos] == 0x65 {
        Ok((Seq::empty(), pos + 1))
    } else {
        match spec_parse(s, pos, depth) {
            Err(e) => Err(e),
            Ok((k, p2)) => match k {
                SpecValue::Str(kb) => if pos < p2 <= s.len() {
                    match spec_parse(s, p2, depth) {
                        Err(e) => Err(e),
                        Ok((v, p3)) => if p2 < p3 <= s.len() {
                            match spec_parse_pairs(s, p3, depth) {
                                Err(e) => Err(e),
                                Ok((rest, p4)) => Ok((seq![(kb, v)] + rest, p4)),
                            }
                        } else {
                            Err(BencodeError::MalformedEncoding(p2 as usize))
                        },
                    }
                } else {
                    Err(BencodeError::MalformedEncoding(pos as usize))
                },
                _ => Err(BencodeError::InvalidKeyType(pos as usize)),
            },
        }
    }
}

/// Appending one digit multiplies the value by ten and adds the digit.
proof fn lemma_digits_snoc(s: Seq<u8>, i0: int, j: int)
    requires
        0 <= i0 <= j < s.len(),
    ensures
        digits_value(s.subrange(i0, j + 1)) == digits_value(s.subrange(i0, j)) * 10 + ((s[j]
            - 0x30) as nat),
{
    let t = s.subrange(i0, j + 1);
    assert(t.drop_last() =~= s.subrange(i0, j));
    assert(t.last() == s[j]);
}

/// A digit run's value only grows as more digits are appended.
proof fn lemma_digits_prefix_le(s: Seq<u8>, i0: int, j: int, k: int)
    requires
        0 <= i0 <= j <= k <= s.len(),
    ensures
        digits_value(s.subrange(i0, j)) <= digits_value(s.subrange(i0, k)),
    decreases k - j,
{
    if j < k {
        lemma_digits_prefix_le(s, i0, j, k - 1);
        lemma_digits_snoc(s, i0, k - 1);
    }
}

/// An incremental bencode decoder over a borrowed byte buffer.
///
/// Decoding is a pure function of `input` and `pos`: every method's result
/// is specified exactly by `spec_parse` and its companions.
pub struct Parser<'a> {
    /// The bytes being decoded.
    pub input: &'a [u8],
    /// Position of the next byte to examine.
    pub pos: usize,
}

impl<'a> Parser<'a> {
    /// A decoder positioned at the start of `input`.
    pub fn new(input: &'a [u8]) -> (r: Parser<'a>)
        ensures
            r.input@ == input@,
            r.pos == 0,
    {
        Parser { input, pos: 0 }
    }

    /// First occurrence of `target` at or after `start`.
    fn scan_for(&self, target: u8, start: usize) -> (r: Option<usize>)
        requires
            start <= self.input@.len(),
        ensures
            match r {
                Some(k) => find_byte(self.input@, start as int, target) == Some(k as int) && start
                    <= k < self.input@.len(),
                None => find_byte(self.input@, start as int, target) is None,
            },
    {
        let mut i = start;
        while i < self.input.len()
            invariant
                start <= i <= self.input@.len(),
                find_byte(self.input@, start as int, target) == find_byte(
                    self.input@,
                    i as int,
                    target,
                ),
            decreases self.input@.len() - i,
        {
            if self.input[i] == target {
                return Some(i);
            }
            i = i + 1;
        }
        None
    }

    /// Decodes the digits of `i<digits>e` from the current position, which
    /// must be just past the leading `i`, and consumes the closing `e`.
    pub fn parse_number(&mut self) -> (r: Result<i64, BencodeError>)
        requires
            old(self).pos <= old(self).input@.len(),
        ensures
            final(self).input@ == old(self).input@,
            final(self).pos <= final(self).input@.len(),
            match spec_parse_number(old(self).input@, old(self).pos as int) {
                Ok((v, p2)) => r matches Ok(x) && x == v && final(self).pos == p2,
                Err(e) => r == Err::<i64, BencodeError>(e),
            },
    {
        let ghost s = self.input@;
        let p = self.pos;
        let k = match self.scan_for(0x65, p) {
            Some(k) => k,
            None => {
                return Err(BencodeError::UnexpectedEof);
            },
        };
        let ghost t = s.subrange(p as int, k as int);
        if k == p {
            // empty token `ie`
            return Err(BencodeError::MalformedEncoding(p));
        }
        let mut neg = false;
        let mut i = p;
        if self.input[p] == 0x2d {
            neg = true;
            i = p + 1;
            if i == k {
                // bare `-`
                assert(t[0] == 0x2d && t.len() < 2);
                return Err(BencodeError::MalformedEncoding(p));
            }
        }
        let i0 = i;
        proof {
            if neg {
                assert(t.drop_first() =~= s.subrange(i0 as int, k as int));
            } else {
                assert(t =~= s.subrange(i0 as int, k as int));
            }
        }
        let ghost digits = s.subrange(i0 as int, k as int);
        proof {
            assert(s.len() == self.input.len());
        }
        let mut acc: u64 = 0;
        let mut j = i0;
        while j < k
            invariant
                i0 <= j <= k <= s.len(),
                self.input@ == s,
                self.pos == p,
                p == old(self).pos,
                p < k < s.len(),
                p <= i0,
                find_byte(s, p as int, 0x65) == Some(k as int),
                t == s.subrange(p as int, k as int),
                digits == s.subrange(i0 as int, k as int),
                neg ==> t.len() >= 2 && t[0] == 0x2d && t.drop_first() == digits,
                !neg ==> t == digits && s[p as int] != 0x2d,
                s.len() <= usize::MAX,
                acc <= 0x8000_0000_0000_0000u64,
                acc == digits_value(s.subrange(i0 as int, j as int)),
                all_digits(s.subrange(i0 as int, j as int)),
            decreases k - j,
        {
            let b = self.input[j];
            if b < 0x30 || b > 0x39 {
                proof {
                    assert(digits[j - i0] == b);
                    assert(!all_digits(digits));
                    if neg {
                        assert(t.drop_first() == digits);
                    } else {
                        assert(t == digits);
                    }
                    assert(!is_int_token(t));
                }
                return Err(BencodeError::MalformedEncoding(p));
            }
            let step: u128 = (acc as u128) * 10 + ((b - 0x30) as u128);
            proof {
                lemma_digits_snoc(s, i0 as int, j as int);
                assert(step == digits_value(s.subrange(i0 as int, j + 1)));
            }
            if step > 0x8000_0000_0000_0000u128 {
                proof {
                    lemma_digits_prefix_le(s, i0 as int, j + 1, k as int);
                    assert(digits_value(digits) > 0x8000_0000_0000_0000);
                    if is_int_token(t) {
                        if neg {
                            assert(t.drop_first() == digits);
                            assert(int_token_value(t) == -(digits_value(digits) as int));
                            assert(int_token_value(t) < i64::MIN);
                        } else {
                            assert(t == digits);
                            assert(int_token_value(t) > i64::MAX);
                        }
                    }
                }
                return Err(BencodeError::MalformedEncoding(p));
            }
            acc = step as u64;
            proof {
                assert(s.subrange(i0 as int, j + 1) =~= s.subrange(i0 as int, j as int).push(
                    s[j as int],
                ));
                assert(all_digits(s.subrange(i0 as int, j + 1)));
            }
            j = j + 1;
        }
        proof {
            assert(s.subrange(i0 as int, k as int) == digits);
            assert(all_digits(digits));
            assert(acc == digits_value(digits));
            if neg {
                assert(t[0] == 0x2d);
                assert(t.drop_first() == digits);
                assert(t.len() >= 2);
                assert(is_int_token(t));
                assert(int_token_value(t) == -(digits_value(digits) as int));
            } else {
                assert(t == digits);
                assert(is_digit_byte(t[0]));
                assert(t[0] != 0x2d);
                assert(is_int_token(t));
                assert(int_token_value(t) == digits_value(digits) as int);
            }
        }
        let value: i64;
        if neg {
            if acc == 0x8000_0000_0000_0000u64 {
                value = i64::MIN;
            } else {
                value = -(acc as i64);
            }
        } else {
            if acc == 0x8000_0000_0000_0000u64 {
                // 2^63 exceeds i64::MAX
                return Err(BencodeError::MalformedEncoding(p));
            }
            value = acc as i64;
        }
        self.pos = k + 1;
        Ok(value)
    }

    /// Decodes the `<digits>:` length prefix of a byte-string from the
    /// current position; `first` is the byte at that position.  Consumes the
    /// `:`.
    #[allow(unused_variables)]
    pub fn parse_string_len(&mut self, first: u8) -> (r: Result<i64, BencodeError>)
        requires
            old(self).pos < old(self).input@.len(),
            old(self).input@[old(self).pos as int] == first,
        ensures
            final(self).input@ == old(self).input@,
            final(self).pos <= final(self).input@.len(),
            match spec_parse_len(old(self).input@, old(self).pos as int) {
                Ok((n, q)) => r matches Ok(x) && x == n && final(self).pos == q,
                Err(e) => r == Err::<i64, BencodeError>(e),
            },
    {
        let ghost s = self.input@;
        let p = self.pos;
        let k = match self.scan_for(0x3a, p) {
            Some(k) => k,
            None => {
                return Err(BencodeError::UnexpectedEof);
            },
        };
        let ghost t = s.subrange(p as int, k as int);
        if k == p {
            // empty length token
            return Err(BencodeError::MalformedEncoding(p));
        }
        proof {
            assert(s.len() == self.input.len());
        }
        let mut acc: u64 = 0;
        let mut j = p;
        while j < k
            invariant
                p <= j <= k <= s.len(),
                self.input@ == s,
                self.pos == p,
                p == old(self).pos,
                p < k < s.len(),
                find_byte(s, p as int, 0x3a) == Some(k as int),
                t == s.subrange(p as int, k as int),
                s.len() <= usize::MAX,
                acc <= i64::MAX as u64,
                acc == digits_value(s.subrange(p as int, j as int)),
                all_digits(s.subrange(p as int, j as int)),
            decreases k - j,
        {
            let b = self.input[j];
            if b < 0x30 || b > 0x39 {
                proof {
                    assert(t[j - p] == b);
                    assert(!all_digits(t));
                }
                return Err(BencodeError::MalformedEncoding(p));
            }
            let step: u128 = (acc as u128) * 10 + ((b - 0x30) as u128);
            proof {
                lemma_digits_snoc(s, p as int, j as int);
                assert(step == digits_value(s.subrange(p as int, j + 1)));
            }
            if step > i64::MAX as u128 {
                proof {
                    lemma_digits_prefix_le(s, p as int, j + 1, k as int);
                    assert(digits_value(t) > i64::MAX);
                }
                return Err(BencodeError::MalformedEncoding(p));
            }
            acc = step as u64;
            proof {
                assert(s.subrange(p as int, j + 1) =~= s.subrange(p as int, j as int).push(
                    s[j as int],
                ));
                assert(all_digits(s.subrange(p as int, j + 1)));
            }
            j = j + 1;
        }
        proof {
            assert(t == s.subrange(p as int, k as int));
            assert(all_digits(t) && t.len() > 0 && digits_value(t) <= i64::MAX);
        }
        self.pos = k + 1;
        Ok(acc as i64)
    }

    /// Copies the next `len` bytes verbatim, or reports that the input ends
    /// first.
    pub fn parse_bytes(&mut self, len: i64) -> (r: Result<Vec<u8>, BencodeError>)
        requires
            len >= 0,
            old(self).pos <= old(self).input@.len(),
        ensures
            final(self).input@ == old(self).input@,
            final(self).pos <= final(self).input@.len(),
            if old(self).pos + len > old(self).input@.len() {
                r == Err::<Vec<u8>, BencodeError>(BencodeError::UnexpectedEof)
            } else {
                r matches Ok(b) && b@ == old(self).input@.subrange(
                    old(self).pos as int,
                    old(self).pos + len,
                ) && final(self).pos == old(self).pos + len
            },
    {
        let avail = self.input.len() - self.pos;
        if (len as u64) > (avail as u64) {
            return Err(BencodeError::UnexpectedEof);
        }
        let n = len as usize;
        let mut out: Vec<u8> = Vec::new();
        let mut i: usize = 0;
        while i < n
            invariant
                self.input@ == old(self).input@,
                self.pos == old(self).pos,
                self.pos + n <= self.input@.len(),
                self.input@.len() <= usize::MAX,
                n == len,
                i <= n,
                out@ =~= self.input@.subrange(self.pos as int, self.pos + i),
            decreases n - i,
        {
            out.push(self.input[self.pos + i]);
            i = i + 1;
        }
        self.pos = self.pos + n;
        Ok(out)
    }

    /// One value, recursively, with `depth` nesting levels still allowed.
    fn parse_value(&mut self, depth: u32) -> (r: Result<BencodeValue, BencodeError>)
        requires
            old(self).pos <= old(self).input@.len(),
        ensures
            final(self).input@ == old(self).input@,
            final(self).pos <= final(self).input@.len(),
            match spec_parse(old(self).input@, old(self).pos as int, depth as int) {
                Ok((v, p2)) => r matches Ok(ev) && ev@ == v && final(self).pos == p2,
                Err(e) => r == Err::<BencodeValue, BencodeError>(e),
            },
            r is Ok ==> old(self).pos < final(self).pos,
        decreases self.input@.len() - self.pos, 0int,
    {
        let ghost s = self.input@;
        let ghost pos0 = self.pos as int;
        if self.pos >= self.input.len() {
            return Err(BencodeError::UnexpectedEof);
        }
        let c = self.input[self.pos];
        if c == 0x69 {
            self.pos = self.pos + 1;
            match self.parse_number() {
                Ok(v) => {
                    proof {
                        lemma_find_byte(s, pos0 + 1, 0x65);
                    }
                    Ok(BencodeValue::BInteger(v))
                },
                Err(e) => Err(e),
            }
        } else if 0x30 <= c && c <= 0x39 {
            match self.parse_string_len(c) {
                Err(e) => Err(e),
                Ok(n) => {
                    proof {
                        lemma_find_byte(s, pos0, 0x3a);
                    }
                    match self.parse_bytes(n) {
                        Err(e) => Err(e),
                        Ok(bytes) => Ok(BencodeValue::BString(bytes)),
                    }
                },
            }
        } else if c == 0x6c {
            if depth == 0 {
                return Err(BencodeError::MalformedEncoding(self.pos));
            }
            self.pos = self.pos + 1;
            match self.parse_items(depth - 1) {
                Ok(items) => Ok(BencodeValue::BList(items)),
                Err(e) => Err(e),
            }
        } else if c == 0x64 {
            if depth == 0 {
                return Err(BencodeError::MalformedEncoding(self.pos));
            }
            self.pos = self.pos + 1;
            match self.parse_pairs(depth - 1) {
                Ok(pairs) => Ok(BencodeValue::BDictionary(pairs)),
                Err(e) => Err(e),
            }
        } else {
            Err(BencodeError::MalformedEncoding(self.pos))
        }
    }

    /// List elements up to and past a closing `e`.
    fn parse_items(&mut self, depth: u32) -> (r: Result<Vec<BencodeValue>, BencodeError>)
        requires
            old(self).pos <= old(self).input@.len(),
        ensures
            final(self).input@ == old(self).input@,
            final(self).pos <= final(self).input@.len(),
            match spec_parse_items(old(self).input@, old(self).pos as int, depth as int) {
                Ok((xs, p2)) => r matches Ok(ev) && views_of_items(ev@) == xs && final(self).pos
                    == p2,
                Err(e) => r == Err::<Vec<BencodeValue>, BencodeError>(e),
            },
            r is Ok ==> old(self).pos < final(self).pos,
        decreases self.input@.len() - self.pos, 1int,
    {
        let ghost s = self.input@;
        let ghost pos0 = self.pos as int;
        let ghost d = depth as int;
        let mut items: Vec<BencodeValue> = Vec::new();
        proof {
            assert(s.len() == self.input.len());
            assert(views_of_items(items@) =~= Seq::<SpecValue>::empty());
        }
        loop
            invariant
                self.input@ == s,
                s == old(self).input@,
                pos0 == old(self).pos as int,
                pos0 <= self.pos as int <= s.len(),
                s.len() <= usize::MAX,
                d == depth as int,
                match spec_parse_items(s, pos0, d) {
                    Ok((xs, p2)) => (match spec_parse_items(s, self.pos as int, d) {
                        Ok((rest, q2)) => xs == views_of_items(items@) + rest && p2 == q2,
                        Err(_) => false,
                    }),
                    Err(e) => spec_parse_items(s, self.pos as int, d) == Err::<
                        (Seq<SpecValue>, int),
                        BencodeError,
                    >(e),
                },
            decreases s.len() - self.pos,
        {
            if self.pos >= self.input.len() {
                return Err(BencodeError::UnexpectedEof);
            }
            let c = self.input[self.pos];
            if c == 0x65 {
                proof {
                    let pcur = self.pos as int;
                    assert(spec_parse_items(s, pcur, d) == Ok::<
                        (Seq<SpecValue>, int),
                        BencodeError,
                    >((Seq::empty(), pcur + 1)));
                    assert(views_of_items(items@) + Seq::<SpecValue>::empty() =~= views_of_items(
                        items@,
                    ));
                }
                self.pos = self.pos + 1;
                return Ok(items);
            }
            let ghost pcur = self.pos as int;
            match self.parse_value(depth) {
                Err(e) => {
                    return Err(e);
                },
                Ok(v) => {
                    proof {
                        let p2 = self.pos as int;
                        assert(spec_parse(s, pcur, d) == Ok::<(SpecValue, int), BencodeError>(
                            (v@, p2),
                        ));
                        lemma_views_of_items_push(items@, v);
                        match spec_parse_items(s, p2, d) {
                            Ok((rest, _q)) => {
                                assert((views_of_items(items@) + seq![v@]) + rest
                                    =~= views_of_items(items@) + (seq![v@] + rest));
                            },
                            Err(_) => {},
                        }
                    }
                    items.push(v);
                },
            }
        }
    }

    /// Dictionary pairs up to and past a closing `e`.
    fn parse_pairs(&mut self, depth: u32) -> (r: Result<
        Vec<(Vec<u8>, BencodeValue)>,
        BencodeError,
    >)
        requires
            old(self).pos <= old(self).input@.len(),
        ensures
            final(self).input@ == old(self).input@,
            final(self).pos <= final(self).input@.len(),
            match spec_parse_pairs(old(self).input@, old(self).pos as int, depth as int) {
                Ok((ps, p2)) => r matches Ok(ev) && views_of_pairs(ev@) == ps && final(self).pos
                    == p2,
                Err(e) => r == Err::<Vec<(Vec<u8>, BencodeValue)>, BencodeError>(e),
            },
            r is Ok ==> old(self).pos < final(self).pos,
        decreases self.input@.len() - self.pos, 1int,
    {
        let ghost s = self.input@;
        let ghost pos0 = self.pos as int;
        let ghost d = depth as int;
        let mut pairs: Vec<(Vec<u8>, BencodeValue)> = Vec::new();
        proof {
            assert(s.len() == self.input.len());
            assert(views_of_pairs(pairs@) =~= Seq::<(Seq<u8>, SpecValue)>::empty());
        }
        loop
            invariant
                self.input@ == s,
                s == old(self).input@,
                pos0 == old(self).pos as int,
                pos0 <= self.pos as int <= s.len(),
                s.len() <= usize::MAX,
                d == depth as int,
                match spec_parse_pairs(s, pos0, d) {
                    Ok((ps, p2)) => (match spec_parse_pairs(s, self.pos as int, d) {
                        Ok((rest, q2)) => ps == views_of_pairs(pairs@) + rest && p2 == q2,
                        Err(_) => false,
                    }),
                    Err(e) => spec_parse_pairs(s, self.pos as int, d) == Err::<
                        (Seq<(Seq<u8>, SpecValue)>, int),
                        BencodeError,
                    >(e),
                },
            decreases s.len() - self.pos,
        {
            if self.pos >= self.input.len() {
                return Err(BencodeError::UnexpectedEof);
            }
            let c = self.input[self.pos];
            if c == 0x65 {
                proof {
                    let pcur = self.pos as int;
                    assert(spec_parse_pairs(s, pcur, d) == Ok::<
                        (Seq<(Seq<u8>, SpecValue)>, int),
                        BencodeError,
                    >((Seq::empty(), pcur + 1)));
                    assert(views_of_pairs(pairs@) + Seq::<(Seq<u8>, SpecValue)>::empty()
                        =~= views_of_pairs(pairs@));
                }
                self.pos = self.pos + 1;
                return Ok(pairs);
            }
            let key_start = self.pos;
            let ghost pcur = self.pos as int;
            match self.parse_value(depth) {
                Err(e) => {
                    return Err(e);
                },
                Ok(kv) => {
                    match kv {
                        BencodeValue::BString(kb) => {
                            let ghost p2 = self.pos as int;
                            match self.parse_value(depth) {
                                Err(e) => {
                                    return Err(e);
                                },
                                Ok(vv) => {
                                    proof {
                                        let p3 = self.pos as int;
                                        lemma_views_of_pairs_push(pairs@, kb, vv);
                                        match spec_parse_pairs(s, p3, d) {
                                            Ok((rest, _q)) => {
                                                assert((views_of_pairs(pairs@) + seq![(kb@, vv@)])
                                                    + rest =~= views_of_pairs(pairs@) + (
                                                seq![(kb@, vv@)] + rest));
                                            },
                                            Err(_) => {},
                                        }
                                    }
                                    pairs.push((kb, vv));
                                },
                            }
                        },
                        _ => {
                            return Err(BencodeError::InvalidKeyType(key_start));
                        },
                    }
                },
            }
        }
    }

    /// Decodes one value from the current position.
    ///
    /// The result is exactly `spec_parse` of the buffer at that position:
    /// the same bytes always decode to the same tree, and on success the
    /// position advances just past the value's encoding.
    pub fn parse(&mut self) -> (r: Result<BencodeValue, BencodeError>)
        requires
            old(self).pos <= old(self).input@.len(),
        ensures
            final(self).input@ == old(self).input@,
            final(self).pos <= final(self).input@.len(),
            match spec_parse(old(self).input@, old(self).pos as int, MAX_DEPTH as int) {
                Ok((v, p2)) => r matches Ok(ev) && ev@ == v && final(self).pos == p2,
                Err(e) => r == Err::<BencodeValue, BencodeError>(e),
            },
            r is Ok ==> old(self).pos < final(self).pos,
    {
        self.parse_value(MAX_DEPTH)
    }

    /// Decodes list elements from the current position up to and past a
    /// closing `e`, with a fresh nesting budget.
    pub fn parse_list(&mut self) -> (r: Result<BencodeValue, BencodeError>)
        requires
            old(self).pos <= old(self).input@.len(),
        ensures
            final(self).input@ == old(self).input@,
            final(self).pos <= final(self).input@.len(),
            match spec_parse_items(old(self).input@, old(self).pos as int, MAX_DEPTH as int - 1) {
                Ok((xs, p2)) => r matches Ok(ev) && ev@ == SpecValue::List(xs) && final(self).pos
                    == p2,
                Err(e) => r == Err::<BencodeValue, BencodeError>(e),
            },
    {
        match self.parse_items(MAX_DEPTH - 1) {
            Ok(items) => Ok(BencodeValue::BList(items)),
            Err(e) => Err(e),
        }
    }

    /// Decodes dictionary pairs from the current position up to and past a
    /// closing `e`, with a fresh nesting budget.
    pub fn parse_dictionary(&mut self) -> (r: Result<BencodeValue, BencodeError>)
        requires
            old(self).pos <= old(self).input@.len(),
        ensures
            final(self).input@ == old(self).input@,
            final(self).pos <= final(self).input@.len(),
            match spec_parse_pairs(old(self).input@, old(self).pos as int, MAX_DEPTH as int - 1) {
                Ok((ps, p2)) => r matches Ok(ev) && ev@ == SpecValue::Dict(ps) && final(self).pos
                    == p2,
                Err(e) => r == Err::<BencodeValue, BencodeError>(e),
            },
    {
        match self.parse_pairs(MAX_DEPTH - 1) {
            Ok(pairs) => Ok(BencodeValue::BDictionary(pairs)),
            Err(e) => Err(e),
        }
    }
}


/// `find_byte` finds exactly the known first occurrence.
proof fn lemma_find_byte_at(s: Seq<u8>, i: int, b: u8, k: int)
    requires
        0 <= i <= k < s.len(),
        s[k] == b,
        forall|j: int| i <= j < k ==> s[j] != b,
    ensures
        find_byte(s, i, b) == Some(k),
{
    lemma_find_byte(s, i, b);
    match find_byte(s, i, b) {
        Some(k2) => {
            if k2 < k {
                assert(s[k2] != b);
            } else if k2 > k {
                assert(s[k] != b);
            }
        },
        None => {
            assert(s[k] != b);
        },
    }
}

/// Every byte of a decimal rendering is an ASCII digit, and there is at
/// least one.
proof fn lemma_dec_digits_shape(n: nat)
    ensures
        dec_digits(n).len() >= 1,
        all_digits(dec_digits(n)),
    decreases n,
{
    if n >= 10 {
        lemma_dec_digits_shape(n / 10);
        let d = dec_digits(n / 10);
        let t = dec_digits(n);
        assert(t == d.push((0x30 + n % 10) as u8));
        assert forall|i: int| 0 <= i < t.len() implies is_digit_byte(t[i]) by {
            if i < d.len() {
                assert(t[i] == d[i]);
            } else {
                assert(t[i] == (0x30 + n % 10) as u8);
            }
        }
    }
}

/// The decimal rendering evaluates back to the number.
proof fn lemma_dec_digits_value(n: nat)
    ensures
        digits_value(dec_digits(n)) == n,
    decreases n,
{
    if n < 10 {
        let t = dec_digits(n);
        assert(t.drop_last() =~= Seq::<u8>::empty());
        assert(digits_value(t) == digits_value(t.drop_last()) * 10 + ((t.last() - 0x30) as nat));
    } else {
        lemma_dec_digits_value(n / 10);
        let d = dec_digits(n / 10);
        let t = dec_digits(n);
        assert(t == d.push((0x30 + n % 10) as u8));
        assert(t.drop_last() =~= d);
        assert(t.last() == (0x30 + n % 10) as u8);
        vstd::arithmetic::div_mod::lemma_fundamental_div_mod(n as int, 10);
        assert(digits_value(t) == digits_value(d) * 10 + ((t.last() - 0x30) as nat));
    }
}

/// An integer literal is a valid token, contains no terminator byte, and
/// denotes its integer.
proof fn lemma_int_literal_token(i: int)
    ensures
        int_literal(i).len() >= 1,
        is_int_token(int_literal(i)),
        int_token_value(int_literal(i)) == i,
        forall|j: int| 0 <= j < int_literal(i).len() ==> #[trigger] int_literal(i)[j] != 0x65,
{
    let t = int_literal(i);
    if i < 0 {
        lemma_dec_digits_shape((-i) as nat);
        lemma_dec_digits_value((-i) as nat);
        assert(t[0] == 0x2d);
        assert(t.drop_first() =~= dec_digits((-i) as nat));
        assert(is_int_token(t));
        assert(int_token_value(t) == -(digits_value(dec_digits((-i) as nat)) as int));
        assert forall|j: int| 0 <= j < t.len() implies #[trigger] t[j] != 0x65 by {
            if j > 0 {
                assert(t[j] == dec_digits((-i) as nat)[j - 1]);
                assert(is_digit_byte(t[j]));
            }
        }
    } else {
        lemma_dec_digits_shape(i as nat);
        lemma_dec_digits_value(i as nat);
        assert(t == dec_digits(i as nat));
        assert(t[0] != 0x2d && is_digit_byte(t[0]));
        assert forall|j: int| 0 <= j < t.len() implies #[trigger] t[j] != 0x65 by {
            assert(is_digit_byte(t[j]));
        }
    }
}

/// An encoding has at least two bytes and never begins with the terminator
/// byte `e`.
proof fn lemma_encoding_first_byte(v: SpecValue)
    ensures
        encoding(v).len() >= 2,
        encoding(v)[0] != 0x65,
{
    match v {
        SpecValue::Str(b) => {
            lemma_dec_digits_shape(b.len());
            let d = dec_digits(b.len());
            assert(encoding(v) == d + seq![0x3au8] + b);
            assert(encoding(v)[0] == d[0]);
            assert(is_digit_byte(d[0]));
        },
        SpecValue::Int(i) => {
            lemma_int_literal_token(i);
            assert(encoding(v)[0] == 0x69);
        },
        SpecValue::List(xs) => {
            assert(encoding(v)[0] == 0x6c);
        },
        SpecValue::Dict(ps) => {
            assert(encoding(v)[0] == 0x64);
        },
    }
}

/// Decoding a byte-string's encoding at its position yields that
/// byte-string and stops just past it.
proof fn lemma_parse_str_at(s: Seq<u8>, pos: int, b: Seq<u8>, depth: int)
    requires
        b.len() <= i64::MAX,
        0 <= pos,
        pos + encoding(SpecValue::Str(b)).len() <= s.len(),
        s.subrange(pos, pos + encoding(SpecValue::Str(b)).len()) == encoding(SpecValue::Str(b)),
    ensures
        spec_parse(s, pos, depth) == Ok::<(SpecValue, int), BencodeError>(
            (SpecValue::Str(b), pos + encoding(SpecValue::Str(b)).len()),
        ),
{
    let e = encoding(SpecValue::Str(b));
    let d = dec_digits(b.len());
    let dl = d.len() as int;
    lemma_dec_digits_shape(b.len());
    lemma_dec_digits_value(b.len());
    assert(e == d + seq![0x3au8] + b);
    assert forall|j: int| 0 <= j < e.len() implies s[pos + j] == e[j] by {
        assert(s.subrange(pos, pos + e.len())[j] == s[pos + j]);
    }
    assert(e[0] == d[0]);
    assert(s[pos + 0] == e[0]);
    assert(s[pos] == d[0]);
    assert(is_digit_byte(s[pos]));
    assert(s[pos] != 0x69 && s[pos] != 0x6c && s[pos] != 0x64);
    // the colon is the first one: every byte before it is a digit
    assert(e[dl] == 0x3a);
    assert(s[pos + dl] == e[dl]);
    assert forall|j: int| pos <= j < pos + dl implies s[j] != 0x3a by {
        assert(s[j] == e[j - pos]);
        assert(e[j - pos] == d[j - pos]);
        assert(is_digit_byte(d[j - pos]));
    }
    lemma_find_byte_at(s, pos, 0x3a, pos + dl);
    let t = s.subrange(pos, pos + dl);
    assert(t =~= d);
    assert(all_digits(t) && t.len() > 0 && digits_value(t) == b.len());
    let q = pos + dl + 1;
    assert(q + b.len() == pos + e.len());
    assert forall|j: int| 0 <= j < b.len() implies s.subrange(q, q + b.len() as int)[j] == b[j] by {
        assert(s.subrange(q, q + b.len() as int)[j] == s[q + j]);
        assert(s[q + j] == e[dl + 1 + j]);
        assert(e[dl + 1 + j] == b[j]);
    }
    assert(s.subrange(q, q + b.len() as int) =~= b);
}

/// Decoding an integer's encoding at its position yields that integer and
/// stops just past it.
proof fn lemma_parse_int_at(s: Seq<u8>, pos: int, i: int, depth: int)
    requires
        i64::MIN <= i <= i64::MAX,
        0 <= pos,
        pos + encoding(SpecValue::Int(i)).len() <= s.len(),
        s.subrange(pos, pos + encoding(SpecValue::Int(i)).len()) == encoding(SpecValue::Int(i)),
    ensures
        spec_parse(s, pos, depth) == Ok::<(SpecValue, int), BencodeError>(
            (SpecValue::Int(i), pos + encoding(SpecValue::Int(i)).len()),
        ),
{
    let e = encoding(SpecValue::Int(i));
    let lit = int_literal(i);
    let ll = lit.len() as int;
    lemma_int_literal_token(i);
    assert(e == seq![0x69u8] + lit + seq![0x65u8]);
    assert forall|j: int| 0 <= j < e.len() implies s[pos + j] == e[j] by {
        assert(s.subrange(pos, pos + e.len())[j] == s[pos + j]);
    }
    assert(e[0] == 0x69);
    assert(s[pos + 0] == e[0]);
    assert(s[pos] == 0x69);
    // the closing `e` is the first one after the `i`
    assert(e[1 + ll] == 0x65);
    assert(s[pos + 1 + ll] == e[1 + ll]);
    assert forall|j: int| pos + 1 <= j < pos + 1 + ll implies s[j] != 0x65 by {
        assert(s[j] == e[j - pos]);
        assert(e[j - pos] == lit[j - pos - 1]);
    }
    lemma_find_byte_at(s, pos + 1, 0x65, pos + 1 + ll);
    let t = s.subrange(pos + 1, pos + 1 + ll);
    assert forall|j: int| 0 <= j < ll implies t[j] == lit[j] by {
        assert(t[j] == s[pos + 1 + j]);
        assert(e[1 + j] == lit[j]);
        assert(s[pos + (1 + j)] == e[1 + j]);
    }
    assert(t =~= lit);
    assert(is_int_token(t) && int_token_value(t) == i);
    assert(pos + 1 + ll + 1 == pos + e.len());
}

/// Decoding an encoded value at its position yields that value back and
/// stops just past its encoding: the decoder inverts the encoder.
pub proof fn lemma_parse_inverts_encoding(s: Seq<u8>, pos: int, v: SpecValue, depth: int)
    requires
        wf(v),
        depth >= depth_of(v),
        0 <= pos,
        pos + encoding(v).len() <= s.len(),
        s.subrange(pos, pos + encoding(v).len()) == encoding(v),
    ensures
        spec_parse(s, pos, depth) == Ok::<(SpecValue, int), BencodeError>(
            (v, pos + encoding(v).len()),
        ),
    decreases v,
{
    let e = encoding(v);
    assert forall|j: int| 0 <= j < e.len() implies s[pos + j] == e[j] by {
        assert(s.subrange(pos, pos + e.len())[j] == s[pos + j]);
    }
    match v {
        SpecValue::Str(b) => {
            lemma_parse_str_at(s, pos, b, depth);
        },
        SpecValue::Int(i) => {
            lemma_parse_int_at(s, pos, i, depth);
        },
        SpecValue::List(xs) => {
            let items = encoding_of_items(xs);
            assert(e == seq![0x6cu8] + items + seq![0x65u8]);
            assert(e[0] == 0x6c);
            assert(s[pos + 0] == e[0]);
            assert(s[pos] == 0x6c);
            assert(depth >= 1);
            assert forall|j: int| 0 <= j < items.len() implies s.subrange(
                pos + 1,
                pos + 1 + items.len() as int,
            )[j] == items[j] by {
                assert(s.subrange(pos + 1, pos + 1 + items.len() as int)[j] == s[pos + 1 + j]);
                assert(s[pos + 1 + j] == e[1 + j]);
                assert(e[1 + j] == items[j]);
            }
            assert(s.subrange(pos + 1, pos + 1 + items.len() as int) =~= items);
            assert(e[1 + items.len() as int] == 0x65);
            assert(s[pos + 1 + items.len()] == e[1 + items.len() as int]);
            lemma_parse_items_of_encoding(s, pos + 1, xs, depth - 1);
        },
        SpecValue::Dict(ps) => {
            let items = encoding_of_pairs(ps);
            assert(e == seq![0x64u8] + items + seq![0x65u8]);
            assert(e[0] == 0x64);
            assert(s[pos + 0] == e[0]);
            assert(s[pos] == 0x64);
            assert(depth >= 1);
            assert forall|j: int| 0 <= j < items.len() implies s.subrange(
                pos + 1,
                pos + 1 + items.len() as int,
            )[j] == items[j] by {
                assert(s.subrange(pos + 1, pos + 1 + items.len() as int)[j] == s[pos + 1 + j]);
                assert(s[pos + 1 + j] == e[1 + j]);
                assert(e[1 + j] == items[j]);
            }
            assert(s.subrange(pos + 1, pos + 1 + items.len() as int) =~= items);
            assert(e[1 + items.len() as int] == 0x65);
            assert(s[pos + 1 + items.len()] == e[1 + items.len() as int]);
            lemma_parse_pairs_of_encoding(s, pos + 1, ps, depth - 1);
        },
    }
}

/// Decoding the concatenated encodings of a sequence of values, followed by
/// a terminator, yields that sequence.
proof fn lemma_parse_items_of_encoding(s: Seq<u8>, pos: int, xs: Seq<SpecValue>, depth: int)
    requires
        wf_items(xs),
        depth >= depth_of_items(xs),
        0 <= pos,
        pos + encoding_of_items(xs).len() + 1 <= s.len(),
        s.subrange(pos, pos + encoding_of_items(xs).len()) == encoding_of_items(xs),
        s[pos + encoding_of_items(xs).len()] == 0x65,
    ensures
        spec_parse_items(s, pos, depth) == Ok::<(Seq<SpecValue>, int), BencodeError>(
            (xs, pos + encoding_of_items(xs).len() + 1),
        ),
    decreases xs,
{
    let ee = encoding_of_items(xs);
    assert forall|j: int| 0 <= j < ee.len() implies s[pos + j] == ee[j] by {
        assert(s.subrange(pos, pos + ee.len())[j] == s[pos + j]);
    }
    if xs.len() == 0 {
        assert(ee.len() == 0);
        assert(s[pos] == 0x65);
        assert(xs =~= Seq::<SpecValue>::empty());
    } else {
        let v0 = xs[0];
        let e0 = encoding(v0);
        let rest = encoding_of_items(xs.drop_first());
        assert(ee == e0 + rest);
        lemma_encoding_first_byte(v0);
        assert(ee[0] == e0[0]);
        assert(s[pos + 0] == ee[0]);
        assert(s[pos] != 0x65);
        assert(wf(v0) && wf_items(xs.drop_first()));
        assert(depth_of(v0) <= depth_of_items(xs));
        assert(depth_of_items(xs.drop_first()) <= depth_of_items(xs));
        assert forall|j: int| 0 <= j < e0.len() implies s.subrange(pos, pos + e0.len() as int)[j]
            == e0[j] by {
            assert(s.subrange(pos, pos + e0.len() as int)[j] == s[pos + j]);
            assert(s[pos + j] == ee[j]);
            assert(ee[j] == e0[j]);
        }
        assert(s.subrange(pos, pos + e0.len() as int) =~= e0);
        lemma_parse_inverts_encoding(s, pos, v0, depth);
        let p2 = pos + e0.len() as int;
        assert(spec_parse(s, pos, depth) == Ok::<(SpecValue, int), BencodeError>((v0, p2)));
        assert(pos < p2 <= s.len());
        assert forall|j: int| 0 <= j < rest.len() implies s.subrange(p2, p2 + rest.len() as int)[j]
            == rest[j] by {
            assert(s.subrange(p2, p2 + rest.len() as int)[j] == s[p2 + j]);
            assert(s[p2 + j] == ee[e0.len() + j]);
            assert(ee[e0.len() + j] == rest[j]);
        }
        assert(s.subrange(p2, p2 + rest.len() as int) =~= rest);
        assert(s[p2 + rest.len()] == 0x65);
        lemma_parse_items_of_encoding(s, p2, xs.drop_first(), depth);
        assert(seq![v0] + xs.drop_first() =~= xs);
    }
}

/// Decoding the concatenated encodings of a sequence of key/value pairs,
/// followed by a terminator, yields that sequence.
proof fn lemma_parse_pairs_of_encoding(
    s: Seq<u8>,
    pos: int,
    ps: Seq<(Seq<u8>, SpecValue)>,
    depth: int,
)
    requires
        wf_pairs(ps),
        depth >= depth_of_pairs(ps),
        0 <= pos,
        pos + encoding_of_pairs(ps).len() + 1 <= s.len(),
        s.subrange(pos, pos + encoding_of_pairs(ps).len()) == encoding_of_pairs(ps),
        s[pos + encoding_of_pairs(ps).len()] == 0x65,
    ensures
        spec_parse_pairs(s, pos, depth) == Ok::<(Seq<(Seq<u8>, SpecValue)>, int), BencodeError>(
            (ps, pos + encoding_of_pairs(ps).len() + 1),
        ),
    decreases ps,
{
    let ee = encoding_of_pairs(ps);
    assert forall|j: int| 0 <= j < ee.len() implies s[pos + j] == ee[j] by {
        assert(s.subrange(pos, pos + ee.len())[j] == s[pos + j]);
    }
    if ps.len() == 0 {
        assert(ee.len() == 0);
        assert(s[pos] == 0x65);
        assert(ps =~= Seq::<(Seq<u8>, SpecValue)>::empty());
    } else {
        let kb = ps[0].0;
        let vv = ps[0].1;
        let ek = encoding(SpecValue::Str(kb));
        let ev = encoding(vv);
        let rest = encoding_of_pairs(ps.drop_first());
        assert(ee == dec_digits(kb.len()) + seq![0x3au8] + kb + encoding(vv) + rest);
        assert(ek == dec_digits(kb.len()) + seq![0x3au8] + kb);
        assert(ee =~= ek + ev + rest);
        lemma_encoding_first_byte(SpecValue::Str(kb));
        assert(ee[0] == ek[0]);
        assert(s[pos + 0] == ee[0]);
        assert(s[pos] != 0x65);
        assert(kb.len() <= i64::MAX && wf(vv) && wf_pairs(ps.drop_first()));
        assert(depth_of(vv) <= depth_of_pairs(ps));
        assert(depth_of_pairs(ps.drop_first()) <= depth_of_pairs(ps));
        assert forall|j: int| 0 <= j < ek.len() implies s.subrange(pos, pos + ek.len() as int)[j]
            == ek[j] by {
            assert(s.subrange(pos, pos + ek.len() as int)[j] == s[pos + j]);
            assert(s[pos + j] == ee[j]);
            assert(ee[j] == ek[j]);
        }
        assert(s.subrange(pos, pos + ek.len() as int) =~= ek);
        lemma_parse_str_at(s, pos, kb, depth);
        let p2 = pos + ek.len() as int;
        assert(spec_parse(s, pos, depth) == Ok::<(SpecValue, int), BencodeError>(
            (SpecValue::Str(kb), p2),
        ));
        assert(pos < p2 <= s.len());
        assert forall|j: int| 0 <= j < ev.len() implies s.subrange(p2, p2 + ev.len() as int)[j]
            == ev[j] by {
            assert(s.subrange(p2, p2 + ev.len() as int)[j] == s[p2 + j]);
            assert(s[p2 + j] == ee[ek.len() + j]);
            assert(ee[ek.len() + j] == ev[j]);
        }
        assert(s.subrange(p2, p2 + ev.len() as int) =~= ev);
        lemma_parse_inverts_encoding(s, p2, vv, depth);
        let p3 = p2 + ev.len() as int;
        assert(p2 < p3 <= s.len());
        assert forall|j: int| 0 <= j < rest.len() implies s.subrange(p3, p3 + rest.len() as int)[j]
            == rest[j] by {
            assert(s.subrange(p3, p3 + rest.len() as int)[j] == s[p3 + j]);
            assert(s[p3 + j] == ee[ek.len() + ev.len() + j]);
            assert(ee[ek.len() + ev.len() + j] == rest[j]);
        }
        assert(s.subrange(p3, p3 + rest.len() as int) =~= rest);
        assert(s[p3 + rest.len()] == 0x65);
        lemma_parse_pairs_of_encoding(s, p3, ps.drop_first(), depth);
        assert((kb, vv) == ps[0]);
        assert(seq![(kb, vv)] + ps.drop_first() =~= ps);
    }
}

/// Decoding is deterministic: buffers holding the same bytes decode, at the
/// same position and depth, to the same tree and the same end position.
pub proof fn lemma_decode_deterministic(s1: Seq<u8>, s2: Seq<u8>, pos: int, depth: int)
    requires
        s1 == s2,
    ensures
        spec_parse(s1, pos, depth) == spec_parse(s2, pos, depth),
{
}

/// Decode-then-encode identity: a buffer produced by the encoder decodes to
/// the value it encoded, so re-encoding what was decoded reproduces the
/// buffer byte for byte.  This is what keeps the info-hash stable.
pub proof fn lemma_encode_decode_identity(b: Seq<u8>, v: SpecValue)
    requires
        wf(v),
        depth_of(v) <= MAX_DEPTH,
        b == encoding(v),
    ensures
        spec_parse(b, 0, MAX_DEPTH as int) == Ok::<(SpecValue, int), BencodeError>(
            (v, b.len() as int),
        ),
{
    assert(b.subrange(0, b.len() as int) =~= b);
    lemma_parse_inverts_encoding(b, 0, v, MAX_DEPTH as int);
}

} // verus!
