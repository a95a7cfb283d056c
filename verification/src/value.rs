use vstd::prelude::*;

verus! {

/// Ghost model of a bencode value: byte-strings, unbounded integers, lists,
/// and dictionaries as ordered sequences of key/value pairs.
#[verifier::ext_equal]
pub enum SpecValue {
    Str(Seq<u8>),
    Int(int),
    List(Seq<SpecValue>),
    Dict(Seq<(Seq<u8>, SpecValue)>),
}

/// A decoded bencode value.
///
/// Dictionary entries are kept as a vector of pairs in the order in which
/// they were decoded, so that re-encoding a decoded dictionary reproduces the
/// original bytes; the info-hash depends on that fidelity.
#[derive(Debug, PartialEq)]
pub enum BencodeValue {
    /// An array of bytes, not necessarily valid text.
    BString(Vec<u8>),
    /// A signed 64-bit integer.
    BInteger(i64),
    /// An ordered list of values.
    BList(Vec<BencodeValue>),
    /// Key/value pairs in decode order, keys being byte-strings.
    BDictionary(Vec<(Vec<u8>, BencodeValue)>),
}

impl View for BencodeValue {
    type V = SpecValue;

    open spec fn view(&self) -> SpecValue
        decreases self,
    {
        match self {
            BencodeValue::BString(b) => SpecValue::Str(b@),
            BencodeValue::BInteger(i) => SpecValue::Int(*i as int),
            BencodeValue::BList(xs) => SpecValue::List(views_of_items(xs@)),
            BencodeValue::BDictionary(ps) => SpecValue::Dict(views_of_pairs(ps@)),
        }
    }
}

/// The models of a sequence of values, in order.
pub open spec fn views_of_items(xs: Seq<BencodeValue>) -> Seq<SpecValue>
    decreases xs,
{
    if xs.len() == 0 {
        Seq::empty()
    } else {
        seq![xs[0]@] + views_of_items(xs.drop_first())
    }
}

/// The models of a sequence of key/value pairs, in order.
pub open spec fn views_of_pairs(ps: Seq<(Vec<u8>, BencodeValue)>) -> Seq<(Seq<u8>, SpecValue)>
    decreases ps,
{
    if ps.len() == 0 {
        Seq::empty()
    } else {
        seq![(ps[0].0@, ps[0].1@)] + views_of_pairs(ps.drop_first())
    }
}

/// `views_of_items` maps each element to its model.
pub proof fn lemma_views_of_items(xs: Seq<BencodeValue>)
    ensures
        views_of_items(xs).len() == xs.len(),
        forall|i: int| 0 <= i < xs.len() ==> views_of_items(xs)[i] == #[trigger] xs[i]@,
    decreases xs,
{
    if xs.len() > 0 {
        lemma_views_of_items(xs.drop_first());
        assert(views_of_items(xs) == seq![xs[0]@] + views_of_items(xs.drop_first()));
        assert forall|i: int| 0 <= i < xs.len() implies views_of_items(xs)[i] == #[trigger] xs[i]@ by {
            if i > 0 {
                assert(views_of_items(xs)[i] == views_of_items(xs.drop_first())[i - 1]);
                assert(xs.drop_first()[i - 1] == xs[i]);
            }
        }
    }
}

/// `views_of_pairs` maps each pair to the pair of models.
pub proof fn lemma_views_of_pairs(ps: Seq<(Vec<u8>, BencodeValue)>)
    ensures
        views_of_pairs(ps).len() == ps.len(),
        forall|i: int| 0 <= i < ps.len() ==> views_of_pairs(ps)[i] == (#[trigger] ps[i].0@, ps[i].1@),
    decreases ps,
{
    if ps.len() > 0 {
        lemma_views_of_pairs(ps.drop_first());
        assert(views_of_pairs(ps) == seq![(ps[0].0@, ps[0].1@)] + views_of_pairs(ps.drop_first()));
        assert forall|i: int| 0 <= i < ps.len() implies views_of_pairs(ps)[i] == (
        #[trigger] ps[i].0@,
        ps[i].1@,
        ) by {
            if i > 0 {
                assert(views_of_pairs(ps)[i] == views_of_pairs(ps.drop_first())[i - 1]);
                assert(ps.drop_first()[i - 1] == ps[i]);
            }
        }
    }
}

/// Appending an element appends its model.
pub proof fn lemma_views_of_items_push(xs: Seq<BencodeValue>, v: BencodeValue)
    ensures
        views_of_items(xs.push(v)) == views_of_items(xs) + seq![v@],
{
    lemma_views_of_items(xs.push(v));
    lemma_views_of_items(xs);
    assert forall|i: int| 0 <= i < xs.len() + 1 implies views_of_items(xs.push(v))[i] == (
    views_of_items(xs) + seq![v@])[i] by {
        assert(views_of_items(xs.push(v))[i] == xs.push(v)[i]@);
        if i < xs.len() {
            assert(xs.push(v)[i] == xs[i]);
        } else {
            assert(xs.push(v)[i] == v);
        }
    }
    assert(views_of_items(xs.push(v)) =~= views_of_items(xs) + seq![v@]);
}

/// Appending a pair appends the pair of models.
pub proof fn lemma_views_of_pairs_push(ps: Seq<(Vec<u8>, BencodeValue)>, kb: Vec<u8>, v: BencodeValue)
    ensures
        views_of_pairs(ps.push((kb, v))) == views_of_pairs(ps) + seq![(kb@, v@)],
{
    lemma_views_of_pairs(ps.push((kb, v)));
    lemma_views_of_pairs(ps);
    assert forall|i: int| 0 <= i < ps.len() + 1 implies views_of_pairs(ps.push((kb, v)))[i] == (
    views_of_pairs(ps) + seq![(kb@, v@)])[i] by {
        assert(views_of_pairs(ps.push((kb, v)))[i] == (ps.push((kb, v))[i].0@, ps.push(
            (kb, v),
        )[i].1@));
        if i < ps.len() {
            assert(ps.push((kb, v))[i] == ps[i]);
        } else {
            assert(ps.push((kb, v))[i] == (kb, v));
        }
    }
    assert(views_of_pairs(ps.push((kb, v))) =~= views_of_pairs(ps) + seq![(kb@, v@)]);
}

/// True for the ASCII bytes `0` through `9`.
pub open spec fn is_digit_byte(b: u8) -> bool {
    0x30 <= b <= 0x39
}

/// True when every byte of `s` is an ASCII digit.
pub open spec fn all_digits(s: Seq<u8>) -> bool {
    forall|i: int| 0 <= i < s.len() ==> is_digit_byte(#[trigger] s[i])
}

/// The number denoted by a run of ASCII digits, most significant first.
pub open spec fn digits_value(s: Seq<u8>) -> nat
    decreases s.len(),
{
    if s.len() == 0 {
        0
    } else {
        digits_value(s.drop_last()) * 10 + ((s.last() - 0x30) as nat)
    }
}

/// The shortest ASCII decimal representation of `n`.
pub open spec fn dec_digits(n: nat) -> Seq<u8>
    decreases n,
{
    if n < 10 {
        seq![(0x30 + n) as u8]
    } else {
        dec_digits(n / 10).push((0x30 + n % 10) as u8)
    }
}

/// The ASCII decimal representation of `i`, with a leading `-` when negative.
pub open spec fn int_literal(i: int) -> Seq<u8> {
    if i < 0 {
        seq![0x2du8] + dec_digits((-i) as nat)
    } else {
        dec_digits(i as nat)
    }
}

/// The bencode encoding of a value: `<len>:<bytes>` for strings,
/// `i<digits>e` for integers, `l...e` for lists, `d...e` for dictionaries
/// with the pairs emitted in stored order.
pub open spec fn encoding(v: SpecValue) -> Seq<u8>
    decreases v,
{
    match v {
        SpecValue::Str(b) => dec_digits(b.len()) + seq![0x3au8] + b,
        SpecValue::Int(i) => seq![0x69u8] + int_literal(i) + seq![0x65u8],
        SpecValue::List(xs) => seq![0x6cu8] + encoding_of_items(xs) + seq![0x65u8],
        SpecValue::Dict(ps) => seq![0x64u8] + encoding_of_pairs(ps) + seq![0x65u8],
    }
}

/// The concatenated encodings of a sequence of values.
pub open spec fn encoding_of_items(xs: Seq<SpecValue>) -> Seq<u8>
    decreases xs,
{
    if xs.len() == 0 {
        Seq::empty()
    } else {
        encoding(xs[0]) + encoding_of_items(xs.drop_first())
    }
}

/// The concatenated encodings of a sequence of dictionary pairs, each key
/// encoded as a byte-string followed by its value.
pub open spec fn encoding_of_pairs(ps: Seq<(Seq<u8>, SpecValue)>) -> Seq<u8>
    decreases ps,
{
    if ps.len() == 0 {
        Seq::empty()
    } else {
        dec_digits(ps[0].0.len()) + seq![0x3au8] + ps[0].0 + encoding(ps[0].1)
            + encoding_of_pairs(ps.drop_first())
    }
}

/// Extending a prefix by one element extends the models by that element's
/// model.
pub proof fn lemma_views_of_items_subrange_push(xs: Seq<BencodeValue>, i: int)
    requires
        0 <= i < xs.len(),
    ensures
        views_of_items(xs.subrange(0, i + 1)) == views_of_items(xs.subrange(0, i)).push(xs[i]@),
{
    lemma_views_of_items(xs.subrange(0, i + 1));
    lemma_views_of_items(xs.subrange(0, i));
    assert forall|j: int| 0 <= j < i + 1 implies views_of_items(xs.subrange(0, i + 1))[j]
        == views_of_items(xs.subrange(0, i)).push(xs[i]@)[j] by {
        assert(views_of_items(xs.subrange(0, i + 1))[j] == xs.subrange(0, i + 1)[j]@);
        if j < i {
            assert(views_of_items(xs.subrange(0, i))[j] == xs.subrange(0, i)[j]@);
        }
    }
    assert(views_of_items(xs.subrange(0, i + 1)) =~= views_of_items(xs.subrange(0, i)).push(
        xs[i]@,
    ));
}

/// Extending a prefix by one pair extends the models by that pair's models.
pub proof fn lemma_views_of_pairs_subrange_push(ps: Seq<(Vec<u8>, BencodeValue)>, i: int)
    requires
        0 <= i < ps.len(),
    ensures
        views_of_pairs(ps.subrange(0, i + 1)) == views_of_pairs(ps.subrange(0, i)).push(
            (ps[i].0@, ps[i].1@),
        ),
{
    lemma_views_of_pairs(ps.subrange(0, i + 1));
    lemma_views_of_pairs(ps.subrange(0, i));
    assert forall|j: int| 0 <= j < i + 1 implies views_of_pairs(ps.subrange(0, i + 1))[j]
        == views_of_pairs(ps.subrange(0, i)).push((ps[i].0@, ps[i].1@))[j] by {
        assert(views_of_pairs(ps.subrange(0, i + 1))[j] == (
        ps.subrange(0, i + 1)[j].0@,
        ps.subrange(0, i + 1)[j].1@,
        ));
        if j < i {
            assert(views_of_pairs(ps.subrange(0, i))[j] == (
            ps.subrange(0, i)[j].0@,
            ps.subrange(0, i)[j].1@,
            ));
        }
    }
    assert(views_of_pairs(ps.subrange(0, i + 1)) =~= views_of_pairs(ps.subrange(0, i)).push(
        (ps[i].0@, ps[i].1@),
    ));
}

/// Appending a value to a list appends its encoding.
pub proof fn lemma_encoding_of_items_push(xs: Seq<SpecValue>, v: SpecValue)
    ensures
        encoding_of_items(xs.push(v)) == encoding_of_items(xs) + encoding(v),
    decreases xs,
{
    if xs.len() == 0 {
        assert(xs.push(v)[0] == v);
        assert(xs.push(v).drop_first() =~= Seq::<SpecValue>::empty());
        assert(encoding_of_items(Seq::<SpecValue>::empty()) == Seq::<u8>::empty());
        assert(encoding_of_items(xs.push(v)) == encoding(v) + Seq::<u8>::empty());
        assert(encoding(v) + Seq::<u8>::empty() =~= encoding(v));
        assert(Seq::<u8>::empty() + encoding(v) =~= encoding(v));
    } else {
        assert(xs.push(v)[0] == xs[0]);
        assert(xs.push(v).drop_first() =~= xs.drop_first().push(v));
        lemma_encoding_of_items_push(xs.drop_first(), v);
        assert(encoding_of_items(xs.push(v)) == encoding(xs[0]) + (encoding_of_items(
            xs.drop_first(),
        ) + encoding(v)));
        assert(encoding(xs[0]) + (encoding_of_items(xs.drop_first()) + encoding(v)) =~= (encoding(
            xs[0],
        ) + encoding_of_items(xs.drop_first())) + encoding(v));
    }
}

/// Appending a pair to a dictionary appends the key's string encoding
/// followed by the value's encoding.
pub proof fn lemma_encoding_of_pairs_push(ps: Seq<(Seq<u8>, SpecValue)>, kb: Seq<u8>, v: SpecValue)
    ensures
        encoding_of_pairs(ps.push((kb, v))) == encoding_of_pairs(ps) + (dec_digits(kb.len())
            + seq![0x3au8] + kb + encoding(v)),
    decreases ps,
{
    let entry = dec_digits(kb.len()) + seq![0x3au8] + kb + encoding(v);
    if ps.len() == 0 {
        assert(ps.push((kb, v))[0] == (kb, v));
        assert(ps.push((kb, v)).drop_first() =~= Seq::<(Seq<u8>, SpecValue)>::empty());
        assert(encoding_of_pairs(Seq::<(Seq<u8>, SpecValue)>::empty()) == Seq::<u8>::empty());
        assert(encoding_of_pairs(ps.push((kb, v))) == entry + Seq::<u8>::empty());
        assert(entry + Seq::<u8>::empty() =~= entry);
        assert(Seq::<u8>::empty() + entry =~= entry);
    } else {
        assert(ps.push((kb, v))[0] == ps[0]);
        assert(ps.push((kb, v)).drop_first() =~= ps.drop_first().push((kb, v)));
        lemma_encoding_of_pairs_push(ps.drop_first(), kb, v);
        let head = dec_digits(ps[0].0.len()) + seq![0x3au8] + ps[0].0 + encoding(ps[0].1);
        assert(encoding_of_pairs(ps.push((kb, v))) == head + (encoding_of_pairs(ps.drop_first())
            + entry));
        assert(head + (encoding_of_pairs(ps.drop_first()) + entry) =~= (head + encoding_of_pairs(
            ps.drop_first(),
        )) + entry);
    }
}

/// Nesting depth of a value: strings and integers are at depth 0, each list
/// or dictionary layer adds one.
pub open spec fn depth_of(v: SpecValue) -> nat
    decreases v,
{
    match v {
        SpecValue::Str(_) => 0,
        SpecValue::Int(_) => 0,
        SpecValue::List(xs) => 1 + depth_of_items(xs),
        SpecValue::Dict(ps) => 1 + depth_of_pairs(ps),
    }
}

/// Largest depth among a sequence of values.
pub open spec fn depth_of_items(xs: Seq<SpecValue>) -> nat
    decreases xs,
{
    if xs.len() == 0 {
        0
    } else if depth_of(xs[0]) >= depth_of_items(xs.drop_first()) {
        depth_of(xs[0])
    } else {
        depth_of_items(xs.drop_first())
    }
}

/// Largest depth among the values of a sequence of dictionary pairs.
pub open spec fn depth_of_pairs(ps: Seq<(Seq<u8>, SpecValue)>) -> nat
    decreases ps,
{
    if ps.len() == 0 {
        0
    } else if depth_of(ps[0].1) >= depth_of_pairs(ps.drop_first()) {
        depth_of(ps[0].1)
    } else {
        depth_of_pairs(ps.drop_first())
    }
}

/// A value every decoded tree satisfies: each integer fits in a signed
/// 64-bit machine word, and each byte-string's length token does too.
pub open spec fn wf(v: SpecValue) -> bool
    decreases v,
{
    match v {
        SpecValue::Str(b) => b.len() <= i64::MAX,
        SpecValue::Int(i) => i64::MIN <= i <= i64::MAX,
        SpecValue::List(xs) => wf_items(xs),
        SpecValue::Dict(ps) => wf_pairs(ps),
    }
}

/// `wf` for every element of a sequence.
pub open spec fn wf_items(xs: Seq<SpecValue>) -> bool
    decreases xs,
{
    if xs.len() == 0 {
        true
    } else {
        wf(xs[0]) && wf_items(xs.drop_first())
    }
}

/// `wf` for every pair of a sequence: the key's length token fits in a
/// signed 64-bit word and the value is well formed.
pub open spec fn wf_pairs(ps: Seq<(Seq<u8>, SpecValue)>) -> bool
    decreases ps,
{
    if ps.len() == 0 {
        true
    } else {
        ps[0].0.len() <= i64::MAX && wf(ps[0].1) && wf_pairs(ps.drop_first())
    }
}

} // verus!
