use vstd::prelude::*;

verus! {

/// Appends all bytes of `src` to `dst`.
pub(crate) fn append_bytes(dst: &mut Vec<u8>, src: &Vec<u8>)
    ensures
        final(dst)@ == old(dst)@ + src@,
{
    let mut i: usize = 0;
    while i < src.len()
        invariant
            i <= src@.len(),
            dst@ == old(dst)@ + src@.subrange(0, i as int),
        decreases src@.len() - i,
    {
        dst.push(src[i]);
        proof {
            assert((old(dst)@ + src@.subrange(0, i as int)).push(src@[i as int]) =~= old(dst)@
                + src@.subrange(0, i + 1));
        }
        i = i + 1;
    }
    proof {
        assert(src@.subrange(0, src@.len() as int) =~= src@);
    }
}

/// A byte-for-byte copy of a buffer.
pub(crate) fn copy_bytes(src: &Vec<u8>) -> (r: Vec<u8>)
    ensures
        r@ == src@,
{
    let mut out: Vec<u8> = Vec::new();
    append_bytes(&mut out, src);
    proof {
        assert(Seq::<u8>::empty() + src@ =~= src@);
    }
    out
}

/// Whether two byte buffers hold the same bytes.
pub(crate) fn bytes_equal(a: &Vec<u8>, b: &[u8]) -> (r: bool)
    ensures
        r <==> a@ == b@,
{
    if a.len() != b.len() {
        proof {
            assert(a@.len() == a.len() && b@.len() == b.len());
        }
        return false;
    }
    let mut i: usize = 0;
    while i < a.len()
        invariant
            i <= a@.len(),
            a@.len() == b@.len(),
            forall|j: int| 0 <= j < i ==> a@[j] == b@[j],
        decreases a@.len() - i,
    {
        if a[i] != b[i] {
            proof {
                assert(a@[i as int] != b@[i as int]);
            }
            return false;
        }
        i = i + 1;
    }
    proof {
        assert(a@ =~= b@);
    }
    true
}

} // verus!
