//! Little-endian byte layouts of the integers and limb arrays that are hashed.
use vstd::prelude::*;
use vstd::bytes::*;

verus! {

/// The little-endian bytes of a sequence of 128-bit limbs, limb after limb.
pub open spec fn limbs_le_bytes(s: Seq<u128>) -> Seq<u8>
    decreases s.len(),
{
    if s.len() == 0 {
        Seq::empty()
    } else {
        limbs_le_bytes(s.drop_last()) + spec_u128_to_le_bytes(s.last())
    }
}

/// Each limb contributes sixteen bytes.
pub proof fn lemma_limbs_le_bytes_len(s: Seq<u128>)
    ensures
        limbs_le_bytes(s).len() == 16 * s.len(),
    decreases s.len(),
{
    lemma_auto_spec_u128_to_from_le_bytes();
    if s.len() > 0 {
        lemma_limbs_le_bytes_len(s.drop_last());
    }
}

/// Appends the little-endian bytes of every limb of `item` to `buf`.
pub fn push_limbs_le<const N: usize>(buf: &mut Vec<u8>, item: &[u128; N])
    ensures
        final(buf)@ == old(buf)@ + limbs_le_bytes(item@),
{
    let ghost b0 = buf@;
    for i in 0..N
        invariant
            buf@ == b0 + limbs_le_bytes(item@.take(i as int)),
    {
        let mut b = u128_to_le_bytes(item[i]);
        proof {
            assert(item@.take(i + 1).drop_last() =~= item@.take(i as int));
        }
        buf.append(&mut b);
        assert(buf@ =~= b0 + limbs_le_bytes(item@.take(i + 1)));
    }
    assert(item@.take(N as int) =~= item@);
}

/// Appends the little-endian bytes of a `u128`.
pub fn push_u128_le(buf: &mut Vec<u8>, x: u128)
    ensures
        final(buf)@ == old(buf)@ + spec_u128_to_le_bytes(x),
{
    let mut b = u128_to_le_bytes(x);
    buf.append(&mut b);
}

/// Appends the little-endian bytes of a `u64`.
pub fn push_u64_le(buf: &mut Vec<u8>, x: u64)
    ensures
        final(buf)@ == old(buf)@ + spec_u64_to_le_bytes(x),
{
    let mut b = u64_to_le_bytes(x);
    buf.append(&mut b);
}

/// Appends the bytes of a slice.
pub fn push_bytes(buf: &mut Vec<u8>, s: &[u8])
    ensures
        final(buf)@ == old(buf)@ + s@,
{
    let ghost b0 = buf@;
    for i in 0..s.len()
        invariant
            buf@ == b0 + s@.take(i as int),
    {
        buf.push(s[i]);
        assert(buf@ =~= b0 + s@.take(i + 1));
    }
    assert(s@.take(s@.len() as int) =~= s@);
}

/// Whether two limb arrays hold the same limbs.
pub fn limbs_eq<const N: usize>(a: &[u128; N], b: &[u128; N]) -> (r: bool)
    ensures
        r == (*a == *b),
{
    for i in 0..N
        invariant
            forall|j: int| 0 <= j < i ==> a@[j] == b@[j],
    {
        if a[i] != b[i] {
            assert(a@[i as int] != b@[i as int]);
            return false;
        }
    }
    assert(a@ =~= b@);
    assert(*a =~= *b);
    true
}

} // verus!
