//! The receiver of structure-aware PSI, apart from the channel and the
//! distributed comparison functions: re-expressing its points, binning them
//! in a simple hash table, and hashing, per bin, every prefix combination
//! together with the OPRF output of its universe and the matching shares.
use vstd::prelude::*;
use vstd::arithmetic::power2::{pow2, lemma_pow2_pos, lemma_pow2_adds, lemma_pow2_strictly_increases};
use vstd::bytes::{spec_u128_to_le_bytes, spec_u64_from_le_bytes, spec_u64_to_le_bytes};
use crate::bytes::{limbs_le_bytes, push_bytes, push_u128_le, push_u64_le};
use crate::crypto::{blake3_digest, blake3_hash, sha3_256_digest};
use crate::cuckoo::{keys_derived_from, SimpleHash, SimpleView, append_to_bins, locations_spec};
use crate::geometry::{get_prefixes, pow2_u128, prefix_views, prefixes_spec, preprocess_point, universe_origin, lemma_prefixes, prefix_entry_ok, kept_above};
use crate::oprf_f2k::OprfReceiverF2k;

verus! {

/// Number of location functions of the simple hash table.
pub const LOC_FUNC_COUNT: usize = 3;

/// The bin capacity the receiver's simple hash table is created with.
pub const MAX_BIN_SIZE: usize = 100000;

/// The (radius, range bits, prefix lengths) choices that the protocol supports.
pub fn radius_param(index: usize) -> (r: (usize, usize, Vec<usize>))
    requires
        index < 5,
    ensures
        index == 0 ==> r.0 == 10 && r.1 == 6 && r.2@ == seq![2usize, 4, 6],
        index == 1 ==> r.0 == 30 && r.1 == 7 && r.2@ == seq![1usize, 3, 5, 7],
        index == 2 ==> r.0 == 60 && r.1 == 8 && r.2@ == seq![2usize, 4, 6, 8],
        index == 3 ==> r.0 == 120 && r.1 == 9 && r.2@ == seq![1usize, 3, 5, 7, 9],
        index == 4 ==> r.0 == 250 && r.1 == 10 && r.2@ == seq![2usize, 4, 6, 8, 10],
{
    if index == 0 {
        (10, 6, vec![2, 4, 6])
    } else if index == 1 {
        (30, 7, vec![1, 3, 5, 7])
    } else if index == 2 {
        (60, 8, vec![2, 4, 6, 8])
    } else if index == 3 {
        (120, 9, vec![1, 3, 5, 7, 9])
    } else {
        (250, 10, vec![2, 4, 6, 8, 10])
    }
}

/// The share rows as byte-block sequences.
pub open spec fn row_views(rows: Seq<Vec<[u8; 16]>>) -> Seq<Seq<[u8; 16]>> {
    rows.map_values(|v: Vec<[u8; 16]>| v@)
}

/// `b` repeated `k` times.
pub open spec fn repeat_bytes(b: Seq<u8>, k: nat) -> Seq<u8>
    decreases k,
{
    if k == 0 { Seq::empty() } else { repeat_bytes(b, (k - 1) as nat) + b }
}

/// The position, in a comparison-function share of a complete binary tree
/// laid out level by level, of node `x` on level `l`.
pub open spec fn tree_index(l: nat, x: int) -> int {
    pow2(l) - 1 + x
}

/// For the first `k` axes: the prefix and its complement `2^l - 1 - prefix`,
/// each as 16 little-endian bytes.
pub open spec fn bound_bytes(prefix: Seq<u128>, length: Seq<usize>, k: nat) -> Seq<u8>
    decreases k,
{
    if k == 0 {
        Seq::empty()
    } else {
        let i = k - 1;
        bound_bytes(prefix, length, (k - 1) as nat) + spec_u128_to_le_bytes(prefix[i])
            + spec_u128_to_le_bytes((pow2(length[i] as nat) - 1 - prefix[i]) as u128)
    }
}

/// For the first `k` axes: the lower-bound share at the prefix's node and the
/// upper-bound share at its complement's node.
pub open spec fn share_bytes(prefix: Seq<u128>, length: Seq<usize>, rows: Seq<Seq<[u8; 16]>>, k: nat) -> Seq<u8>
    decreases k,
{
    if k == 0 {
        Seq::empty()
    } else {
        let i = k - 1;
        let l = length[i] as nat;
        share_bytes(prefix, length, rows, (k - 1) as nat)
            + rows[2 * i][tree_index(l, prefix[i] as int)]@
            + rows[2 * i + 1][tree_index(l, pow2(l) - 1 - prefix[i])]@
    }
}

/// What is hashed for bin `index`, a universe with OPRF output `oprf` and one
/// prefix combination: the bin index (8 little-endian bytes), the OPRF output
/// once per axis, the prefixes with their complements, then the shares.
pub open spec fn hash_input_spec(index: u64, oprf: Seq<u8>, prefix: Seq<u128>, length: Seq<usize>, rows: Seq<Seq<[u8; 16]>>) -> Seq<u8> {
    spec_u64_to_le_bytes(index) + repeat_bytes(oprf, prefix.len()) + bound_bytes(prefix, length, prefix.len())
        + share_bytes(prefix, length, rows, prefix.len())
}

/// The 16-byte tag sent for one prefix combination.
pub open spec fn tag_spec(index: u64, oprf: Seq<u8>, prefix: Seq<u128>, length: Seq<usize>, rows: Seq<Seq<[u8; 16]>>) -> Seq<u8> {
    blake3_digest(hash_input_spec(index, oprf, prefix, length, rows)).subrange(0, 16)
}

/// The share rows are long enough, and the prefixes short enough, for every axis.
pub open spec fn tag_inputs_ok(prefix: Seq<u128>, length: Seq<usize>, rows: Seq<Seq<[u8; 16]>>) -> bool {
    &&& length.len() == prefix.len()
    &&& rows.len() == 2 * prefix.len()
    &&& forall|i: int| 0 <= i < prefix.len() ==> {
        &&& #[trigger] length[i] < 64
        &&& prefix[i] < pow2(length[i] as nat)
        &&& tree_index(length[i] as nat, prefix[i] as int) < rows[2 * i].len()
        &&& tree_index(length[i] as nat, pow2(length[i] as nat) - 1 - prefix[i]) < rows[2 * i + 1].len()
    }
}

/// `b` repeated `k` times is `k` copies of `b`, one after the other.
proof fn lemma_repeat_bytes_blocks(b: Seq<u8>, k: nat)
    requires
        b.len() == 32,
    ensures
        repeat_bytes(b, k).len() == 32 * k,
        forall|i: int| 0 <= i < k ==> #[trigger] repeat_bytes(b, k).subrange(32 * i, 32 * i + 32) == b,
    decreases k,
{
    if k > 0 {
        let k1 = (k - 1) as nat;
        lemma_repeat_bytes_blocks(b, k1);
        let p = repeat_bytes(b, k1);
        assert forall|i: int| 0 <= i < k implies #[trigger] repeat_bytes(b, k).subrange(32 * i, 32 * i + 32) == b by {
            if i < k1 {
                assert(repeat_bytes(b, k).subrange(32 * i, 32 * i + 32) =~= p.subrange(32 * i, 32 * i + 32));
            } else {
                assert(repeat_bytes(b, k).subrange(32 * i, 32 * i + 32) =~= b);
            }
        }
    }
}

/// The bounds part is, axis after axis, the prefix and its complement
/// `2^l - 1 - prefix`, each as 16 little-endian bytes.
proof fn lemma_bound_bytes_blocks(prefix: Seq<u128>, length: Seq<usize>, k: nat)
    ensures
        bound_bytes(prefix, length, k).len() == 32 * k,
        forall|i: int| 0 <= i < k ==> #[trigger] bound_bytes(prefix, length, k).subrange(32 * i, 32 * i + 16)
            == spec_u128_to_le_bytes(prefix[i]),
        forall|i: int| 0 <= i < k ==> #[trigger] bound_bytes(prefix, length, k).subrange(32 * i + 16, 32 * i + 32)
            == spec_u128_to_le_bytes((pow2(length[i] as nat) - 1 - prefix[i]) as u128),
    decreases k,
{
    vstd::bytes::lemma_auto_spec_u128_to_from_le_bytes();
    if k > 0 {
        let k1 = (k - 1) as nat;
        lemma_bound_bytes_blocks(prefix, length, k1);
        let p = bound_bytes(prefix, length, k1);
        let whole = bound_bytes(prefix, length, k);
        let lo = spec_u128_to_le_bytes(prefix[k1 as int]);
        let hi = spec_u128_to_le_bytes((pow2(length[k1 as int] as nat) - 1 - prefix[k1 as int]) as u128);
        assert(whole == p + lo + hi);
        assert forall|i: int| 0 <= i < k implies #[trigger] whole.subrange(32 * i, 32 * i + 16)
            == spec_u128_to_le_bytes(prefix[i]) by {
            if i < k1 {
                assert(whole.subrange(32 * i, 32 * i + 16) =~= p.subrange(32 * i, 32 * i + 16));
            } else {
                assert(whole.subrange(32 * i, 32 * i + 16) =~= lo);
            }
        }
        assert forall|i: int| 0 <= i < k implies #[trigger] whole.subrange(32 * i + 16, 32 * i + 32)
            == spec_u128_to_le_bytes((pow2(length[i] as nat) - 1 - prefix[i]) as u128) by {
            if i < k1 {
                assert(whole.subrange(32 * i + 16, 32 * i + 32) =~= p.subrange(32 * i + 16, 32 * i + 32));
            } else {
                assert(whole.subrange(32 * i + 16, 32 * i + 32) =~= hi);
            }
        }
    }
}

/// The shares part is, axis after axis, the lower-bound share at the prefix's
/// node `2^l - 1 + prefix` of row `2i` and the upper-bound share at the
/// complement's node of row `2i + 1`.
proof fn lemma_share_bytes_blocks(prefix: Seq<u128>, length: Seq<usize>, rows: Seq<Seq<[u8; 16]>>, k: nat)
    ensures
        share_bytes(prefix, length, rows, k).len() == 32 * k,
        forall|i: int| 0 <= i < k ==> #[trigger] share_bytes(prefix, length, rows, k).subrange(32 * i, 32 * i + 16)
            == rows[2 * i][pow2(length[i] as nat) - 1 + prefix[i]]@,
        forall|i: int| 0 <= i < k ==> #[trigger] share_bytes(prefix, length, rows, k).subrange(32 * i + 16, 32 * i + 32)
            == rows[2 * i + 1][pow2(length[i] as nat) - 1 + (pow2(length[i] as nat) - 1 - prefix[i])]@,
    decreases k,
{
    if k > 0 {
        let k1 = (k - 1) as nat;
        lemma_share_bytes_blocks(prefix, length, rows, k1);
        let p = share_bytes(prefix, length, rows, k1);
        let whole = share_bytes(prefix, length, rows, k);
        let l = length[k1 as int] as nat;
        let lo = rows[2 * k1 as int][tree_index(l, prefix[k1 as int] as int)]@;
        let hi = rows[2 * k1 as int + 1][tree_index(l, pow2(l) - 1 - prefix[k1 as int])]@;
        assert(whole == p + lo + hi);
        assert forall|i: int| 0 <= i < k implies #[trigger] whole.subrange(32 * i, 32 * i + 16)
            == rows[2 * i][pow2(length[i] as nat) - 1 + prefix[i]]@ by {
            if i < k1 {
                assert(whole.subrange(32 * i, 32 * i + 16) =~= p.subrange(32 * i, 32 * i + 16));
            } else {
                assert(whole.subrange(32 * i, 32 * i + 16) =~= lo);
            }
        }
        assert forall|i: int| 0 <= i < k implies #[trigger] whole.subrange(32 * i + 16, 32 * i + 32)
            == rows[2 * i + 1][pow2(length[i] as nat) - 1 + (pow2(length[i] as nat) - 1 - prefix[i])]@ by {
            if i < k1 {
                assert(whole.subrange(32 * i + 16, 32 * i + 32) =~= p.subrange(32 * i + 16, 32 * i + 32));
            } else {
                assert(whole.subrange(32 * i + 16, 32 * i + 32) =~= hi);
            }
        }
    }
}

/// The layout of the bytes hashed for a tag, field by field: the bin index
/// (8 bytes), the OPRF output once per axis (32 bytes each), then per axis the
/// prefix and its complement (16 bytes each), then per axis the two shares
/// (16 bytes each).
pub proof fn lemma_hash_input_layout(index: u64, oprf: Seq<u8>, prefix: Seq<u128>, length: Seq<usize>, rows: Seq<Seq<[u8; 16]>>)
    requires
        oprf.len() == 32,
    ensures
        hash_input_layout(index, oprf, prefix, length, rows, hash_input_spec(index, oprf, prefix, length, rows)),
{
    let d = prefix.len();
    vstd::bytes::lemma_auto_spec_u64_to_from_le_bytes();
    lemma_repeat_bytes_blocks(oprf, d);
    lemma_bound_bytes_blocks(prefix, length, d);
    lemma_share_bytes_blocks(prefix, length, rows, d);
    let a = spec_u64_to_le_bytes(index);
    let b = repeat_bytes(oprf, d);
    let c = bound_bytes(prefix, length, d);
    let e = share_bytes(prefix, length, rows, d);
    let w = hash_input_spec(index, oprf, prefix, length, rows);
    assert(w == a + b + c + e);
    assert(w.subrange(0, 8) =~= a);
    assert forall|i: int| 0 <= i < d implies #[trigger] w.subrange(8 + 32 * i, 8 + 32 * i + 32) == oprf by {
        assert(w.subrange(8 + 32 * i, 8 + 32 * i + 32) =~= b.subrange(32 * i, 32 * i + 32));
    }
    assert forall|i: int| 0 <= i < d implies #[trigger] w.subrange(8 + 32 * d + 32 * i, 8 + 32 * d + 32 * i + 16)
        == spec_u128_to_le_bytes(prefix[i]) by {
        assert(w.subrange(8 + 32 * d + 32 * i, 8 + 32 * d + 32 * i + 16) =~= c.subrange(32 * i, 32 * i + 16));
    }
    assert forall|i: int| 0 <= i < d implies #[trigger] w.subrange(8 + 32 * d + 32 * i + 16, 8 + 32 * d + 32 * i + 32)
        == spec_u128_to_le_bytes((pow2(length[i] as nat) - 1 - prefix[i]) as u128) by {
        assert(w.subrange(8 + 32 * d + 32 * i + 16, 8 + 32 * d + 32 * i + 32) =~= c.subrange(32 * i + 16, 32 * i + 32));
    }
    assert forall|i: int| 0 <= i < d implies #[trigger] w.subrange(8 + 64 * d + 32 * i, 8 + 64 * d + 32 * i + 16)
        == rows[2 * i][pow2(length[i] as nat) - 1 + prefix[i]]@ by {
        assert(w.subrange(8 + 64 * d + 32 * i, 8 + 64 * d + 32 * i + 16) =~= e.subrange(32 * i, 32 * i + 16));
    }
    assert forall|i: int| 0 <= i < d implies #[trigger] w.subrange(8 + 64 * d + 32 * i + 16, 8 + 64 * d + 32 * i + 32)
        == rows[2 * i + 1][pow2(length[i] as nat) - 1 + (pow2(length[i] as nat) - 1 - prefix[i])]@ by {
        assert(w.subrange(8 + 64 * d + 32 * i + 16, 8 + 64 * d + 32 * i + 32) =~= e.subrange(32 * i + 16, 32 * i + 32));
    }
}

/// `w` is laid out as the bytes hashed for a tag, stated field by field.
pub open spec fn hash_input_layout(index: u64, oprf: Seq<u8>, prefix: Seq<u128>, length: Seq<usize>, rows: Seq<Seq<[u8; 16]>>, w: Seq<u8>) -> bool {
    let d = prefix.len();
    &&& w.len() == 8 + 96 * d
    &&& w.subrange(0, 8) == spec_u64_to_le_bytes(index)
    &&& forall|i: int| 0 <= i < d ==> #[trigger] w.subrange(8 + 32 * i, 8 + 32 * i + 32) == oprf
    &&& forall|i: int| 0 <= i < d ==> #[trigger] w.subrange(8 + 32 * d + 32 * i, 8 + 32 * d + 32 * i + 16)
        == spec_u128_to_le_bytes(prefix[i])
    &&& forall|i: int| 0 <= i < d ==> #[trigger] w.subrange(8 + 32 * d + 32 * i + 16, 8 + 32 * d + 32 * i + 32)
        == spec_u128_to_le_bytes((pow2(length[i] as nat) - 1 - prefix[i]) as u128)
    &&& forall|i: int| 0 <= i < d ==> #[trigger] w.subrange(8 + 64 * d + 32 * i, 8 + 64 * d + 32 * i + 16)
        == rows[2 * i][pow2(length[i] as nat) - 1 + prefix[i]]@
    &&& forall|i: int| 0 <= i < d ==> #[trigger] w.subrange(8 + 64 * d + 32 * i + 16, 8 + 64 * d + 32 * i + 32)
        == rows[2 * i + 1][pow2(length[i] as nat) - 1 + (pow2(length[i] as nat) - 1 - prefix[i])]@
}

/// The bytes hashed for bin `index`, OPRF output `oprf` and one prefix combination.
pub fn hash_input<const D: usize>(
    index: usize,
    oprf: &[u8; 32],
    prefix: &[u128; D],
    length: &[usize; D],
    rows: &[Vec<[u8; 16]>],
) -> (r: Vec<u8>)
    requires
        tag_inputs_ok(prefix@, length@, row_views(rows@)),
    ensures
        r@ == hash_input_spec(index as u64, oprf@, prefix@, length@, row_views(rows@)),
        hash_input_layout(index as u64, oprf@, prefix@, length@, row_views(rows@), r@),
{
    proof {
        lemma_hash_input_layout(index as u64, oprf@, prefix@, length@, row_views(rows@));
    }
    let ghost rv = row_views(rows@);
    let mut buf: Vec<u8> = Vec::new();
    push_u64_le(&mut buf, index as u64);
    let ghost part1 = buf@;
    for i in 0..D
        invariant
            buf@ == part1 + repeat_bytes(oprf@, i as nat),
    {
        push_bytes(&mut buf, oprf.as_slice());
    }
    let ghost part2 = buf@;
    for i in 0..D
        invariant
            tag_inputs_ok(prefix@, length@, rv),
            buf@ == part2 + bound_bytes(prefix@, length@, i as nat),
    {
        let l = length[i];
        assert(l < 64);
        let full = pow2_u128(l);
        push_u128_le(&mut buf, prefix[i]);
        push_u128_le(&mut buf, full - 1 - prefix[i]);
        assert(buf@ =~= part2 + bound_bytes(prefix@, length@, (i + 1) as nat));
    }
    let ghost part3 = buf@;
    let nrows = rows.len();
    for i in 0..D
        invariant
            nrows == rows@.len(),
            rv == row_views(rows@),
            tag_inputs_ok(prefix@, length@, rv),
            buf@ == part3 + share_bytes(prefix@, length@, rv, i as nat),
    {
        let l = length[i];
        let full = pow2_u128(l);
        proof {
            lemma_pow2_strictly_increases(l as nat, 64);
            vstd::arithmetic::power2::lemma2_to64();
        }
        assert(rv[2 * i as int] == rows@[2 * i as int]@);
        assert(rv[2 * i + 1] == rows@[2 * i + 1]@);
        let lo128 = full - 1 + prefix[i];
        let hi128 = full - 1 + (full - 1 - prefix[i]);
        assert(lo128 == tree_index(l as nat, prefix@[i as int] as int));
        assert(hi128 == tree_index(l as nat, pow2(l as nat) - 1 - prefix@[i as int]));
        let len_lo = rows[2 * i].len();
        let len_hi = rows[2 * i + 1].len();
        assert(lo128 < len_lo);
        assert(hi128 < len_hi);
        let lo = lo128 as usize;
        let hi = hi128 as usize;
        assert(lo as int == lo128 as int);
        assert(hi as int == hi128 as int);
        let ghost before = buf@;
        let a = rows[2 * i][lo];
        let b = rows[2 * i + 1][hi];
        assert(a@ == rv[2 * i as int][tree_index(l as nat, prefix@[i as int] as int)]@);
        assert(b@ == rv[2 * i + 1][tree_index(l as nat, pow2(l as nat) - 1 - prefix@[i as int])]@);
        push_bytes(&mut buf, a.as_slice());
        push_bytes(&mut buf, b.as_slice());
        assert(buf@ == before + a@ + b@);
        assert(buf@ =~= part3 + share_bytes(prefix@, length@, rv, (i + 1) as nat));
    }
    assert(buf@ =~= hash_input_spec(index as u64, oprf@, prefix@, length@, rv));
    buf
}

/// The tag for bin `index`, OPRF output `oprf` and one prefix combination:
/// the first 16 bytes of the BLAKE3 hash of its input.
pub fn tag<const D: usize>(
    index: usize,
    oprf: &[u8; 32],
    prefix: &[u128; D],
    length: &[usize; D],
    rows: &[Vec<[u8; 16]>],
) -> (r: [u8; 16])
    requires
        tag_inputs_ok(prefix@, length@, row_views(rows@)),
    ensures
        r@ == tag_spec(index as u64, oprf@, prefix@, length@, row_views(rows@)),
{
    let input = hash_input(index, oprf, prefix, length, rows);
    let d = blake3_hash(input.as_slice());
    let mut t = [0u8; 16];
    for k in 0..16usize
        invariant
            forall|j: int| 0 <= j < k ==> t@[j] == d@[j],
    {
        t[k] = d[k];
    }
    assert(t@ =~= d@.subrange(0, 16));
    t
}

/// Whether two tags are equal.
fn tags_eq(a: &[u8; 16], b: &[u8; 16]) -> (r: bool)
    ensures
        r == (*a == *b),
{
    for i in 0..16usize
        invariant
            forall|j: int| 0 <= j < i ==> a@[j] == b@[j],
    {
        if a[i] != b[i] {
            assert(a@[i as int] != b@[i as int]);
            return false;
        }
    }
    assert(a@ =~= b@);
    assert(*a =~= *b);
    true
}

/// Whether `t` is among `tags`.
fn contains_tag(tags: &Vec<[u8; 16]>, t: &[u8; 16]) -> (r: bool)
    ensures
        r == exists|a: int| 0 <= a < tags@.len() && tags@[a] == *t,
{
    for a in 0..tags.len()
        invariant
            forall|b: int| 0 <= b < a ==> tags@[b] != *t,
    {
        if tags_eq(&tags[a], t) {
            return true;
        }
    }
    false
}

/// The prefixes of entry `k` of the bin.
pub open spec fn bin_prefixes<const D: usize>(bin: Seq<([u128; D], [u128; D])>, k: int, r: nat, pl: Seq<usize>) -> Seq<(Seq<u128>, Seq<usize>)> {
    prefixes_spec(bin[k].1@, r, pl, D as nat)
}

/// The tag of prefix combination `j` of entry `k` of bin `index`.
pub open spec fn bin_tag<const D: usize>(
    index: u64,
    bin: Seq<([u128; D], [u128; D])>,
    oprf: Map<[u128; D], Seq<u8>>,
    rows: Seq<Seq<[u8; 16]>>,
    r: nat,
    pl: Seq<usize>,
    k: int,
    j: int,
) -> Seq<u8> {
    let pe = bin_prefixes(bin, k, r, pl)[j];
    tag_spec(index, oprf[bin[k].0], pe.0, pe.1, rows)
}

/// A well-formed prefix of an offset inside its universe fits the tag inputs:
/// the prefix is below `2^l` and its tree nodes lie inside rows of
/// `2^(r+1) - 1` shares.
pub proof fn lemma_tag_inputs_ok(pe: (Seq<u128>, Seq<usize>), offset: Seq<u128>, r: nat, pl: Seq<usize>, rows: Seq<Seq<[u8; 16]>>)
    requires
        prefix_entry_ok(pe, offset, r, pl, offset.len()),
        r < 64,
        rows.len() == 2 * offset.len(),
        forall|i: int| 0 <= i < offset.len() ==> #[trigger] offset[i] < pow2(r),
        forall|k: int| 0 <= k < rows.len() ==> #[trigger] rows[k].len() >= pow2(r + 1) - 1,
    ensures
        tag_inputs_ok(pe.0, pe.1, rows),
{
    assert forall|i: int| 0 <= i < offset.len() implies {
        &&& #[trigger] pe.1[i] < 64
        &&& pe.0[i] < pow2(pe.1[i] as nat)
        &&& tree_index(pe.1[i] as nat, pe.0[i] as int) < rows[2 * i].len()
        &&& tree_index(pe.1[i] as nat, pow2(pe.1[i] as nat) - 1 - pe.0[i]) < rows[2 * i + 1].len()
    } by {
        let l = pe.1[i] as nat;
        assert(pl.contains(pe.1[i]) && 1 <= l <= r);
        let sh = (r - l) as nat;
        lemma_pow2_adds(sh, l);
        lemma_pow2_pos(sh);
        lemma_pow2_pos(l);
        assert(offset[i] < pow2(sh) * pow2(l));
        vstd::arithmetic::div_mod::lemma_multiply_divide_lt(offset[i] as int, pow2(sh) as int, pow2(l) as int);
        assert(pe.0[i] == (offset[i] as nat / pow2(sh)) as u128);
        lemma_pow2_strictly_increases(l, 128);
        crate::geometry::lemma_pow2_128();
        assert(pe.0[i] < pow2(l));
        vstd::arithmetic::power2::lemma_pow2_unfold(l + 1);
        vstd::arithmetic::power2::lemma_pow2_unfold(r + 1);
        if l < r {
            lemma_pow2_strictly_increases(l + 1, r + 1);
        }
        assert(rows[2 * i].len() >= pow2(r + 1) - 1);
        assert(rows[2 * i + 1].len() >= pow2(r + 1) - 1);
    }
}

/// The tags of entry `k` of bin `index`, one per prefix combination, in order.
pub open spec fn entry_tags<const D: usize>(
    index: u64,
    bin: Seq<([u128; D], [u128; D])>,
    oprf: Map<[u128; D], Seq<u8>>,
    rows: Seq<Seq<[u8; 16]>>,
    r: nat,
    pl: Seq<usize>,
    k: int,
) -> Seq<Seq<u8>> {
    Seq::new(bin_prefixes(bin, k, r, pl).len(), |j: int| bin_tag(index, bin, oprf, rows, r, pl, k, j))
}

/// The tags of the first `count` entries of bin `index`, entry after entry.
pub open spec fn bin_tags<const D: usize>(
    index: u64,
    bin: Seq<([u128; D], [u128; D])>,
    oprf: Map<[u128; D], Seq<u8>>,
    rows: Seq<Seq<[u8; 16]>>,
    r: nat,
    pl: Seq<usize>,
    count: nat,
) -> Seq<Seq<u8>> {
    Seq::new(count, |k: int| entry_tags(index, bin, oprf, rows, r, pl, k)).flatten()
}

/// A byte string is among the tags of the first `count` entries exactly when
/// it is the tag of some prefix combination of one of those entries.
proof fn lemma_bin_tags_contains<const D: usize>(
    index: u64,
    bin: Seq<([u128; D], [u128; D])>,
    oprf: Map<[u128; D], Seq<u8>>,
    rows: Seq<Seq<[u8; 16]>>,
    r: nat,
    pl: Seq<usize>,
    count: nat,
    x: Seq<u8>,
)
    ensures
        bin_tags(index, bin, oprf, rows, r, pl, count).contains(x) <==> exists|k: int, j: int|
            #![trigger bin_tag(index, bin, oprf, rows, r, pl, k, j)]
            0 <= k < count && 0 <= j < bin_prefixes(bin, k, r, pl).len() && x == bin_tag(index, bin, oprf, rows, r, pl, k, j),
    decreases count,
{
    let f = |k: int| entry_tags(index, bin, oprf, rows, r, pl, k);
    if count == 0 {
        assert(Seq::new(0, f) =~= Seq::<Seq<Seq<u8>>>::empty());
        assert(Seq::<Seq<Seq<u8>>>::empty().flatten() =~= Seq::<Seq<u8>>::empty());
    } else {
        let c = (count - 1) as nat;
        lemma_bin_tags_contains(index, bin, oprf, rows, r, pl, c, x);
        assert(Seq::new(count, f) =~= Seq::new(c, f).push(f(c as int)));
        Seq::new(c, f).lemma_flatten_push(f(c as int));
        vstd::seq_lib::lemma_seq_concat_contains_all_elements(Seq::new(c, f).flatten(), f(c as int), x);
        let et = entry_tags(index, bin, oprf, rows, r, pl, c as int);
        assert(f(c as int) == et);
        if et.contains(x) {
            let j = choose|j: int| 0 <= j < et.len() && #[trigger] et[j] == x;
            assert(x == bin_tag(index, bin, oprf, rows, r, pl, c as int, j));
        }
        if exists|k: int, j: int|
            #![trigger bin_tag(index, bin, oprf, rows, r, pl, k, j)]
            0 <= k < count && 0 <= j < bin_prefixes(bin, k, r, pl).len() && x == bin_tag(index, bin, oprf, rows, r, pl, k, j) {
            let (k, j) = choose|k: int, j: int|
                #![trigger bin_tag(index, bin, oprf, rows, r, pl, k, j)]
                0 <= k < count && 0 <= j < bin_prefixes(bin, k, r, pl).len() && x == bin_tag(index, bin, oprf, rows, r, pl, k, j);
            if k == c {
                assert(et[j] == x);
            } else {
                assert(bin_tags(index, bin, oprf, rows, r, pl, c).contains(x));
            }
        }
    }
}

/// Whether `x` is the tag, for bin `index`, of some prefix combination of
/// some entry of the bin, made with the OPRF output of that entry's own
/// universe origin.
pub open spec fn is_entry_tag<const D: usize>(
    index: u64,
    bin: Seq<([u128; D], [u128; D])>,
    oprf: Map<[u128; D], Seq<u8>>,
    rows: Seq<Seq<[u8; 16]>>,
    r: nat,
    pl: Seq<usize>,
    x: Seq<u8>,
) -> bool {
    exists|k: int, j: int|
        #![trigger prefixes_spec(bin[k].1@, r, pl, D as nat)[j]]
        0 <= k < bin.len() && 0 <= j < prefixes_spec(bin[k].1@, r, pl, D as nat).len()
        && x == tag_spec(index, oprf[bin[k].0],
            prefixes_spec(bin[k].1@, r, pl, D as nat)[j].0,
            prefixes_spec(bin[k].1@, r, pl, D as nat)[j].1, rows)
}

/// Every tag of a list whose byte strings are, as a set, those of a bin is
/// the tag of some prefix combination of some entry of the bin.
proof fn lemma_bin_tag_origins<const D: usize>(
    index: u64,
    bin: Seq<([u128; D], [u128; D])>,
    oprf: Map<[u128; D], Seq<u8>>,
    rows: Seq<Seq<[u8; 16]>>,
    r: nat,
    pl: Seq<usize>,
    tags: Seq<[u8; 16]>,
)
    requires
        tag_views(tags).to_set() == bin_tags(index, bin, oprf, rows, r, pl, bin.len()).to_set(),
    ensures
        forall|a: int| 0 <= a < tags.len() ==> is_entry_tag(index, bin, oprf, rows, r, pl, #[trigger] tags[a]@),
{
    assert forall|a: int| 0 <= a < tags.len() implies is_entry_tag(index, bin, oprf, rows, r, pl, #[trigger] tags[a]@) by {
        let x = tags[a]@;
        assert(tag_views(tags)[a] == x);
        assert(tag_views(tags).to_set().contains(x));
        lemma_bin_tags_contains(index, bin, oprf, rows, r, pl, bin.len(), x);
        let (kk, jj) = choose|k: int, j: int|
            #![trigger bin_tag(index, bin, oprf, rows, r, pl, k, j)]
            0 <= k < bin.len() && 0 <= j < bin_prefixes(bin, k, r, pl).len() && x == bin_tag(index, bin, oprf, rows, r, pl, k, j);
        assert(prefixes_spec(bin[kk].1@, r, pl, D as nat)[jj] == bin_prefixes(bin, kk, r, pl)[jj]);
    }
}

/// The byte strings of a list of tags.
pub open spec fn tag_views(tags: Seq<[u8; 16]>) -> Seq<Seq<u8>> {
    tags.map_values(|t: [u8; 16]| t@)
}

/// The tags of one bin, without repetitions: for every entry (universe origin
/// and offset) and every prefix combination of the offset, the tag of the bin
/// index, the universe's OPRF output, the prefix and the comparison shares.
pub fn bin_hashes<const D: usize>(
    index: usize,
    bin: &[([u128; D], [u128; D])],
    outputs: &OprfReceiverF2k<D>,
    rows: &[Vec<[u8; 16]>],
    range_bits: usize,
    pref_length: &[usize],
) -> (r: Vec<[u8; 16]>)
    requires
        range_bits < 64,
        rows@.len() == 2 * D,
        forall|k: int| 0 <= k < rows@.len() ==> (#[trigger] rows@[k])@.len() >= pow2(range_bits as nat + 1) - 1,
        forall|k: int| 0 <= k < bin@.len() ==> outputs.outputs_view().contains_key(#[trigger] bin@[k].0),
        forall|k: int, i: int| 0 <= k < bin@.len() && 0 <= i < D ==> (#[trigger] bin@[k].1@[i]) < pow2(range_bits as nat),
    ensures
        r@.no_duplicates(),
        tag_views(r@).to_set() == bin_tags(index as u64, bin@, outputs.outputs_view(), row_views(rows@),
            range_bits as nat, pref_length@, bin@.len()).to_set(),
        forall|k: int, j: int|
            #![trigger prefixes_spec(bin@[k].1@, range_bits as nat, pref_length@, D as nat)[j]]
            0 <= k < bin@.len() && 0 <= j < prefixes_spec(bin@[k].1@, range_bits as nat, pref_length@, D as nat).len()
            ==> tag_views(r@).contains(tag_spec(index as u64, outputs.outputs_view()[bin@[k].0],
                prefixes_spec(bin@[k].1@, range_bits as nat, pref_length@, D as nat)[j].0,
                prefixes_spec(bin@[k].1@, range_bits as nat, pref_length@, D as nat)[j].1, row_views(rows@))),
        forall|a: int| 0 <= a < r@.len() ==> is_entry_tag(index as u64, bin@, outputs.outputs_view(),
            row_views(rows@), range_bits as nat, pref_length@, #[trigger] r@[a]@),
{
    let ghost rv = row_views(rows@);
    let ghost rr = range_bits as nat;
    let ghost pl = pref_length@;
    let ghost om = outputs.outputs_view();
    let ghost idx = index as u64;
    let ghost f = |k: int| entry_tags(idx, bin@, om, rv, rr, pl, k);
    let mut r: Vec<[u8; 16]> = Vec::new();
    proof {
        assert(Seq::new(0, f) =~= Seq::<Seq<Seq<u8>>>::empty());
        assert(tag_views(r@).to_set() =~= Seq::new(0, f).flatten().to_set());
    }
    for k in 0..bin.len()
        invariant
            rv == row_views(rows@),
            rr == range_bits as nat,
            pl == pref_length@,
            om == outputs.outputs_view(),
            idx == index as u64,
            f == (|k: int| entry_tags(idx, bin@, om, rv, rr, pl, k)),
            range_bits < 64,
            rows@.len() == 2 * D,
            forall|kk: int| 0 <= kk < rows@.len() ==> (#[trigger] rows@[kk])@.len() >= pow2(range_bits as nat + 1) - 1,
            forall|kk: int| 0 <= kk < bin@.len() ==> om.contains_key(#[trigger] bin@[kk].0),
            forall|kk: int, i: int| 0 <= kk < bin@.len() && 0 <= i < D ==> (#[trigger] bin@[kk].1@[i]) < pow2(range_bits as nat),
            r@.no_duplicates(),
            tag_views(r@).to_set() == Seq::new(k as nat, f).flatten().to_set(),
    {
        let entry = bin[k];
        let oprf = match outputs.get_output(&entry.0) {
            Some(o) => o,
            None => [0u8; 32],
        };
        assert(oprf@ == om[bin@[k as int].0]);
        let prefixes = get_prefixes(&entry.1, range_bits, pref_length);
        proof {
            lemma_prefixes(entry.1@, rr, pl, D as nat);
            assert(prefix_views(prefixes@) == bin_prefixes(bin@, k as int, rr, pl));
        }
        let ghost pv = bin_prefixes(bin@, k as int, rr, pl);
        let ghost done = Seq::new(k as nat, f).flatten();
        let ghost et = entry_tags(idx, bin@, om, rv, rr, pl, k as int);
        proof {
            assert(et.take(0) =~= Seq::<Seq<u8>>::empty());
            assert(done + et.take(0) =~= done);
        }
        for j in 0..prefixes.len()
            invariant
                rv == row_views(rows@),
                rr == range_bits as nat,
                pl == pref_length@,
                om == outputs.outputs_view(),
                idx == index as u64,
                range_bits < 64,
                rows@.len() == 2 * D,
                forall|kk: int| 0 <= kk < rows@.len() ==> (#[trigger] rows@[kk])@.len() >= pow2(range_bits as nat + 1) - 1,
                k < bin@.len(),
                entry == bin@[k as int],
                oprf@ == om[bin@[k as int].0],
                forall|i: int| 0 <= i < D ==> (#[trigger] entry.1@[i]) < pow2(range_bits as nat),
                pv == bin_prefixes(bin@, k as int, rr, pl),
                prefix_views(prefixes@) == pv,
                et == entry_tags(idx, bin@, om, rv, rr, pl, k as int),
                et.len() == prefixes@.len(),
                forall|jj: int| 0 <= jj < pv.len() ==> prefix_entry_ok(#[trigger] pv[jj], entry.1@, rr, pl, D as nat),
                r@.no_duplicates(),
                tag_views(r@).to_set() == (done + et.take(j as int)).to_set(),
        {
            let pe = prefixes[j];
            proof {
                assert(pv[j as int] == (pe.0@, pe.1@));
                assert forall|kk: int| 0 <= kk < rv.len() implies #[trigger] rv[kk].len() >= pow2(rr + 1) - 1 by {
                    assert(rv[kk] == rows@[kk]@);
                }
                lemma_tag_inputs_ok(pv[j as int], entry.1@, rr, pl, rv);
            }
            let t = tag(index, &oprf, &pe.0, &pe.1, rows);
            assert(t@ == et[j as int]);
            let ghost before = r@;
            proof {
                assert(et.take(j + 1) =~= et.take(j as int).push(t@));
                assert(done + et.take(j + 1) =~= (done + et.take(j as int)).push(t@));
                (done + et.take(j as int)).lemma_push_to_set_commute(t@);
            }
            if !contains_tag(&r, &t) {
                r.push(t);
                proof {
                    assert(tag_views(r@) =~= tag_views(before).push(t@));
                    tag_views(before).lemma_push_to_set_commute(t@);
                }
            } else {
                proof {
                    let a = choose|a: int| 0 <= a < r@.len() && r@[a] == t;
                    assert(tag_views(r@)[a] == t@);
                    assert(tag_views(r@).to_set().contains(t@));
                    assert(tag_views(r@).to_set() =~= tag_views(r@).to_set().insert(t@));
                }
            }
        }
        proof {
            assert(et.take(et.len() as int) =~= et);
            assert(Seq::new((k + 1) as nat, f) =~= Seq::new(k as nat, f).push(f(k as int)));
            Seq::new(k as nat, f).lemma_flatten_push(f(k as int));
        }
    }
    proof {
        let all = bin_tags(idx, bin@, om, rv, rr, pl, bin@.len());
        assert forall|k: int, j: int|
            #![trigger prefixes_spec(bin@[k].1@, rr, pl, D as nat)[j]]
            0 <= k < bin@.len() && 0 <= j < prefixes_spec(bin@[k].1@, rr, pl, D as nat).len()
            implies tag_views(r@).contains(tag_spec(idx, om[bin@[k].0],
                prefixes_spec(bin@[k].1@, rr, pl, D as nat)[j].0,
                prefixes_spec(bin@[k].1@, rr, pl, D as nat)[j].1, rv)) by {
            let x = bin_tag(idx, bin@, om, rv, rr, pl, k, j);
            lemma_bin_tags_contains(idx, bin@, om, rv, rr, pl, bin@.len(), x);
            assert(all.to_set().contains(x));
            assert(tag_views(r@).to_set().contains(x));
        }
        lemma_bin_tag_origins(idx, bin@, om, rv, rr, pl, r@);
    }
    r
}

/// Re-expresses every point in each of its 2^D universes: entry
/// `v * 2^D + mask` is universe `mask` of point `v`.
pub fn preprocess_points<const D: usize>(values: &[[u128; D]], range_bits: usize) -> (r: Vec<([u128; D], [u128; D])>)
    requires
        1 <= range_bits <= 128,
        D <= 30,
        forall|v: int, i: int| 0 <= v < values@.len() && 0 <= i < D ==> (#[trigger] values@[v]@[i]) >= pow2((range_bits - 1) as nat),
    ensures
        r@.len() == values@.len() * pow2(D as nat),
        forall|v: int, mask: int, i: int| 0 <= v < values@.len() && 0 <= mask < pow2(D as nat) && 0 <= i < D ==>
            (#[trigger] r@[v * pow2(D as nat) + mask].0@[i])
                == universe_origin(values@[v]@, pow2((range_bits - 1) as nat), mask as nat)[i]
            && r@[v * pow2(D as nat) + mask].1@[i] == values@[v]@[i] - r@[v * pow2(D as nat) + mask].0@[i],
{
    let ghost c = pow2(D as nat);
    let ghost half = pow2((range_bits - 1) as nat);
    let mut r: Vec<([u128; D], [u128; D])> = Vec::new();
    assert(0 * c == 0);
    for v in 0..values.len()
        invariant
            c == pow2(D as nat),
            half == pow2((range_bits - 1) as nat),
            1 <= range_bits <= 128,
            D <= 30,
            forall|vv: int, i: int| 0 <= vv < values@.len() && 0 <= i < D ==> (#[trigger] values@[vv]@[i]) >= half,
            r@.len() == v * c,
            forall|vv: int, mask: int, i: int| 0 <= vv < v && 0 <= mask < c && 0 <= i < D ==>
                (#[trigger] r@[vv * c + mask].0@[i]) == universe_origin(values@[vv]@, half, mask as nat)[i]
                && r@[vv * c + mask].1@[i] == values@[vv]@[i] - r@[vv * c + mask].0@[i],
    {
        let pts = preprocess_point(&values[v], range_bits);
        let ghost base = r@;
        for m in 0..pts.len()
            invariant
                r@.len() == base.len() + m,
                base.len() == v * c,
                pts@.len() == c,
                forall|k: int| 0 <= k < base.len() ==> r@[k] == base[k],
                forall|k: int| 0 <= k < m ==> r@[base.len() + k] == pts@[k],
        {
            r.push(pts[m]);
        }
        proof {
            assert(r@.len() == (v + 1) * c) by (nonlinear_arith)
                requires r@.len() == v * c + c;
            assert forall|vv: int, mask: int, i: int| 0 <= vv < v + 1 && 0 <= mask < c && 0 <= i < D implies
                (#[trigger] r@[vv * c + mask].0@[i]) == universe_origin(values@[vv]@, half, mask as nat)[i]
                && r@[vv * c + mask].1@[i] == values@[vv]@[i] - r@[vv * c + mask].0@[i] by {
                if vv < v {
                    assert(vv * c + mask < v * c) by (nonlinear_arith)
                        requires vv < v, mask < c, 0 <= vv, 0 <= mask;
                    assert(r@[vv * c + mask] == base[vv * c + mask]);
                } else {
                    assert(r@[vv * c + mask] == pts@[mask]);
                }
            }
        }
    }
    r
}

/// Inserting `entries` one after the other with `append_to_bins`, stopping at
/// the first insertion that overflows a bin: the bins that result and whether
/// every insertion succeeded.
pub open spec fn insert_all<const N: usize>(
    bins: Seq<Seq<([u128; N], [u128; N])>>,
    entries: Seq<([u128; N], [u128; N])>,
    funcs: Seq<[u8; 16]>,
    table_size: nat,
    max: nat,
) -> (Seq<Seq<([u128; N], [u128; N])>>, bool)
    decreases entries.len(),
{
    if entries.len() == 0 {
        (bins, true)
    } else {
        let e = entries[0];
        let step = append_to_bins(bins, locations_spec(e.0@, funcs, table_size), e, max);
        if !step.1 {
            step
        } else {
            insert_all(step.0, entries.drop_first(), funcs, table_size, max)
        }
    }
}

/// Appending to bins that each have room for one entry per location never
/// overflows, and grows each bin by at most the number of locations.
proof fn lemma_append_fits<E>(bins: Seq<Seq<E>>, locs: Seq<nat>, e: E, max: nat)
    requires
        forall|j: int| 0 <= j < locs.len() ==> #[trigger] locs[j] < bins.len(),
        forall|i: int| 0 <= i < bins.len() ==> #[trigger] bins[i].len() + locs.len() <= max,
    ensures
        append_to_bins(bins, locs, e, max).1,
        append_to_bins(bins, locs, e, max).0.len() == bins.len(),
        forall|i: int| 0 <= i < bins.len() ==> #[trigger] append_to_bins(bins, locs, e, max).0[i].len()
            <= bins[i].len() + locs.len(),
    decreases locs.len(),
{
    if locs.len() > 0 {
        let l = locs[0] as int;
        let grown = bins.update(l, bins[l].push(e));
        let rest = locs.drop_first();
        assert(grown[l].len() <= max);
        assert forall|j: int| 0 <= j < rest.len() implies #[trigger] rest[j] < grown.len() by {
            assert(rest[j] == locs[j + 1]);
        }
        assert forall|i: int| 0 <= i < grown.len() implies #[trigger] grown[i].len() + rest.len() <= max by {
            assert(bins[i].len() + locs.len() <= max);
        }
        lemma_append_fits(grown, rest, e, max);
        assert forall|i: int| 0 <= i < bins.len() implies #[trigger] append_to_bins(bins, locs, e, max).0[i].len()
            <= bins[i].len() + locs.len() by {
            assert(grown[i].len() + rest.len() <= bins[i].len() + locs.len());
        }
    }
}

/// Binning never overflows while every bin has room for one entry per
/// location function of every remaining entry.
pub proof fn lemma_insert_all_fits<const N: usize>(
    bins: Seq<Seq<([u128; N], [u128; N])>>,
    entries: Seq<([u128; N], [u128; N])>,
    funcs: Seq<[u8; 16]>,
    table_size: nat,
    max: nat,
)
    requires
        table_size > 0,
        bins.len() == table_size,
        forall|i: int| 0 <= i < bins.len() ==> #[trigger] bins[i].len() + entries.len() * funcs.len() <= max,
    ensures
        insert_all(bins, entries, funcs, table_size, max).1,
    decreases entries.len(),
{
    if entries.len() > 0 {
        let e = entries[0];
        let locs = locations_spec(e.0@, funcs, table_size);
        assert forall|j: int| 0 <= j < locs.len() implies #[trigger] locs[j] < bins.len() by {
            vstd::arithmetic::div_mod::lemma_mod_bound(
                spec_u64_from_le_bytes(sha3_256_digest(limbs_le_bytes(e.0@) + funcs[j]@).subrange(0, 8)) as int,
                table_size as int);
        }
        assert forall|i: int| 0 <= i < bins.len() implies #[trigger] bins[i].len() + locs.len() <= max by {
            assert(entries.len() * funcs.len() >= funcs.len()) by (nonlinear_arith)
                requires entries.len() >= 1;
        }
        lemma_append_fits(bins, locs, e, max);
        let step = append_to_bins(bins, locs, e, max);
        let rest = entries.drop_first();
        assert forall|i: int| 0 <= i < step.0.len() implies #[trigger] step.0[i].len() + rest.len() * funcs.len() <= max by {
            assert(bins[i].len() + entries.len() * funcs.len() <= max);
            assert(entries.len() * funcs.len() == rest.len() * funcs.len() + funcs.len()) by (nonlinear_arith)
                requires entries.len() == rest.len() + 1;
        }
        lemma_insert_all_fits(step.0, rest, funcs, table_size, max);
    }
}

/// The receiver of structure-aware PSI: its set size and the number of bins.
pub struct SAPSIReceiver {
    n: usize,
    table_size: usize,
}

impl SAPSIReceiver {
    /// The set size.
    pub closed spec fn n_view(&self) -> nat {
        self.n as nat
    }

    /// The number of bins.
    pub closed spec fn table_size_view(&self) -> nat {
        self.table_size as nat
    }

    /// A receiver for `n` points and `table_size` bins.
    pub fn new(n: usize, table_size: usize) -> (r: Self)
        ensures
            r.n_view() == n,
            r.table_size_view() == table_size,
    {
        SAPSIReceiver { n, table_size }
    }

    /// The set size.
    pub fn n(&self) -> (r: usize)
        ensures
            r == self.n_view(),
    {
        self.n
    }

    /// The number of bins.
    pub fn table_size(&self) -> (r: usize)
        ensures
            r == self.table_size_view(),
    {
        self.table_size
    }

    /// Bins the re-expressed points by universe origin: a simple hash table
    /// of `table_size` bins of capacity `MAX_BIN_SIZE` with `LOC_FUNC_COUNT`
    /// location keys derived from the all-zero seed, into which the entries
    /// are inserted in order; stops at the first insertion that overflows a
    /// bin and says whether all succeeded.
    pub fn fill_bins<const D: usize>(&self, processed: &[([u128; D], [u128; D])]) -> (r: (SimpleHash<D>, bool))
        requires
            self.table_size_view() > 0,
        ensures
            r.0@.wf(),
            r.0@.table_size == self.table_size_view(),
            r.0@.max_bin_size == MAX_BIN_SIZE,
            r.0@.loc_funcs.len() == LOC_FUNC_COUNT,
            keys_derived_from(r.0@.loc_funcs, Seq::new(16, |i: int| 0u8)),
            (r.0@.table, r.1) == insert_all(
                Seq::new(self.table_size_view(), |i: int| Seq::<([u128; D], [u128; D])>::empty()),
                processed@, r.0@.loc_funcs, self.table_size_view(), MAX_BIN_SIZE as nat),
            processed@.len() * LOC_FUNC_COUNT <= MAX_BIN_SIZE ==> r.1,
    {
        let mut table = SimpleHash::<D>::new(self.table_size, MAX_BIN_SIZE, LOC_FUNC_COUNT);
        let seed = [0u8; 16];
        table.generate_loc_funcs(LOC_FUNC_COUNT, Some(seed));
        let ghost start = table@.table;
        let ghost funcs = table@.loc_funcs;
        proof {
            assert(seed@ =~= Seq::new(16, |i: int| 0u8));
            assert(processed@.skip(0) =~= processed@);
            if processed@.len() * LOC_FUNC_COUNT <= MAX_BIN_SIZE {
                lemma_insert_all_fits(start, processed@, funcs, self.table_size_view(), MAX_BIN_SIZE as nat);
            }
        }
        for k in 0..processed.len()
            invariant
                table@.wf(),
                table@.can_locate(),
                table@.table_size == self.table_size_view(),
                table@.max_bin_size == MAX_BIN_SIZE,
                table@.loc_funcs == funcs,
                funcs.len() == LOC_FUNC_COUNT,
                keys_derived_from(funcs, Seq::new(16, |i: int| 0u8)),
                processed@.len() * LOC_FUNC_COUNT <= MAX_BIN_SIZE
                    ==> insert_all(start, processed@, funcs, self.table_size_view(), MAX_BIN_SIZE as nat).1,
                start == Seq::new(self.table_size_view(), |i: int| Seq::<([u128; D], [u128; D])>::empty()),
                insert_all(start, processed@, funcs, self.table_size_view(), MAX_BIN_SIZE as nat)
                    == insert_all(table@.table, processed@.skip(k as int), funcs, self.table_size_view(), MAX_BIN_SIZE as nat),
        {
            let e = processed[k];
            let ghost before = table@.table;
            proof {
                assert(processed@.skip(k as int)[0] == e);
                assert(processed@.skip(k as int).drop_first() =~= processed@.skip(k + 1));
            }
            let ok = table.insert(&e.0, &e.1);
            assert((e.0, e.1) == e);
            if !ok {
                return (table, false);
            }
        }
        proof {
            assert(processed@.skip(processed@.len() as int) =~= Seq::<([u128; D], [u128; D])>::empty());
        }
        (table, true)
    }
}

} // verus!
