//! The computations of the OPRF over GF(2^128) that do not go over the wire:
//! the hash that keys the OKVS, the masking of the encoding, the coin-flip
//! commitment, and the table of outputs that later lookups read.
use vstd::prelude::*;
use vstd::bytes::{spec_u128_from_le_bytes, spec_u128_to_le_bytes, u128_from_le_bytes};
use crate::bytes::{limbs_eq, limbs_le_bytes, push_limbs_le, push_u128_le};
use crate::crypto::{blake3_digest, blake3_hash};

verus! {

/// The value an input is encoded to in the OKVS: the first 16 bytes of the
/// BLAKE3 hash of its limbs, read little-endian.
pub open spec fn value_hash_spec(x: Seq<u128>) -> u128 {
    spec_u128_from_le_bytes(blake3_digest(limbs_le_bytes(x)).subrange(0, 16))
}

/// The OPRF output for input `x` whose decoded (unmasked) value is `o`: the
/// BLAKE3 hash of the input's limbs followed by `o`, all little-endian.
pub open spec fn output_hash_spec(x: Seq<u128>, o: u128) -> Seq<u8> {
    blake3_digest(limbs_le_bytes(x) + spec_u128_to_le_bytes(o))
}

/// The commitment to a coin share: the BLAKE3 hash of its 16 little-endian bytes.
pub open spec fn commitment_spec(ws: u128) -> Seq<u8> {
    blake3_digest(spec_u128_to_le_bytes(ws))
}

/// The value `x` is encoded to in the OKVS.
pub fn value_hash<const K: usize>(x: &[u128; K]) -> (r: u128)
    ensures
        r == value_hash_spec(x@),
{
    let mut buf: Vec<u8> = Vec::new();
    push_limbs_le(&mut buf, x);
    assert(buf@ =~= limbs_le_bytes(x@));
    let d = blake3_hash(buf.as_slice());
    u128_from_le_bytes(vstd::slice::slice_subrange(d.as_slice(), 0, 16))
}

/// The OKVS values of all inputs, in order.
pub fn value_hashes<const K: usize>(values: &[[u128; K]]) -> (r: Vec<u128>)
    ensures
        r@.len() == values@.len(),
        forall|i: int| 0 <= i < r@.len() ==> #[trigger] r@[i] == value_hash_spec(values@[i]@),
{
    let mut r: Vec<u128> = Vec::new();
    for i in 0..values.len()
        invariant
            r@.len() == i,
            forall|j: int| 0 <= j < i ==> #[trigger] r@[j] == value_hash_spec(values@[j]@),
    {
        r.push(value_hash(&values[i]));
    }
    r
}

/// The OPRF output of `x` given its decoded value `o`.
pub fn output_hash<const K: usize>(x: &[u128; K], o: u128) -> (r: [u8; 32])
    ensures
        r@ == output_hash_spec(x@, o),
{
    let mut buf: Vec<u8> = Vec::new();
    push_limbs_le(&mut buf, x);
    push_u128_le(&mut buf, o);
    assert(buf@ =~= limbs_le_bytes(x@) + spec_u128_to_le_bytes(o));
    blake3_hash(buf.as_slice())
}

/// The commitment the sender publishes to its coin share `ws`.
pub fn ws_commitment(ws: u128) -> (r: [u8; 32])
    ensures
        r@ == commitment_spec(ws),
{
    let mut buf: Vec<u8> = Vec::new();
    push_u128_le(&mut buf, ws);
    assert(buf@ =~= spec_u128_to_le_bytes(ws));
    blake3_hash(buf.as_slice())
}

/// Whether `hws` is the commitment to `ws`.
pub fn commitment_matches(ws: u128, hws: &[u8; 32]) -> (r: bool)
    ensures
        r == (hws@ == commitment_spec(ws)),
{
    let c = ws_commitment(ws);
    let mut i: usize = 0;
    while i < 32
        invariant
            i <= 32,
            c@ == commitment_spec(ws),
            forall|j: int| 0 <= j < i ==> c@[j] == hws@[j],
        decreases 32 - i,
    {
        if c[i] != hws[i] {
            return false;
        }
        i = i + 1;
    }
    assert(c@ =~= hws@);
    true
}

/// Element-wise XOR of two vectors, as long as the shorter one.
pub fn xor_vectors(a: &[u128], b: &[u128]) -> (r: Vec<u128>)
    ensures
        r@.len() == if a@.len() <= b@.len() { a@.len() } else { b@.len() },
        forall|i: int| 0 <= i < r@.len() ==> #[trigger] r@[i] == a@[i] ^ b@[i],
{
    let n = if a.len() <= b.len() { a.len() } else { b.len() };
    let mut r: Vec<u128> = Vec::new();
    for i in 0..n
        invariant
            n <= a@.len(),
            n <= b@.len(),
            r@.len() == i,
            forall|j: int| 0 <= j < i ==> #[trigger] r@[j] == a@[j] ^ b@[j],
    {
        r.push(a[i] ^ b[i]);
    }
    r
}

/// The map that a list of (input, output) records stands for: later records
/// override earlier ones for the same input.
pub open spec fn records_map<const K: usize>(s: Seq<([u128; K], [u8; 32])>) -> Map<[u128; K], Seq<u8>>
    decreases s.len(),
{
    if s.len() == 0 {
        Map::empty()
    } else {
        records_map(s.drop_last()).insert(s.last().0, s.last().1@)
    }
}

/// The last record of `x` decides its entry; with no record there is no entry.
pub proof fn lemma_records_map_lookup<const K: usize>(s: Seq<([u128; K], [u8; 32])>, x: [u128; K], i: int)
    requires
        -1 <= i < s.len(),
        forall|j: int| i < j < s.len() ==> (#[trigger] s[j]).0 != x,
        i >= 0 ==> s[i].0 == x,
    ensures
        i >= 0 ==> records_map(s).contains_key(x) && records_map(s)[x] == s[i].1@,
        i < 0 ==> !records_map(s).contains_key(x),
    decreases s.len(),
{
    if s.len() > 0 {
        let last = s.len() - 1;
        if i == last {
        } else {
            assert forall|j: int| i < j < s.drop_last().len() implies (#[trigger] s.drop_last()[j]).0 != x by {
                assert(s.drop_last()[j] == s[j]);
            }
            lemma_records_map_lookup(s.drop_last(), x, i);
        }
    }
}

/// Outputs of an OPRF evaluation, keyed by input.
pub struct OprfOutputTable<const K: usize> {
    records: Vec<([u128; K], [u8; 32])>,
}

impl<const K: usize> View for OprfOutputTable<K> {
    type V = Map<[u128; K], Seq<u8>>;

    closed spec fn view(&self) -> Map<[u128; K], Seq<u8>> {
        records_map(self.records@)
    }
}

impl<const K: usize> OprfOutputTable<K> {
    /// No outputs.
    pub fn new() -> (r: Self)
        ensures
            r@ == Map::<[u128; K], Seq<u8>>::empty(),
    {
        OprfOutputTable { records: Vec::new() }
    }

    /// Records `o` as the output of `x`, replacing any earlier one.
    pub fn insert(&mut self, x: [u128; K], o: [u8; 32])
        ensures
            final(self)@ == old(self)@.insert(x, o@),
    {
        let ghost s0 = self.records@;
        self.records.push((x, o));
        assert(self.records@.drop_last() =~= s0);
    }

    /// The output recorded for `x`, if any.
    pub fn get(&self, x: &[u128; K]) -> (r: Option<[u8; 32]>)
        ensures
            r is Some == self@.contains_key(*x),
            r matches Some(o) ==> o@ == self@[*x],
    {
        let mut i = self.records.len();
        while i > 0
            invariant
                i <= self.records@.len(),
                forall|j: int| i <= j < self.records@.len() ==> (#[trigger] self.records@[j]).0 != *x,
            decreases i,
        {
            if limbs_eq(&self.records[i - 1].0, x) {
                proof { lemma_records_map_lookup(self.records@, *x, i - 1); }
                return Some(self.records[i - 1].1);
            }
            i = i - 1;
        }
        proof { lemma_records_map_lookup(self.records@, *x, -1); }
        None
    }
}

/// Records, for each input, the output hash of its decoded value: the `i`-th
/// input gets `output_hash(values[i], decoded[i] ^ masks[i])`, for as many
/// inputs as there are decoded values and masks.
pub open spec fn recorded_outputs<const K: usize>(
    before: Map<[u128; K], Seq<u8>>,
    values: Seq<[u128; K]>,
    decoded: Seq<u128>,
    mask: spec_fn(int) -> u128,
    count: nat,
) -> Map<[u128; K], Seq<u8>>
    decreases count,
{
    if count == 0 {
        before
    } else {
        let i = count - 1;
        recorded_outputs(before, values, decoded, mask, (count - 1) as nat)
            .insert(values[i], output_hash_spec(values[i]@, decoded[i] ^ mask(i)))
    }
}

/// Inserts the outputs of the first `count` inputs into `table`.
fn record_outputs<const K: usize>(
    table: &mut OprfOutputTable<K>,
    values: &[[u128; K]],
    decoded: &[u128],
    masks: &[u128],
    count: usize,
    Ghost(mask): Ghost<spec_fn(int) -> u128>,
)
    requires
        count <= values@.len(),
        count <= decoded@.len(),
        count <= masks@.len(),
        forall|i: int| 0 <= i < count ==> masks@[i] == mask(i),
    ensures
        final(table)@ == recorded_outputs(old(table)@, values@, decoded@, mask, count as nat),
        forall|i: int| 0 <= i < count ==> #[trigger] final(table)@.contains_key(values@[i]),
{
    for i in 0..count
        invariant
            count <= values@.len(),
            count <= decoded@.len(),
            count <= masks@.len(),
            forall|j: int| 0 <= j < count ==> masks@[j] == mask(j),
            table@ == recorded_outputs(old(table)@, values@, decoded@, mask, i as nat),
            forall|j: int| 0 <= j < i ==> #[trigger] table@.contains_key(values@[j]),
    {
        let o = output_hash(&values[i], decoded[i] ^ masks[i]);
        table.insert(values[i], o);
    }
}

/// The receiver's side of the OPRF over GF(2^128), without the channel, the
/// OKVS and the VOLE generator: its encoding of the inputs and its outputs.
pub struct OprfReceiverF2k<const KEY_DIM: usize> {
    n: usize,
    encoding: Vec<u128>,
    outputs: OprfOutputTable<KEY_DIM>,
}

impl<const KEY_DIM: usize> OprfReceiverF2k<KEY_DIM> {
    /// The encoding of the inputs (`P`, zero until set).
    pub closed spec fn encoding_view(&self) -> Seq<u128> {
        self.encoding@
    }

    /// The outputs computed so far.
    pub closed spec fn outputs_view(&self) -> Map<[u128; KEY_DIM], Seq<u8>> {
        self.outputs@
    }

    /// The set size.
    pub closed spec fn n_view(&self) -> nat {
        self.n as nat
    }

    /// A receiver for `n` inputs, its encoding `2n` zeros and no outputs yet.
    pub fn new(n: usize) -> (r: Self)
        requires
            2 * n <= usize::MAX,
        ensures
            r.n_view() == n,
            r.encoding_view() == Seq::new((2 * n) as nat, |i: int| 0u128),
            r.outputs_view() == Map::<[u128; KEY_DIM], Seq<u8>>::empty(),
    {
        let encoding = vec![0u128; 2 * n];
        assert(encoding@ =~= Seq::new((2 * n) as nat, |i: int| 0u128));
        OprfReceiverF2k { n, encoding, outputs: OprfOutputTable::new() }
    }

    /// Installs the OKVS encoding `P` of the inputs.
    pub fn set_encoding(&mut self, encoding: Vec<u128>)
        ensures
            final(self).encoding_view() == encoding@,
            final(self).outputs_view() == old(self).outputs_view(),
            final(self).n_view() == old(self).n_view(),
    {
        self.encoding = encoding;
    }

    /// The masked encoding `A = P ^ a` sent to the sender, `a` being the
    /// receiver's VOLE share.
    pub fn masked_encoding(&self, a: &[u128]) -> (r: Vec<u128>)
        ensures
            r@.len() == if self.encoding_view().len() <= a@.len() { self.encoding_view().len() } else { a@.len() },
            forall|i: int| 0 <= i < r@.len() ==> #[trigger] r@[i] == self.encoding_view()[i] ^ a@[i],
    {
        xor_vectors(self.encoding.as_slice(), a)
    }

    /// Computes the outputs from the decoded values: the `i`-th input gets the
    /// output hash of its decoded value XOR the common coin `w`.
    pub fn finish_receive(&mut self, values: &[[u128; KEY_DIM]], decoded: &[u128], w: u128)
        ensures
            final(self).encoding_view() == old(self).encoding_view(),
            final(self).n_view() == old(self).n_view(),
            final(self).outputs_view() == recorded_outputs(
                old(self).outputs_view(), values@, decoded@, |i: int| w,
                if values@.len() <= decoded@.len() { values@.len() } else { decoded@.len() },
            ),
    {
        let count = if values.len() <= decoded.len() { values.len() } else { decoded.len() };
        let masks = vec![w; count];
        assert(forall|i: int| 0 <= i < count ==> masks@[i] == w);
        record_outputs(&mut self.outputs, values, decoded, masks.as_slice(), count, Ghost(|i: int| w));
    }

    /// The output of input `x`, if it was one of the inputs.
    pub fn get_output(&self, x: &[u128; KEY_DIM]) -> (r: Option<[u8; 32]>)
        ensures
            r is Some == self.outputs_view().contains_key(*x),
            r matches Some(o) ==> o@ == self.outputs_view()[*x],
    {
        self.outputs.get(x)
    }
}

/// The sender's side of the OPRF over GF(2^128), without the channel, the OKVS
/// and the VOLE generator: its key, the common coin and its outputs.
pub struct OprfSenderF2k<const KEY_DIM: usize> {
    n: usize,
    delta: u128,
    w: u128,
    outputs: OprfOutputTable<KEY_DIM>,
}

impl<const KEY_DIM: usize> OprfSenderF2k<KEY_DIM> {
    /// The outputs computed so far.
    pub closed spec fn outputs_view(&self) -> Map<[u128; KEY_DIM], Seq<u8>> {
        self.outputs@
    }

    /// The common coin `w`.
    pub closed spec fn w_view(&self) -> u128 {
        self.w
    }

    /// The global key `delta`.
    pub closed spec fn delta_view(&self) -> u128 {
        self.delta
    }

    /// A sender for `n` inputs with global key `delta`; coin zero, no outputs.
    pub fn new(n: usize, delta: u128) -> (r: Self)
        ensures
            r.delta_view() == delta,
            r.w_view() == 0,
            r.outputs_view() == Map::<[u128; KEY_DIM], Seq<u8>>::empty(),
    {
        OprfSenderF2k { n, delta, w: 0, outputs: OprfOutputTable::new() }
    }

    /// The global key.
    pub fn delta(&self) -> (r: u128)
        ensures
            r == self.delta_view(),
    {
        self.delta
    }

    /// Fixes the common coin from the two shares: `w = ws ^ wr`.
    pub fn set_coin(&mut self, ws: u128, wr: u128)
        ensures
            final(self).w_view() == ws ^ wr,
            final(self).delta_view() == old(self).delta_view(),
            final(self).outputs_view() == old(self).outputs_view(),
    {
        self.w = ws ^ wr;
    }

    /// Computes the outputs: the `i`-th input gets the output hash of its
    /// decoded value XOR `keyed[i]` (its value hash multiplied by `delta`) XOR `w`.
    pub fn finish_send(&mut self, values: &[[u128; KEY_DIM]], decoded: &[u128], keyed: &[u128])
        requires
            values@.len() == decoded@.len(),
            values@.len() == keyed@.len(),
        ensures
            final(self).w_view() == old(self).w_view(),
            final(self).delta_view() == old(self).delta_view(),
            final(self).outputs_view() == recorded_outputs(
                old(self).outputs_view(), values@, decoded@, |i: int| keyed@[i] ^ old(self).w_view(),
                values@.len(),
            ),
    {
        let mut masks: Vec<u128> = Vec::new();
        for i in 0..keyed.len()
            invariant
                masks@.len() == i,
                forall|j: int| 0 <= j < i ==> masks@[j] == keyed@[j] ^ self.w,
        {
            masks.push(keyed[i] ^ self.w);
        }
        let ghost w = self.w;
        record_outputs(&mut self.outputs, values, decoded, masks.as_slice(), values.len(), Ghost(|i: int| keyed@[i] ^ w));
    }

    /// The output of input `x`, if it was one of the inputs.
    pub fn get_output(&self, x: &[u128; KEY_DIM]) -> (r: Option<[u8; 32]>)
        ensures
            r is Some == self.outputs_view().contains_key(*x),
            r matches Some(o) ==> o@ == self.outputs_view()[*x],
    {
        self.outputs.get(x)
    }
}

/// Reading an output back gives what was written: after the outputs of the
/// first `count` inputs are recorded, every one of those inputs has an output,
/// and an input that does not occur again later in that range has exactly the
/// output hash of its own decoded value.
pub proof fn lemma_recorded_output_lookup<const K: usize>(
    before: Map<[u128; K], Seq<u8>>,
    values: Seq<[u128; K]>,
    decoded: Seq<u128>,
    mask: spec_fn(int) -> u128,
    count: nat,
    i: int,
)
    requires
        0 <= i < count,
        count <= values.len(),
        count <= decoded.len(),
        forall|j: int| i < j < count ==> values[j] != values[i],
    ensures
        recorded_outputs(before, values, decoded, mask, count).contains_key(values[i]),
        recorded_outputs(before, values, decoded, mask, count)[values[i]]
            == output_hash_spec(values[i]@, decoded[i] ^ mask(i)),
    decreases count,
{
    let c1 = (count - 1) as nat;
    if i < c1 {
        lemma_recorded_output_lookup(before, values, decoded, mask, c1, i);
    }
}

/// Both parties compute the same output for a common input: when the
/// receiver's decoded value of `x` equals the sender's decoded value XOR its
/// keyed hash (the relation the VOLE correlation gives), and both use the coin
/// `w`, the output `finish_receive` records for `x` is the one `finish_send`
/// records (each input taken at its last occurrence).
pub proof fn lemma_outputs_agree<const K: usize>(
    before_r: Map<[u128; K], Seq<u8>>,
    values_r: Seq<[u128; K]>,
    decoded_r: Seq<u128>,
    count_r: nat,
    i_r: int,
    before_s: Map<[u128; K], Seq<u8>>,
    values_s: Seq<[u128; K]>,
    decoded_s: Seq<u128>,
    keyed: Seq<u128>,
    count_s: nat,
    i_s: int,
    w: u128,
)
    requires
        0 <= i_r < count_r,
        count_r <= values_r.len(),
        count_r <= decoded_r.len(),
        forall|j: int| i_r < j < count_r ==> values_r[j] != values_r[i_r],
        0 <= i_s < count_s,
        count_s <= values_s.len(),
        count_s <= decoded_s.len(),
        forall|j: int| i_s < j < count_s ==> values_s[j] != values_s[i_s],
        values_r[i_r] == values_s[i_s],
        decoded_r[i_r] == decoded_s[i_s] ^ keyed[i_s],
    ensures
        recorded_outputs(before_r, values_r, decoded_r, |i: int| w, count_r)[values_r[i_r]]
            == recorded_outputs(before_s, values_s, decoded_s, |i: int| keyed[i] ^ w, count_s)[values_s[i_s]],
{
    lemma_recorded_output_lookup(before_r, values_r, decoded_r, |i: int| w, count_r, i_r);
    lemma_recorded_output_lookup(before_s, values_s, decoded_s, |i: int| keyed[i] ^ w, count_s, i_s);
    let a = decoded_s[i_s];
    let k = keyed[i_s];
    assert((a ^ k) ^ w == a ^ (k ^ w)) by (bit_vector);
}

} // verus!
