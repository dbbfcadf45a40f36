//! The checks of the OPRF over the STARK prime field that are computed on
//! plain bytes: the size of the evaluation domain, the sampling of query
//! positions from transcript bytes, the Merkle commitment to the sender's
//! outputs, and the membership of the receiver's outputs among them.
use vstd::prelude::*;
use vstd::arithmetic::power2::pow2;
use vstd::bytes::spec_u64_from_le_bytes;
use crate::bytes::push_bytes;
use crate::crypto::{keccak256, keccak256_digest};
use crate::field::{
    Fe252, fe_add, fe_as_bytes, fe_bytes_spec, fe_eq, fe_mul, fe_pow, fe_sub, fp_mod, stark_prime,
    bit_reversed_position, domain_log, reverse_index, lemma_reverse_low_bits_bound,
};
use vstd::arithmetic::power::pow;
use vstd::arithmetic::div_mod::{lemma_add_mod_noop_right, lemma_mul_mod_noop};

verus! {

/// The smallest `l >= 1` with `2^l >= m`.
pub open spec fn ceil_log2_at_least_one(m: nat, l: nat) -> bool {
    &&& l >= 1
    &&& pow2(l) >= m
    &&& l == 1 || pow2((l - 1) as nat) < m
}

/// The logarithm of the evaluation domain of `2n` points: the smallest
/// `l >= 1` with `2^l >= 2n` (the caller insists that `2n` is then exactly `2^l`).
pub fn fixed_points_log(n: usize) -> (r: usize)
    requires
        2 * n <= pow2((usize::BITS - 1) as nat),
    ensures
        ceil_log2_at_least_one((2 * n) as nat, r as nat),
        r < usize::BITS,
{
    proof {
        vstd::bits::lemma_usize_pow2_no_overflow((usize::BITS - 1) as nat);
    }
    let fixed_points_num = 2 * n;
    let mut l: usize = 1;
    proof {
        vstd::arithmetic::power2::lemma2_to64();
    }
    while (1usize << l) < fixed_points_num
        invariant
            1 <= l < usize::BITS,
            fixed_points_num == 2 * n,
            2 * n <= pow2((usize::BITS - 1) as nat),
            l == 1 || pow2((l - 1) as nat) < fixed_points_num,
        decreases usize::BITS - l,
    {
        proof {
            vstd::bits::lemma_usize_pow2_no_overflow(l as nat);
            vstd::bits::lemma_usize_shl_is_mul(1, l);
            if l + 1 >= usize::BITS {
                assert(pow2(l as nat) < 2 * n);
                assert(l as nat == usize::BITS as nat - 1);
                assert(false);
            }
        }
        l = l + 1;
    }
    proof {
        vstd::bits::lemma_usize_pow2_no_overflow(l as nat);
        vstd::bits::lemma_usize_shl_is_mul(1, l);
    }
    l
}

/// A query position drawn from eight transcript bytes: their little-endian
/// value reduced modulo `2f`, shifted into the upper half `[2f, 4f)`.
pub fn sample_iota(sample: &[u8], fixed_points_num: usize) -> (r: usize)
    requires
        sample@.len() == 8,
        fixed_points_num > 0,
        4 * fixed_points_num <= usize::MAX,
    ensures
        r == spec_u64_from_le_bytes(sample@) as int % (2 * fixed_points_num) + 2 * fixed_points_num,
{
    let v = vstd::bytes::u64_from_le_bytes(sample);
    let f = (2 * fixed_points_num) as u64;
    (v % f + f) as usize
}

/// One level up a Merkle tree: the Keccak-256 hash of each pair of siblings
/// (a trailing odd node is dropped).
pub open spec fn merkle_up(level: Seq<Seq<u8>>) -> Seq<Seq<u8>> {
    Seq::new(level.len() / 2, |j: int| keccak256_digest(level[2 * j] + level[2 * j + 1]))
}

/// The tree level `k` steps above the leaves.
pub open spec fn merkle_level(leaves: Seq<Seq<u8>>, k: nat) -> Seq<Seq<u8>>
    decreases k,
{
    if k == 0 { leaves } else { merkle_up(merkle_level(leaves, (k - 1) as nat)) }
}

/// The first node of the highest non-empty level among the first `k` steps.
pub open spec fn merkle_top(leaves: Seq<Seq<u8>>, k: nat) -> Seq<u8>
    decreases k,
{
    if k == 0 {
        leaves[0]
    } else if merkle_level(leaves, k).len() >= 1 {
        merkle_level(leaves, k)[0]
    } else {
        merkle_top(leaves, (k - 1) as nat)
    }
}

/// Hashes `node` up an authentication path: at each step the Keccak-256 hash
/// of the current node followed by the next path element.
pub open spec fn fold_path(node: Seq<u8>, path: Seq<Seq<u8>>) -> Seq<u8>
    decreases path.len(),
{
    if path.len() == 0 { node } else { fold_path(keccak256_digest(node + path[0]), path.drop_first()) }
}

/// The consistency equation at a query point `x` is
/// `(S(x) - X(x)) * (x^n + t) == T(x) * (x^n - 1)` modulo `p`: the challenge
/// `t` enters the left factor only, and the right factor subtracts the
/// constant one.
pub proof fn lemma_query_holds_equation(s: int, x: int, tt: int, point: int, n: nat, t: int)
    ensures
        query_holds(s, x, tt, point, n, t) <==> fp_mod((s - x) * (pow(point, n) + t)) == fp_mod(tt * (pow(point, n) - 1)),
{
}

/// Hashing up an empty path leaves the node as it is.
pub proof fn lemma_fold_path_empty(node: Seq<u8>)
    ensures
        fold_path(node, Seq::empty()) == node,
{
}

/// Hashing goes up the path from its first element to its last: one more
/// element at the end of the path hashes the result so far with it, on the
/// right.
pub proof fn lemma_fold_path_push(node: Seq<u8>, path: Seq<Seq<u8>>, q: Seq<u8>)
    ensures
        fold_path(node, path.push(q)) == keccak256_digest(fold_path(node, path) + q),
    decreases path.len(),
{
    if path.len() == 0 {
        assert(path.push(q).drop_first() =~= Seq::<Seq<u8>>::empty());
        assert(path.push(q)[0] == q);
        assert(fold_path(keccak256_digest(node + q), Seq::<Seq<u8>>::empty()) == keccak256_digest(node + q));
    } else {
        let h = keccak256_digest(node + path[0]);
        assert(path.push(q)[0] == path[0]);
        assert(path.push(q).drop_first() =~= path.drop_first().push(q));
        lemma_fold_path_push(h, path.drop_first(), q);
        assert(fold_path(node, path.push(q)) == fold_path(h, path.drop_first().push(q)));
        assert(fold_path(node, path) == fold_path(h, path.drop_first()));
    }
}

/// The byte strings of a list of 32-byte hashes.
pub open spec fn hash_views(s: Seq<[u8; 32]>) -> Seq<Seq<u8>> {
    s.map_values(|h: [u8; 32]| h@)
}

/// Keccak-256 of `a` followed by `b`.
fn hash_pair(a: &[u8; 32], b: &[u8; 32]) -> (r: [u8; 32])
    ensures
        r@ == keccak256_digest(a@ + b@),
{
    let mut buf: Vec<u8> = Vec::new();
    push_bytes(&mut buf, a.as_slice());
    push_bytes(&mut buf, b.as_slice());
    assert(buf@ =~= a@ + b@);
    keccak256(buf.as_slice())
}

/// Whether the sender's outputs, hashed into a Merkle tree over `log - 1`
/// levels and then up `path`, give the committed `root`.
pub fn outputs_match_commitment(outputs: &[[u8; 32]], path: &[[u8; 32]], log: usize, root: &[u8; 32]) -> (r: bool)
    requires
        outputs@.len() >= 1,
        log >= 1,
    ensures
        r == (fold_path(merkle_top(hash_views(outputs@), (log - 1) as nat), hash_views(path@)) == root@),
{
    let ghost leaves = hash_views(outputs@);
    let mut h: Vec<[u8; 32]> = Vec::new();
    for i in 0..outputs.len()
        invariant
            h@ == outputs@.take(i as int),
    {
        h.push(outputs[i]);
        assert(h@ =~= outputs@.take(i + 1));
    }
    assert(outputs@.take(outputs@.len() as int) =~= outputs@);
    let mut current_size = outputs.len();
    let hl = h.len();
    for round in 0..log - 1
        invariant
            hl == h@.len(),
            outputs@.len() >= 1,
            h@.len() == outputs@.len(),
            leaves == hash_views(outputs@),
            current_size <= h@.len(),
            current_size == merkle_level(leaves, round as nat).len(),
            forall|j: int| 0 <= j < current_size ==> (#[trigger] h@[j])@ == merkle_level(leaves, round as nat)[j],
            h@[0]@ == merkle_top(leaves, round as nat),
    {
        let ghost prev = merkle_level(leaves, round as nat);
        current_size = current_size / 2;
        let mut next: Vec<[u8; 32]> = Vec::new();
        for j in 0..current_size
            invariant
                hl == h@.len(),
                current_size == prev.len() / 2,
                prev.len() <= h@.len(),
                forall|jj: int| 0 <= jj < prev.len() ==> (#[trigger] h@[jj])@ == prev[jj],
                next@.len() == j,
                forall|jj: int| 0 <= jj < j ==> (#[trigger] next@[jj])@ == merkle_up(prev)[jj],
        {
            let x = hash_pair(&h[2 * j], &h[2 * j + 1]);
            next.push(x);
        }
        let ghost before = h@;
        for j in 0..current_size
            invariant
                h@.len() == before.len(),
                current_size <= before.len(),
                next@.len() == current_size,
                forall|jj: int| 0 <= jj < j ==> h@[jj] == next@[jj],
                forall|jj: int| j <= jj < before.len() ==> h@[jj] == before[jj],
        {
            h.set(j, next[j]);
        }
        proof {
            assert(merkle_level(leaves, (round + 1) as nat) == merkle_up(prev));
            if current_size >= 1 {
                assert(h@[0] == next@[0]);
            } else {
                assert(h@[0] == before[0]);
            }
        }
    }
    let mut node = h[0];
    proof {
        assert(hash_views(path@).skip(0) =~= hash_views(path@));
    }
    for i in 0..path.len()
        invariant
            fold_path(node@, hash_views(path@).skip(i as int))
                == fold_path(merkle_top(leaves, (log - 1) as nat), hash_views(path@)),
    {
        proof {
            assert(hash_views(path@).skip(i as int)[0] == path@[i as int]@);
            assert(hash_views(path@).skip(i as int).drop_first() =~= hash_views(path@).skip(i + 1));
        }
        node = hash_pair(&node, &path[i]);
    }
    proof {
        assert(hash_views(path@).skip(path@.len() as int) =~= Seq::<Seq<u8>>::empty());
        assert(node@ == fold_path(merkle_top(leaves, (log - 1) as nat), hash_views(path@)));
    }
    let mut k: usize = 0;
    while k < 32
        invariant
            k <= 32,
            node@ == fold_path(merkle_top(hash_views(outputs@), (log - 1) as nat), hash_views(path@)),
            forall|j: int| 0 <= j < k ==> node@[j] == root@[j],
        decreases 32 - k,
    {
        if node[k] != root[k] {
            assert(node@[k as int] != root@[k as int]);
            return false;
        }
        k = k + 1;
    }
    assert(node@ =~= root@);
    true
}

/// For each of the receiver's outputs, whether it is among the sender's.
pub fn intersection_flags(receiver_outputs: &[[u8; 32]], sender_outputs: &[[u8; 32]]) -> (r: Vec<bool>)
    ensures
        r@.len() == receiver_outputs@.len(),
        forall|i: int| 0 <= i < r@.len() ==> #[trigger] r@[i] == sender_outputs@.contains(receiver_outputs@[i]),
{
    let mut r: Vec<bool> = Vec::new();
    for i in 0..receiver_outputs.len()
        invariant
            r@.len() == i,
            forall|ii: int| 0 <= ii < i ==> #[trigger] r@[ii] == sender_outputs@.contains(receiver_outputs@[ii]),
    {
        let mut found = false;
        for j in 0..sender_outputs.len()
            invariant
                i < receiver_outputs@.len(),
                found == exists|jj: int| 0 <= jj < j && sender_outputs@[jj] == receiver_outputs@[i as int],
        {
            if !found && hashes_eq(&sender_outputs[j], &receiver_outputs[i]) {
                found = true;
            }
        }
        r.push(found);
    }
    r
}

/// Whether two 32-byte hashes are equal.
fn hashes_eq(a: &[u8; 32], b: &[u8; 32]) -> (r: bool)
    ensures
        r == (*a == *b),
{
    for i in 0..32usize
        invariant
            forall|j: int| 0 <= j < i ==> a@[j] == b@[j],
    {
        if a[i] != b[i] {
            assert(a@[i as int] != b@[i as int]);
            return false;
        }
    }
    assert(a@ =~= b@);
    assert(*a =~= *b);
    true
}

/// How many flags are set.
pub fn count_true(flags: &[bool]) -> (r: usize)
    ensures
        r == flags@.filter(|b: bool| b).len(),
{
    let mut c: usize = 0;
    for i in 0..flags.len()
        invariant
            c == flags@.take(i as int).filter(|b: bool| b).len(),
            c <= i,
    {
        proof {
            reveal_with_fuel(Seq::<_>::filter, 1);
            assert(flags@.take(i + 1).drop_last() =~= flags@.take(i as int));
        }
        if flags[i] {
            c = c + 1;
        }
    }
    assert(flags@.take(flags@.len() as int) =~= flags@);
    c
}

/// How many positions each low-degree and consistency test queries.
pub const NUM_QUERIES: usize = 128;

/// The OPRF output for an input of value `v` whose decoded value is `o`: the
/// Keccak-256 hash of the two elements' bytes.
pub open spec fn fp_output_spec(v: int, o: int) -> Seq<u8> {
    keccak256_digest(fe_bytes_spec(v) + fe_bytes_spec(o))
}

/// The output of the `i`-th input once the coin `w` is added to its decoded value.
pub open spec fn receiver_output_spec(values: Seq<Fe252>, decoded: Seq<Fe252>, w: Fe252, i: int) -> Seq<u8> {
    fp_output_spec(values[i].value(), fp_mod(decoded[i].value() + w.value()))
}

/// The consistency equation at one query point `x`:
/// `(S(x) - X(x)) * (x^n + t) == T(x) * (x^n - 1)` modulo `p`.
pub open spec fn query_holds(s: int, x: int, tt: int, point: int, n: nat, t: int) -> bool {
    fp_mod((s - x) * (pow(point, n) + t)) == fp_mod(tt * (pow(point, n) - 1))
}

/// The output hash of one input given its decoded value.
pub fn fp_output_hash(v: &Fe252, o: &Fe252) -> (r: [u8; 32])
    ensures
        r@ == fp_output_spec(v.value(), o.value()),
{
    let mut buf = fe_as_bytes(v);
    let ob = fe_as_bytes(o);
    push_bytes(&mut buf, ob.as_slice());
    keccak256(buf.as_slice())
}

/// The common coin: the sum of the two parties' shares.
pub fn combine_coin(ws: &Fe252, wr: &Fe252) -> (r: Fe252)
    ensures
        r.wf(),
        r.value() == fp_mod(ws.value() + wr.value()),
{
    fe_add(ws, wr)
}

/// Whether the consistency equation holds at one query.
pub fn query_equation_holds(s: &Fe252, x: &Fe252, tt: &Fe252, point: &Fe252, n: usize, t: &Fe252) -> (r: bool)
    ensures
        r == query_holds(s.value(), x.value(), tt.value(), point.value(), n as nat, t.value()),
        r == (fp_mod((s.value() - x.value()) * (pow(point.value(), n as nat) + t.value()))
            == fp_mod(tt.value() * (pow(point.value(), n as nat) - 1))),
{
    let pn = fe_pow(point, n);
    let d = fe_sub(s, x);
    let l = fe_add(&pn, t);
    let lhs = fe_mul(&d, &l);
    let one = Fe252::one();
    let m = fe_sub(&pn, &one);
    let rhs = fe_mul(tt, &m);
    proof {
        let p = stark_prime() as int;
        let pw = pow(point.value(), n as nat);
        let c = pw - 1;
        lemma_add_mod_noop_right(t.value(), pw, p);
        lemma_mul_mod_noop(s.value() - x.value(), pw + t.value(), p);
        vstd::arithmetic::div_mod::lemma_small_mod(1, p as nat);
        vstd::arithmetic::div_mod::lemma_sub_mod_noop(pw, 1, p);
        vstd::arithmetic::div_mod::lemma_mul_mod_noop_right(tt.value(), c, p);
    }
    fe_eq(&lhs, &rhs)
}

/// The receiver's side of the OPRF over the STARK prime field, without the
/// channel, the OKVS, the VOLE generator and the polynomial commitments: the
/// sizes, the encoding of the inputs and the committed Merkle roots.
pub struct OprfReceiver {
    n: usize,
    committed: bool,
    fixed_points_num: usize,
    log_fixed_points_num: usize,
    encoding: Vec<Fe252>,
    x_new_root: [u8; 32],
    s_new_root: [u8; 32],
}

impl OprfReceiver {
    /// The set size.
    pub closed spec fn n_view(&self) -> nat {
        self.n as nat
    }

    /// Whether the protocol runs with polynomial commitments.
    pub closed spec fn committed_view(&self) -> bool {
        self.committed
    }

    /// The size `2n` of the evaluation domain.
    pub closed spec fn fixed_points_num_view(&self) -> nat {
        self.fixed_points_num as nat
    }

    /// Its logarithm.
    pub closed spec fn log_view(&self) -> nat {
        self.log_fixed_points_num as nat
    }

    /// The encoding `P` of the inputs.
    pub closed spec fn encoding_view(&self) -> Seq<Fe252> {
        self.encoding@
    }

    /// The sender's committed Merkle root of `X_new`.
    pub closed spec fn x_root_view(&self) -> Seq<u8> {
        self.x_new_root@
    }

    /// The sender's committed Merkle root of `S_new`.
    pub closed spec fn s_root_view(&self) -> Seq<u8> {
        self.s_new_root@
    }

    /// A receiver for `n` inputs, `2n` being a power of two. Its encoding is
    /// the single element zero and its roots are zero until set.
    pub fn new(n: usize, committed: bool) -> (r: Self)
        requires
            n >= 1,
            exists|l: nat| 1 <= l < usize::BITS && pow2(l) == 2 * n,
        ensures
            r.n_view() == n,
            r.committed_view() == committed,
            r.fixed_points_num_view() == 2 * n,
            pow2(r.log_view()) == 2 * n,
            r.log_view() >= 1,
            r.encoding_view().len() == 1,
            r.encoding_view()[0].value() == 0,
            r.x_root_view() == Seq::new(32, |i: int| 0u8),
            r.s_root_view() == Seq::new(32, |i: int| 0u8),
    {
        let ghost l = choose|l: nat| 1 <= l < usize::BITS && pow2(l) == 2 * n;
        proof {
            vstd::bits::lemma_usize_pow2_no_overflow(l);
            if l < usize::BITS - 1 {
                vstd::arithmetic::power2::lemma_pow2_strictly_increases(l, (usize::BITS - 1) as nat);
            }
        }
        let log = fixed_points_log(n);
        proof {
            if log > l {
                if l < log - 1 {
                    vstd::arithmetic::power2::lemma_pow2_strictly_increases(l, (log - 1) as nat);
                }
            } else if log < l {
                vstd::arithmetic::power2::lemma_pow2_strictly_increases(log as nat, l);
            }
        }
        let x_new_root = [0u8; 32];
        let s_new_root = [0u8; 32];
        assert(x_new_root@ =~= Seq::new(32, |i: int| 0u8));
        assert(s_new_root@ =~= Seq::new(32, |i: int| 0u8));
        let encoding = vec![Fe252::zero()];
        OprfReceiver {
            n,
            committed,
            fixed_points_num: 2 * n,
            log_fixed_points_num: log,
            encoding,
            x_new_root,
            s_new_root,
        }
    }

    /// The size `2n` of the evaluation domain.
    pub fn fixed_points_num(&self) -> (r: usize)
        ensures
            r == self.fixed_points_num_view(),
    {
        self.fixed_points_num
    }

    /// The logarithm of the evaluation domain's size.
    pub fn log_fixed_points_num(&self) -> (r: usize)
        ensures
            r == self.log_view(),
    {
        self.log_fixed_points_num
    }

    /// The set size.
    pub fn n(&self) -> (r: usize)
        ensures
            r == self.n_view(),
    {
        self.n
    }

    /// The recorded Merkle root of `X_new`.
    pub fn x_new_root(&self) -> (r: [u8; 32])
        ensures
            r@ == self.x_root_view(),
    {
        self.x_new_root
    }

    /// The recorded Merkle root of `S_new`.
    pub fn s_new_root(&self) -> (r: [u8; 32])
        ensures
            r@ == self.s_root_view(),
    {
        self.s_new_root
    }

    /// Whether the protocol runs with polynomial commitments.
    pub fn committed(&self) -> (r: bool)
        ensures
            r == self.committed_view(),
    {
        self.committed
    }

    /// Installs the OKVS encoding `P` of the inputs.
    pub fn set_encoding(&mut self, encoding: Vec<Fe252>)
        ensures
            final(self).encoding_view() == encoding@,
            final(self).n_view() == old(self).n_view(),
            final(self).committed_view() == old(self).committed_view(),
            final(self).fixed_points_num_view() == old(self).fixed_points_num_view(),
            final(self).log_view() == old(self).log_view(),
            final(self).x_root_view() == old(self).x_root_view(),
            final(self).s_root_view() == old(self).s_root_view(),
    {
        self.encoding = encoding;
    }

    /// Records the sender's Merkle root of `X_new`, when commitments are on.
    #[allow(non_snake_case)]
    pub fn receive_X_commit(&mut self, root: [u8; 32])
        ensures
            final(self).x_root_view() == if old(self).committed_view() { root@ } else { old(self).x_root_view() },
            final(self).s_root_view() == old(self).s_root_view(),
            final(self).encoding_view() == old(self).encoding_view(),
            final(self).n_view() == old(self).n_view(),
            final(self).committed_view() == old(self).committed_view(),
            final(self).fixed_points_num_view() == old(self).fixed_points_num_view(),
            final(self).log_view() == old(self).log_view(),
    {
        if self.committed {
            self.x_new_root = root;
        }
    }

    /// Records the sender's Merkle root of `S_new`, when commitments are on.
    #[allow(non_snake_case)]
    pub fn receive_S_commit(&mut self, root: [u8; 32])
        ensures
            final(self).s_root_view() == if old(self).committed_view() { root@ } else { old(self).s_root_view() },
            final(self).x_root_view() == old(self).x_root_view(),
            final(self).encoding_view() == old(self).encoding_view(),
            final(self).n_view() == old(self).n_view(),
            final(self).committed_view() == old(self).committed_view(),
            final(self).fixed_points_num_view() == old(self).fixed_points_num_view(),
            final(self).log_view() == old(self).log_view(),
    {
        if self.committed {
            self.s_new_root = root;
        }
    }

    /// The masked encoding `A = P + a` over the evaluation domain, `a` being
    /// the receiver's VOLE share.
    pub fn masked_encoding(&self, a: &[Fe252]) -> (r: Vec<Fe252>)
        requires
            self.encoding_view().len() >= self.fixed_points_num_view(),
            a@.len() >= self.fixed_points_num_view(),
        ensures
            r@.len() == self.fixed_points_num_view(),
            forall|i: int| 0 <= i < r@.len() ==> (#[trigger] r@[i]).wf()
                && r@[i].value() == fp_mod(self.encoding_view()[i].value() + a@[i].value()),
    {
        let mut r: Vec<Fe252> = Vec::new();
        for i in 0..self.fixed_points_num
            invariant
                self.encoding@.len() >= self.fixed_points_num,
                a@.len() >= self.fixed_points_num,
                r@.len() == i,
                forall|j: int| 0 <= j < i ==> (#[trigger] r@[j]).wf()
                    && r@[j].value() == fp_mod(self.encoding@[j].value() + a@[j].value()),
        {
            r.push(fe_add(&self.encoding[i], &a[i]));
        }
        r
    }

    /// The receiver's outputs: for each of the `n` inputs, the output hash of
    /// the input and its decoded value plus the coin `w`.
    pub fn receiver_outputs(&self, values: &[Fe252], decoded: &[Fe252], w: &Fe252) -> (r: Vec<[u8; 32]>)
        requires
            values@.len() >= self.n_view(),
            decoded@.len() >= self.n_view(),
        ensures
            r@.len() == self.n_view(),
            forall|i: int| 0 <= i < r@.len() ==> (#[trigger] r@[i])@ == receiver_output_spec(values@, decoded@, *w, i),
    {
        let mut r: Vec<[u8; 32]> = Vec::new();
        for i in 0..self.n
            invariant
                values@.len() >= self.n,
                decoded@.len() >= self.n,
                r@.len() == i,
                forall|j: int| 0 <= j < i ==> (#[trigger] r@[j])@ == receiver_output_spec(values@, decoded@, *w, j),
        {
            let o = fe_add(&decoded[i], w);
            r.push(fp_output_hash(&values[i], &o));
        }
        r
    }

    /// The first query at which the consistency equation
    /// `(S(x) - X(x)) * (x^n + t) == T(x) * (x^n - 1)` fails, if any.
    pub fn output_consistency_failure(
        &self,
        s_evals: &[Fe252],
        x_evals: &[Fe252],
        t_evals: &[Fe252],
        points: &[Fe252],
        t: &Fe252,
    ) -> (r: Option<usize>)
        requires
            s_evals@.len() >= NUM_QUERIES,
            x_evals@.len() >= NUM_QUERIES,
            t_evals@.len() >= NUM_QUERIES,
            points@.len() >= NUM_QUERIES,
        ensures
            match r {
                Some(i) => i < NUM_QUERIES
                    && !query_holds(s_evals@[i as int].value(), x_evals@[i as int].value(),
                        t_evals@[i as int].value(), points@[i as int].value(), self.n_view(), t.value())
                    && forall|j: int| 0 <= j < i ==> #[trigger] query_holds(s_evals@[j].value(),
                        x_evals@[j].value(), t_evals@[j].value(), points@[j].value(), self.n_view(), t.value()),
                None => forall|j: int| 0 <= j < NUM_QUERIES ==> #[trigger] query_holds(s_evals@[j].value(),
                    x_evals@[j].value(), t_evals@[j].value(), points@[j].value(), self.n_view(), t.value()),
            },
    {
        for i in 0..NUM_QUERIES
            invariant
                s_evals@.len() >= NUM_QUERIES,
                x_evals@.len() >= NUM_QUERIES,
                t_evals@.len() >= NUM_QUERIES,
                points@.len() >= NUM_QUERIES,
                forall|j: int| 0 <= j < i ==> #[trigger] query_holds(s_evals@[j].value(),
                    x_evals@[j].value(), t_evals@[j].value(), points@[j].value(), self.n as nat, t.value()),
        {
            if !query_equation_holds(&s_evals[i], &x_evals[i], &t_evals[i], &points[i], self.n, t) {
                return Some(i);
            }
        }
        None
    }

    /// Whether the sender's outputs match its commitment to `S_new`: with
    /// commitments on, their Merkle tree over `log - 1` levels, hashed up the
    /// path, must give the recorded root; without, anything is accepted.
    pub fn check_sender_outputs(&self, outputs: &[[u8; 32]], path: &[[u8; 32]]) -> (r: bool)
        requires
            self.committed_view() ==> outputs@.len() == self.n_view(),
            self.n_view() >= 1,
            self.log_view() >= 1,
        ensures
            r == (!self.committed_view() || fold_path(
                merkle_top(hash_views(outputs@), (self.log_view() - 1) as nat),
                hash_views(path@),
            ) == self.s_root_view()),
    {
        if !self.committed {
            return true;
        }
        outputs_match_commitment(outputs, path, self.log_fixed_points_num, &self.s_new_root)
    }
}

/// The evaluation points of the queries: for each query position `iota`, the
/// root of unity at the bit-reversed position `iota` in a domain of `2^k`.
pub fn evaluation_points(roots: &[Fe252], iotas: &[usize]) -> (r: Vec<Fe252>)
    requires
        exists|k: nat| k < usize::BITS && pow2(k) == roots@.len(),
        roots@.len() == 1 ==> forall|q: int| 0 <= q < iotas@.len() ==> #[trigger] iotas@[q] == 0,
    ensures
        r@.len() == iotas@.len(),
        forall|q: int| 0 <= q < r@.len() ==>
            #[trigger] r@[q] == roots@[bit_reversed_position(iotas@[q] as nat, roots@.len()) as int],
{
    let ghost k = choose|k: nat| k < usize::BITS && pow2(k) == roots@.len();
    proof {
        let kk = domain_log(roots@.len());
        assert(pow2(kk) == roots@.len());
        if kk < k {
            vstd::arithmetic::power2::lemma_pow2_strictly_increases(kk, k);
        } else if kk > k {
            vstd::arithmetic::power2::lemma_pow2_strictly_increases(k, kk);
        }
    }
    let size = roots.len() as u64;
    let mut r: Vec<Fe252> = Vec::new();
    for q in 0..iotas.len()
        invariant
            k < usize::BITS,
            pow2(k) == roots@.len(),
            k == domain_log(roots@.len()),
            size == roots@.len(),
            roots@.len() == 1 ==> forall|qq: int| 0 <= qq < iotas@.len() ==> #[trigger] iotas@[qq] == 0,
            r@.len() == q,
            forall|qq: int| 0 <= qq < q ==>
                #[trigger] r@[qq] == roots@[bit_reversed_position(iotas@[qq] as nat, roots@.len()) as int],
    {
        let j = reverse_index(iotas[q], size);
        proof {
            lemma_reverse_low_bits_bound(iotas@[q as int] as nat, k);
            if roots@.len() == 1 {
                assert(iotas@[q as int] == 0);
            }
        }
        r.push(roots[j]);
    }
    r
}

} // verus!
