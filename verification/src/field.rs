//! Elements of the STARK prime field `p = 2^251 + 17 * 2^192 + 1`, held by
//! their canonical representative, and the arithmetic on them, which the
//! `lambdaworks-math` field implementation performs.
use vstd::prelude::*;
use vstd::arithmetic::power::pow;
use vstd::arithmetic::power2::pow2;
use vstd::arithmetic::div_mod::{lemma_add_mod_noop, lemma_fundamental_div_mod_converse};
use lambdaworks_math::field::element::FieldElement;
use lambdaworks_math::field::fields::fft_friendly::stark_252_prime_field::Stark252PrimeField;
use lambdaworks_math::traits::AsBytes;
use lambdaworks_math::unsigned_integer::element::UnsignedInteger;

verus! {

/// The field modulus.
pub open spec fn stark_prime() -> nat {
    0x800000000000011000000000000000000000000000000000000000000000001nat
}

/// Reduction modulo the field prime.
pub open spec fn fp_mod(x: int) -> int {
    x % (stark_prime() as int)
}

/// The radix of one 64-bit limb.
pub open spec fn limb_radix() -> int {
    0x1_0000_0000_0000_0000int
}

/// The integer held by four 64-bit limbs, most significant first.
pub open spec fn limbs_value(l: [u64; 4]) -> nat {
    (((l[0] as int * limb_radix() + l[1] as int) * limb_radix() + l[2] as int) * limb_radix()
        + l[3] as int) as nat
}

/// The `n` big-endian bytes of `v` (its lowest `8n` bits).
pub open spec fn be_bytes(v: nat, n: nat) -> Seq<u8> {
    Seq::new(n, |i: int| ((v / pow(256, (n - 1 - i) as nat) as nat) % 256) as u8)
}

/// The byte string that the field implementation hashes for an element of
/// value `v`: the 32 big-endian bytes of its Montgomery form `v * 2^256 mod p`.
pub open spec fn fe_bytes_spec(v: int) -> Seq<u8> {
    be_bytes(fp_mod(v * pow(2, 256)) as nat, 32)
}

/// A field element, as the four big-endian 64-bit limbs of an integer.
#[derive(Clone, Copy, Debug)]
pub struct Fe252 {
    pub limbs: [u64; 4],
}

impl Fe252 {
    /// The integer the limbs hold.
    pub open spec fn value(self) -> int {
        limbs_value(self.limbs) as int
    }

    /// The limbs hold a canonical representative, below the modulus.
    pub open spec fn wf(self) -> bool {
        self.value() < stark_prime()
    }

    /// The element zero.
    pub fn zero() -> (r: Fe252)
        ensures
            r.wf(),
            r.value() == 0,
    {
        Fe252 { limbs: [0, 0, 0, 0] }
    }

    /// The element one.
    pub fn one() -> (r: Fe252)
        ensures
            r.wf(),
            r.value() == 1,
    {
        Fe252 { limbs: [0, 0, 0, 1] }
    }
}

/// The values of a sequence of field elements.
pub open spec fn fe_values(s: Seq<Fe252>) -> Seq<int> {
    s.map_values(|e: Fe252| e.value())
}

/// Builds `FieldElement::<Stark252PrimeField>::new` from the limbs and reads
/// its `representative()`. Claimed: the result is the canonical representative
/// of the limbs' integer modulo `p`.
#[verifier::external_body]
pub(crate) fn fe_reduce(limbs: [u64; 4]) -> (r: Fe252)
    ensures
        r.wf(),
        r.value() == fp_mod(limbs_value(limbs) as int),
{
    Fe252 { limbs: (FieldElement::<Stark252PrimeField>::new(UnsignedInteger { limbs: limbs })).representative().limbs }
}

/// Field addition (`+` on `FieldElement<Stark252PrimeField>`). Claimed: the
/// canonical representative of the sum of the two integers modulo `p`.
#[verifier::external_body]
pub(crate) fn fe_add(a: &Fe252, b: &Fe252) -> (r: Fe252)
    ensures
        r.wf(),
        r.value() == fp_mod(a.value() + b.value()),
{
    let x = FieldElement::<Stark252PrimeField>::new(UnsignedInteger { limbs: a.limbs });
    let y = FieldElement::<Stark252PrimeField>::new(UnsignedInteger { limbs: b.limbs });
    Fe252 { limbs: (x + y).representative().limbs }
}

/// Field subtraction (`-` on `FieldElement<Stark252PrimeField>`). Claimed: the
/// canonical representative of the difference modulo `p`.
#[verifier::external_body]
pub(crate) fn fe_sub(a: &Fe252, b: &Fe252) -> (r: Fe252)
    ensures
        r.wf(),
        r.value() == fp_mod(a.value() - b.value()),
{
    let x = FieldElement::<Stark252PrimeField>::new(UnsignedInteger { limbs: a.limbs });
    let y = FieldElement::<Stark252PrimeField>::new(UnsignedInteger { limbs: b.limbs });
    Fe252 { limbs: (x - y).representative().limbs }
}

/// Field multiplication (`*` on `FieldElement<Stark252PrimeField>`). Claimed:
/// the canonical representative of the product modulo `p`.
#[verifier::external_body]
pub(crate) fn fe_mul(a: &Fe252, b: &Fe252) -> (r: Fe252)
    ensures
        r.wf(),
        r.value() == fp_mod(a.value() * b.value()),
{
    let x = FieldElement::<Stark252PrimeField>::new(UnsignedInteger { limbs: a.limbs });
    let y = FieldElement::<Stark252PrimeField>::new(UnsignedInteger { limbs: b.limbs });
    Fe252 { limbs: (x * y).representative().limbs }
}

/// Exponentiation (`FieldElement::pow` with a `usize` exponent). Claimed: the
/// canonical representative of `a^e` modulo `p` (with `a^0 = 1`).
#[verifier::external_body]
pub(crate) fn fe_pow(a: &Fe252, e: usize) -> (r: Fe252)
    ensures
        r.wf(),
        r.value() == fp_mod(pow(a.value(), e as nat)),
{
    let x = FieldElement::<Stark252PrimeField>::new(UnsignedInteger { limbs: a.limbs });
    Fe252 { limbs: x.pow(e).representative().limbs }
}

/// The bytes `AsBytes::as_bytes` gives for the element, which are the
/// big-endian bytes of its stored Montgomery form. Claimed: those 32 bytes,
/// as `fe_bytes_spec` writes them.
#[verifier::external_body]
pub(crate) fn fe_as_bytes(a: &Fe252) -> (r: Vec<u8>)
    ensures
        r@ == fe_bytes_spec(a.value()),
{
    FieldElement::<Stark252PrimeField>::new(UnsignedInteger { limbs: a.limbs }).as_bytes()
}

/// Four limbs from `rand::random`. Nothing is claimed of them.
#[verifier::external_body]
pub(crate) fn random_limbs() -> (r: [u64; 4]) {
    rand::random()
}

/// Two limb arrays that hold the same integer hold the same limbs.
pub proof fn lemma_limbs_value_injective(l: [u64; 4], m: [u64; 4])
    requires
        limbs_value(l) == limbs_value(m),
    ensures
        l[0] == m[0],
        l[1] == m[1],
        l[2] == m[2],
        l[3] == m[3],
{
    let b = limb_radix();
    let hl = (l[0] as int * b + l[1] as int) * b + l[2] as int;
    let hm = (m[0] as int * b + m[1] as int) * b + m[2] as int;
    let v = limbs_value(l) as int;
    lemma_fundamental_div_mod_converse(v, b, hl, l[3] as int);
    lemma_fundamental_div_mod_converse(v, b, hm, m[3] as int);
    let gl = l[0] as int * b + l[1] as int;
    let gm = m[0] as int * b + m[1] as int;
    lemma_fundamental_div_mod_converse(hl, b, gl, l[2] as int);
    lemma_fundamental_div_mod_converse(hl, b, gm, m[2] as int);
    lemma_fundamental_div_mod_converse(gl, b, l[0] as int, l[1] as int);
    lemma_fundamental_div_mod_converse(gl, b, m[0] as int, m[1] as int);
}

/// Whether two elements hold the same integer.
pub fn fe_eq(a: &Fe252, b: &Fe252) -> (r: bool)
    ensures
        r == (a.value() == b.value()),
{
    proof {
        if a.value() == b.value() {
            lemma_limbs_value_injective(a.limbs, b.limbs);
        }
    }
    a.limbs[0] == b.limbs[0] && a.limbs[1] == b.limbs[1] && a.limbs[2] == b.limbs[2]
        && a.limbs[3] == b.limbs[3]
}

/// A uniformly drawn field element: random limbs, reduced.
pub fn rand_field_element() -> (r: Fe252)
    ensures
        r.wf(),
{
    fe_reduce(random_limbs())
}

/// The sum of the products of the first `n` pairs of values.
pub open spec fn inner_product_spec(a: Seq<int>, b: Seq<int>, n: nat) -> int
    decreases n,
{
    if n == 0 {
        0
    } else {
        inner_product_spec(a, b, (n - 1) as nat) + a[n - 1] * b[n - 1]
    }
}

/// The inner product of two vectors of field elements over their common
/// length, reduced modulo `p`.
pub fn vector_inner_product_mod(vec1: &[Fe252], vec2: &[Fe252]) -> (r: Fe252)
    ensures
        r.wf(),
        r.value() == fp_mod(
            inner_product_spec(
                fe_values(vec1@),
                fe_values(vec2@),
                if vec1@.len() <= vec2@.len() { vec1@.len() } else { vec2@.len() },
            ),
        ),
{
    let n = if vec1.len() <= vec2.len() { vec1.len() } else { vec2.len() };
    let mut acc = Fe252::zero();
    for i in 0..n
        invariant
            n <= vec1@.len(),
            n <= vec2@.len(),
            acc.wf(),
            acc.value() == fp_mod(inner_product_spec(fe_values(vec1@), fe_values(vec2@), i as nat)),
    {
        let p = fe_mul(&vec1[i], &vec2[i]);
        let ghost s = inner_product_spec(fe_values(vec1@), fe_values(vec2@), i as nat);
        let ghost xy: int = vec1@[i as int].value() * vec2@[i as int].value();
        acc = fe_add(&acc, &p);
        proof {
            lemma_add_mod_noop(s, xy, stark_prime() as int);
            assert(fe_values(vec1@)[i as int] == vec1@[i as int].value());
            assert(fe_values(vec2@)[i as int] == vec2@[i as int].value());
        }
    }
    acc
}

/// The integer whose `k` low bits are those of `i` in reverse order.
pub open spec fn reverse_low_bits(i: nat, k: nat) -> nat
    decreases k,
{
    if k == 0 {
        0
    } else {
        (i % 2) * pow2((k - 1) as nat) + reverse_low_bits(i / 2, (k - 1) as nat)
    }
}

/// Reversing `k` bits gives a number below `2^k`.
pub proof fn lemma_reverse_low_bits_bound(i: nat, k: nat)
    ensures
        reverse_low_bits(i, k) < pow2(k),
    decreases k,
{
    vstd::arithmetic::power2::lemma_pow2_pos(k);
    if k > 0 {
        lemma_reverse_low_bits_bound(i / 2, (k - 1) as nat);
        vstd::arithmetic::power2::lemma_pow2_unfold(k);
        assert((i % 2) * pow2((k - 1) as nat) <= pow2((k - 1) as nat)) by (nonlinear_arith)
            requires
                i % 2 <= 1,
                pow2((k - 1) as nat) > 0,
        ;
    }
}

/// The exponent `k` of a size `2^k`.
pub open spec fn domain_log(size: nat) -> nat {
    choose|k: nat| pow2(k) == size
}

/// The position that `reverse_index` gives for `i` in a domain of `size`
/// points: `i` itself when the size is one, else the low `log2(size)` bits of
/// `i` reversed.
pub open spec fn bit_reversed_position(i: nat, size: nat) -> nat {
    if size == 1 { i } else { reverse_low_bits(i, domain_log(size)) }
}

/// `bit_reversing::reverse_index(i, size)` of `lambdaworks-math`, for a size
/// `2^k` with `k < usize::BITS`: `i` when the size is one, else
/// `i.reverse_bits() >> (usize::BITS - k)`. Claimed: `i` for size one, else
/// the `k` low bits of `i` in reverse order.
#[verifier::external_body]
pub(crate) fn reverse_index(i: usize, size: u64) -> (r: usize)
    requires
        exists|k: nat| k < usize::BITS && pow2(k) == size,
    ensures
        r == bit_reversed_position(i as nat, size as nat),
{
    lambdaworks_math::fft::cpu::bit_reversing::reverse_index(i, size)
}

} // verus!
