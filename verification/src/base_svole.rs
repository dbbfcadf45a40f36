//! The consistency check of the base subfield VOLE, over the STARK prime field
//! and over GF(2^128). The correlated shares come from the COPE extension; what
//! is decided here is what each party sends for the check and whether the
//! sender accepts.
use vstd::prelude::*;
use vstd::arithmetic::div_mod::{lemma_add_mod_noop, lemma_add_mod_noop_right, lemma_mul_mod_noop_left};
use crate::field::{Fe252, fe_add, fe_eq, fe_mul, fe_values, fp_mod, inner_product_spec, stark_prime, vector_inner_product_mod};

verus! {

/// The length over which two vectors are paired.
pub open spec fn common_len(a: Seq<Fe252>, b: Seq<Fe252>) -> nat {
    if a.len() <= b.len() { a.len() } else { b.len() }
}

/// The inner product of two vectors over their common length, as an integer.
pub open spec fn ip(a: Seq<Fe252>, b: Seq<Fe252>) -> int {
    inner_product_spec(fe_values(a), fe_values(b), common_len(a, b))
}

/// The party of the base sVOLE over the STARK prime field: the sender holds
/// the global key `delta`.
pub struct BaseSvole {
    party: u8,
    delta: Option<Fe252>,
}

impl BaseSvole {
    /// 0 for the sender, 1 for the receiver.
    pub closed spec fn party_view(&self) -> u8 {
        self.party
    }

    /// The sender's global key.
    pub closed spec fn delta_view(&self) -> Option<Fe252> {
        self.delta
    }

    /// The sender, holding the global key `delta`.
    pub fn new_sender(delta: Fe252) -> (r: Self)
        ensures
            r.party_view() == 0,
            r.delta_view() == Some(delta),
    {
        BaseSvole { party: 0, delta: Some(delta) }
    }

    /// The receiver, who holds no key.
    pub fn new_receiver() -> (r: Self)
        ensures
            r.party_view() == 1,
            r.delta_view() == None::<Fe252>,
    {
        BaseSvole { party: 1, delta: None }
    }

    /// 0 for the sender, 1 for the receiver.
    pub fn party(&self) -> (r: u8)
        ensures
            r == self.party_view(),
    {
        self.party
    }

    /// The sender's global key, if this is the sender.
    pub fn delta(&self) -> (r: Option<Fe252>)
        ensures
            r == self.delta_view(),
    {
        self.delta
    }

    /// The sender's side of the check: with `y = <share, chi> + b`, it accepts
    /// the receiver's pair `(xz0, xz1)` when `y + xz1 * delta == xz0`.
    pub fn sender_check(&self, share: &[Fe252], chi: &[Fe252], b: &Fe252, xz0: &Fe252, xz1: &Fe252) -> (r: bool)
        requires
            self.delta_view() is Some,
        ensures
            r == (fp_mod(ip(share@, chi@) + b.value() + xz1.value() * self.delta_view()->0.value())
                == xz0.value()),
    {
        let delta = match &self.delta {
            Some(d) => *d,
            None => Fe252::zero(),
        };
        let s = vector_inner_product_mod(share, chi);
        let y = fe_add(&s, b);
        let t = fe_mul(xz1, &delta);
        let y_check = fe_add(&y, &t);
        proof {
            let p = stark_prime() as int;
            let si = ip(share@, chi@);
            lemma_add_mod_noop_right(b.value(), si, p);
            lemma_add_mod_noop(si + b.value(), xz1.value() * delta.value(), p);
        }
        fe_eq(&y_check, xz0)
    }

    /// The receiver's side of the check: `(<share, chi> + c, <x, chi> + a)`.
    pub fn receiver_check(&self, share: &[Fe252], x: &[Fe252], chi: &[Fe252], c: &Fe252, a: &Fe252) -> (r: (Fe252, Fe252))
        ensures
            r.0.wf(),
            r.1.wf(),
            r.0.value() == fp_mod(ip(share@, chi@) + c.value()),
            r.1.value() == fp_mod(ip(x@, chi@) + a.value()),
    {
        let s = vector_inner_product_mod(share, chi);
        let xz_0 = fe_add(&s, c);
        let t = vector_inner_product_mod(x, chi);
        let xz_1 = fe_add(&t, a);
        proof {
            let p = stark_prime() as int;
            lemma_add_mod_noop_right(c.value(), ip(share@, chi@), p);
            lemma_add_mod_noop_right(a.value(), ip(x@, chi@), p);
        }
        (xz_0, xz_1)
    }
}

/// The party of the base sVOLE over GF(2^128), where addition is XOR. The
/// field products that the check needs are computed by the caller; here they
/// are combined and compared.
pub struct BaseSvoleF2k {
    party: u8,
    delta: Option<u128>,
}

impl BaseSvoleF2k {
    /// 0 for the sender, 1 for the receiver.
    pub closed spec fn party_view(&self) -> u8 {
        self.party
    }

    /// The sender's global key.
    pub closed spec fn delta_view(&self) -> Option<u128> {
        self.delta
    }

    /// The sender, holding the global key `delta`.
    pub fn new_sender(delta: u128) -> (r: Self)
        ensures
            r.party_view() == 0,
            r.delta_view() == Some(delta),
    {
        BaseSvoleF2k { party: 0, delta: Some(delta) }
    }

    /// The receiver, who holds no key.
    pub fn new_receiver() -> (r: Self)
        ensures
            r.party_view() == 1,
            r.delta_view() == None::<u128>,
    {
        BaseSvoleF2k { party: 1, delta: None }
    }

    /// 0 for the sender, 1 for the receiver.
    pub fn party(&self) -> (r: u8)
        ensures
            r == self.party_view(),
    {
        self.party
    }

    /// The sender's global key, if this is the sender.
    pub fn delta(&self) -> (r: Option<u128>)
        ensures
            r == self.delta_view(),
    {
        self.delta
    }

    /// The sender's side of the check: with `y = <share, chi> ^ b`, it
    /// accepts when `y ^ xz1 * delta == xz0`, given the inner product
    /// `share_chi` and the product `xz1_delta`.
    pub fn sender_check(&self, share_chi: u128, b: u128, xz0: u128, xz1_delta: u128) -> (r: bool)
        ensures
            r == (share_chi ^ b ^ xz1_delta == xz0),
    {
        let y = share_chi ^ b;
        let y_check = y ^ xz1_delta;
        y_check == xz0
    }

    /// The receiver's side of the check: `(<share, chi> ^ c, <x, chi> ^ a)`,
    /// given the two inner products.
    pub fn receiver_check(&self, share_chi: u128, x_chi: u128, c: u128, a: u128) -> (r: (u128, u128))
        ensures
            r == (share_chi ^ c, x_chi ^ a),
    {
        (share_chi ^ c, x_chi ^ a)
    }
}

/// Adding the same amount keeps two integers congruent modulo `p`.
proof fn lemma_cong_add(x: int, y: int, z: int)
    requires
        fp_mod(x) == fp_mod(y),
    ensures
        fp_mod(x + z) == fp_mod(y + z),
{
    lemma_add_mod_noop(x, z, stark_prime() as int);
    lemma_add_mod_noop(y, z, stark_prime() as int);
}

/// Multiplying by the same amount keeps two integers congruent modulo `p`.
proof fn lemma_cong_mul(x: int, y: int, z: int)
    requires
        fp_mod(x) == fp_mod(y),
    ensures
        fp_mod(x * z) == fp_mod(y * z),
{
    lemma_mul_mod_noop_left(x, z, stark_prime() as int);
    lemma_mul_mod_noop_left(y, z, stark_prime() as int);
}

/// The inner product is linear: shares shifted by `d` times `u` give an
/// inner product shifted by `d` times that of `u`, modulo `p`.
proof fn lemma_ip_shift(s: Seq<int>, r: Seq<int>, u: Seq<int>, chi: Seq<int>, d: int, n: nat)
    requires
        n <= s.len(),
        n <= r.len(),
        n <= u.len(),
        n <= chi.len(),
        forall|i: int| 0 <= i < n ==> fp_mod(#[trigger] r[i]) == fp_mod(s[i] + d * u[i]),
    ensures
        fp_mod(inner_product_spec(r, chi, n)) == fp_mod(
            inner_product_spec(s, chi, n) + d * inner_product_spec(u, chi, n),
        ),
    decreases n,
{
    if n > 0 {
        let m = (n - 1) as nat;
        lemma_ip_shift(s, r, u, chi, d, m);
        let ir = inner_product_spec(r, chi, m);
        let is = inner_product_spec(s, chi, m);
        let iu = inner_product_spec(u, chi, m);
        let k = chi[m as int];
        assert(fp_mod(r[m as int]) == fp_mod(s[m as int] + d * u[m as int]));
        lemma_cong_mul(r[m as int], s[m as int] + d * u[m as int], k);
        assert((s[m as int] + d * u[m as int]) * k == s[m as int] * k + d * (u[m as int] * k))
            by (nonlinear_arith);
        lemma_cong_add(ir, is + d * iu, r[m as int] * k);
        lemma_cong_add(r[m as int] * k, s[m as int] * k + d * (u[m as int] * k), is + d * iu);
        assert(is + d * iu + (s[m as int] * k + d * (u[m as int] * k)) == (is + s[m as int] * k) + d * (
        iu + u[m as int] * k)) by (nonlinear_arith);
    }
}

/// The check accepts an honest receiver: when each of the receiver's shares is
/// the sender's share plus `delta` times the receiver's input
/// (`share_r[i] = share_s[i] + delta * u[i]`, and `c = b + delta * x`, modulo
/// `p`), the pair that `receiver_check` sends for `(share_r, u, chi, c, x)`
/// passes `sender_check` for `(share_s, chi, b)` under key `delta`.
pub proof fn lemma_check_accepts_correlated(
    share_s: Seq<Fe252>,
    share_r: Seq<Fe252>,
    u: Seq<Fe252>,
    chi: Seq<Fe252>,
    delta: Fe252,
    b: Fe252,
    c: Fe252,
    x: Fe252,
)
    requires
        share_s.len() == share_r.len(),
        share_s.len() == u.len(),
        share_s.len() == chi.len(),
        forall|i: int|
            0 <= i < share_s.len() ==> fp_mod((#[trigger] share_r[i]).value()) == fp_mod(
                share_s[i].value() + delta.value() * u[i].value(),
            ),
        fp_mod(c.value()) == fp_mod(b.value() + delta.value() * x.value()),
    ensures
        fp_mod(ip(share_s, chi) + b.value() + fp_mod(ip(u, chi) + x.value()) * delta.value())
            == fp_mod(ip(share_r, chi) + c.value()),
{
    let n = share_s.len();
    let fs = fe_values(share_s);
    let fr = fe_values(share_r);
    let fu = fe_values(u);
    let fc = fe_values(chi);
    let d = delta.value();
    assert forall|i: int| 0 <= i < n implies fp_mod(#[trigger] fr[i]) == fp_mod(fs[i] + d * fu[i]) by {
        assert(fr[i] == share_r[i].value());
    }
    lemma_ip_shift(fs, fr, fu, fc, d, n);
    let is = ip(share_s, chi);
    let ir = ip(share_r, chi);
    let iu = ip(u, chi);
    let bb = b.value();
    let xx = x.value();
    // The left side: is + b + (iu + x) * delta.
    lemma_cong_mul(fp_mod(iu + xx), iu + xx, d);
    vstd::arithmetic::div_mod::lemma_mod_twice(iu + xx, stark_prime() as int);
    lemma_cong_add(fp_mod(iu + xx) * d, (iu + xx) * d, is + bb);
    // The right side: ir + c.
    lemma_cong_add(ir, is + d * iu, c.value());
    lemma_cong_add(c.value(), bb + d * xx, is + d * iu);
    assert((iu + xx) * d == d * iu + d * xx) by (nonlinear_arith);
}

} // verus!
