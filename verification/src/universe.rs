//! Coverage of a point's neighbourhood by its universes: every point within
//! the radius of `p` lies in one of the `2^D` universes that `p` is
//! re-expressed in.
use vstd::prelude::*;
use vstd::arithmetic::power2::{pow2, lemma_pow2_adds, lemma_pow2_pos, lemma_pow2_unfold};
use vstd::arithmetic::div_mod::{lemma_fundamental_div_mod, lemma_mod_bound};
use crate::geometry::{bit_of, universe_origin};

verus! {

/// The mask whose bit `i` is `bits[i]`.
pub open spec fn mask_of(bits: Seq<bool>) -> nat
    decreases bits.len(),
{
    if bits.len() == 0 {
        0
    } else {
        mask_of(bits.drop_last()) + if bits.last() { pow2((bits.len() - 1) as nat) } else { 0 }
    }
}

/// `(x + k * d) / d == x / d + k` for a positive `d`.
proof fn lemma_div_add_multiple(x: int, k: int, d: int)
    requires
        d > 0,
        x >= 0,
        k >= 0,
    ensures
        (x + k * d) / d == x / d + k,
{
    lemma_fundamental_div_mod(x, d);
    lemma_mod_bound(x, d);
    assert(x + k * d == (x / d + k) * d + x % d) by (nonlinear_arith)
        requires
            x == d * (x / d) + x % d,
    ;
    vstd::arithmetic::div_mod::lemma_fundamental_div_mod_converse(x + k * d, d, x / d + k, x % d);
}

/// `mask_of(bits)` has the given bits and no others.
pub proof fn lemma_mask_of(bits: Seq<bool>)
    ensures
        mask_of(bits) < pow2(bits.len()),
        forall|i: int| 0 <= i < bits.len() ==> bit_of(mask_of(bits), i as nat) == #[trigger] bits[i],
    decreases bits.len(),
{
    lemma_pow2_pos(bits.len());
    if bits.len() > 0 {
        let n = bits.len();
        let rest = bits.drop_last();
        lemma_mask_of(rest);
        let m0 = mask_of(rest);
        let b: int = if bits.last() { 1 } else { 0 };
        lemma_pow2_unfold(n);
        assert(mask_of(bits) == m0 + b * pow2((n - 1) as nat));
        assert forall|i: int| 0 <= i < bits.len() implies bit_of(mask_of(bits), i as nat) == #[trigger] bits[i] by {
            let d = pow2(i as nat) as int;
            lemma_pow2_pos(i as nat);
            lemma_pow2_adds(i as nat, (n - 1 - i) as nat);
            let e = pow2((n - 1 - i) as nat) as int;
            assert(pow2((n - 1) as nat) == d * e);
            assert(b * pow2((n - 1) as nat) == (b * e) * d) by (nonlinear_arith)
                requires
                    pow2((n - 1) as nat) == d * e,
            ;
            lemma_div_add_multiple(m0 as int, b * e, d);
            if i < n - 1 {
                assert(rest[i] == bits[i]);
                lemma_pow2_unfold((n - 1 - i) as nat);
                let e1 = pow2((n - 2 - i) as nat) as int;
                assert(e == 2 * e1);
                assert((m0 as int / d + b * e) % 2 == (m0 as int / d) % 2) by {
                    vstd::arithmetic::div_mod::lemma_mod_multiples_vanish(b * e1, m0 as int / d, 2);
                    assert(b * e == 2 * (b * e1)) by (nonlinear_arith)
                        requires
                            e == 2 * e1,
                    ;
                }
            } else {
                assert(i == n - 1);
                assert(e == 1) by {
                    vstd::arithmetic::power2::lemma2_to64();
                }
                vstd::arithmetic::div_mod::lemma_basic_div(m0 as int, d);
            }
        }
        assert(m0 + b * pow2((n - 1) as nat) < pow2(n)) by (nonlinear_arith)
            requires
                m0 < pow2((n - 1) as nat),
                0 <= b <= 1,
                pow2(n) == 2 * pow2((n - 1) as nat),
        ;
    }
}

/// `q` lies in the universe `mask` of `p`: on every axis, at an offset in
/// `[0, 2 * half)` from the universe's origin.
pub open spec fn in_universe(p: Seq<u128>, q: Seq<u128>, half: nat, mask: nat) -> bool {
    forall|i: int| 0 <= i < p.len() ==>
        universe_origin(p, half, mask)[i] <= #[trigger] q[i] < universe_origin(p, half, mask)[i] + 2 * half
}

/// The universes cover the neighbourhood: when the radius `r` is at most
/// half the cell side `half`, every point `q` within `r` of `p` along each
/// axis lies (with offsets in `[0, 2 * half)`) in one of the `2^D` universes
/// of `p` (the one choosing, on each axis, the lower cell when `p` lies
/// within `r` of its cell's start).
pub proof fn lemma_neighbour_in_some_universe(p: Seq<u128>, q: Seq<u128>, half: nat, r: nat)
    requires
        half > 0,
        2 * r <= half,
        q.len() == p.len(),
        forall|i: int| 0 <= i < p.len() ==> #[trigger] p[i] <= q[i] + r && q[i] <= p[i] + r,
    ensures
        exists|mask: nat| mask < pow2(p.len()) && #[trigger] in_universe(p, q, half, mask),
{
    let bits = Seq::new(p.len(), |i: int| (p[i] as int) % (half as int) < r);
    lemma_mask_of(bits);
    let mask = mask_of(bits);
    assert forall|i: int| 0 <= i < p.len() implies
        universe_origin(p, half, mask)[i] <= #[trigger] q[i] < universe_origin(p, half, mask)[i] + 2 * half by {
        assert(bit_of(mask, i as nat) == bits[i]);
        lemma_mod_bound(p[i] as int, half as int);
    }
    assert(in_universe(p, q, half, mask));
}

} // verus!
