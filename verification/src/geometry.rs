//! The geometry of structure-aware PSI: points are D-dimensional vectors of
//! 128-bit coordinates; each point is re-expressed relative to the origins of
//! the 2^D universes (cells of side 2^RANGE_BITS) that can contain its
//! neighbourhood, and each re-expressed point is covered by the prefixes that
//! the distributed comparison functions evaluate.
use vstd::prelude::*;
use vstd::arithmetic::power2::{pow2, lemma2_to64, lemma_pow2_adds, lemma_pow2_pos, lemma_pow2_strictly_increases, lemma_pow2_unfold};
use vstd::arithmetic::div_mod::{lemma_div_denominator, lemma_fundamental_div_mod, lemma_mod_bound};

verus! {

/// 2^128, one more than the largest `u128`.
pub proof fn lemma_pow2_128()
    ensures
        pow2(128) == u128::MAX + 1,
{
    lemma2_to64();
    lemma_pow2_adds(64, 64);
}

/// `2^e` as a `u128`.
pub fn pow2_u128(e: usize) -> (r: u128)
    requires
        e < 128,
    ensures
        r == pow2(e as nat),
{
    let mut r: u128 = 1;
    let mut i: usize = 0;
    proof { lemma2_to64(); }
    while i < e
        invariant
            i <= e,
            e < 128,
            r == pow2(i as nat),
        decreases e - i,
    {
        proof {
            lemma_pow2_unfold((i + 1) as nat);
            lemma_pow2_128();
            if i + 1 < 128 {
                lemma_pow2_strictly_increases((i + 1) as nat, 128);
            }
        }
        r = r * 2;
        i = i + 1;
    }
    r
}

/// Bit `i` of `mask`.
pub open spec fn bit_of(mask: nat, i: nat) -> bool {
    (mask / pow2(i)) % 2 == 1
}

/// The origins of the 2^D universes of side `2 * half` around point `p`: the
/// corner of the grid cell of side `half` that holds `p`, moved down by `half`
/// along each axis whose bit is set in `mask`.
pub open spec fn universe_origin(p: Seq<u128>, half: nat, mask: nat) -> Seq<int> {
    Seq::new(p.len(), |i: int| (p[i] - (p[i] as int) % (half as int)) - (if bit_of(mask, i as nat) { half as int } else { 0 }))
}

/// Whether bit `i` of `mask` is set (as `(mask >> i) & 1 == 1`).
fn mask_bit(mask: usize, i: usize) -> (r: bool)
    requires
        i < 32,
    ensures
        r == bit_of(mask as nat, i as nat),
{
    proof {
        vstd::bits::lemma_usize_shr_is_div(mask, i);
    }
    let s = mask >> i;
    assert(s & 1 == s % 2) by (bit_vector);
    (s & 1) == 1
}

/// The cell coordinate grid origin of `point` (each coordinate with its low
/// `range_bits` bits cleared).
pub fn get_origin<const D: usize>(point: &[u128; D], range_bits: usize) -> (r: [u128; D])
    requires
        range_bits < 128,
    ensures
        forall|i: int| 0 <= i < D ==> #[trigger] r@[i] == point@[i] - (point@[i] as int) % (pow2(range_bits as nat) as int),
{
    let side = pow2_u128(range_bits);
    proof { lemma_pow2_pos(range_bits as nat); }
    let mut origin = *point;
    for i in 0..D
        invariant
            side == pow2(range_bits as nat),
            side > 0,
            forall|j: int| 0 <= j < i ==> #[trigger] origin@[j] == point@[j] - (point@[j] as int) % (side as int),
    {
        proof { vstd::arithmetic::div_mod::lemma_mod_decreases(point@[i as int] as nat, side as nat); }
        origin[i] = point[i] - point[i] % side;
    }
    origin
}

/// Whether `b` lies within `radius` of `a` in every coordinate (the L-infinity ball).
pub fn within_radius<const D: usize>(a: &[u128; D], b: &[u128; D], radius: u128) -> (r: bool)
    ensures
        r == forall|i: int| 0 <= i < D ==> #[trigger] a@[i] <= b@[i] + radius && b@[i] <= a@[i] + radius,
{
    for i in 0..D
        invariant
            forall|j: int| 0 <= j < i ==> #[trigger] a@[j] <= b@[j] + radius && b@[j] <= a@[j] + radius,
    {
        if (b[i] > a[i] && b[i] - a[i] > radius) || (a[i] > b[i] && a[i] - b[i] > radius) {
            return false;
        }
    }
    true
}

/// A point of the cell at `origin`: `raw` reduced modulo the cell side, plus the origin.
pub fn point_in_cell<const D: usize>(raw: &[u128; D], origin: &[u128; D], range_bits: usize) -> (r: [u128; D])
    requires
        range_bits < 128,
        forall|i: int| 0 <= i < D ==> #[trigger] origin@[i] + (raw@[i] as int) % (pow2(range_bits as nat) as int) <= u128::MAX,
    ensures
        forall|i: int| 0 <= i < D ==> #[trigger] r@[i] == origin@[i] + (raw@[i] as int) % (pow2(range_bits as nat) as int),
{
    let side = pow2_u128(range_bits);
    proof { lemma_pow2_pos(range_bits as nat); }
    let mut p = *origin;
    for i in 0..D
        invariant
            side == pow2(range_bits as nat),
            side > 0,
            forall|j: int| 0 <= j < D ==> #[trigger] origin@[j] + (raw@[j] as int) % (pow2(range_bits as nat) as int) <= u128::MAX,
            forall|j: int| 0 <= j < i ==> #[trigger] p@[j] == origin@[j] + (raw@[j] as int) % (side as int),
    {
        p[i] = raw[i] % side + origin[i];
    }
    p
}

/// A point whose coordinate `i` is made of two 64-bit words, the high word
/// `words[2i]` and the low word `words[2i + 1]`.
pub fn point_from_words<const D: usize>(words: &[u64]) -> (r: [u128; D])
    requires
        words@.len() == 2 * D,
    ensures
        forall|i: int| 0 <= i < D ==> #[trigger] r@[i] == words@[2 * i] as int * 0x1_0000_0000_0000_0000 + words@[2 * i + 1] as int,
{
    let mut p = [0u128; D];
    let len = words.len();
    for i in 0..D
        invariant
            len == words@.len(),
            words@.len() == 2 * D,
            forall|j: int| 0 <= j < i ==> #[trigger] p@[j] == words@[2 * j] as int * 0x1_0000_0000_0000_0000 + words@[2 * j + 1] as int,
    {
        let hi = words[2 * i] as u128;
        let lo = words[2 * i + 1] as u128;
        assert((hi << 64u128) | lo == hi * 0x1_0000_0000_0000_0000 + lo) by (bit_vector)
            requires
                hi < 0x1_0000_0000_0000_0000,
                lo < 0x1_0000_0000_0000_0000,
        ;
        p[i] = (hi << 64u128) | lo;
    }
    p
}

/// Re-expresses `point` in each of the 2^D universes of side `2^range_bits`
/// that can hold its neighbourhood: entry `mask` is the universe's origin and
/// the point's offset from it.
pub fn preprocess_point<const D: usize>(point: &[u128; D], range_bits: usize) -> (r: Vec<([u128; D], [u128; D])>)
    requires
        1 <= range_bits <= 128,
        D <= 30,
        forall|i: int| 0 <= i < D ==> #[trigger] point@[i] >= pow2((range_bits - 1) as nat),
    ensures
        r@.len() == pow2(D as nat),
        forall|mask: int, i: int| 0 <= mask < r@.len() && 0 <= i < D ==>
            (#[trigger] r@[mask].0@[i]) == universe_origin(point@, pow2((range_bits - 1) as nat), mask as nat)[i],
        forall|mask: int, i: int| 0 <= mask < r@.len() && 0 <= i < D ==>
            #[trigger] r@[mask].1@[i] == point@[i] - r@[mask].0@[i],
{
    let half = pow2_u128(range_bits - 1);
    proof { lemma_pow2_pos((range_bits - 1) as nat); }
    let mut grid = *point;
    for i in 0..D
        invariant
            half == pow2((range_bits - 1) as nat),
            half > 0,
            forall|j: int| 0 <= j < D ==> #[trigger] point@[j] >= half,
            forall|j: int| 0 <= j < i ==> #[trigger] grid@[j] == point@[j] - (point@[j] as int) % (half as int),
            forall|j: int| 0 <= j < i ==> #[trigger] grid@[j] >= half,
    {
        proof {
            lemma_mod_bound(point@[i as int] as int, half as int);
            lemma_fundamental_div_mod(point@[i as int] as int, half as int);
            assert(point@[i as int] / half >= 1) by (nonlinear_arith)
                requires point@[i as int] >= half, half > 0;
            assert(half * (point@[i as int] / half) >= half) by (nonlinear_arith)
                requires point@[i as int] / half >= 1, half > 0;
        }
        grid[i] = point[i] - point[i] % half;
    }
    proof {
        vstd::bits::lemma_usize_pow2_no_overflow(D as nat);
        vstd::bits::lemma_usize_shl_is_mul(1, D);
    }
    let count: usize = 1usize << D;
    let mut result: Vec<([u128; D], [u128; D])> = Vec::new();
    for mask in 0..count
        invariant
            count == pow2(D as nat),
            D <= 30,
            half == pow2((range_bits - 1) as nat),
            half > 0,
            forall|j: int| 0 <= j < D ==> #[trigger] point@[j] >= half,
            forall|j: int| 0 <= j < D ==> #[trigger] grid@[j] == point@[j] - (point@[j] as int) % (half as int),
            forall|j: int| 0 <= j < D ==> #[trigger] grid@[j] >= half,
            result@.len() == mask,
            forall|m: int, i: int| 0 <= m < mask && 0 <= i < D ==>
                (#[trigger] result@[m].0@[i]) == universe_origin(point@, half as nat, m as nat)[i],
            forall|m: int, i: int| 0 <= m < mask && 0 <= i < D ==>
                #[trigger] result@[m].1@[i] == point@[i] - result@[m].0@[i],
    {
        let mut origin = grid;
        for i in 0..D
            invariant
                D <= 30,
                half > 0,
                forall|j: int| 0 <= j < D ==> #[trigger] grid@[j] >= half,
                forall|j: int| 0 <= j < D ==> #[trigger] origin@[j]
                    == if j < i && bit_of(mask as nat, j as nat) { grid@[j] - half } else { grid@[j] as int },
        {
            if mask_bit(mask, i) {
                origin[i] = origin[i] - half;
            }
        }
        let mut offset = grid;
        for i in 0..D
            invariant
                half > 0,
                forall|j: int| 0 <= j < D ==> #[trigger] point@[j] >= half,
                forall|j: int| 0 <= j < D ==> #[trigger] grid@[j] == point@[j] - (point@[j] as int) % (half as int),
                forall|j: int| 0 <= j < D ==> #[trigger] origin@[j]
                    == if bit_of(mask as nat, j as nat) { grid@[j] - half } else { grid@[j] as int },
                forall|j: int| 0 <= j < i ==> #[trigger] offset@[j] == point@[j] - origin@[j],
        {
            proof { lemma_mod_bound(point@[i as int] as int, half as int); }
            offset[i] = point[i] - origin[i];
        }
        result.push((origin, offset));
    }
    result
}

/// Each re-expressed point lies inside its universe: the origin is a
/// non-negative multiple of the half side, and the offset from it is below the
/// full side `2 * half`; it is at least `half` exactly on the axes whose bit is set.
pub proof fn lemma_offset_in_universe(p: Seq<u128>, half: nat, mask: nat, i: int)
    requires
        half > 0,
        0 <= i < p.len(),
        p[i] >= half,
    ensures
        universe_origin(p, half, mask)[i] >= 0,
        universe_origin(p, half, mask)[i] % (half as int) == 0,
        0 <= p[i] - universe_origin(p, half, mask)[i] < 2 * half,
        bit_of(mask, i as nat) <==> p[i] - universe_origin(p, half, mask)[i] >= half,
{
    let x = p[i] as int;
    let h = half as int;
    lemma_fundamental_div_mod(x, h);
    lemma_mod_bound(x, h);
    assert(x - x % h == h * (x / h));
    assert(x / h >= 1) by (nonlinear_arith)
        requires x >= h, h > 0;
    assert(h * (x / h) >= h) by (nonlinear_arith)
        requires x / h >= 1, h > 0;
    vstd::arithmetic::div_mod::lemma_mod_multiples_basic(x / h, h);
    assert((h * (x / h)) % h == 0) by {
        vstd::arithmetic::mul::lemma_mul_is_commutative(h, x / h);
    }
    if bit_of(mask, i as nat) {
        assert(h * (x / h) - h == h * (x / h - 1)) by (nonlinear_arith);
        vstd::arithmetic::div_mod::lemma_mod_multiples_basic(x / h - 1, h);
        vstd::arithmetic::mul::lemma_mul_is_commutative(h, x / h - 1);
    }
}

/// The prefix lengths in `(lo, hi]` that `pref_length` lists, from `hi` down.
pub open spec fn kept_above(pref_length: Seq<usize>, hi: nat, lo: nat) -> Seq<nat>
    decreases hi,
{
    if hi <= lo {
        Seq::empty()
    } else {
        (if pref_length.contains(hi as usize) { seq![hi] } else { Seq::<nat>::empty() })
            + kept_above(pref_length, (hi - 1) as nat, lo)
    }
}

/// Lowering the bottom of the range by one appends that length (if listed) at the end.
pub proof fn lemma_kept_above_extend(pref_length: Seq<usize>, hi: nat, lo: nat)
    requires
        1 <= lo <= hi,
    ensures
        kept_above(pref_length, hi, (lo - 1) as nat) == kept_above(pref_length, hi, lo)
            + (if pref_length.contains(lo as usize) { seq![lo] } else { Seq::<nat>::empty() }),
    decreases hi,
{
    if hi == lo {
        assert(kept_above(pref_length, (hi - 1) as nat, (lo - 1) as nat) =~= Seq::<nat>::empty());
        assert(kept_above(pref_length, hi, (lo - 1) as nat)
            =~= (if pref_length.contains(lo as usize) { seq![lo] } else { Seq::<nat>::empty() }));
    } else {
        lemma_kept_above_extend(pref_length, (hi - 1) as nat, lo);
        let head = if pref_length.contains(hi as usize) { seq![hi] } else { Seq::<nat>::empty() };
        let tail = if pref_length.contains(lo as usize) { seq![lo] } else { Seq::<nat>::empty() };
        assert(head + (kept_above(pref_length, (hi - 1) as nat, lo) + tail)
            =~= (head + kept_above(pref_length, (hi - 1) as nat, lo)) + tail);
    }
}

/// The prefix of `e` of length `l` along axis `i` (the coordinate shifted right
/// by `r - l` bits), its length recorded along that axis.
pub open spec fn refine(e: (Seq<u128>, Seq<usize>), i: int, r: nat, l: nat) -> (Seq<u128>, Seq<usize>) {
    (e.0.update(i, (e.0[i] as nat / pow2((r - l) as nat)) as u128), e.1.update(i, l as usize))
}

/// Every entry of `list` refined along axis `i` by each length of `ls`, in order.
pub open spec fn expand(list: Seq<(Seq<u128>, Seq<usize>)>, i: int, r: nat, ls: Seq<nat>) -> Seq<(Seq<u128>, Seq<usize>)> {
    list.map_values(|e: (Seq<u128>, Seq<usize>)| ls.map_values(|l: nat| refine(e, i, r, l))).flatten()
}

/// The prefixes of `p` (with `r`-bit coordinates) along its first `d` axes:
/// along each axis every listed length in `1..=r`, from longest to shortest;
/// axes of lower index vary slowest.
pub open spec fn prefixes_spec(p: Seq<u128>, r: nat, pref_length: Seq<usize>, d: nat) -> Seq<(Seq<u128>, Seq<usize>)>
    decreases d,
{
    if d == 0 {
        seq![(p, Seq::new(p.len(), |k: int| r as usize))]
    } else {
        expand(prefixes_spec(p, r, pref_length, (d - 1) as nat), d - 1, r, kept_above(pref_length, r, 0))
    }
}

/// The abstract entries of a prefix list.
pub open spec fn prefix_views<const D: usize>(list: Seq<([u128; D], [usize; D])>) -> Seq<(Seq<u128>, Seq<usize>)> {
    list.map_values(|e: ([u128; D], [usize; D])| (e.0@, e.1@))
}

/// Whether `x` occurs in `s`.
fn slice_contains(s: &[usize], x: usize) -> (r: bool)
    ensures
        r == s@.contains(x),
{
    for i in 0..s.len()
        invariant
            forall|j: int| 0 <= j < i ==> s@[j] != x,
    {
        if s[i] == x {
            return true;
        }
    }
    false
}

/// The prefixes of `point` that a range query must compare: for each axis in
/// turn, every entry so far is replaced by its prefixes of each length listed
/// in `pref_length` (at most `range_bits`), longest first.
pub fn get_prefixes<const D: usize>(point: &[u128; D], range_bits: usize, pref_length: &[usize]) -> (r: Vec<([u128; D], [usize; D])>)
    ensures
        prefix_views(r@) == prefixes_spec(point@, range_bits as nat, pref_length@, D as nat),
{
    let ghost rr = range_bits as nat;
    let ghost pl = pref_length@;
    let ghost ls = kept_above(pl, rr, 0);
    let mut list: Vec<([u128; D], [usize; D])> = Vec::new();
    let lengths = [range_bits; D];
    list.push((*point, lengths));
    proof {
        assert(lengths@ =~= Seq::new(D as nat, |k: int| range_bits));
        assert(prefix_views(list@) =~= prefixes_spec(point@, rr, pl, 0));
    }
    for i in 0..D
        invariant
            rr == range_bits as nat,
            pl == pref_length@,
            ls == kept_above(pl, rr, 0),
            prefix_views(list@) == prefixes_spec(point@, rr, pl, i as nat),
            forall|k: int, j: int| 0 <= k < list@.len() && i <= j < D ==> (#[trigger] list@[k].1@[j]) == range_bits,
    {
        let mut next: Vec<([u128; D], [usize; D])> = Vec::new();
        proof {
            assert(prefix_views(next@) =~= expand(prefix_views(list@).take(0), i as int, rr, ls));
        }
        for k in 0..list.len()
            invariant
                rr == range_bits as nat,
                pl == pref_length@,
                ls == kept_above(pl, rr, 0),
                i < D,
                forall|kk: int, j: int| 0 <= kk < list@.len() && i <= j < D ==> (#[trigger] list@[kk].1@[j]) == range_bits,
                prefix_views(next@) == expand(prefix_views(list@).take(k as int), i as int, rr, ls),
                forall|kk: int, j: int| 0 <= kk < next@.len() && i < j < D ==> (#[trigger] next@[kk].1@[j]) == range_bits,
        {
            let e = list[k];
            let ghost ev = (e.0@, e.1@);
            let ghost base = prefix_views(next@);
            let mut np = e.0;
            let mut nl = e.1;
            let mut j = range_bits;
            proof {
                assert(e.1@[i as int] == range_bits);
                assert(nl@ =~= e.1@.update(i as int, j as usize));
                lemma2_to64();
                assert(np@ =~= e.0@.update(i as int, (e.0@[i as int] as nat / pow2((rr - j) as nat)) as u128));
                assert(kept_above(pl, rr, rr) =~= Seq::<nat>::empty());
                assert(prefix_views(next@) =~= base + kept_above(pl, rr, j as nat).map_values(|l: nat| refine(ev, i as int, rr, l)));
            }
            while j > 0
                invariant
                    rr == range_bits as nat,
                    pl == pref_length@,
                    i < D,
                    j <= range_bits,
                    ev == (e.0@, e.1@),
                    forall|j2: int| i < j2 < D ==> (#[trigger] e.1@[j2]) == range_bits,
                    forall|kk: int, j2: int| 0 <= kk < next@.len() && i < j2 < D ==> (#[trigger] next@[kk].1@[j2]) == range_bits,
                    np@ == e.0@.update(i as int, (e.0@[i as int] as nat / pow2((rr - j) as nat)) as u128),
                    nl@ == e.1@.update(i as int, j as usize),
                    prefix_views(next@) == base + kept_above(pl, rr, j as nat).map_values(|l: nat| refine(ev, i as int, rr, l)),
                decreases j,
            {
                let keep = slice_contains(pref_length, j);
                let ghost before = prefix_views(next@);
                if keep {
                    next.push((np, nl));
                    proof {
                        assert(refine(ev, i as int, rr, j as nat) == (np@, nl@));
                        assert(prefix_views(next@) =~= before.push((np@, nl@)));
                    }
                }
                proof {
                    lemma_kept_above_extend(pl, rr, j as nat);
                    let f = |l: nat| refine(ev, i as int, rr, l);
                    let tail = if pl.contains(j as usize) { seq![j as nat] } else { Seq::<nat>::empty() };
                    assert((kept_above(pl, rr, j as nat) + tail).map_values(f)
                        =~= kept_above(pl, rr, j as nat).map_values(f) + tail.map_values(f));
                    assert(prefix_views(next@) =~= base + kept_above(pl, rr, (j - 1) as nat).map_values(f));
                    let x = e.0@[i as int] as nat;
                    let a = (rr - j) as nat;
                    lemma_pow2_pos(a);
                    lemma_div_denominator(x as int, pow2(a) as int, 2);
                    lemma_pow2_unfold(a + 1);
                    assert(pow2(a) * 2 == pow2(a + 1));
                }
                let cur = np[i];
                let shifted = cur >> 1;
                assert(shifted == cur / 2) by (bit_vector)
                    requires shifted == cur >> 1;
                np[i] = shifted;
                nl[i] = nl[i] - 1;
                j = j - 1;
                proof {
                    assert(np@ =~= e.0@.update(i as int, (e.0@[i as int] as nat / pow2((rr - j) as nat)) as u128));
                    assert(nl@ =~= e.1@.update(i as int, j as usize));
                }
            }
            proof {
                let vl = prefix_views(list@);
                let f = |x: (Seq<u128>, Seq<usize>)| ls.map_values(|l: nat| refine(x, i as int, rr, l));
                assert(vl[k as int] == ev);
                assert(vl.take(k + 1).map_values(f) =~= vl.take(k as int).map_values(f).push(f(ev)));
                vl.take(k as int).map_values(f).lemma_flatten_push(f(ev));
                assert(kept_above(pl, rr, 0) =~= ls);
                assert(prefix_views(next@) =~= expand(vl.take(k + 1), i as int, rr, ls));
            }
        }
        proof {
            assert(prefix_views(list@).take(list@.len() as int) =~= prefix_views(list@));
        }
        list = next;
    }
    list
}

/// Every listed length lies in `(lo, hi]` and is listed.
pub proof fn lemma_kept_above_members(pref_length: Seq<usize>, hi: nat, lo: nat)
    ensures
        forall|k: int| 0 <= k < kept_above(pref_length, hi, lo).len() ==> {
            let l = #[trigger] kept_above(pref_length, hi, lo)[k];
            lo < l <= hi && pref_length.contains(l as usize)
        },
    decreases hi,
{
    if hi > lo {
        lemma_kept_above_members(pref_length, (hi - 1) as nat, lo);
        let head = if pref_length.contains(hi as usize) { seq![hi] } else { Seq::<nat>::empty() };
        let tail = kept_above(pref_length, (hi - 1) as nat, lo);
        assert(kept_above(pref_length, hi, lo) == head + tail);
        assert forall|k: int| 0 <= k < kept_above(pref_length, hi, lo).len() implies {
            let l = #[trigger] kept_above(pref_length, hi, lo)[k];
            lo < l <= hi && pref_length.contains(l as usize)
        } by {
            if k < head.len() {
                assert(kept_above(pref_length, hi, lo)[k] == hi);
            } else {
                assert(kept_above(pref_length, hi, lo)[k] == tail[k - head.len()]);
            }
        }
    }
}

/// A prefix-list entry for point `p` whose first `d` axes have been refined:
/// along those axes the length is a listed length in `1..=r` and the
/// coordinate is the point's coordinate shifted right by `r` minus that
/// length; along the others the entry still holds the full coordinate at length `r`.
pub open spec fn prefix_entry_ok(e: (Seq<u128>, Seq<usize>), p: Seq<u128>, r: nat, pref_length: Seq<usize>, d: nat) -> bool {
    &&& e.0.len() == p.len()
    &&& e.1.len() == p.len()
    &&& forall|j: int| 0 <= j < d && j < p.len() ==> {
        &&& pref_length.contains(#[trigger] e.1[j])
        &&& 1 <= e.1[j] <= r
        &&& e.0[j] == (p[j] as nat / pow2((r - e.1[j]) as nat)) as u128
    }
    &&& forall|j: int| d <= j < p.len() ==> #[trigger] e.1[j] == r && e.0[j] == p[j]
}

/// Refining a list along axis `d` multiplies its length by the number of
/// listed lengths and keeps every entry well formed, one more axis refined.
pub proof fn lemma_expand(list: Seq<(Seq<u128>, Seq<usize>)>, p: Seq<u128>, r: nat, pref_length: Seq<usize>, d: nat)
    requires
        d < p.len(),
        r <= usize::MAX,
        forall|k: int| 0 <= k < list.len() ==> prefix_entry_ok(#[trigger] list[k], p, r, pref_length, d),
    ensures
        expand(list, d as int, r, kept_above(pref_length, r, 0)).len()
            == list.len() * kept_above(pref_length, r, 0).len(),
        forall|k: int| 0 <= k < expand(list, d as int, r, kept_above(pref_length, r, 0)).len()
            ==> prefix_entry_ok(#[trigger] expand(list, d as int, r, kept_above(pref_length, r, 0))[k], p, r, pref_length, (d + 1) as nat),
    decreases list.len(),
{
    let ls = kept_above(pref_length, r, 0);
    let f = |e: (Seq<u128>, Seq<usize>)| ls.map_values(|l: nat| refine(e, d as int, r, l));
    if list.len() == 0 {
        assert(list.map_values(f) =~= Seq::<Seq<(Seq<u128>, Seq<usize>)>>::empty());
        assert(expand(list, d as int, r, ls) =~= Seq::<(Seq<u128>, Seq<usize>)>::empty());
    } else {
        let rest = list.drop_first();
        lemma_expand(rest, p, r, pref_length, d);
        assert(list.map_values(f).drop_first() =~= rest.map_values(f));
        assert(list.map_values(f).first() == f(list[0]));
        let ex = expand(list, d as int, r, ls);
        assert(ex == f(list[0]) + expand(rest, d as int, r, ls));
        assert(f(list[0]).len() == ls.len());
        assert(ex.len() == ls.len() + rest.len() * ls.len());
        assert(list.len() * ls.len() == ls.len() + rest.len() * ls.len()) by (nonlinear_arith)
            requires list.len() == rest.len() + 1;
        lemma_kept_above_members(pref_length, r, 0);
        assert forall|k: int| 0 <= k < ex.len() implies prefix_entry_ok(#[trigger] ex[k], p, r, pref_length, (d + 1) as nat) by {
            if k < ls.len() {
                let e = list[0];
                let l = ls[k];
                assert(prefix_entry_ok(e, p, r, pref_length, d));
                assert(ex[k] == refine(e, d as int, r, l));
                assert(forall|j: int| d <= j < p.len() ==> #[trigger] e.1[j] == r && e.0[j] == p[j]);
                assert(e.1[d as int] == r);
                assert(e.0[d as int] == p[d as int]);
                assert(0 < l <= r && pref_length.contains(l as usize));
                let x = ex[k];
                assert(x.1[d as int] == l as usize);
                assert forall|j: int| 0 <= j < d + 1 && j < p.len() implies {
                    &&& pref_length.contains(#[trigger] x.1[j])
                    &&& 1 <= x.1[j] <= r
                    &&& x.0[j] == (p[j] as nat / pow2((r - x.1[j]) as nat)) as u128
                } by {
                    if j < d {
                        assert(x.1[j] == e.1[j]);
                    }
                }
                assert forall|j: int| d + 1 <= j < p.len() implies #[trigger] x.1[j] == r && x.0[j] == p[j] by {
                    assert(x.1[j] == e.1[j]);
                }
            } else {
                assert(ex[k] == expand(rest, d as int, r, ls)[k - ls.len()]);
            }
        }
    }
}

/// What `get_prefixes` promises: there are (number of listed lengths in
/// `1..=r`)^D prefixes, and each records along every axis a listed length
/// `l` in `1..=r` with the point's coordinate shifted right by `r - l`.
pub proof fn lemma_prefixes(p: Seq<u128>, r: nat, pref_length: Seq<usize>, d: nat)
    requires
        d <= p.len(),
        r <= usize::MAX,
    ensures
        prefixes_spec(p, r, pref_length, d).len()
            == vstd::arithmetic::power::pow(kept_above(pref_length, r, 0).len() as int, d),
        forall|k: int| 0 <= k < prefixes_spec(p, r, pref_length, d).len()
            ==> prefix_entry_ok(#[trigger] prefixes_spec(p, r, pref_length, d)[k], p, r, pref_length, d),
    decreases d,
{
    reveal(vstd::arithmetic::power::pow);
    if d == 0 {
        let e = prefixes_spec(p, r, pref_length, 0)[0];
        assert(prefix_entry_ok(e, p, r, pref_length, 0));
    } else {
        lemma_prefixes(p, r, pref_length, (d - 1) as nat);
        lemma_expand(prefixes_spec(p, r, pref_length, (d - 1) as nat), p, r, pref_length, (d - 1) as nat);
        let c = kept_above(pref_length, r, 0).len() as int;
        assert(vstd::arithmetic::power::pow(c, d) == c * vstd::arithmetic::power::pow(c, (d - 1) as nat));
        assert(prefixes_spec(p, r, pref_length, (d - 1) as nat).len() * (c as nat)
            == c * vstd::arithmetic::power::pow(c, (d - 1) as nat)) by (nonlinear_arith)
            requires prefixes_spec(p, r, pref_length, (d - 1) as nat).len()
                == vstd::arithmetic::power::pow(c, (d - 1) as nat), c >= 0;
    }
}

} // verus!
