//! The distinct grid origins of a set of points, in lexicographic order: the
//! cells that the test data places its points in.
use vstd::prelude::*;
use vstd::arithmetic::power::pow;
use vstd::arithmetic::power2::pow2;
use vstd::arithmetic::div_mod::lemma_fundamental_div_mod_converse;
use crate::geometry::get_origin;

verus! {

/// The radix in which a coordinate list is read as one number.
pub open spec fn coord_radix() -> int {
    0x1_0000_0000_0000_0000_0000_0000_0000_0000int
}

/// The lexicographic rank of a coordinate list: the coordinates read as the
/// digits of a number in base `2^128`, the first coordinate most significant.
/// Lists of one length are ordered by it exactly as lexicographic order does.
pub open spec fn lex_key(s: Seq<u128>) -> int
    decreases s.len(),
{
    if s.len() == 0 {
        0
    } else {
        lex_key(s.drop_last()) * coord_radix() + s.last()
    }
}

/// Strictly increasing in lexicographic order (so without repetitions).
pub open spec fn strictly_sorted<const D: usize>(s: Seq<[u128; D]>) -> bool {
    forall|p: int, q: int| 0 <= p < q < s.len() ==> lex_key((#[trigger] s[p])@) < lex_key((#[trigger] s[q])@)
}

/// The grid origin of a point: each coordinate with its low `rb` bits cleared.
pub open spec fn origin_view(p: Seq<u128>, rb: nat) -> Seq<u128> {
    Seq::new(p.len(), |i: int| (p[i] - (p[i] as int) % (pow2(rb) as int)) as u128)
}

/// A list's rank is below `radix^len`.
proof fn lemma_lex_key_bound(s: Seq<u128>)
    ensures
        0 <= lex_key(s) < pow(coord_radix(), s.len()),
    decreases s.len(),
{
    vstd::arithmetic::power::lemma_pow_positive(coord_radix(), s.len());
    if s.len() > 0 {
        let p = s.drop_last();
        lemma_lex_key_bound(p);
        vstd::arithmetic::power::lemma_pow_adds(coord_radix(), p.len(), 1);
        vstd::arithmetic::power::lemma_pow1(coord_radix());
        let k = lex_key(p);
        let m = pow(coord_radix(), p.len());
        let x = s.last() as int;
        assert(0 <= k * coord_radix() + x < m * coord_radix()) by (nonlinear_arith)
            requires
                0 <= k < m,
                0 <= x < coord_radix(),
                coord_radix() > 0,
        ;
    }
}

/// The rank of a concatenation.
proof fn lemma_lex_key_append(s: Seq<u128>, t: Seq<u128>)
    ensures
        lex_key(s + t) == lex_key(s) * pow(coord_radix(), t.len()) + lex_key(t),
    decreases t.len(),
{
    if t.len() == 0 {
        assert(s + t =~= s);
        vstd::arithmetic::power::lemma_pow0(coord_radix());
    } else {
        let t1 = t.drop_last();
        lemma_lex_key_append(s, t1);
        assert((s + t).drop_last() =~= s + t1);
        assert((s + t).last() == t.last());
        vstd::arithmetic::power::lemma_pow_adds(coord_radix(), t1.len(), 1);
        vstd::arithmetic::power::lemma_pow1(coord_radix());
        let ks = lex_key(s);
        let kt = lex_key(t1);
        let m = pow(coord_radix(), t1.len());
        assert((ks * m + kt) * coord_radix() == ks * (m * coord_radix()) + kt * coord_radix())
            by (nonlinear_arith);
    }
}

/// Lists of one length that first differ at `k`, where `a` is smaller, are
/// ranked in that order.
proof fn lemma_lex_less(a: Seq<u128>, b: Seq<u128>, k: int)
    requires
        a.len() == b.len(),
        0 <= k < a.len(),
        a.take(k) == b.take(k),
        a[k] < b[k],
    ensures
        lex_key(a) < lex_key(b),
{
    let n = a.len() as int;
    let pa = a.take(k + 1);
    let pb = b.take(k + 1);
    let ra = a.skip(k + 1);
    let rb = b.skip(k + 1);
    assert(a =~= pa + ra);
    assert(b =~= pb + rb);
    lemma_lex_key_append(pa, ra);
    lemma_lex_key_append(pb, rb);
    assert(pa.drop_last() =~= a.take(k));
    assert(pb.drop_last() =~= b.take(k));
    lemma_lex_key_bound(ra);
    lemma_lex_key_bound(rb);
    let m = pow(coord_radix(), ra.len());
    assert(rb.len() == ra.len());
    let h = lex_key(a.take(k)) * coord_radix();
    let x = a[k] as int;
    let y = b[k] as int;
    let ka = lex_key(ra);
    let kb = lex_key(rb);
    assert(lex_key(pa) == h + x);
    assert(lex_key(pb) == h + y);
    assert((h + x) * m + ka < (h + y) * m + kb) by (nonlinear_arith)
        requires
            x < y,
            0 <= ka < m,
            0 <= kb,
    ;
}

/// Lists of one length with the same rank are equal.
proof fn lemma_lex_key_injective(a: Seq<u128>, b: Seq<u128>)
    requires
        a.len() == b.len(),
        lex_key(a) == lex_key(b),
    ensures
        a == b,
    decreases a.len(),
{
    if a.len() == 0 {
        assert(a =~= b);
    } else {
        let v = lex_key(a);
        lemma_fundamental_div_mod_converse(v, coord_radix(), lex_key(a.drop_last()), a.last() as int);
        lemma_fundamental_div_mod_converse(v, coord_radix(), lex_key(b.drop_last()), b.last() as int);
        lemma_lex_key_injective(a.drop_last(), b.drop_last());
        assert(a =~= a.drop_last().push(a.last()));
        assert(b =~= b.drop_last().push(b.last()));
    }
}

/// Whether `a` comes strictly before `b` in lexicographic order.
pub fn lex_less<const D: usize>(a: &[u128; D], b: &[u128; D]) -> (r: bool)
    ensures
        r == (lex_key(a@) < lex_key(b@)),
{
    for i in 0..D
        invariant
            a@.take(i as int) == b@.take(i as int),
    {
        if a[i] < b[i] {
            proof {
                lemma_lex_less(a@, b@, i as int);
            }
            return true;
        }
        if b[i] < a[i] {
            proof {
                lemma_lex_less(b@, a@, i as int);
            }
            return false;
        }
        assert(a@.take(i + 1) =~= a@.take(i as int).push(a@[i as int]));
        assert(b@.take(i + 1) =~= b@.take(i as int).push(b@[i as int]));
    }
    assert(a@ =~= a@.take(D as int));
    assert(b@ =~= b@.take(D as int));
    false
}

/// Pushing adds the element to the set of elements.
proof fn lemma_push_to_set<A>(s: Seq<A>, x: A)
    ensures
        s.push(x).to_set() == s.to_set().insert(x),
{
    assert forall|y: A| #[trigger] s.push(x).to_set().contains(y) <==> s.to_set().insert(x).contains(y) by {
        if s.push(x).contains(y) {
            let k = choose|k: int| 0 <= k < s.push(x).len() && s.push(x)[k] == y;
            if k < s.len() {
                assert(s[k] == y);
            }
        }
        if s.contains(y) {
            let k = choose|k: int| 0 <= k < s.len() && s[k] == y;
            assert(s.push(x)[k] == y);
        }
        if y == x {
            assert(s.push(x)[s.len() as int] == y);
        }
    }
    assert(s.push(x).to_set() =~= s.to_set().insert(x));
}

/// The elements of a concatenation are those of both parts.
proof fn lemma_concat_to_set<A>(s: Seq<A>, t: Seq<A>)
    ensures
        (s + t).to_set() == s.to_set() + t.to_set(),
{
    assert forall|y: A| #[trigger] (s + t).to_set().contains(y) <==> (s.to_set() + t.to_set()).contains(y) by {
        if (s + t).contains(y) {
            let k = choose|k: int| 0 <= k < (s + t).len() && (s + t)[k] == y;
            if k < s.len() {
                assert(s[k] == y);
            } else {
                assert(t[k - s.len()] == y);
            }
        }
        if s.contains(y) {
            let k = choose|k: int| 0 <= k < s.len() && s[k] == y;
            assert((s + t)[k] == y);
        }
        if t.contains(y) {
            let k = choose|k: int| 0 <= k < t.len() && t[k] == y;
            assert((s + t)[s.len() + k] == y);
        }
    }
    assert((s + t).to_set() =~= s.to_set() + t.to_set());
}

/// The union of two strictly increasing lists, strictly increasing.
fn merge_union<const D: usize>(a: &Vec<[u128; D]>, b: &Vec<[u128; D]>) -> (r: Vec<[u128; D]>)
    requires
        strictly_sorted(a@),
        strictly_sorted(b@),
    ensures
        strictly_sorted(r@),
        r@.to_set() == a@.to_set() + b@.to_set(),
{
    let mut r: Vec<[u128; D]> = Vec::new();
    let mut i: usize = 0;
    let mut j: usize = 0;
    let la = a.len();
    let lb = b.len();
    assert(a@.take(0).to_set() =~= Set::<[u128; D]>::empty());
    assert(b@.take(0).to_set() =~= Set::<[u128; D]>::empty());
    assert(r@.to_set() =~= Set::<[u128; D]>::empty());
    while i < la || j < lb
        invariant
            la == a@.len(),
            lb == b@.len(),
            i <= la,
            j <= lb,
            strictly_sorted(a@),
            strictly_sorted(b@),
            strictly_sorted(r@),
            r@.to_set() == a@.take(i as int).to_set() + b@.take(j as int).to_set(),
            forall|p: int| 0 <= p < r@.len() && i < la ==> lex_key((#[trigger] r@[p])@) < lex_key(a@[i as int]@),
            forall|p: int| 0 <= p < r@.len() && j < lb ==> lex_key((#[trigger] r@[p])@) < lex_key(b@[j as int]@),
        decreases (la - i) + (lb - j),
    {
        let ghost r0 = r@;
        let ghost i0 = i as int;
        let ghost j0 = j as int;
        if i < la && j < lb && lex_less(&b[j], &a[i]) {
            r.push(b[j]);
            j = j + 1;
        } else if i < la && j < lb && !lex_less(&a[i], &b[j]) {
            proof {
                lemma_lex_key_injective(a@[i as int]@, b@[j as int]@);
                assert(a@[i as int] =~= b@[j as int]);
            }
            r.push(a[i]);
            i = i + 1;
            j = j + 1;
        } else if i < la {
            r.push(a[i]);
            i = i + 1;
        } else {
            r.push(b[j]);
            j = j + 1;
        }
        proof {
            let x = r@.last();
            assert(r@ == r0.push(x));
            lemma_push_to_set(r0, x);
            if i as int > i0 {
                assert(a@.take(i as int) =~= a@.take(i0).push(a@[i0]));
                lemma_push_to_set(a@.take(i0), a@[i0]);
            } else {
                assert(a@.take(i as int) == a@.take(i0));
            }
            if j as int > j0 {
                assert(b@.take(j as int) =~= b@.take(j0).push(b@[j0]));
                lemma_push_to_set(b@.take(j0), b@[j0]);
            } else {
                assert(b@.take(j as int) == b@.take(j0));
            }
            assert(r@.to_set() =~= a@.take(i as int).to_set() + b@.take(j as int).to_set());
            assert forall|p: int| 0 <= p < r@.len() && i < la implies lex_key((#[trigger] r@[p])@) < lex_key(a@[i as int]@) by {
                if i as int > i0 {
                    assert(lex_key(a@[i0]@) < lex_key(a@[i as int]@));
                }
            }
            assert forall|p: int| 0 <= p < r@.len() && j < lb implies lex_key((#[trigger] r@[p])@) < lex_key(b@[j as int]@) by {
                if j as int > j0 {
                    assert(lex_key(b@[j0]@) < lex_key(b@[j as int]@));
                }
            }
        }
    }
    assert(a@.take(la as int) =~= a@);
    assert(b@.take(lb as int) =~= b@);
    r
}

/// The distinct elements of `v[lo..hi]`, strictly increasing.
fn sort_dedup<const D: usize>(v: &Vec<[u128; D]>, lo: usize, hi: usize) -> (r: Vec<[u128; D]>)
    requires
        lo <= hi <= v@.len(),
    ensures
        strictly_sorted(r@),
        r@.to_set() == v@.subrange(lo as int, hi as int).to_set(),
    decreases hi - lo,
{
    if hi - lo == 0 {
        let r: Vec<[u128; D]> = Vec::new();
        assert(r@.to_set() =~= v@.subrange(lo as int, hi as int).to_set());
        r
    } else if hi - lo == 1 {
        let mut r: Vec<[u128; D]> = Vec::new();
        r.push(v[lo]);
        assert(r@ =~= v@.subrange(lo as int, hi as int));
        r
    } else {
        let mid = lo + (hi - lo) / 2;
        let left = sort_dedup(v, lo, mid);
        let right = sort_dedup(v, mid, hi);
        proof {
            assert(v@.subrange(lo as int, hi as int) =~= v@.subrange(lo as int, mid as int) + v@.subrange(
                mid as int,
                hi as int,
            ));
            lemma_concat_to_set(v@.subrange(lo as int, mid as int), v@.subrange(mid as int, hi as int));
        }
        merge_union(&left, &right)
    }
}

/// `o` is the grid origin of one of the points.
pub open spec fn origin_of_some<const D: usize>(o: [u128; D], points: Seq<[u128; D]>, rb: nat) -> bool {
    exists|i: int| 0 <= i < points.len() && o@ == origin_view(points[i]@, rb)
}

/// The list has an entry whose coordinates are `x`.
pub open spec fn has_entry<const D: usize>(r: Seq<[u128; D]>, x: Seq<u128>) -> bool {
    exists|k: int| 0 <= k < r.len() && r[k]@ == x
}

/// A list with the same elements as the points' origins holds exactly the
/// origins of the points.
proof fn lemma_origins_cover<const D: usize>(r: Seq<[u128; D]>, origins: Seq<[u128; D]>, points: Seq<[u128; D]>, rb: nat)
    requires
        r.to_set() == origins.to_set(),
        origins.len() == points.len(),
        forall|j: int| 0 <= j < origins.len() ==> (#[trigger] origins[j])@ == origin_view(points[j]@, rb),
    ensures
        forall|k: int| 0 <= k < r.len() ==> origin_of_some(#[trigger] r[k], points, rb),
        forall|i: int| 0 <= i < points.len() ==> has_entry(r, origin_view((#[trigger] points[i])@, rb)),
{
    assert forall|k: int| 0 <= k < r.len() implies origin_of_some(#[trigger] r[k], points, rb) by {
        assert(r.contains(r[k]));
        assert(r.to_set().contains(r[k]));
        assert(origins.contains(r[k]));
        let i = choose|i: int| 0 <= i < origins.len() && origins[i] == r[k];
        assert(origins[i]@ == origin_view(points[i]@, rb));
    }
    assert forall|i: int| 0 <= i < points.len() implies has_entry(r, origin_view((#[trigger] points[i])@, rb)) by {
        assert(origins[i]@ == origin_view(points[i]@, rb));
        assert(origins.contains(origins[i]));
        assert(origins.to_set().contains(origins[i]));
        assert(r.contains(origins[i]));
        let k = choose|k: int| 0 <= k < r.len() && r[k] == origins[i];
        assert(r[k]@ == origin_view(points[i]@, rb));
    }
}

/// The distinct grid origins (side `2^range_bits`) of `points`, in
/// lexicographic order: every entry is the origin of some point, and the
/// origin of every point is an entry.
pub fn gen_origins<const D: usize>(points: &[[u128; D]], range_bits: usize) -> (r: Vec<[u128; D]>)
    requires
        range_bits < 128,
    ensures
        strictly_sorted(r@),
        forall|k: int| 0 <= k < r@.len() ==> origin_of_some(#[trigger] r@[k], points@, range_bits as nat),
        forall|i: int| 0 <= i < points@.len() ==> has_entry(r@, origin_view((#[trigger] points@[i])@, range_bits as nat)),
{
    let mut origins: Vec<[u128; D]> = Vec::new();
    for i in 0..points.len()
        invariant
            range_bits < 128,
            origins@.len() == i,
            forall|j: int| 0 <= j < i ==> (#[trigger] origins@[j])@ == origin_view(points@[j]@, range_bits as nat),
    {
        let o = get_origin(&points[i], range_bits);
        assert(o@ =~= origin_view(points@[i as int]@, range_bits as nat));
        origins.push(o);
    }
    let n = origins.len();
    let r = sort_dedup(&origins, 0, n);
    proof {
        assert(origins@.subrange(0, n as int) =~= origins@);
        lemma_origins_cover(r@, origins@, points@, range_bits as nat);
    }
    r
}

} // verus!
