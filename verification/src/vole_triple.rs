//! Buffer bookkeeping of the VOLE-triple extension over GF(2^128).
//!
//! One extension round turns the `m = k + t + 1` saved correlations into `n`
//! fresh ones; the last `m` of them are saved for the next round and the first
//! `ot_limit = n - m` are handed out. The rounds themselves (MPFSS, LPN
//! encoding, the correlated OTs) are exchanged with the other party; this
//! module holds the state and decides what each call of `extend` has to do.
use vstd::prelude::*;
use crate::lpn::{LpnView, PrimalLPNParameterF2k};

verus! {

/// The abstract state of a VOLE-triple generator.
pub struct VoleView {
    pub party: nat,
    pub param: LpnView,
    pub m: nat,
    pub ot_used: nat,
    pub ot_limit: nat,
    pub is_malicious: bool,
    pub extend_initialized: bool,
    pub pre_ot_inplace: bool,
    pub pre_y: Seq<u128>,
    pub pre_z: Seq<u128>,
    pub pre_x: Seq<u128>,
    pub vole_y: Seq<u128>,
    pub vole_z: Seq<u128>,
    pub vole_x: Seq<u128>,
    pub delta: u128,
}

impl VoleView {
    /// Buffers have their parameter sizes; the hand-out cursor stays within
    /// the buffer; once initialized, `m` and `ot_limit` split `n`.
    pub open spec fn wf(self) -> bool {
        &&& self.pre_y.len() == self.param.n_pre
        &&& self.pre_z.len() == self.param.n_pre
        &&& self.pre_x.len() == self.param.t_pre + 1
        &&& self.vole_y.len() == self.param.n
        &&& self.vole_z.len() == self.param.n
        &&& self.vole_x.len() == self.param.t + 1
        &&& self.ot_used <= self.ot_limit
        &&& self.ot_limit <= self.param.n
        &&& self.extend_initialized ==> self.m == self.param.k + self.param.t + 1
            && self.ot_limit + self.m == self.param.n
    }

    /// Correlations still buffered from the last round.
    pub open spec fn left(self) -> nat {
        (self.ot_limit - self.ot_used) as nat
    }
}

/// How `extend` produces `num` outputs when the buffer cannot serve them:
/// `gened` outputs from the buffer, then `round_inplace` rounds written
/// straight into the output, then (when `round_memcpy`) one round whose first
/// `ot_limit` outputs are copied out, then one last round of which the first
/// `last_round_ot` outputs are copied out and the rest stays buffered.
pub struct ExtendPlan {
    pub gened: usize,
    pub round_inplace: usize,
    pub round_memcpy: bool,
    pub last_round_ot: usize,
}

/// The plan of `extend` for `num` outputs, with round size `limit` and `m`
/// saved correlations per round, when the buffer is empty.
pub open spec fn plan_spec(num: nat, m: nat, limit: nat) -> (nat, bool, nat) {
    let inplace = if num > m { ((num - m) as nat / limit) as nat } else { 0nat };
    let last = (num - inplace * limit) as nat;
    let memcpy = last > limit;
    (inplace, memcpy, if memcpy { (last - limit) as nat } else { last })
}

/// Copies `src[..count]` over `dst[start..start + count]`.
pub fn place_prefix(dst: &mut [u128], start: usize, src: &[u128], count: usize)
    requires
        start + count <= old(dst)@.len(),
        count <= src@.len(),
    ensures
        final(dst)@ == old(dst)@.subrange(0, start as int) + src@.subrange(0, count as int)
            + old(dst)@.subrange(start + count, old(dst)@.len() as int),
{
    let ghost d0 = dst@;
    let total = dst.len();
    for i in 0..count
        invariant
            total == d0.len(),
            start + count <= d0.len(),
            count <= src@.len(),
            dst@.len() == d0.len(),
            forall|p: int| 0 <= p < d0.len() ==> #[trigger] dst@[p]
                == if start <= p < start + i { src@[p - start] } else { d0[p] },
    {
        dst[start + i] = src[i];
    }
    assert(dst@ =~= d0.subrange(0, start as int) + src@.subrange(0, count as int)
        + d0.subrange(start + count, d0.len() as int));
}

/// Copies `src` into a fresh vector.
fn copy_vec(src: &[u128]) -> (r: Vec<u128>)
    ensures
        r@ == src@,
{
    let mut r: Vec<u128> = Vec::new();
    for i in 0..src.len()
        invariant
            r@ == src@.take(i as int),
    {
        r.push(src[i]);
        assert(r@ =~= src@.take(i + 1));
    }
    assert(src@.take(src@.len() as int) =~= src@);
    r
}

/// The buffers and cursors of a VOLE-triple generator over GF(2^128).
pub struct VoleTripleF2k {
    party: usize,
    param: PrimalLPNParameterF2k,
    m: usize,
    ot_used: usize,
    ot_limit: usize,
    is_malicious: bool,
    extend_initialized: bool,
    pre_ot_inplace: bool,
    pre_y: Vec<u128>,
    pre_z: Vec<u128>,
    pre_x: Vec<u128>,
    vole_y: Vec<u128>,
    vole_z: Vec<u128>,
    vole_x: Vec<u128>,
    delta: u128,
}

impl View for VoleTripleF2k {
    type V = VoleView;

    closed spec fn view(&self) -> VoleView {
        VoleView {
            party: self.party as nat,
            param: self.param@,
            m: self.m as nat,
            ot_used: self.ot_used as nat,
            ot_limit: self.ot_limit as nat,
            is_malicious: self.is_malicious,
            extend_initialized: self.extend_initialized,
            pre_ot_inplace: self.pre_ot_inplace,
            pre_y: self.pre_y@,
            pre_z: self.pre_z@,
            pre_x: self.pre_x@,
            vole_y: self.vole_y@,
            vole_z: self.vole_z@,
            vole_x: self.vole_x@,
            delta: self.delta,
        }
    }
}

/// A vector of `n` zeros.
fn zeros(n: usize) -> (r: Vec<u128>)
    ensures
        r@ == Seq::new(n as nat, |i: int| 0u128),
{
    let r = vec![0u128; n];
    assert(r@ =~= Seq::new(n as nat, |i: int| 0u128));
    r
}

impl VoleTripleF2k {
    /// A generator for `party` (0 sends, 1 receives) with zeroed buffers sized
    /// by `param`; nothing is initialized or set up yet.
    pub fn new(party: usize, malicious: bool, param: PrimalLPNParameterF2k) -> (r: Self)
        requires
            param@.t_pre + 1 <= usize::MAX,
            param@.t + 1 <= usize::MAX,
        ensures
            r@.wf(),
            r@.party == party,
            r@.param == param@,
            r@.m == 0 && r@.ot_used == 0 && r@.ot_limit == 0,
            r@.is_malicious == malicious,
            !r@.extend_initialized,
            !r@.pre_ot_inplace,
            r@.pre_y == Seq::new(param@.n_pre, |i: int| 0u128),
            r@.pre_z == Seq::new(param@.n_pre, |i: int| 0u128),
            r@.pre_x == Seq::new(param@.t_pre + 1, |i: int| 0u128),
            r@.vole_y == Seq::new(param@.n, |i: int| 0u128),
            r@.vole_z == Seq::new(param@.n, |i: int| 0u128),
            r@.vole_x == Seq::new(param@.t + 1, |i: int| 0u128),
            r@.delta == 0,
    {
        let n_pre = param.n_pre_value();
        let t_pre = param.t_pre_value();
        let n = param.n_value();
        let t = param.t_value();
        VoleTripleF2k {
            party,
            param,
            m: 0,
            ot_used: 0,
            ot_limit: 0,
            is_malicious: malicious,
            extend_initialized: false,
            pre_ot_inplace: false,
            pre_y: zeros(n_pre),
            pre_z: zeros(n_pre),
            pre_x: zeros(t_pre + 1),
            vole_y: zeros(n),
            vole_z: zeros(n),
            vole_x: zeros(t + 1),
            delta: 0,
        }
    }

    /// 0 for the sending party, 1 for the receiving one.
    pub fn party(&self) -> (r: usize)
        ensures
            r == self@.party,
    {
        self.party
    }

    /// The global key (sender side; the receiver holds a copy sent for testing).
    pub fn delta(&self) -> (r: u128)
        ensures
            r == self@.delta,
    {
        self.delta
    }

    /// The LPN parameters.
    pub fn param(&self) -> (r: &PrimalLPNParameterF2k)
        ensures
            r@ == self@.param,
    {
        &self.param
    }

    /// Whether `extend_initialization` has run.
    pub fn is_extend_initialized(&self) -> (r: bool)
        ensures
            r == self@.extend_initialized,
    {
        self.extend_initialized
    }

    /// Records the result of the sender's setup: its global key and the
    /// correlations of the second bootstrapping round.
    pub fn store_sender_setup(&mut self, delta: u128, pre_y: &[u128])
        requires
            old(self)@.wf(),
            pre_y@.len() == old(self)@.param.n_pre,
        ensures
            final(self)@ == (VoleView { delta, pre_y: pre_y@, pre_ot_inplace: true, ..old(self)@ }),
    {
        self.delta = delta;
        self.pre_y = copy_vec(pre_y);
        self.pre_ot_inplace = true;
    }

    /// Records the result of the receiver's setup: the key it was sent and the
    /// correlations of the second bootstrapping round.
    pub fn store_receiver_setup(&mut self, delta: u128, pre_y: &[u128], pre_z: &[u128])
        requires
            old(self)@.wf(),
            pre_y@.len() == old(self)@.param.n_pre,
            pre_z@.len() == old(self)@.param.n_pre,
        ensures
            final(self)@ == (VoleView { delta, pre_y: pre_y@, pre_z: pre_z@, pre_ot_inplace: true, ..old(self)@ }),
    {
        self.delta = delta;
        self.pre_y = copy_vec(pre_y);
        self.pre_z = copy_vec(pre_z);
        self.pre_ot_inplace = true;
    }

    /// Fixes `m = k + t + 1` and `ot_limit = n - m`, with the buffer empty.
    pub fn extend_initialization(&mut self)
        requires
            old(self)@.wf(),
            old(self)@.param.n >= old(self)@.param.k + old(self)@.param.t + 1,
        ensures
            final(self)@ == (VoleView {
                m: old(self)@.param.k + old(self)@.param.t + 1,
                ot_limit: (old(self)@.param.n - (old(self)@.param.k + old(self)@.param.t + 1)) as nat,
                ot_used: (old(self)@.param.n - (old(self)@.param.k + old(self)@.param.t + 1)) as nat,
                extend_initialized: true,
                ..old(self)@
            }),
            final(self)@.wf(),
    {
        let n = self.param.n_value();
        self.m = self.param.k_value() + self.param.t_value() + 1;
        self.ot_limit = n - self.m;
        self.ot_used = self.ot_limit;
        self.extend_initialized = true;
    }

    /// How many buffered correlations have not been handed out.
    pub fn silent_ot_left(&self) -> (r: usize)
        requires
            self@.wf(),
        ensures
            r == self@.left(),
    {
        self.ot_limit - self.ot_used
    }

    /// Serves `num` outputs from the buffer, starting at the cursor; the cursor
    /// does not move, so the same outputs are served again by the next call.
    pub fn take_buffered(&self, data_y: &mut [u128], data_z: &mut [u128], num: usize)
        requires
            self@.wf(),
            self@.extend_initialized,
            num <= self@.left(),
            old(data_y)@.len() == num,
            old(data_z)@.len() == num,
        ensures
            final(data_y)@ == self@.vole_y.subrange(self@.ot_used as int, self@.ot_used + num),
            final(data_z)@ == self@.vole_z.subrange(self@.ot_used as int, self@.ot_used + num),
    {
        let from = self.ot_used;
        let total = self.vole_y.len();
        for i in 0..num
            invariant
                from == self@.ot_used,
                total == self@.vole_y.len(),
                from + num <= self@.vole_y.len(),
                self@.vole_y.len() == self@.vole_z.len(),
                data_y@.len() == num,
                data_z@.len() == num,
                forall|j: int| 0 <= j < i ==> data_y@[j] == self@.vole_y[from + j],
                forall|j: int| 0 <= j < i ==> data_z@[j] == self@.vole_z[from + j],
        {
            data_y[i] = self.vole_y[from + i];
            data_z[i] = self.vole_z[from + i];
        }
        assert(data_y@ =~= self@.vole_y.subrange(from as int, from + num));
        assert(data_z@ =~= self@.vole_z.subrange(from as int, from + num));
    }

    /// The plan for `num` outputs when the buffer is empty (a non-empty buffer
    /// that cannot serve `num` has no plan: the output would be mis-sized).
    /// Resets `m` to `k + t + 1`.
    pub fn plan_extend(&mut self, num: usize) -> (r: ExtendPlan)
        requires
            old(self)@.wf(),
            old(self)@.extend_initialized,
            old(self)@.ot_used == old(self)@.ot_limit,
            num > 0,
            num > old(self)@.m ==> old(self)@.ot_limit > 0,
        ensures
            final(self)@ == old(self)@,
            r.gened == 0,
            (r.round_inplace as nat, r.round_memcpy, r.last_round_ot as nat)
                == plan_spec(num as nat, old(self)@.m, old(self)@.ot_limit),
            r.round_inplace * old(self)@.ot_limit + (if r.round_memcpy { old(self)@.ot_limit } else { 0 })
                + r.last_round_ot == num,
            r.round_inplace > 0 ==> r.round_inplace * old(self)@.ot_limit + old(self)@.m <= num,
            r.last_round_ot > 0,
            r.round_memcpy ==> r.last_round_ot <= old(self)@.m,
            !r.round_memcpy ==> r.last_round_ot <= old(self)@.ot_limit,
    {
        let gened = self.ot_limit - self.ot_used;
        self.m = self.param.k_value() + self.param.t_value() + 1;
        let m = self.m;
        let limit = self.ot_limit;
        let mut round_inplace: usize = 0;
        if num > gened + m {
            round_inplace = (num - gened - m) / limit;
            proof {
                vstd::arithmetic::div_mod::lemma_fundamental_div_mod((num - m) as int, limit as int);
                vstd::arithmetic::div_mod::lemma_mod_bound((num - m) as int, limit as int);
                assert(round_inplace * limit == limit * round_inplace) by (nonlinear_arith);
            }
        }
        assert(round_inplace * limit + m <= num || round_inplace == 0);
        let mut last_round_ot = num - gened - round_inplace * limit;
        let round_memcpy = last_round_ot > limit;
        if round_memcpy {
            last_round_ot -= limit;
        }
        ExtendPlan { gened, round_inplace, round_memcpy, last_round_ot }
    }

    /// The `m` saved correlations that seed the next round (`pre_y[..m]`, `pre_z[..m]`).
    pub fn round_keys(&self) -> (r: (Vec<u128>, Vec<u128>))
        requires
            self@.wf(),
            self@.m <= self@.param.n_pre,
        ensures
            r.0@ == self@.pre_y.subrange(0, self@.m as int),
            r.1@ == self@.pre_z.subrange(0, self@.m as int),
    {
        let ys = vstd::slice::slice_subrange(self.pre_y.as_slice(), 0, self.m);
        let zs = vstd::slice::slice_subrange(self.pre_z.as_slice(), 0, self.m);
        (copy_vec(ys), copy_vec(zs))
    }

    /// Saves the last `m` outputs of a finished round (those past `ot_limit`)
    /// as the seed of the next round.
    pub fn absorb_round(&mut self, data_y: &[u128], data_z: &[u128])
        requires
            old(self)@.wf(),
            old(self)@.m <= old(self)@.param.n_pre,
            data_y@.len() == old(self)@.ot_limit + old(self)@.m,
            data_z@.len() == old(self)@.ot_limit + old(self)@.m,
        ensures
            final(self)@ == (VoleView {
                pre_y: data_y@.subrange(old(self)@.ot_limit as int, data_y@.len() as int)
                    + old(self)@.pre_y.subrange(old(self)@.m as int, old(self)@.pre_y.len() as int),
                pre_z: data_z@.subrange(old(self)@.ot_limit as int, data_z@.len() as int)
                    + old(self)@.pre_z.subrange(old(self)@.m as int, old(self)@.pre_z.len() as int),
                ..old(self)@
            }),
            final(self)@.wf(),
    {
        let m = self.m;
        let limit = self.ot_limit;
        let ys = vstd::slice::slice_subrange(data_y, limit, data_y.len());
        let zs = vstd::slice::slice_subrange(data_z, limit, data_z.len());
        let mut pre_y = copy_vec(self.pre_y.as_slice());
        place_prefix(pre_y.as_mut_slice(), 0, ys, m);
        let mut pre_z = copy_vec(self.pre_z.as_slice());
        place_prefix(pre_z.as_mut_slice(), 0, zs, m);
        proof {
            assert(ys@ =~= data_y@.subrange(limit as int, data_y@.len() as int));
            assert(zs@ =~= data_z@.subrange(limit as int, data_z@.len() as int));
            assert(pre_y@ =~= ys@ + self@.pre_y.subrange(m as int, self@.pre_y.len() as int));
            assert(pre_z@ =~= zs@ + self@.pre_z.subrange(m as int, self@.pre_z.len() as int));
        }
        self.pre_y = pre_y;
        self.pre_z = pre_z;
    }

    /// Marks the buffer as fully handed out (after a round written straight into the output).
    pub fn exhaust_buffer(&mut self)
        requires
            old(self)@.wf(),
        ensures
            final(self)@ == (VoleView { ot_used: old(self)@.ot_limit, ..old(self)@ }),
            final(self)@.wf(),
    {
        self.ot_used = self.ot_limit;
    }

    /// Keeps a whole round as the buffer, of which the first `used` outputs
    /// have been handed out.
    pub fn keep_round(&mut self, round_y: &[u128], round_z: &[u128], used: usize)
        requires
            old(self)@.wf(),
            round_y@.len() == old(self)@.param.n,
            round_z@.len() == old(self)@.param.n,
            used <= old(self)@.ot_limit,
        ensures
            final(self)@ == (VoleView { vole_y: round_y@, vole_z: round_z@, ot_used: used as nat, ..old(self)@ }),
            final(self)@.wf(),
    {
        self.vole_y = copy_vec(round_y);
        self.vole_z = copy_vec(round_z);
        self.ot_used = used;
    }
}

/// The first index below `size` at which a triple is wrong, `y[i] != k[i] ^ delta * z[i]`,
/// given the products `delta_z[i] = delta * z[i]` in GF(2^128).
pub fn triple_mismatch(y: &[u128], k: &[u128], delta_z: &[u128], size: usize) -> (r: Option<usize>)
    requires
        size <= y@.len(),
        size <= k@.len(),
        size <= delta_z@.len(),
    ensures
        match r {
            Some(i) => i < size && y@[i as int] != k@[i as int] ^ delta_z@[i as int]
                && forall|j: int| 0 <= j < i ==> #[trigger] y@[j] == k@[j] ^ delta_z@[j],
            None => forall|j: int| 0 <= j < size ==> #[trigger] y@[j] == k@[j] ^ delta_z@[j],
        },
{
    for i in 0..size
        invariant
            size <= y@.len(),
            size <= k@.len(),
            size <= delta_z@.len(),
            forall|j: int| 0 <= j < i ==> #[trigger] y@[j] == k@[j] ^ delta_z@[j],
    {
        if y[i] != k[i] ^ delta_z[i] {
            return Some(i);
        }
    }
    None
}

} // verus!
