//! Primal-LPN parameters over GF(2^128) and the buffer bookkeeping of the
//! VOLE-triple extension that consumes them.
use vstd::prelude::*;
use vstd::arithmetic::power2::pow2;

verus! {

/// The parameters as numbers.
pub struct LpnView {
    pub n: nat,
    pub t: nat,
    pub k: nat,
    pub log_bin_sz: nat,
    pub n_pre: nat,
    pub t_pre: nat,
    pub k_pre: nat,
    pub log_bin_sz_pre: nat,
    pub n_pre0: nat,
    pub t_pre0: nat,
    pub k_pre0: nat,
    pub log_bin_sz_pre0: nat,
}

/// The consistency that `with_params` insists on: `n = t * 2^log_bin_sz`,
/// `n_pre = t_pre * 2^log_bin_sz_pre` and `n_pre >= k + t + 1` (the shifts
/// being shorter than a machine word).
pub open spec fn params_match(
    n: nat,
    t: nat,
    k: nat,
    log_bin_sz: nat,
    n_pre: nat,
    t_pre: nat,
    log_bin_sz_pre: nat,
) -> bool {
    &&& log_bin_sz < usize::BITS
    &&& log_bin_sz_pre < usize::BITS
    &&& n == t * pow2(log_bin_sz)
    &&& n_pre == t_pre * pow2(log_bin_sz_pre)
    &&& n_pre >= k + t + 1
}

/// Parameters of the primal LPN problem used for the main extension (`n`, `t`,
/// `k`, `log_bin_sz`) and for the two bootstrapping rounds (`*_pre`, `*_pre0`).
pub struct PrimalLPNParameterF2k {
    n: usize,
    t: usize,
    k: usize,
    log_bin_sz: usize,
    n_pre: usize,
    t_pre: usize,
    k_pre: usize,
    log_bin_sz_pre: usize,
    n_pre0: usize,
    t_pre0: usize,
    k_pre0: usize,
    log_bin_sz_pre0: usize,
}

impl View for PrimalLPNParameterF2k {
    type V = LpnView;

    closed spec fn view(&self) -> LpnView {
        LpnView {
            n: self.n as nat,
            t: self.t as nat,
            k: self.k as nat,
            log_bin_sz: self.log_bin_sz as nat,
            n_pre: self.n_pre as nat,
            t_pre: self.t_pre as nat,
            k_pre: self.k_pre as nat,
            log_bin_sz_pre: self.log_bin_sz_pre as nat,
            n_pre0: self.n_pre0 as nat,
            t_pre0: self.t_pre0 as nat,
            k_pre0: self.k_pre0 as nat,
            log_bin_sz_pre0: self.log_bin_sz_pre0 as nat,
        }
    }
}

/// The sizes that the two bootstrapping rounds of the setup use.
pub struct SetupPlan {
    /// Correlated OTs for the first bootstrapping round: `log_bin_sz_pre0 * t_pre0`.
    pub m_pre0: usize,
    /// Base sVOLE triples for the first round: `1 + t_pre0 + k_pre0`.
    pub triple_n0: usize,
    /// Correlated OTs for the second bootstrapping round: `log_bin_sz_pre * t_pre`.
    pub m_pre: usize,
    /// Triples the second round takes from the first: `1 + t_pre + k_pre`.
    pub triple_n: usize,
}

impl PrimalLPNParameterF2k {
    /// All parameters zero.
    pub fn new() -> (r: Self)
        ensures
            r@ == (LpnView {
                n: 0, t: 0, k: 0, log_bin_sz: 0,
                n_pre: 0, t_pre: 0, k_pre: 0, log_bin_sz_pre: 0,
                n_pre0: 0, t_pre0: 0, k_pre0: 0, log_bin_sz_pre0: 0,
            }),
    {
        Self {
            n: 0, t: 0, k: 0, log_bin_sz: 0,
            n_pre: 0, t_pre: 0, k_pre: 0, log_bin_sz_pre: 0,
            n_pre0: 0, t_pre0: 0, k_pre0: 0, log_bin_sz_pre0: 0,
        }
    }

    /// The given parameters; they must match (see `params_match`).
    pub fn with_params(
        n: usize,
        t: usize,
        k: usize,
        log_bin_sz: usize,
        n_pre: usize,
        t_pre: usize,
        k_pre: usize,
        log_bin_sz_pre: usize,
        n_pre0: usize,
        t_pre0: usize,
        k_pre0: usize,
        log_bin_sz_pre0: usize,
    ) -> (r: Self)
        requires
            params_match(n as nat, t as nat, k as nat, log_bin_sz as nat, n_pre as nat, t_pre as nat, log_bin_sz_pre as nat),
        ensures
            r@ == (LpnView {
                n: n as nat, t: t as nat, k: k as nat, log_bin_sz: log_bin_sz as nat,
                n_pre: n_pre as nat, t_pre: t_pre as nat, k_pre: k_pre as nat, log_bin_sz_pre: log_bin_sz_pre as nat,
                n_pre0: n_pre0 as nat, t_pre0: t_pre0 as nat, k_pre0: k_pre0 as nat, log_bin_sz_pre0: log_bin_sz_pre0 as nat,
            }),
    {
        Self {
            n, t, k, log_bin_sz,
            n_pre, t_pre, k_pre, log_bin_sz_pre,
            n_pre0, t_pre0, k_pre0, log_bin_sz_pre0,
        }
    }

    /// The number of VOLE outputs one extension round leaves for the caller:
    /// `n - t - k - 1`.
    pub fn buf_sz(&self) -> (r: usize)
        requires
            self@.n >= self@.t + self@.k + 1,
        ensures
            r == self@.n - self@.t - self@.k - 1,
    {
        self.n - self.t - self.k - 1
    }

    /// `n`, the outputs of one extension round.
    pub fn n_value(&self) -> (r: usize)
        ensures
            r == self@.n,
    {
        self.n
    }

    /// `t`, the number of noise positions of one extension round.
    pub fn t_value(&self) -> (r: usize)
        ensures
            r == self@.t,
    {
        self.t
    }

    /// `k`, the LPN dimension of one extension round.
    pub fn k_value(&self) -> (r: usize)
        ensures
            r == self@.k,
    {
        self.k
    }

    /// `log_bin_sz`, the depth of each MPFSS bin of one extension round.
    pub fn log_bin_sz_value(&self) -> (r: usize)
        ensures
            r == self@.log_bin_sz,
    {
        self.log_bin_sz
    }

    /// `n_pre`, the outputs of the second bootstrapping round.
    pub fn n_pre_value(&self) -> (r: usize)
        ensures
            r == self@.n_pre,
    {
        self.n_pre
    }

    /// `t_pre`, the noise positions of the second bootstrapping round.
    pub fn t_pre_value(&self) -> (r: usize)
        ensures
            r == self@.t_pre,
    {
        self.t_pre
    }

    /// `k_pre`.
    pub fn k_pre_value(&self) -> (r: usize)
        ensures
            r == self@.k_pre,
    {
        self.k_pre
    }

    /// `log_bin_sz_pre`.
    pub fn log_bin_sz_pre_value(&self) -> (r: usize)
        ensures
            r == self@.log_bin_sz_pre,
    {
        self.log_bin_sz_pre
    }

    /// `n_pre0`.
    pub fn n_pre0_value(&self) -> (r: usize)
        ensures
            r == self@.n_pre0,
    {
        self.n_pre0
    }

    /// `t_pre0`.
    pub fn t_pre0_value(&self) -> (r: usize)
        ensures
            r == self@.t_pre0,
    {
        self.t_pre0
    }

    /// `k_pre0`.
    pub fn k_pre0_value(&self) -> (r: usize)
        ensures
            r == self@.k_pre0,
    {
        self.k_pre0
    }

    /// `log_bin_sz_pre0`.
    pub fn log_bin_sz_pre0_value(&self) -> (r: usize)
        ensures
            r == self@.log_bin_sz_pre0,
    {
        self.log_bin_sz_pre0
    }

    /// The sizes the setup's bootstrapping rounds use.
    pub fn setup_plan(&self) -> (r: SetupPlan)
        requires
            self@.log_bin_sz_pre0 * self@.t_pre0 <= usize::MAX,
            1 + self@.t_pre0 + self@.k_pre0 <= usize::MAX,
            self@.log_bin_sz_pre * self@.t_pre <= usize::MAX,
            1 + self@.t_pre + self@.k_pre <= usize::MAX,
        ensures
            r.m_pre0 == self@.log_bin_sz_pre0 * self@.t_pre0,
            r.triple_n0 == 1 + self@.t_pre0 + self@.k_pre0,
            r.m_pre == self@.log_bin_sz_pre * self@.t_pre,
            r.triple_n == 1 + self@.t_pre + self@.k_pre,
    {
        SetupPlan {
            m_pre0: self.log_bin_sz_pre0 * self.t_pre0,
            triple_n0: 1 + self.t_pre0 + self.k_pre0,
            m_pre: self.log_bin_sz_pre * self.t_pre,
            triple_n: 1 + self.t_pre + self.k_pre,
        }
    }
}

/// The parameter values of `lpn12`.
pub open spec fn lpn12_view() -> LpnView {
    LpnView {
        n: 5600, t: 700, k: 600, log_bin_sz: 3,
        n_pre: 1400, t_pre: 350, k_pre: 300, log_bin_sz_pre: 2,
        n_pre0: 800, t_pre0: 200, k_pre0: 250, log_bin_sz_pre0: 2,
    }
}

/// Parameters for about 2^12 outputs.
pub fn lpn12() -> (r: PrimalLPNParameterF2k)
    ensures
        r@ == lpn12_view(),
{
    PrimalLPNParameterF2k {
        n: 5600, t: 700, k: 600, log_bin_sz: 3,
        n_pre: 1400, t_pre: 350, k_pre: 300, log_bin_sz_pre: 2,
        n_pre0: 800, t_pre0: 200, k_pre0: 250, log_bin_sz_pre0: 2,
    }
}

/// The parameter values of `lpn16`.
pub open spec fn lpn16_view() -> LpnView {
    LpnView {
        n: 76800, t: 1200, k: 5000, log_bin_sz: 6,
        n_pre: 6400, t_pre: 800, k_pre: 650, log_bin_sz_pre: 3,
        n_pre0: 1500, t_pre0: 375, k_pre0: 300, log_bin_sz_pre0: 2,
    }
}

/// Parameters for about 2^16 outputs.
pub fn lpn16() -> (r: PrimalLPNParameterF2k)
    ensures
        r@ == lpn16_view(),
{
    PrimalLPNParameterF2k {
        n: 76800, t: 1200, k: 5000, log_bin_sz: 6,
        n_pre: 6400, t_pre: 800, k_pre: 650, log_bin_sz_pre: 3,
        n_pre0: 1500, t_pre0: 375, k_pre0: 300, log_bin_sz_pre0: 2,
    }
}

/// The parameter values of `lpn20`.
pub open spec fn lpn20_view() -> LpnView {
    LpnView {
        n: 1088000, t: 8500, k: 30500, log_bin_sz: 7,
        n_pre: 40000, t_pre: 1250, k_pre: 3000, log_bin_sz_pre: 5,
        n_pre0: 4400, t_pre0: 550, k_pre0: 600, log_bin_sz_pre0: 3,
    }
}

/// Parameters for about 2^20 outputs.
pub fn lpn20() -> (r: PrimalLPNParameterF2k)
    ensures
        r@ == lpn20_view(),
{
    PrimalLPNParameterF2k {
        n: 1088000, t: 8500, k: 30500, log_bin_sz: 7,
        n_pre: 40000, t_pre: 1250, k_pre: 3000, log_bin_sz_pre: 5,
        n_pre0: 4400, t_pre0: 550, k_pre0: 600, log_bin_sz_pre0: 3,
    }
}

/// The parameter set for a PSI of `2^8`, `2^12` or `2^16` points, which are
/// the only sizes supported.
pub fn lpn_for_set_size(pt_num: usize) -> (r: Option<PrimalLPNParameterF2k>)
    ensures
        pt_num == 256 ==> (r matches Some(p) && p@ == lpn12_view()),
        pt_num == 4096 ==> (r matches Some(p) && p@ == lpn16_view()),
        pt_num == 65536 ==> (r matches Some(p) && p@ == lpn20_view()),
        pt_num != 256 && pt_num != 4096 && pt_num != 65536 ==> r is None,
{
    if pt_num == 256 {
        Some(lpn12())
    } else if pt_num == 4096 {
        Some(lpn16())
    } else if pt_num == 65536 {
        Some(lpn20())
    } else {
        None
    }
}

/// The three parameter sets pass the consistency check of `with_params`.
pub proof fn lemma_lpn_sets_match()
    ensures
        params_match(5600, 700, 600, 3, 1400, 350, 2),
        params_match(76800, 1200, 5000, 6, 6400, 800, 3),
        params_match(1088000, 8500, 30500, 7, 40000, 1250, 5),
{
    vstd::arithmetic::power2::lemma2_to64();
}

} // verus!
