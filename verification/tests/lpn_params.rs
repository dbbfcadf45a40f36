use psi_sa::lpn::{lpn12, lpn16, lpn20, lpn_for_set_size, PrimalLPNParameterF2k};

#[test]
fn default_parameters_are_zero() {
    let p = PrimalLPNParameterF2k::new();
    assert_eq!(p.n_value(), 0);
    assert_eq!(p.t_value(), 0);
    assert_eq!(p.k_value(), 0);
    assert_eq!(p.log_bin_sz_value(), 0);
    assert_eq!(p.n_pre_value(), 0);
    assert_eq!(p.t_pre_value(), 0);
}

#[test]
fn explicit_parameters_are_kept() {
    let p = PrimalLPNParameterF2k::with_params(64, 8, 10, 3, 32, 8, 5, 2, 16, 4, 3, 2);
    assert_eq!(p.n_value(), 64);
    assert_eq!(p.t_value(), 8);
    assert_eq!(p.k_value(), 10);
    assert_eq!(p.log_bin_sz_value(), 3);
    assert_eq!(p.n_pre_value(), 32);
    assert_eq!(p.t_pre_value(), 8);
    assert_eq!(p.buf_sz(), 64 - 8 - 10 - 1);
}

#[test]
fn buffer_size_of_the_standard_sets() {
    assert_eq!(lpn12().buf_sz(), 5600 - 700 - 600 - 1);
    assert_eq!(lpn16().buf_sz(), 76800 - 1200 - 5000 - 1);
    assert_eq!(lpn20().buf_sz(), 1088000 - 8500 - 30500 - 1);
}

#[test]
fn standard_sets_satisfy_their_own_constraints() {
    for p in [lpn12(), lpn16(), lpn20()] {
        assert_eq!(p.n_value(), p.t_value() << p.log_bin_sz_value());
        assert!(p.n_pre_value() >= p.k_value() + p.t_value() + 1);
    }
}

#[test]
fn setup_plan_sizes() {
    let plan = lpn12().setup_plan();
    assert_eq!(plan.m_pre0, 2 * 200);
    assert_eq!(plan.triple_n0, 1 + 200 + 250);
    assert_eq!(plan.m_pre, 2 * 350);
    assert_eq!(plan.triple_n, 1 + 350 + 300);
}

#[test]
fn set_size_selects_the_parameters() {
    assert_eq!(lpn_for_set_size(256).map(|p| p.n_value()), Some(5600));
    assert_eq!(lpn_for_set_size(4096).map(|p| p.n_value()), Some(76800));
    assert_eq!(lpn_for_set_size(65536).map(|p| p.n_value()), Some(1088000));
    assert!(lpn_for_set_size(1000).is_none());
    assert!(lpn_for_set_size(0).is_none());
}
