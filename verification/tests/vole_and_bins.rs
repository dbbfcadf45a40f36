use psi_sa::lpn::PrimalLPNParameterF2k;
use psi_sa::oprf_f2k::OprfReceiverF2k;
use psi_sa::sa_psi::{bin_hashes, hash_input, preprocess_points, radius_param, tag, SAPSIReceiver, LOC_FUNC_COUNT};
use psi_sa::vole_triple::{place_prefix, triple_mismatch, VoleTripleF2k};

fn small_param() -> PrimalLPNParameterF2k {
    PrimalLPNParameterF2k::with_params(64, 8, 10, 3, 32, 8, 5, 2, 16, 4, 3, 2)
}

#[test]
fn fresh_generator_has_an_empty_buffer() {
    let mut v = VoleTripleF2k::new(1, true, small_param());
    assert_eq!(v.party(), 1);
    assert!(!v.is_extend_initialized());
    assert_eq!(v.silent_ot_left(), 0);
    v.extend_initialization();
    assert!(v.is_extend_initialized());
    assert_eq!(v.silent_ot_left(), 0);
    assert_eq!(v.param().n_value(), 64);
}

#[test]
fn extension_plans_cover_the_request() {
    let mut v = VoleTripleF2k::new(0, false, small_param());
    v.extend_initialization();
    // m = k + t + 1 = 19 saved correlations, 45 usable outputs per round.
    let p = v.plan_extend(100);
    assert_eq!((p.gened, p.round_inplace, p.round_memcpy, p.last_round_ot), (0, 1, true, 10));
    let p = v.plan_extend(30);
    assert_eq!((p.round_inplace, p.round_memcpy, p.last_round_ot), (0, false, 30));
    let p = v.plan_extend(50);
    assert_eq!((p.round_inplace, p.round_memcpy, p.last_round_ot), (0, true, 5));
    for num in 1..400usize {
        let p = v.plan_extend(num);
        let copied = if p.round_memcpy { 45 } else { 0 };
        assert_eq!(p.round_inplace * 45 + copied + p.last_round_ot, num);
        assert!(p.last_round_ot > 0);
    }
}

#[test]
fn buffered_outputs_are_served_from_the_cursor() {
    let mut v = VoleTripleF2k::new(1, false, small_param());
    v.extend_initialization();
    let round_y: Vec<u128> = (0..64).collect();
    let round_z: Vec<u128> = (100..164).collect();
    v.keep_round(&round_y, &round_z, 40);
    assert_eq!(v.silent_ot_left(), 5);
    let mut y = vec![0u128; 3];
    let mut z = vec![0u128; 3];
    v.take_buffered(&mut y, &mut z, 3);
    assert_eq!(y, vec![40, 41, 42]);
    assert_eq!(z, vec![140, 141, 142]);
    v.exhaust_buffer();
    assert_eq!(v.silent_ot_left(), 0);
}

#[test]
fn setup_and_round_seeds() {
    let mut v = VoleTripleF2k::new(0, false, small_param());
    let pre_y: Vec<u128> = (0..32).collect();
    v.store_sender_setup(0xabc, &pre_y);
    assert_eq!(v.delta(), 0xabc);
    v.extend_initialization();
    let (ky, _kz) = v.round_keys();
    assert_eq!(ky, (0..19).collect::<Vec<u128>>());
    let data: Vec<u128> = (1000..1064).collect();
    v.absorb_round(&data, &data);
    let (ky, _kz) = v.round_keys();
    assert_eq!(ky, (1045..1064).collect::<Vec<u128>>());
}

#[test]
fn receiver_setup_keeps_both_halves() {
    let mut v = VoleTripleF2k::new(1, false, small_param());
    let pre_y: Vec<u128> = (0..32).collect();
    let pre_z: Vec<u128> = (50..82).collect();
    v.store_receiver_setup(7, &pre_y, &pre_z);
    v.extend_initialization();
    let (ky, kz) = v.round_keys();
    assert_eq!(ky[18], 18);
    assert_eq!(kz[0], 50);
}

#[test]
fn copying_a_prefix_into_place() {
    let mut dst = [0u128; 6];
    place_prefix(&mut dst, 2, &[7, 8, 9], 2);
    assert_eq!(dst, [0, 0, 7, 8, 0, 0]);
}

#[test]
fn triple_check_finds_the_first_error() {
    let k = [1u128, 2, 3, 4];
    let dz = [16u128, 32, 48, 64];
    let mut y = [17u128, 34, 51, 68];
    assert_eq!(triple_mismatch(&y, &k, &dz, 4), None);
    y[2] = 0;
    y[3] = 0;
    assert_eq!(triple_mismatch(&y, &k, &dz, 4), Some(2));
    assert_eq!(triple_mismatch(&y, &k, &dz, 2), None);
}

#[test]
fn radius_choices() {
    assert_eq!(radius_param(0), (10, 6, vec![2, 4, 6]));
    assert_eq!(radius_param(4), (250, 10, vec![2, 4, 6, 8, 10]));
}

fn rows(len: usize, d: usize) -> Vec<Vec<[u8; 16]>> {
    (0..2 * d)
        .map(|r| (0..len).map(|i| [(r * 16 + i) as u8; 16]).collect())
        .collect()
}

#[test]
fn hash_input_layout() {
    let rows = rows(7, 1);
    let oprf = [1u8; 32];
    let input = hash_input(3, &oprf, &[2u128], &[2usize], &rows);
    let mut expected = Vec::new();
    expected.extend_from_slice(&3u64.to_le_bytes());
    expected.extend_from_slice(&oprf);
    expected.extend_from_slice(&2u128.to_le_bytes());
    expected.extend_from_slice(&1u128.to_le_bytes());
    expected.extend_from_slice(&rows[0][5]);
    expected.extend_from_slice(&rows[1][4]);
    assert_eq!(input, expected);
    let t = tag(3, &oprf, &[2u128], &[2usize], &rows);
    assert_eq!(&t[..], &blake3::hash(&expected).as_bytes()[..16]);
}

#[test]
fn bin_tags_cover_every_prefix() {
    let rows = rows(7, 1);
    let mut outputs = OprfReceiverF2k::<1>::new(1);
    outputs.finish_receive(&[[0u128]], &[5u128], 9);
    let oprf = outputs.get_output(&[0u128]).unwrap();
    let bin = [([0u128], [3u128]), ([0u128], [3u128])];
    let tags = bin_hashes(4, &bin, &outputs, &rows, 2, &[1, 2]);
    assert_eq!(tags.len(), 2);
    let t_long = tag(4, &oprf, &[3u128], &[2usize], &rows);
    let t_short = tag(4, &oprf, &[1u128], &[1usize], &rows);
    assert!(tags.contains(&t_long));
    assert!(tags.contains(&t_short));
}

#[test]
fn points_are_binned_at_all_their_locations() {
    let processed = preprocess_points(&[[40u128, 70u128], [100u128, 200u128]], 6);
    assert_eq!(processed.len(), 8);
    assert_eq!(processed[1], ([0u128, 64u128], [40u128, 6u128]));
    let receiver = SAPSIReceiver::new(2, 16);
    assert_eq!(receiver.table_size(), 16);
    let (table, ok) = receiver.fill_bins(&processed);
    assert!(ok);
    let mut total = 0;
    for i in 0..16 {
        total += table.query_table(i).len();
    }
    assert_eq!(total, processed.len() * LOC_FUNC_COUNT);
    for e in processed.iter() {
        for l in table.all_locations(&e.0) {
            assert!(table.query_table(l).contains(e));
        }
    }
}

#[test]
fn binning_within_capacity_succeeds() {
    let values: Vec<[u128; 1]> = (0..1000u128).map(|i| [64 + 3 * i]).collect();
    let processed = preprocess_points(&values, 6);
    assert!(processed.len() * LOC_FUNC_COUNT <= psi_sa::sa_psi::MAX_BIN_SIZE);
    let (_, ok) = SAPSIReceiver::new(1000, 3).fill_bins(&processed);
    assert!(ok);
}
