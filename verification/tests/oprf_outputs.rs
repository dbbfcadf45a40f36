use psi_sa::field::Fe252;
use psi_sa::oprf_f2k::{
    commitment_matches, output_hash, value_hash, value_hashes, ws_commitment, xor_vectors, OprfOutputTable,
    OprfReceiverF2k, OprfSenderF2k,
};
use psi_sa::oprf_fp::{
    combine_coin, count_true, evaluation_points, fixed_points_log, intersection_flags, outputs_match_commitment,
    query_equation_holds, sample_iota, OprfReceiver, NUM_QUERIES,
};
use sha3::Digest;

fn blake3_of(parts: &[&[u8]]) -> [u8; 32] {
    let mut h = blake3::Hasher::new();
    for p in parts {
        h.update(p);
    }
    *h.finalize().as_bytes()
}

fn keccak_pair(a: &[u8; 32], b: &[u8; 32]) -> [u8; 32] {
    let mut h = sha3::Keccak256::new();
    h.update(a);
    h.update(b);
    h.finalize().into()
}

fn small(v: u64) -> Fe252 {
    Fe252 { limbs: [0, 0, 0, v] }
}

#[test]
fn value_hash_is_a_blake3_prefix() {
    let x = [3u128, 4u128];
    let d = blake3_of(&[&3u128.to_le_bytes(), &4u128.to_le_bytes()]);
    let mut head = [0u8; 16];
    head.copy_from_slice(&d[..16]);
    assert_eq!(value_hash(&x), u128::from_le_bytes(head));
    assert_eq!(value_hashes(&[x, x]), vec![value_hash(&x), value_hash(&x)]);
}

#[test]
fn output_hash_covers_input_and_value() {
    let x = [9u128];
    let o = 0x55u128;
    assert_eq!(output_hash(&x, o), blake3_of(&[&9u128.to_le_bytes(), &o.to_le_bytes()]));
    assert_ne!(output_hash(&x, o), output_hash(&x, o + 1));
}

#[test]
fn coin_commitment_opens_only_to_its_share() {
    let c = ws_commitment(77);
    assert_eq!(c, blake3_of(&[&77u128.to_le_bytes()]));
    assert!(commitment_matches(77, &c));
    assert!(!commitment_matches(78, &c));
}

#[test]
fn xor_of_vectors_stops_at_the_shorter() {
    assert_eq!(xor_vectors(&[1, 2, 3], &[3, 2]), vec![2, 0]);
}

#[test]
fn output_table_reads_back_the_last_write() {
    let mut t = OprfOutputTable::<1>::new();
    assert!(t.get(&[1u128]).is_none());
    t.insert([1u128], [5u8; 32]);
    t.insert([2u128], [6u8; 32]);
    t.insert([1u128], [7u8; 32]);
    assert_eq!(t.get(&[1u128]), Some([7u8; 32]));
    assert_eq!(t.get(&[2u128]), Some([6u8; 32]));
    assert!(t.get(&[3u128]).is_none());
}

#[test]
fn both_parties_agree_on_a_common_input() {
    let values = [[10u128, 20u128], [30u128, 40u128]];
    let keyed = [0x1111u128, 0x2222u128];
    let decoded_s = [0xaaaau128, 0xbbbbu128];
    let decoded_r = [decoded_s[0] ^ keyed[0], 0u128];
    let mut sender = OprfSenderF2k::<2>::new(2, 0x99);
    sender.set_coin(5, 6);
    sender.finish_send(&values, &decoded_s, &keyed);
    let mut receiver = OprfReceiverF2k::<2>::new(2);
    receiver.finish_receive(&values, &decoded_r, 5 ^ 6);
    assert_eq!(receiver.get_output(&values[0]), sender.get_output(&values[0]));
    assert_ne!(receiver.get_output(&values[1]), sender.get_output(&values[1]));
    assert_eq!(
        receiver.get_output(&values[0]).unwrap(),
        output_hash(&values[0], decoded_r[0] ^ 3)
    );
    assert!(receiver.get_output(&[0u128, 0u128]).is_none());
}

#[test]
fn receiver_masks_its_encoding() {
    let mut receiver = OprfReceiverF2k::<1>::new(2);
    assert_eq!(receiver.masked_encoding(&[1, 2, 3, 4]), vec![1, 2, 3, 4]);
    receiver.set_encoding(vec![0xf0, 0x0f, 0xff, 0x00]);
    assert_eq!(receiver.masked_encoding(&[0xff, 0xff, 0xff, 0xff]), vec![0x0f, 0xf0, 0x00, 0xff]);
}

#[test]
fn evaluation_domain_size() {
    assert_eq!(fixed_points_log(1), 1);
    assert_eq!(fixed_points_log(4), 3);
    assert_eq!(fixed_points_log(5), 4);
    assert_eq!(fixed_points_log(256), 9);
}

#[test]
fn query_positions_land_in_the_upper_half() {
    let bytes = 1000u64.to_le_bytes();
    assert_eq!(sample_iota(&bytes, 8), 1000 % 16 + 16);
    let bytes = u64::MAX.to_le_bytes();
    let r = sample_iota(&bytes, 512);
    assert!(r >= 1024 && r < 2048);
}

#[test]
fn merkle_commitment_of_outputs() {
    let outputs = [[1u8; 32], [2u8; 32], [3u8; 32], [4u8; 32]];
    let l1 = [keccak_pair(&outputs[0], &outputs[1]), keccak_pair(&outputs[2], &outputs[3])];
    let top = keccak_pair(&l1[0], &l1[1]);
    let sibling = [9u8; 32];
    let root = keccak_pair(&top, &sibling);
    assert!(outputs_match_commitment(&outputs, &[sibling], 3, &root));
    assert!(!outputs_match_commitment(&outputs, &[sibling], 2, &root));
    assert!(outputs_match_commitment(&outputs, &[], 3, &top));
    let mut tampered = outputs;
    tampered[2][0] ^= 1;
    assert!(!outputs_match_commitment(&tampered, &[sibling], 3, &root));
}

#[test]
fn intersection_of_outputs() {
    let r = [[1u8; 32], [2u8; 32], [3u8; 32]];
    let s = [[3u8; 32], [4u8; 32], [1u8; 32]];
    let flags = intersection_flags(&r, &s);
    assert_eq!(flags, vec![true, false, true]);
    assert_eq!(count_true(&flags), 2);
}

#[test]
fn coin_of_the_prime_field_protocol() {
    assert_eq!(combine_coin(&small(5), &small(7)).limbs, [0, 0, 0, 12]);
    let p_minus_one = Fe252 { limbs: [0x0800000000000011, 0, 0, 0] };
    assert_eq!(combine_coin(&p_minus_one, &small(3)).limbs, [0, 0, 0, 2]);
}

#[test]
fn consistency_equation_at_a_point() {
    // x = 2, n = 3, t = 1: x^n + t = 9 and x^n - 1 = 7; S - X = 7, T = 9.
    assert!(query_equation_holds(&small(10), &small(3), &small(9), &small(2), 3, &small(1)));
    assert!(!query_equation_holds(&small(10), &small(3), &small(8), &small(2), 3, &small(1)));
}

#[test]
fn prime_field_receiver_state() {
    let mut r = OprfReceiver::new(4, true);
    assert_eq!(r.fixed_points_num(), 8);
    assert_eq!(r.log_fixed_points_num(), 3);
    assert!(r.committed());
    r.set_encoding((1..=8).map(small).collect());
    let a: Vec<Fe252> = (1..=8).map(|i| small(10 * i)).collect();
    let masked = r.masked_encoding(&a);
    assert_eq!(masked.len(), 8);
    assert_eq!(masked[2].limbs, [0, 0, 0, 33]);
    r.receive_X_commit([1u8; 32]);
    r.receive_S_commit([2u8; 32]);
    let outputs = [[5u8; 32]; 4];
    assert!(!r.check_sender_outputs(&outputs, &[]));
    let mut plain = OprfReceiver::new(4, false);
    plain.receive_S_commit([2u8; 32]);
    assert!(!plain.committed());
    assert!(plain.check_sender_outputs(&outputs, &[]));
}

#[test]
fn prime_field_receiver_outputs_add_the_coin() {
    let r = OprfReceiver::new(2, false);
    let values = [small(1), small(2)];
    let decoded = [small(10), small(20)];
    let outs = r.receiver_outputs(&values, &decoded, &small(5));
    assert_eq!(outs.len(), 2);
    assert_eq!(outs[1], psi_sa::oprf_fp::fp_output_hash(&small(2), &small(25)));
    assert_ne!(outs[0], outs[1]);
}

#[test]
fn consistency_failure_names_the_first_bad_query() {
    let r = OprfReceiver::new(1, true);
    let s = vec![small(10); NUM_QUERIES];
    let x = vec![small(3); NUM_QUERIES];
    let pts = vec![small(2); NUM_QUERIES];
    // n = 1, t = 1: x + 1 = 3, x - 1 = 1, so T must be 21.
    let mut t_evals = vec![small(21); NUM_QUERIES];
    assert_eq!(r.output_consistency_failure(&s, &x, &t_evals, &pts, &small(1)), None);
    t_evals[7] = small(20);
    t_evals[9] = small(20);
    assert_eq!(r.output_consistency_failure(&s, &x, &t_evals, &pts, &small(1)), Some(7));
}

#[test]
fn evaluation_points_use_bit_reversed_positions() {
    let roots: Vec<Fe252> = (0..8).map(small).collect();
    let pts = evaluation_points(&roots, &[1, 3, 6]);
    // in 3 bits: 001 -> 100, 011 -> 110, 110 -> 011
    assert_eq!(pts.iter().map(|p| p.limbs[3]).collect::<Vec<u64>>(), vec![4, 6, 3]);
}

#[test]
fn evaluation_point_of_a_one_point_domain() {
    let roots = vec![small(42)];
    let pts = evaluation_points(&roots, &[0, 0]);
    assert_eq!(pts.iter().map(|p| p.limbs[3]).collect::<Vec<u64>>(), vec![42, 42]);
}
