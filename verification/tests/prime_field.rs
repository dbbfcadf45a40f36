use lambdaworks_math::field::element::FieldElement;
use lambdaworks_math::field::fields::fft_friendly::stark_252_prime_field::Stark252PrimeField;
use lambdaworks_math::traits::AsBytes;
use lambdaworks_math::unsigned_integer::element::UnsignedInteger;
use psi_sa::base_svole::{BaseSvole, BaseSvoleF2k};
use sha3::Digest;
use psi_sa::field::{fe_eq, rand_field_element, vector_inner_product_mod, Fe252};

type FE = FieldElement<Stark252PrimeField>;

fn small(v: u64) -> Fe252 {
    Fe252 { limbs: [0, 0, 0, v] }
}

fn p_minus(v: u64) -> Fe252 {
    Fe252 { limbs: [0x0800000000000011, 0, 0, 1 - v] }
}

fn to_fe(x: &Fe252) -> FE {
    FE::new(UnsignedInteger { limbs: x.limbs })
}

#[test]
fn zero_and_one() {
    assert_eq!(Fe252::zero().limbs, [0, 0, 0, 0]);
    assert_eq!(Fe252::one().limbs, [0, 0, 0, 1]);
    assert!(!fe_eq(&Fe252::zero(), &Fe252::one()));
}

#[test]
fn inner_product_of_small_vectors() {
    let a = [small(2), small(3), small(7)];
    let b = [small(4), small(5)];
    assert_eq!(vector_inner_product_mod(&a, &b).limbs, [0, 0, 0, 23]);
    assert_eq!(vector_inner_product_mod(&[], &b).limbs, [0, 0, 0, 0]);
}

#[test]
fn inner_product_wraps_modulo_p() {
    // (p - 1) * (p - 1) + (p - 1) * 1 = 1 - 1 = 0 (mod p)
    let a = [p_minus(1), p_minus(1)];
    let b = [p_minus(1), small(1)];
    assert_eq!(vector_inner_product_mod(&a, &b).limbs, [0, 0, 0, 0]);
    // (p - 1) * (p - 1) = 1 (mod p)
    assert_eq!(vector_inner_product_mod(&[p_minus(1)], &[p_minus(1)]).limbs, [0, 0, 0, 1]);
}

#[test]
fn random_elements_are_reduced() {
    for _ in 0..20 {
        let x = rand_field_element();
        let canonical = to_fe(&x).representative().limbs;
        assert_eq!(canonical, x.limbs);
        assert!(x.limbs[0] <= 0x0800000000000011);
    }
}

#[test]
fn equality_is_by_value() {
    assert!(fe_eq(&small(9), &small(9)));
    assert!(!fe_eq(&small(9), &p_minus(9)));
}

#[test]
fn honest_base_svole_check_passes() {
    let delta = small(1000003);
    let sender = BaseSvole::new_sender(delta);
    let receiver = BaseSvole::new_receiver();
    assert_eq!(sender.party(), 0);
    assert_eq!(receiver.party(), 1);
    assert!(receiver.delta().is_none());
    let d = to_fe(&delta);
    let share_s = [small(11), small(12), p_minus(5)];
    let u = [small(3), p_minus(2), small(8)];
    let share_r: Vec<Fe252> = share_s
        .iter()
        .zip(u.iter())
        .map(|(s, x)| Fe252 { limbs: (to_fe(s) + d * to_fe(x)).representative().limbs })
        .collect();
    let chi = [small(17), small(19), p_minus(23)];
    let b = small(31);
    let x = small(37);
    let c = Fe252 { limbs: (to_fe(&b) + d * to_fe(&x)).representative().limbs };
    let (xz0, xz1) = receiver.receiver_check(&share_r, &u, &chi, &c, &x);
    assert!(sender.sender_check(&share_s, &chi, &b, &xz0, &xz1));
    let wrong = Fe252 { limbs: (to_fe(&xz0) + FE::one()).representative().limbs };
    assert!(!sender.sender_check(&share_s, &chi, &b, &wrong, &xz1));
}

#[test]
fn receiver_check_values() {
    let receiver = BaseSvole::new_receiver();
    let (xz0, xz1) = receiver.receiver_check(&[small(2)], &[small(3)], &[small(5)], &small(7), &small(11));
    assert_eq!(xz0.limbs, [0, 0, 0, 17]);
    assert_eq!(xz1.limbs, [0, 0, 0, 26]);
}

#[test]
fn field_bytes_match_the_library() {
    let v = small(12345);
    let expected = to_fe(&v).as_bytes();
    let h = psi_sa::oprf_fp::fp_output_hash(&v, &v);
    let mut buf = expected.clone();
    buf.extend_from_slice(&expected);
    let d: [u8; 32] = sha3::Keccak256::digest(&buf).into();
    assert_eq!(h, d);
    assert_ne!(expected, 12345u64.to_be_bytes().to_vec());
}

#[test]
fn f2k_check_combines_by_xor() {
    let sender = BaseSvoleF2k::new_sender(0xdead);
    let receiver = BaseSvoleF2k::new_receiver();
    assert_eq!(sender.delta(), Some(0xdead));
    assert_eq!(receiver.party(), 1);
    let (xz0, xz1) = receiver.receiver_check(0b1010, 0b0110, 0b0001, 0b1000);
    assert_eq!((xz0, xz1), (0b1011, 0b1110));
    assert!(sender.sender_check(0b1100, 0b0011, 0b1111 ^ 0b0101, 0b0101));
    assert!(!sender.sender_check(0b1100, 0b0011, 0b1111, 0b0101));
}
