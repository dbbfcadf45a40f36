use psi_sa::geometry::{get_origin, get_prefixes, point_from_words, point_in_cell, pow2_u128, preprocess_point, within_radius};
use psi_sa::origins::{gen_origins, lex_less};

#[test]
fn powers_of_two() {
    assert_eq!(pow2_u128(0), 1);
    assert_eq!(pow2_u128(10), 1024);
    assert_eq!(pow2_u128(127), 1u128 << 127);
}

#[test]
fn origin_clears_the_low_bits() {
    assert_eq!(get_origin(&[0x1234u128, 63u128], 6), [0x1200u128, 0u128]);
    assert_eq!(get_origin(&[64u128, 127u128], 6), [64u128, 64u128]);
    assert_eq!(get_origin(&[u128::MAX], 0), [u128::MAX]);
}

#[test]
fn radius_is_an_l_infinity_ball() {
    assert!(within_radius(&[100u128, 100u128], &[110u128, 90u128], 10));
    assert!(!within_radius(&[100u128, 100u128], &[111u128, 100u128], 10));
    assert!(!within_radius(&[100u128, 100u128], &[100u128, 89u128], 10));
    assert!(within_radius(&[u128::MAX], &[u128::MAX - 5], 5));
    assert!(within_radius(&[0u128], &[0u128], 0));
}

#[test]
fn point_in_cell_adds_the_reduced_offset() {
    assert_eq!(point_in_cell(&[1000u128, 5u128], &[64u128, 128u128], 6), [64 + 1000 % 64, 128 + 5]);
}

#[test]
fn points_from_words_join_high_and_low() {
    let p: [u128; 2] = point_from_words(&[1u64, 2u64, 0u64, u64::MAX]);
    assert_eq!(p, [(1u128 << 64) | 2, u64::MAX as u128]);
}

#[test]
fn preprocessing_gives_four_universes_in_two_dimensions() {
    let r = preprocess_point(&[40u128, 70u128], 6);
    assert_eq!(
        r,
        vec![
            ([32u128, 64u128], [8u128, 6u128]),
            ([0u128, 64u128], [40u128, 6u128]),
            ([32u128, 32u128], [8u128, 38u128]),
            ([0u128, 32u128], [40u128, 38u128]),
        ]
    );
    for (origin, offset) in r.iter() {
        for i in 0..2 {
            assert!(offset[i] < 64);
            assert_eq!(origin[i] % 32, 0);
        }
    }
}

#[test]
fn prefixes_follow_the_listed_lengths() {
    let r = get_prefixes(&[5u128, 3u128], 3, &[1, 3]);
    assert_eq!(
        r,
        vec![
            ([5u128, 3u128], [3usize, 3usize]),
            ([5u128, 0u128], [3usize, 1usize]),
            ([1u128, 3u128], [1usize, 3usize]),
            ([1u128, 0u128], [1usize, 1usize]),
        ]
    );
}

#[test]
fn prefix_count_is_the_product_of_listed_lengths() {
    let r = get_prefixes(&[37u128, 12u128, 60u128], 6, &[2, 4, 6]);
    assert_eq!(r.len(), 27);
    for (prefix, length) in r.iter() {
        for i in 0..3 {
            assert!([2usize, 4, 6].contains(&length[i]));
            assert!(prefix[i] < (1u128 << length[i]));
        }
    }
}

#[test]
fn lexicographic_comparison() {
    assert!(lex_less(&[1u128, 9u128], &[2u128, 0u128]));
    assert!(lex_less(&[1u128, 1u128], &[1u128, 2u128]));
    assert!(!lex_less(&[1u128, 2u128], &[1u128, 2u128]));
    assert!(!lex_less(&[3u128, 0u128], &[2u128, 9u128]));
}

#[test]
fn origins_are_distinct_and_sorted() {
    let points = [
        [130u128, 5u128],
        [10u128, 700u128],
        [129u128, 63u128],
        [0u128, 0u128],
        [70u128, 1u128],
    ];
    let r = gen_origins(&points, 6);
    assert_eq!(r, vec![[0u128, 0u128], [0u128, 640u128], [64u128, 0u128], [128u128, 0u128]]);
}

#[test]
fn origins_of_no_points() {
    let points: [[u128; 3]; 0] = [];
    assert!(gen_origins(&points, 4).is_empty());
}

#[test]
fn a_nearby_point_lies_in_one_of_the_universes() {
    let p = [40u128, 70u128];
    for q in [[35u128, 78u128], [50u128, 60u128], [30u128, 80u128], [49u128, 61u128]] {
        assert!(within_radius(&p, &q, 10));
        let universes = preprocess_point(&p, 6);
        let holding = universes
            .iter()
            .filter(|(origin, _)| (0..2).all(|i| q[i] >= origin[i] && q[i] - origin[i] < 64))
            .count();
        assert!(holding >= 1);
    }
}
