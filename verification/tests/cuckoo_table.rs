use aes::cipher::generic_array::GenericArray;
use aes::cipher::{BlockEncrypt, KeyInit};
use psi_sa::cuckoo::{derive_loc_funcs, entry_is_vacant, hash_location, new_vacant_entry, CuckooHash, SimpleHash};
use sha3::Digest;

fn expected_key(seed: [u8; 16], i: u64) -> [u8; 16] {
    let cipher = aes::Aes128::new(GenericArray::from_slice(&seed));
    let mut block = [0u8; 16];
    block[8..].copy_from_slice(&i.to_le_bytes());
    let mut b = GenericArray::clone_from_slice(&block);
    cipher.encrypt_block(&mut b);
    b.into()
}

fn expected_location(item: &[u128], key: &[u8; 16], size: usize) -> usize {
    let mut h = sha3::Sha3_256::new();
    for x in item {
        h.update(x.to_le_bytes());
    }
    h.update(key);
    let d = h.finalize();
    let mut head = [0u8; 8];
    head.copy_from_slice(&d[..8]);
    (u64::from_le_bytes(head) % size as u64) as usize
}

#[test]
fn location_keys_are_aes_of_counters() {
    let seed = [7u8; 16];
    let keys = derive_loc_funcs(&seed, 3);
    assert_eq!(keys.len(), 3);
    for i in 0..3 {
        assert_eq!(keys[i], expected_key(seed, i as u64));
    }
    assert_ne!(keys[0], keys[1]);
}

#[test]
fn location_is_sha3_prefix_mod_size() {
    let item = [0x1234u128, 99u128];
    let key = expected_key([0u8; 16], 0);
    let loc = hash_location(&item, &key, 37);
    assert_eq!(loc, expected_location(&item, &key, 37));
    assert!(loc < 37);
}

#[test]
fn cuckoo_table_locations_follow_the_keys() {
    let mut table = CuckooHash::<2>::new(64, 10);
    table.generate_loc_funcs(3, Some([0u8; 16]));
    let item = [5u128, 6u128];
    let locs = table.all_locations(&item);
    assert_eq!(locs.len(), 3);
    for j in 0..3 {
        let key = expected_key([0u8; 16], j as u64);
        assert_eq!(locs[j], expected_location(&item, &key, 64));
        assert_eq!(table.location(&item, j), locs[j]);
    }
}

#[test]
fn cuckoo_inserted_key_is_found() {
    let mut table = CuckooHash::<2>::new(64, 10);
    table.generate_loc_funcs(3, Some([0u8; 16]));
    let key = [1u128, 2u128];
    let value = [3u128, 4u128];
    assert!(!table.query(&key));
    assert!(table.insert(&key, &value));
    assert!(table.query(&key));
    assert!(!table.query(&[9u128, 9u128]));
    let locs = table.all_locations(&key);
    let held = locs.iter().filter(|&&l| table.query_table(l) == (key, value)).count();
    assert!(held >= 1);
}

#[test]
fn cuckoo_second_insert_of_a_key_is_refused() {
    let mut table = CuckooHash::<1>::new(32, 10);
    table.generate_loc_funcs(3, Some([1u8; 16]));
    assert!(table.insert(&[42u128], &[1u128]));
    assert!(!table.insert(&[42u128], &[2u128]));
    let locs = table.all_locations(&[42u128]);
    let values: Vec<[u128; 1]> = locs
        .iter()
        .map(|&l| table.query_table(l))
        .filter(|e| e.0 == [42u128])
        .map(|e| e.1)
        .collect();
    assert!(values.iter().all(|v| *v == [1u128]));
}

#[test]
fn cuckoo_many_inserts_are_all_found() {
    let mut table = CuckooHash::<1>::new(64, 50);
    table.generate_loc_funcs(3, Some([3u8; 16]));
    for k in 1..=20u128 {
        assert!(table.insert(&[k], &[k * 10]));
    }
    for k in 1..=20u128 {
        assert!(table.query(&[k]));
    }
}

#[test]
fn vacant_entry_is_all_zero() {
    let e = new_vacant_entry::<2>();
    assert_eq!(e, ([0u128; 2], [0u128; 2]));
    assert!(entry_is_vacant(&e));
    assert!(!entry_is_vacant(&([0u128, 1u128], [0u128; 2])));
}

#[test]
fn simple_hash_entry_lands_in_every_location() {
    let mut table = SimpleHash::<1>::new(8, 10, 3);
    table.generate_loc_funcs(3, Some([0u8; 16]));
    let key = [77u128];
    let value = [88u128];
    assert!(table.insert(&key, &value));
    let locs = table.all_locations(&key);
    for &l in locs.iter() {
        assert!(table.query_table(l).contains(&(key, value)));
    }
    let total: usize = (0..8).map(|i| table.query_table(i).len()).sum();
    assert_eq!(total, 3);
}

#[test]
fn simple_hash_reports_an_overflowing_bin() {
    let mut table = SimpleHash::<1>::new(4, 0, 3);
    table.generate_loc_funcs(3, Some([0u8; 16]));
    assert!(!table.insert(&[1u128], &[2u128]));
    let l0 = table.location(&[1u128], 0);
    assert_eq!(table.query_table(l0), vec![([1u128], [2u128])]);
}

#[test]
fn simple_hash_dummies_fill_bins_to_capacity() {
    let mut table = SimpleHash::<1>::new(4, 5, 3);
    table.generate_loc_funcs(3, Some([0u8; 16]));
    assert!(table.insert(&[1u128], &[2u128]));
    table.fill_dummies();
    for i in 0..4 {
        let bin = table.query_table(i);
        assert_eq!(bin.len(), 5);
        let real = bin.iter().filter(|e| **e == ([1u128], [2u128])).count();
        let vacant = bin.iter().filter(|e| **e == ([0u128], [0u128])).count();
        assert_eq!(real + vacant, 5);
    }
}

#[test]
fn one_slot_table_keeps_the_newcomer_and_drops_the_evicted_pair() {
    let mut h = CuckooHash::<1>::new(1, 1);
    h.generate_loc_funcs(2, Some([0u8; 16]));
    assert!(h.insert(&[5], &[7]));
    assert!(!h.insert(&[6], &[8]));
    assert_eq!(h.query_table(0), ([6u128], [8u128]));
    assert!(!h.query(&[5]));
    assert!(h.query(&[6]));
}

#[test]
fn no_probe_rounds_means_no_placement() {
    let mut h = CuckooHash::<1>::new(4, 0);
    h.generate_loc_funcs(2, Some([0u8; 16]));
    assert!(!h.insert(&[5], &[7]));
    for i in 0..4 {
        assert_eq!(h.query_table(i), ([0u128], [0u128]));
    }
}

#[test]
fn first_round_uses_the_first_vacant_location() {
    let mut h = CuckooHash::<1>::new(16, 3);
    h.generate_loc_funcs(3, Some([4u8; 16]));
    let j = h.first_vacant(&[9]).unwrap();
    assert_eq!(j, 0);
    let l = h.location(&[9], j);
    assert!(h.insert(&[9], &[1]));
    assert_eq!(h.query_table(l), ([9u128], [1u128]));
}

#[test]
fn eviction_step_uses_the_drawn_key_index() {
    let mut h = CuckooHash::<1>::new(8, 3);
    h.generate_loc_funcs(3, Some([2u8; 16]));
    let mut block = [0u8; 16];
    block[0] = 4; // 4 mod 3 = key index 1
    let slot = h.location(&[3], 1);
    let out = h.evict(([3], [30]), &block);
    assert_eq!(out, ([0u128], [0u128]));
    assert_eq!(h.query_table(slot), ([3u128], [30u128]));
    let out = h.evict(([4], [40]), &block);
    let slot4 = h.location(&[4], 1);
    assert_eq!(h.query_table(slot4), ([4u128], [40u128]));
    if slot4 == slot {
        assert_eq!(out, ([3u128], [30u128]));
    }
}
