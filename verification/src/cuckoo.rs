//! Cuckoo hash table and simple (multi-bin) hash table over limb arrays.
//! Slots are addressed by location functions H_1, H_2, ...: H_j(x) takes the
//! first eight bytes of SHA3-256(x || f_j) as a little-endian integer modulo
//! the table size, where f_j is the j-th 16-byte location key.
use vstd::prelude::*;
use vstd::bytes::*;
use crate::bytes::{limbs_eq, limbs_le_bytes, push_bytes, push_limbs_le};
use crate::crypto::{aes128_encrypt, aes128_encrypt_block, random_block, sha3_256, sha3_256_digest};

verus! {

broadcast use vstd::seq_lib::group_to_multiset_ensures;

/// The slot of `item` under the location key `func`, in a table of `table_size` slots.
pub open spec fn location_spec(item: Seq<u128>, func: Seq<u8>, table_size: nat) -> nat {
    (spec_u64_from_le_bytes(sha3_256_digest(limbs_le_bytes(item) + func).subrange(0, 8)) as nat)
        % table_size
}

/// The slots of `item` under each of the location keys `funcs`, in order.
pub open spec fn locations_spec(item: Seq<u128>, funcs: Seq<[u8; 16]>, table_size: nat) -> Seq<nat> {
    Seq::new(funcs.len(), |j: int| location_spec(item, funcs[j]@, table_size))
}

/// The counter block from which the i-th location key is derived: eight zero
/// bytes followed by the little-endian bytes of `i`.
pub open spec fn counter_block(i: nat) -> Seq<u8> {
    Seq::new(8, |k: int| 0u8) + spec_u64_to_le_bytes(i as u64)
}

/// The `count` location keys derived from `seed`: the i-th is the AES-128
/// encryption of `counter_block(i)` under `seed`.
pub open spec fn derived_loc_funcs(seed: Seq<u8>, count: nat) -> Seq<Seq<u8>> {
    Seq::new(count, |i: int| aes128_encrypt_block(seed, counter_block(i as nat)))
}

/// `funcs` are the location keys derived from `seed`, as many as there are.
pub open spec fn keys_derived_from(funcs: Seq<[u8; 16]>, seed: Seq<u8>) -> bool {
    forall|i: int| 0 <= i < funcs.len() ==> (#[trigger] funcs[i])@ == derived_loc_funcs(seed, funcs.len())[i]
}

/// The key/value pair that marks a vacant slot: all limbs zero.
pub open spec fn vacant_entry<const N: usize>() -> ([u128; N], [u128; N]) {
    (
        vstd::array::spec_array_fill_for_copy_type::<u128, N>(0),
        vstd::array::spec_array_fill_for_copy_type::<u128, N>(0),
    )
}

/// Whether every limb of `a` is zero.
fn limbs_all_zero<const N: usize>(a: &[u128; N]) -> (r: bool)
    ensures
        r == (*a == vstd::array::spec_array_fill_for_copy_type::<u128, N>(0)),
{
    let ghost z = vstd::array::spec_array_fill_for_copy_type::<u128, N>(0);
    assert(forall|j: int| 0 <= j < N ==> z@[j] == 0u128);
    for i in 0..N
        invariant
            forall|j: int| 0 <= j < N ==> z@[j] == 0u128,
            forall|j: int| 0 <= j < i ==> a@[j] == 0u128,
    {
        if a[i] != 0 {
            assert(a@[i as int] != z@[i as int]);
            return false;
        }
    }
    assert(a@ =~= z@);
    assert(*a =~= z);
    true
}

/// Whether a slot holds the vacant entry.
pub fn entry_is_vacant<const N: usize>(e: &([u128; N], [u128; N])) -> (r: bool)
    ensures
        r == (*e == vacant_entry::<N>()),
{
    let a = limbs_all_zero(&e.0);
    let b = limbs_all_zero(&e.1);
    a && b
}

/// The vacant entry.
pub fn new_vacant_entry<const N: usize>() -> (e: ([u128; N], [u128; N]))
    ensures
        e == vacant_entry::<N>(),
{
    let z = [0u128; N];
    (z, z)
}

/// The slot of `item` under the location key `func`.
pub fn hash_location<const N: usize>(item: &[u128; N], func: &[u8; 16], table_size: usize) -> (r: usize)
    requires
        table_size > 0,
    ensures
        r as nat == location_spec(item@, func@, table_size as nat),
        r < table_size,
{
    let mut buf: Vec<u8> = Vec::new();
    push_limbs_le(&mut buf, item);
    push_bytes(&mut buf, func.as_slice());
    assert(buf@ =~= limbs_le_bytes(item@) + func@);
    let d = sha3_256(buf.as_slice());
    let head = vstd::slice::slice_subrange(d.as_slice(), 0, 8);
    let v = u64_from_le_bytes(head);
    (v % (table_size as u64)) as usize
}

/// The slots of `item` under every location key, in order.
pub fn hash_locations<const N: usize>(item: &[u128; N], funcs: &Vec<[u8; 16]>, table_size: usize) -> (r: Vec<usize>)
    requires
        funcs.len() == 0 || table_size > 0,
    ensures
        r@.len() == funcs@.len(),
        forall|j: int| 0 <= j < r@.len() ==> r@[j] as nat == #[trigger] locations_spec(item@, funcs@, table_size as nat)[j],
        forall|j: int| 0 <= j < r@.len() ==> r@[j] < table_size,
{
    let mut r: Vec<usize> = Vec::new();
    for j in 0..funcs.len()
        invariant
            funcs.len() == 0 || table_size > 0,
            r@.len() == j,
            forall|k: int| 0 <= k < j ==> r@[k] as nat == location_spec(item@, funcs@[k]@, table_size as nat),
            forall|k: int| 0 <= k < j ==> r@[k] < table_size,
    {
        let loc = hash_location(item, &funcs[j], table_size);
        r.push(loc);
    }
    r
}

/// The `count` location keys derived from `seed`.
pub fn derive_loc_funcs(seed: &[u8; 16], count: usize) -> (r: Vec<[u8; 16]>)
    ensures
        r@.len() == count,
        forall|i: int| 0 <= i < count ==> (#[trigger] r@[i])@ == derived_loc_funcs(seed@, count as nat)[i],
{
    let mut r: Vec<[u8; 16]> = Vec::new();
    for i in 0..count
        invariant
            r@.len() == i,
            forall|k: int| 0 <= k < i ==> (#[trigger] r@[k])@ == aes128_encrypt_block(seed@, counter_block(k as nat)),
    {
        let mut block = [0u8; 16];
        let le = u64_to_le_bytes(i as u64);
        proof { lemma_auto_spec_u64_to_from_le_bytes(); }
        for k in 0..8usize
            invariant
                le@ == spec_u64_to_le_bytes(i as u64),
                le@.len() == 8,
                forall|t: int| 0 <= t < 8 ==> block@[t] == 0u8,
                forall|t: int| 8 <= t < 8 + k ==> block@[t] == le@[t - 8],
        {
            block[8 + k] = le[k];
        }
        assert(block@ =~= counter_block(i as nat));
        let f = aes128_encrypt(seed, &block);
        r.push(f);
    }
    r
}

/// The abstract state of a cuckoo hash table.
pub struct CuckooView<const N: usize> {
    pub table: Seq<([u128; N], [u128; N])>,
    pub loc_funcs: Seq<[u8; 16]>,
    pub table_size: nat,
    pub max_probe: nat,
}

impl<const N: usize> CuckooView<N> {
    /// The table has exactly `table_size` slots.
    pub open spec fn wf(self) -> bool {
        self.table.len() == self.table_size
    }

    /// Locations can be computed: either there are no location keys or there is at least one slot.
    pub open spec fn can_locate(self) -> bool {
        self.loc_funcs.len() == 0 || self.table_size > 0
    }

    /// The slot of `item` under the j-th location key.
    pub open spec fn location(self, item: [u128; N], j: int) -> nat {
        location_spec(item@, self.loc_funcs[j]@, self.table_size)
    }

    /// What `query` answers: some location of `key` holds an entry with that key.
    pub open spec fn holds_key(self, key: [u128; N]) -> bool {
        exists|j: int| 0 <= j < self.loc_funcs.len() && #[trigger] self.table[self.location(key, j) as int].0 == key
    }

    /// No two occupied slots hold the same key.
    pub open spec fn keys_distinct(self) -> bool {
        forall|i: int, j: int| 0 <= i < self.table.len() && 0 <= j < self.table.len() && i != j
            && #[trigger] self.table[i] != vacant_entry::<N>() && #[trigger] self.table[j] != vacant_entry::<N>()
            ==> self.table[i].0 != self.table[j].0
    }

    /// Every occupied slot lies at one of the locations of the key it holds.
    pub open spec fn well_placed(self) -> bool {
        forall|i: int| 0 <= i < self.table.len() && #[trigger] self.table[i] != vacant_entry::<N>()
            ==> exists|j: int| 0 <= j < self.loc_funcs.len() && self.location(self.table[i].0, j) == i
    }
}

/// Replacing one element of a sequence swaps one element of its multiset.
pub proof fn lemma_update_to_multiset<A>(s: Seq<A>, i: int, v: A)
    requires
        0 <= i < s.len(),
    ensures
        s.update(i, v).to_multiset() =~= s.to_multiset().remove(s[i]).insert(v),
{
    let u = s.update(i, v);
    assert(u.remove(i) =~= s.remove(i));
    vstd::seq_lib::to_multiset_remove(u, i);
    vstd::seq_lib::to_multiset_remove(s, i);
    assert(u.contains(v)) by { assert(u[i] == v); }
    assert(u.to_multiset().count(v) > 0);
    assert(u.to_multiset() =~= u.to_multiset().remove(v).insert(v));
}

/// The first of `key`'s location indices `j >= from` whose slot in `table` is vacant.
pub open spec fn first_vacant_from<const N: usize>(
    funcs: Seq<[u8; 16]>,
    size: nat,
    table: Seq<([u128; N], [u128; N])>,
    key: [u128; N],
    from: int,
) -> Option<int>
    decreases funcs.len() - from,
{
    if from < 0 || from >= funcs.len() {
        None
    } else if table[location_spec(key@, funcs[from]@, size) as int] == vacant_entry::<N>() {
        Some(from)
    } else {
        first_vacant_from(funcs, size, table, key, from + 1)
    }
}

/// The number a 16-byte random draw stands for: its first eight bytes, little-endian.
pub open spec fn pick_of(block: Seq<u8>) -> u64 {
    spec_u64_from_le_bytes(block.subrange(0, 8))
}

/// The slot that the draw `pick` selects for an entry with key `key`: its
/// location under key index `pick mod (number of keys)`.
pub open spec fn evict_slot<const N: usize>(funcs: Seq<[u8; 16]>, size: nat, key: [u128; N], pick: u64) -> int {
    location_spec(key@, funcs[(pick % (funcs.len() as u64)) as int]@, size) as int
}

/// At most `level` rounds of cuckoo insertion of the entry in `hand`, the
/// evictions following the draws `picks` in order: the table that results,
/// whether the entry in hand found a vacant slot, and the entry left in hand
/// (the vacancy marker after success).
pub open spec fn insert_rounds<const N: usize>(
    funcs: Seq<[u8; 16]>,
    size: nat,
    table: Seq<([u128; N], [u128; N])>,
    hand: ([u128; N], [u128; N]),
    level: nat,
    picks: Seq<u64>,
) -> (Seq<([u128; N], [u128; N])>, bool, ([u128; N], [u128; N]))
    decreases level,
{
    if level == 0 {
        (table, false, hand)
    } else {
        match first_vacant_from(funcs, size, table, hand.0, 0) {
            Some(j) => (table.update(location_spec(hand.0@, funcs[j]@, size) as int, hand), true, vacant_entry::<N>()),
            None => {
                let s = evict_slot(funcs, size, hand.0, picks[0]);
                insert_rounds(funcs, size, table.update(s, hand), table[s], (level - 1) as nat, picks.drop_first())
            },
        }
    }
}

/// What an insertion of `(key, value)` into `before` gives when its random
/// draws are `picks`: the table `after` and the answer `r` are those of
/// `insert_rounds` over `max_probe` rounds; the entries of `after` with the
/// entry left in hand are those of `before` with the new entry; the entry left
/// in hand is the vacancy marker on success and, once a round has run, a real
/// entry on failure.
pub open spec fn insert_outcome<const N: usize>(
    before: CuckooView<N>,
    key: [u128; N],
    value: [u128; N],
    picks: Seq<u64>,
    after: Seq<([u128; N], [u128; N])>,
    r: bool,
) -> bool {
    let run = insert_rounds(before.loc_funcs, before.table_size, before.table, (key, value), before.max_probe, picks);
    &&& run.0 == after
    &&& run.1 == r
    &&& after.to_multiset().insert(run.2) == before.table.to_multiset().insert((key, value))
    &&& r ==> run.2 == vacant_entry::<N>()
    &&& !r && before.max_probe > 0 ==> run.2 != vacant_entry::<N>()
}

/// No occupied slot of `table` holds the key of `hand` (when `hand` is a real entry).
pub open spec fn key_absent<const N: usize>(table: Seq<([u128; N], [u128; N])>, hand: ([u128; N], [u128; N])) -> bool {
    hand != vacant_entry::<N>() ==> forall|i: int| 0 <= i < table.len() && #[trigger] table[i] != vacant_entry::<N>()
        ==> table[i].0 != hand.0
}

/// A found first vacancy is one of the key's locations and is vacant.
proof fn lemma_first_vacant_is_vacant<const N: usize>(
    funcs: Seq<[u8; 16]>,
    size: nat,
    table: Seq<([u128; N], [u128; N])>,
    key: [u128; N],
    from: int,
)
    ensures
        first_vacant_from(funcs, size, table, key, from) matches Some(j) ==> from <= j < funcs.len()
            && table[location_spec(key@, funcs[j]@, size) as int] == vacant_entry::<N>(),
    decreases funcs.len() - from,
{
    if 0 <= from < funcs.len() && table[location_spec(key@, funcs[from]@, size) as int] != vacant_entry::<N>() {
        lemma_first_vacant_is_vacant(funcs, size, table, key, from + 1);
    }
}

/// Without a vacancy from `from` on, every location from there on is occupied.
proof fn lemma_no_vacancy<const N: usize>(
    funcs: Seq<[u8; 16]>,
    size: nat,
    table: Seq<([u128; N], [u128; N])>,
    key: [u128; N],
    from: int,
)
    requires
        0 <= from,
        first_vacant_from(funcs, size, table, key, from) is None,
    ensures
        forall|j: int| from <= j < funcs.len() ==> #[trigger] table[location_spec(key@, funcs[j]@, size) as int]
            != vacant_entry::<N>(),
    decreases funcs.len() - from,
{
    if from < funcs.len() {
        lemma_no_vacancy(funcs, size, table, key, from + 1);
    }
}

/// Cuckoo hash table without a stash. A vacant slot holds the all-zero pair,
/// so an all-zero key and value cannot be told apart from a vacancy.
pub struct CuckooHash<const NUM_LIMBS: usize> {
    table: Vec<([u128; NUM_LIMBS], [u128; NUM_LIMBS])>,
    loc_funcs: Vec<[u8; 16]>,
    table_size: usize,
    max_probe: usize,
}

impl<const NUM_LIMBS: usize> View for CuckooHash<NUM_LIMBS> {
    type V = CuckooView<NUM_LIMBS>;

    closed spec fn view(&self) -> CuckooView<NUM_LIMBS> {
        CuckooView {
            table: self.table@,
            loc_funcs: self.loc_funcs@,
            table_size: self.table_size as nat,
            max_probe: self.max_probe as nat,
        }
    }
}

impl<const NUM_LIMBS: usize> CuckooHash<NUM_LIMBS> {
    /// An empty table of `table_size` vacant slots with no location keys.
    pub fn new(table_size: usize, max_probe: usize) -> (r: Self)
        ensures
            r@.table == Seq::new(table_size as nat, |i: int| vacant_entry::<NUM_LIMBS>()),
            r@.loc_funcs == Seq::<[u8; 16]>::empty(),
            r@.table_size == table_size,
            r@.max_probe == max_probe,
            r@.wf(),
            r@.well_placed(),
    {
        let mut table: Vec<([u128; NUM_LIMBS], [u128; NUM_LIMBS])> = Vec::new();
        for i in 0..table_size
            invariant
                table@ == Seq::new(i as nat, |k: int| vacant_entry::<NUM_LIMBS>()),
        {
            table.push(new_vacant_entry());
            assert(table@ =~= Seq::new((i + 1) as nat, |k: int| vacant_entry::<NUM_LIMBS>()));
        }
        Self { table, loc_funcs: Vec::new(), table_size, max_probe }
    }

    /// The number of slots.
    pub fn table_size(&self) -> (r: usize)
        ensures
            r == self@.table_size,
    {
        self.table_size
    }

    /// Replaces the location keys by `loc_func_count` keys derived from `seed`,
    /// or from a fresh random seed when none is given.
    pub fn generate_loc_funcs(&mut self, loc_func_count: usize, seed: Option<[u8; 16]>)
        ensures
            final(self)@.table == old(self)@.table,
            final(self)@.table_size == old(self)@.table_size,
            final(self)@.max_probe == old(self)@.max_probe,
            final(self)@.wf() == old(self)@.wf(),
            final(self)@.loc_funcs.len() == loc_func_count,
            seed matches Some(s) ==> keys_derived_from(final(self)@.loc_funcs, s@),
            exists|s: [u8; 16]| #[trigger] keys_derived_from(final(self)@.loc_funcs, s@),
    {
        let sd = match seed {
            Some(s) => s,
            None => random_block(),
        };
        self.loc_funcs = derive_loc_funcs(&sd, loc_func_count);
        assert(keys_derived_from(self.loc_funcs@, sd@));
    }

    /// The slot of `item` under the `loc_func_index`-th location key.
    pub fn location(&self, item: &[u128; NUM_LIMBS], loc_func_index: usize) -> (r: usize)
        requires
            loc_func_index < self@.loc_funcs.len(),
            self@.table_size > 0,
        ensures
            r as nat == self@.location(*item, loc_func_index as int),
            r < self@.table_size,
    {
        hash_location(item, &self.loc_funcs[loc_func_index], self.table_size)
    }

    /// H_1(item), H_2(item), ... in the order of the location keys.
    pub fn all_locations(&self, item: &[u128; NUM_LIMBS]) -> (r: Vec<usize>)
        requires
            self@.can_locate(),
        ensures
            r@.len() == self@.loc_funcs.len(),
            forall|j: int| 0 <= j < r@.len() ==> #[trigger] r@[j] as nat == self@.location(*item, j),
            forall|j: int| 0 <= j < r@.len() ==> r@[j] < self@.table_size,
    {
        let r = hash_locations(item, &self.loc_funcs, self.table_size);
        assert forall|j: int| 0 <= j < r@.len() implies #[trigger] r@[j] as nat == self@.location(*item, j) by {
            assert(locations_spec(item@, self.loc_funcs@, self.table_size as nat)[j] == self@.location(*item, j));
        }
        r
    }

    /// Whether some location of `item` holds an entry whose key is `item`.
    pub fn query(&self, item: &[u128; NUM_LIMBS]) -> (r: bool)
        requires
            self@.wf(),
            self@.can_locate(),
        ensures
            r == self@.holds_key(*item),
    {
        let locations = self.all_locations(item);
        for k in 0..locations.len()
            invariant
                locations@.len() == self@.loc_funcs.len(),
                self.table@.len() == self.table_size,
                forall|j: int| 0 <= j < locations@.len() ==> #[trigger] locations@[j] as nat == self@.location(*item, j),
                forall|j: int| 0 <= j < locations@.len() ==> locations@[j] < self@.table_size,
                forall|j: int| 0 <= j < k ==> self@.table[#[trigger] self@.location(*item, j) as int].0 != *item,
        {
            let loc = locations[k];
            if limbs_eq(&self.table[loc].0, item) {
                assert(self@.table[self@.location(*item, k as int) as int].0 == *item);
                return true;
            }
        }
        false
    }

    /// The first of `item`'s location indices whose slot is vacant, if any.
    pub fn first_vacant(&self, item: &[u128; NUM_LIMBS]) -> (r: Option<usize>)
        requires
            self@.wf(),
            self@.can_locate(),
        ensures
            match r {
                Some(j) => first_vacant_from(self@.loc_funcs, self@.table_size, self@.table, *item, 0) == Some(j as int),
                None => first_vacant_from(self@.loc_funcs, self@.table_size, self@.table, *item, 0) is None,
            },
    {
        let locations = self.all_locations(item);
        let ghost f = self@.loc_funcs;
        let ghost sz = self@.table_size;
        let ghost t = self@.table;
        for k in 0..locations.len()
            invariant
                f == self@.loc_funcs,
                sz == self@.table_size,
                t == self@.table,
                self.table@.len() == self.table_size,
                locations@.len() == f.len(),
                forall|j: int| 0 <= j < locations@.len() ==> #[trigger] locations@[j] as nat == self@.location(*item, j),
                forall|j: int| 0 <= j < locations@.len() ==> locations@[j] < self@.table_size,
                first_vacant_from(f, sz, t, *item, 0) == first_vacant_from(f, sz, t, *item, k as int),
        {
            let loc = locations[k];
            if entry_is_vacant(&self.table[loc]) {
                return Some(k);
            }
        }
        None
    }

    /// One eviction step: the slot that the drawn `block` selects among the
    /// locations of `item`'s key (the key index being the block's first eight
    /// bytes, little-endian, modulo the number of keys) receives `item`, and
    /// its former occupant is handed back.
    pub fn evict(&mut self, item: ([u128; NUM_LIMBS], [u128; NUM_LIMBS]), block: &[u8; 16]) -> (out: ([u128; NUM_LIMBS], [u128; NUM_LIMBS]))
        requires
            old(self)@.wf(),
            old(self)@.loc_funcs.len() > 0,
            old(self)@.table_size > 0,
        ensures
            final(self)@.loc_funcs == old(self)@.loc_funcs,
            final(self)@.table_size == old(self)@.table_size,
            final(self)@.max_probe == old(self)@.max_probe,
            final(self)@.wf(),
            final(self)@.table == old(self)@.table.update(
                evict_slot(old(self)@.loc_funcs, old(self)@.table_size, item.0, pick_of(block@)), item),
            out == old(self)@.table[evict_slot(old(self)@.loc_funcs, old(self)@.table_size, item.0, pick_of(block@))],
    {
        let pick = u64_from_le_bytes(vstd::slice::slice_subrange(block.as_slice(), 0, 8));
        let idx = (pick % (self.loc_funcs.len() as u64)) as usize;
        let swap_location = self.location(&item.0, idx);
        let temp = self.table[swap_location];
        self.table.set(swap_location, item);
        temp
    }

    /// Inserts `(key, value)` by cuckoo eviction. Answers `false` at once, with
    /// the table unchanged, when `key` is found. Otherwise, for at most
    /// `max_probe` rounds, the entry in hand goes to the first vacant one of its
    /// locations (answer `true`), or, when all are taken, evicts the occupant of
    /// a location picked by a random draw and takes it in hand. When the rounds
    /// run out the answer is `false` and the entry in hand (a real entry, once a
    /// round has run) is dropped: there is no stash.
    pub fn insert(&mut self, key: &[u128; NUM_LIMBS], value: &[u128; NUM_LIMBS]) -> (r: bool)
        requires
            old(self)@.wf(),
            old(self)@.can_locate(),
            old(self)@.max_probe > 0 ==> old(self)@.loc_funcs.len() > 0,
        ensures
            final(self)@.loc_funcs == old(self)@.loc_funcs,
            final(self)@.table_size == old(self)@.table_size,
            final(self)@.max_probe == old(self)@.max_probe,
            final(self)@.wf(),
            old(self)@.holds_key(*key) ==> !r && final(self)@.table == old(self)@.table,
            !old(self)@.holds_key(*key) ==> exists|picks: Seq<u64>|
                #[trigger] insert_outcome(old(self)@, *key, *value, picks, final(self)@.table, r),
            !old(self)@.holds_key(*key) && old(self)@.max_probe == 0 ==> !r && final(self)@.table == old(self)@.table,
            !old(self)@.holds_key(*key) && old(self)@.max_probe > 0 ==> (
                first_vacant_from(old(self)@.loc_funcs, old(self)@.table_size, old(self)@.table, *key, 0) matches Some(j)
                ==> r && final(self)@.table == old(self)@.table.update(old(self)@.location(*key, j) as int, (*key, *value))),
            old(self)@.well_placed() ==> final(self)@.well_placed(),
            old(self)@.well_placed() && old(self)@.keys_distinct() ==> final(self)@.keys_distinct(),
            r && (*key, *value) != vacant_entry::<NUM_LIMBS>() ==> exists|j: int| 0 <= j < final(self)@.loc_funcs.len()
                && #[trigger] final(self)@.table[final(self)@.location(*key, j) as int] == (*key, *value),
    {
        if self.query(key) {
            return false;
        }
        let ghost old_view = self@;
        let ghost f = self@.loc_funcs;
        let ghost sz = self@.table_size;
        let ghost kv = (*key, *value);
        let ghost start = self@.table.to_multiset().insert(kv);
        let mut level: usize = self.max_probe;
        let mut hand = (*key, *value);
        let ghost mut picks: Seq<u64> = Seq::empty();
        proof {
            assert forall|rest: Seq<u64>| #[trigger] insert_rounds(f, sz, old_view.table, kv, old_view.max_probe, picks + rest)
                == insert_rounds(f, sz, self@.table, hand, level as nat, rest) by {
                assert(picks + rest =~= rest);
            }
            if old_view.well_placed() {
                lemma_not_held_not_stored(old_view, *key);
            }
        }
        while level > 0
            invariant
                self@.loc_funcs == f,
                self@.table_size == sz,
                self@.max_probe == old_view.max_probe,
                f == old_view.loc_funcs,
                sz == old_view.table_size,
                self.table@.len() == self.table_size,
                old_view.can_locate(),
                old_view.max_probe > 0 ==> old_view.loc_funcs.len() > 0,
                level <= self.max_probe,
                old_view == old(self)@,
                kv == (*key, *value),
                !old_view.holds_key(*key),
                level == old_view.max_probe ==> self@.table == old_view.table && hand == kv,
                level < old_view.max_probe ==> hand != vacant_entry::<NUM_LIMBS>(),
                self@.table.to_multiset().insert(hand) == start,
                start == old_view.table.to_multiset().insert(kv),
                old_view.well_placed() ==> self@.well_placed(),
                old_view.well_placed() && old_view.keys_distinct() ==> self@.keys_distinct() && key_absent(self@.table, hand),
                kv != vacant_entry::<NUM_LIMBS>() ==> hand == kv || exists|j: int| 0 <= j < f.len()
                    && #[trigger] self@.table[self@.location(*key, j) as int] == kv,
                forall|rest: Seq<u64>| #[trigger] insert_rounds(f, sz, old_view.table, kv, old_view.max_probe, picks + rest)
                    == insert_rounds(f, sz, self@.table, hand, level as nat, rest),
            decreases level,
        {
            let ghost before = self@;
            match self.first_vacant(&hand.0) {
                Some(j) => {
                    proof {
                        lemma_first_vacant_is_vacant(f, sz, before.table, hand.0, 0);
                    }
                    let loc = self.location(&hand.0, j);
                    proof {
                        lemma_update_to_multiset(before.table, loc as int, hand);
                        assert(before.table.contains(vacant_entry::<NUM_LIMBS>())) by {
                            assert(before.table[loc as int] == vacant_entry::<NUM_LIMBS>());
                        }
                    }
                    self.table.set(loc, hand);
                    proof {
                        assert(self@.table == before.table.update(loc as int, hand));
                        assert(self@.table.to_multiset().insert(vacant_entry::<NUM_LIMBS>())
                            =~= before.table.to_multiset().insert(hand));
                        if old_view.well_placed() {
                            lemma_write_keeps_placed(before, self@, loc as int, hand, j as int);
                        }
                        if old_view.well_placed() && old_view.keys_distinct() {
                            lemma_write_into_vacancy_distinct(before, self@, loc as int, hand);
                        }
                        if kv != vacant_entry::<NUM_LIMBS>() {
                            if hand == kv {
                                assert(self@.table[self@.location(*key, j as int) as int] == kv);
                            } else {
                                let jw = choose|jw: int| 0 <= jw < f.len()
                                    && #[trigger] before.table[before.location(*key, jw) as int] == kv;
                                assert(before.table[loc as int] == vacant_entry::<NUM_LIMBS>());
                                assert(self@.table[self@.location(*key, jw) as int] == kv);
                            }
                        }
                        assert(insert_rounds(f, sz, before.table, hand, level as nat, Seq::<u64>::empty())
                            == (self@.table, true, vacant_entry::<NUM_LIMBS>()));
                        assert(picks + Seq::<u64>::empty() =~= picks);
                        assert(insert_outcome(old_view, *key, *value, picks, self@.table, true));
                        assert(self@.table.to_multiset().insert(
                            insert_rounds(f, sz, old_view.table, kv, old_view.max_probe, picks).2) == start);
                    }
                    return true;
                },
                None => {},
            }
            let nfuncs = self.loc_funcs.len();
            let rb = random_block();
            let ghost p = pick_of(rb@);
            proof {
                lemma_no_vacancy(f, sz, before.table, hand.0, 0);
                assert(nfuncs > 0);
                assert(p % (nfuncs as u64) < nfuncs as u64);
            }
            let temp = self.evict(hand, &rb);
            proof {
                let s = evict_slot(f, sz, hand.0, p);
                let jj = (p % (f.len() as u64)) as int;
                assert(0 <= jj < f.len());
                assert(before.table[s] != vacant_entry::<NUM_LIMBS>());
                lemma_update_to_multiset(before.table, s, hand);
                assert(before.table.contains(temp)) by {
                    assert(before.table[s] == temp);
                }
                assert(self@.table.to_multiset().insert(temp) =~= before.table.to_multiset().insert(hand));
                if old_view.well_placed() {
                    lemma_write_keeps_placed(before, self@, s, hand, jj);
                }
                if old_view.well_placed() && old_view.keys_distinct() {
                    lemma_evict_distinct(before, self@, s, hand);
                }
                if kv != vacant_entry::<NUM_LIMBS>() {
                    if hand == kv {
                        assert(self@.table[self@.location(*key, jj) as int] == kv);
                    } else {
                        let jw = choose|jw: int| 0 <= jw < f.len()
                            && #[trigger] before.table[before.location(*key, jw) as int] == kv;
                        if before.location(*key, jw) as int != s {
                            assert(self@.table[self@.location(*key, jw) as int] == kv);
                        } else {
                            assert(temp == kv);
                        }
                    }
                }
                assert forall|rest: Seq<u64>| #[trigger] insert_rounds(f, sz, old_view.table, kv, old_view.max_probe, picks.push(p) + rest)
                    == insert_rounds(f, sz, self@.table, temp, (level - 1) as nat, rest) by {
                    let pr = seq![p] + rest;
                    assert(picks.push(p) + rest =~= picks + pr);
                    assert(pr[0] == p);
                    assert(pr.drop_first() =~= rest);
                }
                picks = picks.push(p);
            }
            hand = temp;
            level -= 1;
        }
        proof {
            assert(picks + Seq::<u64>::empty() =~= picks);
            assert(insert_rounds(f, sz, old_view.table, kv, old_view.max_probe, picks)
                == insert_rounds(f, sz, self@.table, hand, 0, Seq::<u64>::empty()));
            assert(insert_outcome(old_view, *key, *value, picks, self@.table, false));
        }
        false
    }

    /// The entry stored in slot `index`.
    pub fn query_table(&self, index: usize) -> (r: ([u128; NUM_LIMBS], [u128; NUM_LIMBS]))
        requires
            self@.wf(),
            index < self@.table_size,
        ensures
            r == self@.table[index as int],
    {
        self.table[index]
    }
}

/// In a well-placed table, a key that is not found is stored in no occupied slot.
proof fn lemma_not_held_not_stored<const N: usize>(v: CuckooView<N>, key: [u128; N])
    requires
        v.well_placed(),
        !v.holds_key(key),
    ensures
        forall|i: int| 0 <= i < v.table.len() && #[trigger] v.table[i] != vacant_entry::<N>() ==> v.table[i].0 != key,
{
    assert forall|i: int| 0 <= i < v.table.len() && #[trigger] v.table[i] != vacant_entry::<N>() implies v.table[i].0 != key by {
        if v.table[i].0 == key {
            let j = choose|j: int| 0 <= j < v.loc_funcs.len() && v.location(v.table[i].0, j) == i;
            assert(v.table[v.location(key, j) as int].0 == key);
        }
    }
}

/// Writing an entry at one of its own locations keeps a table well placed.
proof fn lemma_write_keeps_placed<const N: usize>(
    before: CuckooView<N>,
    after: CuckooView<N>,
    s: int,
    item: ([u128; N], [u128; N]),
    j: int,
)
    requires
        before.well_placed(),
        after.table == before.table.update(s, item),
        after.loc_funcs == before.loc_funcs,
        after.table_size == before.table_size,
        0 <= s < before.table.len(),
        0 <= j < before.loc_funcs.len(),
        s == before.location(item.0, j),
    ensures
        after.well_placed(),
{
    assert forall|i: int| 0 <= i < after.table.len() && #[trigger] after.table[i] != vacant_entry::<N>()
        implies exists|jj: int| 0 <= jj < after.loc_funcs.len() && after.location(after.table[i].0, jj) == i by {
        if i == s {
            assert(after.location(after.table[i].0, j) == i);
        } else {
            assert(before.table[i] == after.table[i]);
            let jj = choose|jj: int| 0 <= jj < before.loc_funcs.len() && before.location(before.table[i].0, jj) == i;
            assert(after.location(after.table[i].0, jj) == i);
        }
    }
}

/// Writing an entry whose key is stored nowhere into a vacant slot keeps keys distinct.
proof fn lemma_write_into_vacancy_distinct<const N: usize>(
    before: CuckooView<N>,
    after: CuckooView<N>,
    s: int,
    item: ([u128; N], [u128; N]),
)
    requires
        before.keys_distinct(),
        key_absent(before.table, item),
        0 <= s < before.table.len(),
        before.table[s] == vacant_entry::<N>(),
        after.table == before.table.update(s, item),
    ensures
        after.keys_distinct(),
{
    assert forall|i: int, j: int| 0 <= i < after.table.len() && 0 <= j < after.table.len() && i != j
        && #[trigger] after.table[i] != vacant_entry::<N>() && #[trigger] after.table[j] != vacant_entry::<N>()
        implies after.table[i].0 != after.table[j].0 by {
        if i == s {
            assert(before.table[j] == after.table[j]);
        } else if j == s {
            assert(before.table[i] == after.table[i]);
        } else {
            assert(before.table[i] == after.table[i]);
            assert(before.table[j] == after.table[j]);
        }
    }
}

/// Evicting an occupant for an entry whose key is stored nowhere keeps keys
/// distinct, and the evicted occupant's key is then stored nowhere.
proof fn lemma_evict_distinct<const N: usize>(
    before: CuckooView<N>,
    after: CuckooView<N>,
    s: int,
    item: ([u128; N], [u128; N]),
)
    requires
        before.keys_distinct(),
        key_absent(before.table, item),
        0 <= s < before.table.len(),
        before.table[s] != vacant_entry::<N>(),
        after.table == before.table.update(s, item),
    ensures
        after.keys_distinct(),
        key_absent(after.table, before.table[s]),
{
    let o = before.table[s];
    assert forall|i: int, j: int| 0 <= i < after.table.len() && 0 <= j < after.table.len() && i != j
        && #[trigger] after.table[i] != vacant_entry::<N>() && #[trigger] after.table[j] != vacant_entry::<N>()
        implies after.table[i].0 != after.table[j].0 by {
        if i == s {
            assert(before.table[j] == after.table[j]);
        } else if j == s {
            assert(before.table[i] == after.table[i]);
        } else {
            assert(before.table[i] == after.table[i]);
            assert(before.table[j] == after.table[j]);
        }
    }
    assert forall|i: int| 0 <= i < after.table.len() && #[trigger] after.table[i] != vacant_entry::<N>()
        implies after.table[i].0 != o.0 by {
        if i == s {
            assert(before.table[s] != vacant_entry::<N>());
        } else {
            assert(before.table[i] == after.table[i]);
        }
    }
}

/// A cuckoo insertion that succeeds leaves its key findable: when the table
/// after the insertion is well placed and its entries, together with one
/// vacancy, are the entries before together with `(key, value)`, then `query`
/// finds `key` (unless the pair itself is the vacancy marker).
pub proof fn lemma_inserted_key_is_found<const N: usize>(
    before: CuckooView<N>,
    after: CuckooView<N>,
    key: [u128; N],
    value: [u128; N],
)
    requires
        after.wf(),
        after.well_placed(),
        after.table.to_multiset().insert(vacant_entry::<N>())
            == before.table.to_multiset().insert((key, value)),
        (key, value) != vacant_entry::<N>(),
    ensures
        after.holds_key(key),
{
    let m = before.table.to_multiset().insert((key, value));
    assert(m.count((key, value)) > 0);
    assert(after.table.to_multiset().count((key, value)) > 0);
    assert(after.table.contains((key, value)));
    let i = choose|i: int| 0 <= i < after.table.len() && after.table[i] == (key, value);
    assert(after.table[i] != vacant_entry::<N>());
    let j = choose|j: int| 0 <= j < after.loc_funcs.len() && after.location(after.table[i].0, j) == i;
    assert(after.table[after.location(key, j) as int].0 == key);
}

/// A successful insertion loses nothing: every entry the table held before
/// (other than the vacancy marker) is still there, and its key is found.
pub proof fn lemma_insert_keeps_held_keys<const N: usize>(
    before: CuckooView<N>,
    after: CuckooView<N>,
    key: [u128; N],
    value: [u128; N],
    e: ([u128; N], [u128; N]),
)
    requires
        after.wf(),
        after.well_placed(),
        after.table.to_multiset().insert(vacant_entry::<N>())
            == before.table.to_multiset().insert((key, value)),
        before.table.contains(e),
        e != vacant_entry::<N>(),
    ensures
        after.table.contains(e),
        after.holds_key(e.0),
{
    assert(before.table.to_multiset().count(e) > 0);
    let m = before.table.to_multiset().insert((key, value));
    assert(m.count(e) > 0);
    assert(after.table.to_multiset().count(e) > 0);
    assert(after.table.contains(e));
    let i = choose|i: int| 0 <= i < after.table.len() && after.table[i] == e;
    assert(after.table[i] != vacant_entry::<N>());
    let j = choose|j: int| 0 <= j < after.loc_funcs.len() && after.location(after.table[i].0, j) == i;
    assert(after.table[after.location(e.0, j) as int].0 == e.0);
}

/// The abstract state of a simple hash table: each slot is a bin of entries.
pub struct SimpleView<const N: usize> {
    pub table: Seq<Seq<([u128; N], [u128; N])>>,
    pub loc_funcs: Seq<[u8; 16]>,
    pub table_size: nat,
    pub max_bin_size: nat,
}

impl<const N: usize> SimpleView<N> {
    /// The table has exactly `table_size` bins.
    pub open spec fn wf(self) -> bool {
        self.table.len() == self.table_size
    }

    /// Locations can be computed: either there are no location keys or there is at least one bin.
    pub open spec fn can_locate(self) -> bool {
        self.loc_funcs.len() == 0 || self.table_size > 0
    }

    /// The bin of `item` under the j-th location key.
    pub open spec fn location(self, item: [u128; N], j: int) -> nat {
        location_spec(item@, self.loc_funcs[j]@, self.table_size)
    }

    /// Every entry other than a vacancy sits in a bin of one of its key's locations.
    pub open spec fn placed(self) -> bool {
        forall|b: int, k: int| 0 <= b < self.table.len() && 0 <= k < self.table[b].len()
            && #[trigger] self.table[b][k] != vacant_entry::<N>()
            ==> exists|j: int| 0 <= j < self.loc_funcs.len() && self.location(self.table[b][k].0, j) == b
    }
}

/// Appending `e` to the bins at `locs`, one location after the other, stopping
/// right after the first append that makes a bin longer than `max`: the bins
/// that result, and whether no bin overflowed.
pub open spec fn append_to_bins<E>(bins: Seq<Seq<E>>, locs: Seq<nat>, e: E, max: nat) -> (Seq<Seq<E>>, bool)
    decreases locs.len(),
{
    if locs.len() == 0 {
        (bins, true)
    } else {
        let l = locs[0] as int;
        let grown = bins.update(l, bins[l].push(e));
        if grown[l].len() > max {
            (grown, false)
        } else {
            append_to_bins(grown, locs.drop_first(), e, max)
        }
    }
}

/// A bin padded with vacancies up to `max` entries.
pub open spec fn padded_bin<const N: usize>(bin: Seq<([u128; N], [u128; N])>, max: nat) -> Seq<([u128; N], [u128; N])> {
    if bin.len() < max {
        bin + Seq::new((max - bin.len()) as nat, |k: int| vacant_entry::<N>())
    } else {
        bin
    }
}

/// Hash table in which an entry is stored in the bins of all of its locations.
pub struct SimpleHash<const NUM_LIMBS: usize> {
    table: Vec<Vec<([u128; NUM_LIMBS], [u128; NUM_LIMBS])>>,
    loc_funcs: Vec<[u8; 16]>,
    table_size: usize,
    max_bin_size: usize,
}

impl<const NUM_LIMBS: usize> View for SimpleHash<NUM_LIMBS> {
    type V = SimpleView<NUM_LIMBS>;

    closed spec fn view(&self) -> SimpleView<NUM_LIMBS> {
        SimpleView {
            table: self.table@.map_values(|b: Vec<([u128; NUM_LIMBS], [u128; NUM_LIMBS])>| b@),
            loc_funcs: self.loc_funcs@,
            table_size: self.table_size as nat,
            max_bin_size: self.max_bin_size as nat,
        }
    }
}

impl<const NUM_LIMBS: usize> SimpleHash<NUM_LIMBS> {
    /// A table of `table_size` empty bins with no location keys; the number of
    /// location functions is fixed later by `generate_loc_funcs`.
    pub fn new(table_size: usize, max_bin_size: usize, loc_func_count: usize) -> (r: Self)
        ensures
            r@.table == Seq::new(table_size as nat, |i: int| Seq::<([u128; NUM_LIMBS], [u128; NUM_LIMBS])>::empty()),
            r@.loc_funcs == Seq::<[u8; 16]>::empty(),
            r@.table_size == table_size,
            r@.max_bin_size == max_bin_size,
            r@.wf(),
    {
        let mut table: Vec<Vec<([u128; NUM_LIMBS], [u128; NUM_LIMBS])>> = Vec::new();
        for i in 0..table_size
            invariant
                table@.len() == i,
                forall|k: int| 0 <= k < i ==> (#[trigger] table@[k])@ == Seq::<([u128; NUM_LIMBS], [u128; NUM_LIMBS])>::empty(),
        {
            table.push(Vec::new());
        }
        let r = Self { table, loc_funcs: Vec::new(), table_size, max_bin_size };
        assert(r@.table =~= Seq::new(table_size as nat, |i: int| Seq::<([u128; NUM_LIMBS], [u128; NUM_LIMBS])>::empty()));
        r
    }

    /// The number of bins.
    pub fn table_size(&self) -> (r: usize)
        ensures
            r == self@.table_size,
    {
        self.table_size
    }

    /// Replaces the location keys by `loc_func_count` keys derived from `seed`,
    /// or from a fresh random seed when none is given.
    pub fn generate_loc_funcs(&mut self, loc_func_count: usize, seed: Option<[u8; 16]>)
        ensures
            final(self)@.table == old(self)@.table,
            final(self)@.table_size == old(self)@.table_size,
            final(self)@.max_bin_size == old(self)@.max_bin_size,
            final(self)@.loc_funcs.len() == loc_func_count,
            seed matches Some(s) ==> keys_derived_from(final(self)@.loc_funcs, s@),
            exists|s: [u8; 16]| #[trigger] keys_derived_from(final(self)@.loc_funcs, s@),
    {
        let sd = match seed {
            Some(s) => s,
            None => random_block(),
        };
        self.loc_funcs = derive_loc_funcs(&sd, loc_func_count);
        assert(keys_derived_from(self.loc_funcs@, sd@));
    }

    /// The bin of `item` under the `loc_func_index`-th location key.
    pub fn location(&self, item: &[u128; NUM_LIMBS], loc_func_index: usize) -> (r: usize)
        requires
            loc_func_index < self@.loc_funcs.len(),
            self@.table_size > 0,
        ensures
            r as nat == self@.location(*item, loc_func_index as int),
            r < self@.table_size,
    {
        hash_location(item, &self.loc_funcs[loc_func_index], self.table_size)
    }

    /// H_1(item), H_2(item), ... in the order of the location keys.
    pub fn all_locations(&self, item: &[u128; NUM_LIMBS]) -> (r: Vec<usize>)
        requires
            self@.can_locate(),
        ensures
            r@.len() == self@.loc_funcs.len(),
            forall|j: int| 0 <= j < r@.len() ==> #[trigger] r@[j] as nat == self@.location(*item, j),
            forall|j: int| 0 <= j < r@.len() ==> r@[j] < self@.table_size,
    {
        let r = hash_locations(item, &self.loc_funcs, self.table_size);
        assert forall|j: int| 0 <= j < r@.len() implies #[trigger] r@[j] as nat == self@.location(*item, j) by {
            assert(locations_spec(item@, self.loc_funcs@, self.table_size as nat)[j] == self@.location(*item, j));
        }
        r
    }

    /// Appends `(key, value)` to the bin of each of its locations in turn; stops
    /// and answers `false` right after a bin grows beyond `max_bin_size`.
    pub fn insert(&mut self, key: &[u128; NUM_LIMBS], value: &[u128; NUM_LIMBS]) -> (r: bool)
        requires
            old(self)@.wf(),
            old(self)@.can_locate(),
        ensures
            final(self)@.loc_funcs == old(self)@.loc_funcs,
            final(self)@.table_size == old(self)@.table_size,
            final(self)@.max_bin_size == old(self)@.max_bin_size,
            final(self)@.wf(),
            (final(self)@.table, r) == append_to_bins(
                old(self)@.table,
                locations_spec(key@, old(self)@.loc_funcs, old(self)@.table_size),
                (*key, *value),
                old(self)@.max_bin_size,
            ),
    {
        let ghost old_view = self@;
        let ghost locs = locations_spec(key@, old_view.loc_funcs, old_view.table_size);
        let ghost target = append_to_bins(old_view.table, locs, (*key, *value), old_view.max_bin_size);
        let locations = hash_locations(key, &self.loc_funcs, self.table_size);
        assert(locations@.len() == locs.len());
        assert(locs.skip(0) =~= locs);
        for k in 0..locations.len()
            invariant
                old_view == old(self)@,
                locs == locations_spec(key@, old_view.loc_funcs, old_view.table_size),
                target == append_to_bins(old_view.table, locs, (*key, *value), old_view.max_bin_size),
                locations@.len() == locs.len(),
                forall|j: int| 0 <= j < locations@.len() ==> #[trigger] locations@[j] as nat == locs[j],
                forall|j: int| 0 <= j < locations@.len() ==> locations@[j] < self.table_size,
                self@.loc_funcs == old_view.loc_funcs,
                self@.table_size == old_view.table_size,
                self@.max_bin_size == old_view.max_bin_size,
                self@.wf(),
                target == append_to_bins(self@.table, locs.skip(k as int), (*key, *value), self@.max_bin_size),
        {
            let loc = locations[k];
            let ghost before = self@.table;
            let ghost rest = locs.skip(k as int);
            proof {
                assert(rest[0] == loc as nat);
                assert(rest.drop_first() =~= locs.skip(k + 1));
            }
            let mut bin: Vec<([u128; NUM_LIMBS], [u128; NUM_LIMBS])> = Vec::new();
            std::mem::swap(&mut bin, &mut self.table[loc]);
            bin.push((*key, *value));
            let too_big = bin.len() > self.max_bin_size;
            std::mem::swap(&mut bin, &mut self.table[loc]);
            proof {
                assert(self@.table =~= before.update(loc as int, before[loc as int].push((*key, *value))));
            }
            if too_big {
                return false;
            }
        }
        proof {
            assert(locs.skip(locations@.len() as int) =~= Seq::<nat>::empty());
        }
        true
    }

    /// Pads every bin with vacancies up to `max_bin_size` entries.
    pub fn fill_dummies(&mut self)
        requires
            old(self)@.wf(),
        ensures
            final(self)@.loc_funcs == old(self)@.loc_funcs,
            final(self)@.table_size == old(self)@.table_size,
            final(self)@.max_bin_size == old(self)@.max_bin_size,
            final(self)@.wf(),
            forall|i: int| 0 <= i < old(self)@.table_size ==> #[trigger] final(self)@.table[i]
                == padded_bin(old(self)@.table[i], old(self)@.max_bin_size),
    {
        let ghost old_view = self@;
        let n = self.table_size;
        for i in 0..n
            invariant
                n == old_view.table_size,
                old_view == old(self)@,
                self@.loc_funcs == old_view.loc_funcs,
                self@.table_size == old_view.table_size,
                self@.max_bin_size == old_view.max_bin_size,
                self@.wf(),
                forall|k: int| 0 <= k < i ==> #[trigger] self@.table[k] == padded_bin(old_view.table[k], old_view.max_bin_size),
                forall|k: int| i <= k < self@.table_size ==> #[trigger] self@.table[k] == old_view.table[k],
        {
            let ghost before = self@.table;
            assert(self@.table[i as int] == old_view.table[i as int]);
            assert(self.table@[i as int]@ == old_view.table[i as int]);
            let mut bin: Vec<([u128; NUM_LIMBS], [u128; NUM_LIMBS])> = Vec::new();
            std::mem::swap(&mut bin, &mut self.table[i]);
            let ghost b0 = bin@;
            while bin.len() < self.max_bin_size
                invariant
                    b0 == old_view.table[i as int],
                    self.max_bin_size == old_view.max_bin_size,
                    b0.len() >= self.max_bin_size ==> bin@ == b0,
                    b0.len() < self.max_bin_size ==> bin@ == b0 + Seq::new((bin@.len() - b0.len()) as nat, |k: int| vacant_entry::<NUM_LIMBS>()),
                    bin@.len() >= b0.len(),
                    b0.len() < self.max_bin_size ==> bin@.len() <= self.max_bin_size,
                decreases self.max_bin_size - bin@.len(),
            {
                bin.push(new_vacant_entry());
                assert(bin@ =~= b0 + Seq::new((bin@.len() - b0.len()) as nat, |k: int| vacant_entry::<NUM_LIMBS>()));
            }
            assert(bin@ =~= padded_bin(b0, old_view.max_bin_size));
            std::mem::swap(&mut bin, &mut self.table[i]);
            assert(self@.table =~= before.update(i as int, padded_bin(b0, old_view.max_bin_size)));
        }
    }

    /// A copy of bin `index`.
    pub fn query_table(&self, index: usize) -> (r: Vec<([u128; NUM_LIMBS], [u128; NUM_LIMBS])>)
        requires
            self@.wf(),
            index < self@.table_size,
        ensures
            r@ == self@.table[index as int],
    {
        let bin = &self.table[index];
        let mut r: Vec<([u128; NUM_LIMBS], [u128; NUM_LIMBS])> = Vec::new();
        for k in 0..bin.len()
            invariant
                r@ == bin@.take(k as int),
        {
            r.push(bin[k]);
            assert(r@ =~= bin@.take(k + 1));
        }
        assert(bin@.take(bin@.len() as int) =~= bin@);
        r
    }
}

/// What a simple-table insertion promises: bins only grow, by appending, and
/// when the insertion answers `true` the entry is in the bin of every one of
/// its locations.
pub proof fn lemma_append_to_bins<E>(bins: Seq<Seq<E>>, locs: Seq<nat>, e: E, max: nat)
    requires
        forall|j: int| 0 <= j < locs.len() ==> #[trigger] locs[j] < bins.len(),
    ensures
        append_to_bins(bins, locs, e, max).0.len() == bins.len(),
        forall|i: int| 0 <= i < bins.len() ==> bins[i].len() <= #[trigger] append_to_bins(bins, locs, e, max).0[i].len()
            && append_to_bins(bins, locs, e, max).0[i].subrange(0, bins[i].len() as int) == bins[i],
        append_to_bins(bins, locs, e, max).1 ==> forall|j: int| 0 <= j < locs.len()
            ==> append_to_bins(bins, locs, e, max).0[#[trigger] locs[j] as int].contains(e),
    decreases locs.len(),
{
    if locs.len() > 0 {
        let l = locs[0] as int;
        let grown = bins.update(l, bins[l].push(e));
        assert(locs[0] < bins.len());
        assert forall|i: int| 0 <= i < bins.len() implies grown[i].subrange(0, bins[i].len() as int) == bins[i] by {
            if i == l {
                assert(grown[i].subrange(0, bins[i].len() as int) =~= bins[i]);
            }
        }
        if grown[l].len() <= max {
            let rest = locs.drop_first();
            assert forall|j: int| 0 <= j < rest.len() implies #[trigger] rest[j] < grown.len() by {
                assert(rest[j] == locs[j + 1]);
            }
            lemma_append_to_bins(grown, rest, e, max);
            let res = append_to_bins(grown, rest, e, max);
            assert(append_to_bins(bins, locs, e, max) == res);
            assert forall|i: int| 0 <= i < bins.len() implies bins[i].len() <= #[trigger] res.0[i].len()
                && res.0[i].subrange(0, bins[i].len() as int) == bins[i] by {
                assert(grown[i].len() <= res.0[i].len());
                assert(res.0[i].subrange(0, grown[i].len() as int) == grown[i]);
                assert(res.0[i].subrange(0, bins[i].len() as int)
                    =~= grown[i].subrange(0, bins[i].len() as int));
            }
            if res.1 {
                assert forall|j: int| 0 <= j < locs.len() implies res.0[#[trigger] locs[j] as int].contains(e) by {
                    if j == 0 {
                        let g = grown[l];
                        assert(res.0[l].subrange(0, g.len() as int) == g);
                        assert(g[g.len() - 1] == e);
                        assert(res.0[l].subrange(0, g.len() as int)[g.len() - 1] == res.0[l][g.len() - 1]);
                        assert(res.0[l][g.len() - 1] == e);
                        assert(0 <= g.len() - 1 < res.0[l].len());
                    } else {
                        assert(locs[j] == rest[j - 1]);
                    }
                }
            }
        }
    }
}

/// What appending to bins can put in a bin: its old entries, and the appended
/// entry in a bin it was appended to.
pub proof fn lemma_append_contents<E>(bins: Seq<Seq<E>>, locs: Seq<nat>, e: E, max: nat)
    requires
        forall|j: int| 0 <= j < locs.len() ==> #[trigger] locs[j] < bins.len(),
    ensures
        forall|i: int, k: int| 0 <= i < bins.len() && 0 <= k < append_to_bins(bins, locs, e, max).0[i].len()
            ==> bins[i].contains(#[trigger] append_to_bins(bins, locs, e, max).0[i][k])
                || (append_to_bins(bins, locs, e, max).0[i][k] == e
                    && exists|j: int| 0 <= j < locs.len() && locs[j] == i),
    decreases locs.len(),
{
    lemma_append_to_bins(bins, locs, e, max);
    if locs.len() > 0 {
        let l = locs[0] as int;
        let grown = bins.update(l, bins[l].push(e));
        let rest = locs.drop_first();
        let res = append_to_bins(bins, locs, e, max);
        assert forall|i: int, k: int| 0 <= i < bins.len() && 0 <= k < grown[i].len()
            implies bins[i].contains(grown[i][k]) || (grown[i][k] == e && i == l) by {
            if i == l && k < bins[i].len() {
                assert(grown[i][k] == bins[i][k]);
            } else if i != l {
                assert(grown[i][k] == bins[i][k]);
            }
        }
        if grown[l].len() <= max {
            assert forall|j: int| 0 <= j < rest.len() implies #[trigger] rest[j] < grown.len() by {
                assert(rest[j] == locs[j + 1]);
            }
            lemma_append_contents(grown, rest, e, max);
            assert(res == append_to_bins(grown, rest, e, max));
            assert forall|i: int, k: int| 0 <= i < bins.len() && 0 <= k < res.0[i].len()
                implies bins[i].contains(#[trigger] res.0[i][k])
                    || (res.0[i][k] == e && exists|j: int| 0 <= j < locs.len() && locs[j] == i) by {
                let x = res.0[i][k];
                if grown[i].contains(x) {
                    let kk = choose|kk: int| 0 <= kk < grown[i].len() && grown[i][kk] == x;
                    if !bins[i].contains(x) {
                        assert(locs[0] == i);
                    }
                } else {
                    let jj = choose|jj: int| 0 <= jj < rest.len() && rest[jj] == i;
                    assert(locs[jj + 1] == i);
                }
            }
        } else {
            assert(res == (grown, false));
            assert forall|i: int, k: int| 0 <= i < bins.len() && 0 <= k < res.0[i].len()
                implies bins[i].contains(#[trigger] res.0[i][k])
                    || (res.0[i][k] == e && exists|j: int| 0 <= j < locs.len() && locs[j] == i) by {
                if !bins[i].contains(res.0[i][k]) {
                    assert(locs[0] == i);
                }
            }
        }
    }
}

/// A simple hash table keeps every entry in a bin of its own locations:
/// inserting `(key, value)` (whatever the answer) preserves that, since the
/// new entry is only appended to bins at its key's locations and old entries
/// stay where they were.
pub proof fn lemma_simple_insert_keeps_placed<const N: usize>(
    before: SimpleView<N>,
    after: SimpleView<N>,
    key: [u128; N],
    value: [u128; N],
)
    requires
        before.wf(),
        before.can_locate(),
        before.placed(),
        after.loc_funcs == before.loc_funcs,
        after.table_size == before.table_size,
        after.table == append_to_bins(
            before.table,
            locations_spec(key@, before.loc_funcs, before.table_size),
            (key, value),
            before.max_bin_size,
        ).0,
    ensures
        after.placed(),
{
    let locs = locations_spec(key@, before.loc_funcs, before.table_size);
    assert forall|j: int| 0 <= j < locs.len() implies #[trigger] locs[j] < before.table.len() by {
        vstd::arithmetic::div_mod::lemma_mod_bound(
            spec_u64_from_le_bytes(sha3_256_digest(limbs_le_bytes(key@) + before.loc_funcs[j]@).subrange(0, 8)) as int,
            before.table_size as int);
    }
    lemma_append_to_bins(before.table, locs, (key, value), before.max_bin_size);
    lemma_append_contents(before.table, locs, (key, value), before.max_bin_size);
    assert forall|b: int, k: int| 0 <= b < after.table.len() && 0 <= k < after.table[b].len()
        && #[trigger] after.table[b][k] != vacant_entry::<N>()
        implies exists|j: int| 0 <= j < after.loc_funcs.len() && after.location(after.table[b][k].0, j) == b by {
        let x = after.table[b][k];
        if before.table[b].contains(x) {
            let kk = choose|kk: int| 0 <= kk < before.table[b].len() && before.table[b][kk] == x;
            assert(before.table[b][kk] != vacant_entry::<N>());
            let j = choose|j: int| 0 <= j < before.loc_funcs.len() && before.location(before.table[b][kk].0, j) == b;
            assert(after.location(x.0, j) == b);
        } else {
            let j = choose|j: int| 0 <= j < locs.len() && locs[j] == b;
            assert(x == (key, value));
            assert(after.location(x.0, j) == b);
        }
    }
}

/// After `fill_dummies` every bin that held at most `max` entries holds
/// exactly `max`, its old entries first, and no bin holds fewer than `max`.
pub proof fn lemma_padded_bin_len<const N: usize>(bin: Seq<([u128; N], [u128; N])>, max: nat)
    ensures
        padded_bin(bin, max).len() >= max,
        bin.len() <= max ==> padded_bin(bin, max).len() == max,
        padded_bin(bin, max).subrange(0, bin.len() as int) == bin,
{
    assert(padded_bin(bin, max).subrange(0, bin.len() as int) =~= bin);
}

} // verus!
