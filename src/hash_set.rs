//! The set itself: a seed under which every key hashes to a distinct value,
//! the sorted hashes, and for each hash the offset of its key's record.
use crate::bloom::BloomFilter;
use crate::buffer::Buffer;
use crate::codecs::{lz4_compress, lz4_decoded, lz4_decompress, rng_advance, wyhash_of, wyrng_output};
use crate::records::{
    encode_all, get_with_offset, lemma_decode_record, lemma_offsets_increase,
    lengths_fit, offset_of, payload_len, Data,
};
use std::collections::BTreeMap;
use vstd::prelude::*;
use vstd::std_specs::cmp::OrdSpec;
use vstd::std_specs::iter::IteratorSpec;

verus! {

broadcast use {vstd::std_specs::btree::group_btree_axioms, vstd::laws_cmp::group_laws_cmp};

/// The state of the seed generator before draw `t` of a build.
pub open spec fn rng_state(t: nat) -> u64
    decreases t,
{
    if t == 0 {
        0
    } else {
        rng_advance(rng_state((t - 1) as nat))
    }
}

/// The seed that trial `t` of a build tries.
pub open spec fn trial_seed(t: nat) -> u64 {
    wyrng_output(rng_state(t))
}

/// Whether no two keys share a hash under `seed`.
pub open spec fn hashes_distinct(keys: Seq<Seq<u8>>, seed: u64) -> bool {
    forall|i: int, j: int|
        0 <= i < j < keys.len() ==> wyhash_of(keys[i], seed) != wyhash_of(keys[j], seed)
}

/// Whether one of the first `tries` trials finds a collision-free seed.
pub open spec fn some_trial_succeeds(keys: Seq<Seq<u8>>, tries: nat) -> bool {
    exists|t: nat| t < tries && hashes_distinct(keys, trial_seed(t))
}

/// Whether slot `i` of the index is the record of key `j`.
pub open spec fn slot_holds(
    seed: u64,
    keys: Seq<Seq<u8>>,
    hashes: Seq<u64>,
    offsets: Seq<usize>,
    i: int,
    j: int,
) -> bool {
    &&& 0 <= i < hashes.len()
    &&& 0 <= j < keys.len()
    &&& offsets[i] == offset_of(keys, j)
    &&& hashes[i] == wyhash_of(keys[j], seed)
}

/// Whether `hashes` and `offsets` index exactly the records of `keys` under
/// `seed`, with the hashes strictly increasing. `owner[i]` is the key that
/// slot `i` holds, and `slot[j]` the slot that holds key `j`.
pub open spec fn index_ok(
    seed: u64,
    keys: Seq<Seq<u8>>,
    hashes: Seq<u64>,
    offsets: Seq<usize>,
    owner: Seq<int>,
    slot: Seq<int>,
) -> bool {
    &&& hashes.len() == keys.len()
    &&& offsets.len() == keys.len()
    &&& owner.len() == keys.len()
    &&& slot.len() == keys.len()
    &&& forall|i: int, j: int| 0 <= i < j < hashes.len() ==> hashes[i] < hashes[j]
    &&& forall|i: int|
        #![trigger owner[i]]
        0 <= i < hashes.len() ==> slot_holds(seed, keys, hashes, offsets, i, owner[i])
    &&& forall|j: int|
        #![trigger slot[j]]
        0 <= j < keys.len() ==> slot_holds(seed, keys, hashes, offsets, slot[j], j)
}

/// Whether `hashes` and `offsets` index `keys` under `seed`: the hashes
/// strictly increase, and slots and keys pair up one to one, each slot holding
/// the hash of its key and the offset of that key's record.
#[verifier::opaque]
pub open spec fn is_index_of(seed: u64, keys: Seq<Seq<u8>>, hashes: Seq<u64>, offsets: Seq<usize>) -> bool {
    exists|owner: Seq<int>, slot: Seq<int>| #[trigger] index_ok(seed, keys, hashes, offsets, owner, slot)
}

/// Whether `seed` is the seed of the first of the first `tries` trials under
/// which `keys` hash apart.
#[verifier::opaque]
pub open spec fn first_good_seed(keys: Seq<Seq<u8>>, tries: nat, seed: u64) -> bool {
    exists|t: nat|
        t < tries && seed == #[trigger] trial_seed(t) && hashes_distinct(keys, trial_seed(t))
            && forall|u: nat| u < t ==> !hashes_distinct(keys, #[trigger] trial_seed(u))
}

/// The index and seed a successful trial leaves satisfy `is_index_of` and
/// `first_good_seed`.
proof fn lemma_build_result(
    keys: Seq<Seq<u8>>,
    tries: nat,
    t: nat,
    seed: u64,
    hashes: Seq<u64>,
    offsets: Seq<usize>,
    owner: Seq<int>,
    slot: Seq<int>,
)
    requires
        index_ok(seed, keys, hashes, offsets, owner, slot),
        t < tries,
        seed == trial_seed(t),
        hashes_distinct(keys, seed),
        forall|u: nat| u < t ==> !hashes_distinct(keys, #[trigger] trial_seed(u)),
    ensures
        is_index_of(seed, keys, hashes, offsets),
        first_good_seed(keys, tries, seed),
{
    reveal(is_index_of);
    reveal(first_good_seed);
}

/// A key whose hash appears nowhere in the index is not a member.
proof fn lemma_miss(
    seed: u64,
    keys: Seq<Seq<u8>>,
    hashes: Seq<u64>,
    offsets: Seq<usize>,
    owner: Seq<int>,
    slot: Seq<int>,
    key: Seq<u8>,
)
    requires
        index_ok(seed, keys, hashes, offsets, owner, slot),
        forall|i: int| 0 <= i < hashes.len() ==> hashes[i] != wyhash_of(key, seed),
    ensures
        !keys.contains(key),
{
    if keys.contains(key) {
        let j = choose|j: int| 0 <= j < keys.len() && keys[j] == key;
        assert(slot_holds(seed, keys, hashes, offsets, slot[j], j));
        assert(hashes[slot[j]] == wyhash_of(key, seed));
    }
}

/// Where the index holds the key's hash at `idx`, the key is a member exactly
/// when the record at that slot is the key.
proof fn lemma_hit(
    seed: u64,
    keys: Seq<Seq<u8>>,
    hashes: Seq<u64>,
    offsets: Seq<usize>,
    owner: Seq<int>,
    slot: Seq<int>,
    key: Seq<u8>,
    idx: int,
)
    requires
        index_ok(seed, keys, hashes, offsets, owner, slot),
        0 <= idx < hashes.len(),
        hashes[idx] == wyhash_of(key, seed),
    ensures
        0 <= owner[idx] < keys.len(),
        offsets[idx] == offset_of(keys, owner[idx]),
        keys.contains(key) <==> keys[owner[idx]] == key,
{
    let j = owner[idx];
    assert(slot_holds(seed, keys, hashes, offsets, idx, j));
    if keys.contains(key) && keys[j] != key {
        let m = choose|m: int| 0 <= m < keys.len() && keys[m] == key;
        let i = slot[m];
        assert(slot_holds(seed, keys, hashes, offsets, i, m));
        assert(i == idx) by {
            if i < idx {
                assert(hashes[i] < hashes[idx]);
            } else if idx < i {
                assert(hashes[idx] < hashes[i]);
            }
        }
        if m < j {
            lemma_offsets_increase(keys, m, j);
        } else if j < m {
            lemma_offsets_increase(keys, j, m);
        }
    }
}

/// A map from each key's hash to its record's offset, listed in increasing
/// order of hash, is an index of the keys.
proof fn lemma_index_from_map(
    seed: u64,
    keys: Seq<Seq<u8>>,
    m: Map<u64, usize>,
    hashes: Seq<u64>,
    offsets: Seq<usize>,
) -> (r: (Seq<int>, Seq<int>))
    requires
        hashes.len() == keys.len(),
        offsets.len() == keys.len(),
        forall|i: int, j: int| 0 <= i < j < hashes.len() ==> hashes[i] < hashes[j],
        forall|i: int|
            #![trigger hashes[i]]
            0 <= i < hashes.len() ==> m.contains_key(hashes[i]) && m[hashes[i]] == offsets[i],
        forall|k: u64| m.contains_key(k) ==> exists|i: int| 0 <= i < hashes.len() && hashes[i] == k,
        forall|j: int|
            #![trigger keys[j]]
            0 <= j < keys.len() ==> m.contains_key(wyhash_of(keys[j], seed)) && m[wyhash_of(
                keys[j],
                seed,
            )] == offset_of(keys, j),
        forall|h: u64|
            #[trigger] m.contains_key(h) ==> exists|j: int|
                0 <= j < keys.len() && h == wyhash_of(#[trigger] keys[j], seed) && m[h]
                    == offset_of(keys, j),
    ensures
        index_ok(seed, keys, hashes, offsets, r.0, r.1),
{
    let owner = Seq::new(
        hashes.len(),
        |i: int|
            choose|j: int|
                0 <= j < keys.len() && hashes[i] == wyhash_of(#[trigger] keys[j], seed)
                    && m[hashes[i]] == offset_of(keys, j),
    );
    let slot = Seq::new(
        keys.len(),
        |j: int| choose|i: int| 0 <= i < hashes.len() && hashes[i] == wyhash_of(keys[j], seed),
    );
    assert forall|i: int| 0 <= i < hashes.len() implies slot_holds(
        seed,
        keys,
        hashes,
        offsets,
        i,
        #[trigger] owner[i],
    ) by {
        assert(m.contains_key(hashes[i]));
    }
    assert forall|j: int| 0 <= j < keys.len() implies slot_holds(
        seed,
        keys,
        hashes,
        offsets,
        #[trigger] slot[j],
        j,
    ) by {
        let h = wyhash_of(keys[j], seed);
        assert(m.contains_key(h));
        let i = slot[j];
        assert(m[hashes[i]] == offsets[i]);
    }
    (owner, slot)
}

/// Whether `filter`, where there is one, holds the hash of every key.
pub open spec fn filter_ok(filter: Option<BloomFilter>, seed: u64, keys: Seq<Seq<u8>>) -> bool {
    match filter {
        Some(f) => f.well_formed() && forall|j: int|
            0 <= j < keys.len() ==> f.hashes().contains(wyhash_of(#[trigger] keys[j], seed)),
        None => true,
    }
}

/// A filter sized for `hashes` that holds each of them.
fn fill_filter(hashes: &Vec<u64>) -> (f: BloomFilter)
    ensures
        f.well_formed(),
        f.num_words() == hashes@.len() / 64 * crate::bloom::BITS_PER_KEY + 1,
        forall|i: int| 0 <= i < hashes@.len() ==> f.hashes().contains(#[trigger] hashes@[i]),
{
    let mut f = BloomFilter::new(hashes.len());
    let mut i: usize = 0;
    while i < hashes.len()
        invariant
            i <= hashes@.len(),
            f.well_formed(),
            f.num_words() == hashes@.len() / 64 * crate::bloom::BITS_PER_KEY + 1,
            forall|x: int| 0 <= x < i ==> f.hashes().contains(#[trigger] hashes@[x]),
        decreases hashes@.len() - i,
    {
        f.insert(hashes[i]);
        i = i + 1;
    }
    f
}

/// A key whose hash the filter rejects is not a member.
proof fn lemma_filter_rejects(
    f: BloomFilter,
    seed: u64,
    keys: Seq<Seq<u8>>,
    key: Seq<u8>,
)
    requires
        filter_ok(Some(f), seed, keys),
        !f.hashes().contains(wyhash_of(key, seed)),
    ensures
        !keys.contains(key),
{
    if keys.contains(key) {
        let j = choose|j: int| 0 <= j < keys.len() && keys[j] == key;
        assert(f.hashes().contains(wyhash_of(keys[j], seed)));
    }
}

/// The position of `h` in the strictly increasing `hashes`, if it is there.
fn find_hash(hashes: &Vec<u64>, h: u64) -> (r: Option<usize>)
    requires
        forall|i: int, j: int| 0 <= i < j < hashes@.len() ==> hashes@[i] < hashes@[j],
    ensures
        match r {
            Some(i) => i < hashes@.len() && hashes@[i as int] == h,
            None => forall|i: int| 0 <= i < hashes@.len() ==> hashes@[i] != h,
        },
{
    let mut lo: usize = 0;
    let mut hi: usize = hashes.len();
    while lo < hi
        invariant
            lo <= hi <= hashes@.len(),
            forall|i: int, j: int| 0 <= i < j < hashes@.len() ==> hashes@[i] < hashes@[j],
            forall|i: int| 0 <= i < lo ==> hashes@[i] < h,
            forall|i: int| hi <= i < hashes@.len() ==> hashes@[i] > h,
        decreases hi - lo,
    {
        let mid = lo + (hi - lo) / 2;
        if hashes[mid] == h {
            return Some(mid);
        } else if hashes[mid] < h {
            lo = mid + 1;
        } else {
            hi = mid;
        }
    }
    None
}

/// Whether two byte strings are equal.
fn bytes_equal(a: &[u8], b: &[u8]) -> (r: bool)
    ensures
        r == (a@ == b@),
{
    if a.len() != b.len() {
        return false;
    }
    let mut i: usize = 0;
    while i < a.len()
        invariant
            a@.len() == b@.len(),
            i <= a@.len(),
            forall|j: int| 0 <= j < i ==> a@[j] == b@[j],
        decreases a@.len() - i,
    {
        if a[i] != b[i] {
            return false;
        }
        i = i + 1;
    }
    assert(a@ =~= b@);
    true
}

/// The entries of `m` in increasing key order, split into keys and values.
fn drain_sorted(m: &BTreeMap<u64, usize>) -> (r: (Vec<u64>, Vec<usize>))
    ensures
        r.0@.len() == r.1@.len(),
        r.0@.len() == m@.dom().len(),
        forall|i: int, j: int| 0 <= i < j < r.0@.len() ==> r.0@[i] < r.0@[j],
        forall|i: int|
            #![trigger r.0@[i]]
            0 <= i < r.0@.len() ==> m@.contains_key(r.0@[i]) && m@[r.0@[i]] == r.1@[i],
        forall|k: u64| m@.contains_key(k) ==> exists|i: int| 0 <= i < r.0@.len() && r.0@[i] == k,
{
    let mut hashes: Vec<u64> = Vec::new();
    let mut offsets: Vec<usize> = Vec::new();
    let ghost items = m.iter().remaining();
    for kv in it: m.iter()
        invariant
            it.seq() == items,
            hashes@.len() == it.index(),
            offsets@.len() == it.index(),
            forall|i: int|
                0 <= i < hashes@.len() ==> hashes@[i] == *it.seq()[i].0 && offsets@[i]
                    == *it.seq()[i].1,
    {
        hashes.push(*kv.0);
        offsets.push(*kv.1);
    }
    proof {
        let keys = items.map_values(|kv: (&u64, &usize)| *kv.0);
        vstd::std_specs::btree::axiom_increasing_seq_meaning(keys);
        assert forall|i: int, j: int| 0 <= i < j < hashes@.len() implies hashes@[i]
            < hashes@[j] by {
            assert(keys[i] == hashes@[i]);
            assert(keys[j] == hashes@[j]);
            assert(keys[i].cmp_spec(&keys[j]) is Less);
        }
        assert forall|k: u64| m@.contains_key(k) implies exists|i: int|
            0 <= i < hashes@.len() && hashes@[i] == k by {
            assert(items.contains((&k, &m@[k])));
            let i = choose|i: int| 0 <= i < items.len() && items[i] == (&k, &m@[k]);
            assert(hashes@[i] == k);
        }
    }
    (hashes, offsets)
}

/// One trial: pairs each key's hash under `seed` with its record's offset in
/// `tuples`, and stops at the first hash that is already there. Returns
/// whether no hash repeated.
#[verifier::rlimit(100)]
fn run_trial(data: &Data, offs: &Vec<usize>, seed: u64, tuples: &mut BTreeMap<u64, usize>) -> (ok:
    bool)
    requires
        old(tuples)@ == Map::<u64, usize>::empty(),
        offs@.len() == data.keys().len(),
        forall|j: int| 0 <= j < offs@.len() ==> offs@[j] == offset_of(data.keys(), j),
    ensures
        ok <==> hashes_distinct(data.keys(), seed),
        ok ==> final(tuples)@.dom().len() == data.keys().len(),
        ok ==> forall|j: int|
            #![trigger data.keys()[j]]
            0 <= j < data.keys().len() ==> final(tuples)@.contains_key(
                wyhash_of(data.keys()[j], seed),
            ) && final(tuples)@[wyhash_of(data.keys()[j], seed)] == offset_of(data.keys(), j),
        ok ==> forall|h: u64|
            #[trigger] final(tuples)@.contains_key(h) ==> exists|j: int|
                0 <= j < data.keys().len() && h == wyhash_of(#[trigger] data.keys()[j], seed)
                    && final(tuples)@[h] == offset_of(data.keys(), j),
{
    let ghost ks = data.keys();
    let n = offs.len();
    let mut i: usize = 0;
    let mut collided = false;
    while i < n && !collided
        invariant
            data.keys() == ks,
            n == ks.len(),
            offs@.len() == n,
            forall|j: int| 0 <= j < n ==> offs@[j] == offset_of(ks, j),
            i <= n,
            collided ==> !hashes_distinct(ks, seed),
            !collided ==> tuples@.dom().len() == i,
            !collided ==> forall|a: int, b: int|
                0 <= a < b < i ==> wyhash_of(ks[a], seed) != wyhash_of(ks[b], seed),
            !collided ==> forall|j: int|
                #![trigger ks[j]]
                0 <= j < i ==> tuples@.contains_key(wyhash_of(ks[j], seed))
                    && tuples@[wyhash_of(ks[j], seed)] == offset_of(ks, j),
            !collided ==> forall|h: u64|
                #[trigger] tuples@.contains_key(h) ==> exists|j: int|
                    0 <= j < i && h == wyhash_of(#[trigger] ks[j], seed) && tuples@[h]
                        == offset_of(ks, j),
        decreases n - i, (if collided { 0int } else { 1int }),
    {
        let offset = offs[i];
        proof {
            assert(offset == offset_of(data.keys(), i as int));
        }
        if let Some(key) = data.get(offset) {
            proof {
                assert(key@ == ks[i as int]);
            }
            let hash = wyhash::wyhash(key, seed);
            let ghost before = tuples@;
            if tuples.insert(hash, offset).is_some() {
                proof {
                    let j = choose|j: int|
                        0 <= j < i && hash == wyhash_of(#[trigger] ks[j], seed)
                            && before[hash] == offset_of(ks, j);
                    assert(wyhash_of(ks[j], seed) == wyhash_of(ks[i as int], seed));
                }
                collided = true;
            } else {
                proof {
                    assert(tuples@.dom() == before.dom().insert(hash));
                    assert forall|h: u64| #[trigger]
                        tuples@.contains_key(h) implies exists|j: int|
                        0 <= j < i + 1 && h == wyhash_of(#[trigger] ks[j], seed)
                            && tuples@[h] == offset_of(ks, j) by {
                        if h == hash {
                            assert(h == wyhash_of(ks[i as int], seed));
                        } else {
                            assert(before.contains_key(h));
                        }
                    }
                }
                i = i + 1;
            }
        } else {
            // Every offset of `offs` starts a record, so this branch is never taken.
            proof {
                assert(false);
            }
        }
    }
    !collided
}

/// An immutable set of byte strings with a collision-free hash index over its
/// records.
pub struct HashSet {
    seed: u64,
    data: Data,
    hashes: Vec<u64>,
    offsets: Vec<usize>,
    filter: Option<BloomFilter>,
    owner: Ghost<Seq<int>>,
    slot: Ghost<Seq<int>>,
}

impl View for HashSet {
    type V = Set<Seq<u8>>;

    closed spec fn view(&self) -> Set<Seq<u8>> {
        self.data.keys().to_set()
    }
}

impl HashSet {
    /// The keys, in the order they were given.
    pub closed spec fn keys(&self) -> Seq<Seq<u8>> {
        self.data.keys()
    }

    /// The seed the keys are hashed with.
    pub closed spec fn seed(&self) -> u64 {
        self.seed
    }

    /// The Bloom filter consulted before the index, if there is one.
    pub closed spec fn bloom(&self) -> Option<BloomFilter> {
        self.filter
    }

    /// The hashes of the index, in the order they are searched.
    pub closed spec fn index_hashes(&self) -> Seq<u64> {
        self.hashes@
    }

    /// The record offset paired with each hash of the index.
    pub closed spec fn index_offsets(&self) -> Seq<usize> {
        self.offsets@
    }

    #[verifier::type_invariant]
    spec fn well_formed(&self) -> bool {
        &&& index_ok(self.seed, self.data.keys(), self.hashes@, self.offsets@, self.owner@, self.slot@)
        &&& filter_ok(self.filter, self.seed, self.data.keys())
    }

    /// Whether lookups consult a Bloom filter first.
    pub closed spec fn has_filter(&self) -> bool {
        self.filter is Some
    }

    /// Builds the set of `keys`. `len` is the number of keys and `total_size`
    /// the sum of their lengths. Each trial draws a seed from wyhash's
    /// generator, started at zero; the build succeeds with the first seed under
    /// which all keys hash apart, and gives `None` when `max_num_tries` trials
    /// find none.
    #[verifier::rlimit(40)]
    pub fn new(keys: &Vec<Vec<u8>>, len: usize, total_size: usize, max_num_tries: usize) -> (r:
        Option<HashSet>)
        requires
            len == keys@.len(),
            total_size == payload_len(keys.deep_view()),
            total_size + len * 8 <= usize::MAX,
        ensures
            r is Some <==> some_trial_succeeds(keys.deep_view(), max_num_tries as nat),
            max_num_tries == 0 ==> r is None,
            keys@.len() == 0 && max_num_tries > 0 ==> r is Some,
            match r {
                Some(s) => {
                    &&& s.keys() == keys.deep_view()
                    &&& s@ == keys.deep_view().to_set()
                    &&& s.index_hashes().len() == keys@.len()
                    &&& s.index_offsets().len() == keys@.len()
                    &&& is_index_of(s.seed(), s.keys(), s.index_hashes(), s.index_offsets())
                    &&& first_good_seed(keys.deep_view(), max_num_tries as nat, s.seed())
                    &&& !s.has_filter()
                    &&& forall|i: int, j: int|
                        0 <= i < j < s.index_hashes().len() ==> s.index_hashes()[i]
                            < s.index_hashes()[j]
                },
                None => true,
            },
    {
        let ghost ks = keys.deep_view();
        let data = Data::new(keys, len, total_size);
        let offs = data.iter();
        let n = offs.len();
        let mut rand_seed: u64 = 0;
        let mut tuples = BTreeMap::<u64, usize>::new();
        let mut t: usize = 0;
        proof {
            if ks.len() == 0 && max_num_tries > 0 {
                assert(hashes_distinct(ks, trial_seed(0)));
            }
        }
        while t < max_num_tries
            invariant
                ks == keys.deep_view(),
                data.keys() == ks,
                n == ks.len(),
                offs@.len() == n,
                forall|j: int| 0 <= j < n ==> offs@[j] == offset_of(ks, j),
                t <= max_num_tries,
                rand_seed == rng_state(t as nat),
                tuples@ == Map::<u64, usize>::empty(),
                forall|u: nat| u < t ==> !hashes_distinct(ks, #[trigger] trial_seed(u)),
            decreases max_num_tries - t,
        {
            let seed: u64 = wyhash::wyrng(&mut rand_seed);
            let collided = !run_trial(&data, &offs, seed, &mut tuples);
            if !collided {
                let drained = drain_sorted(&tuples);
                let hashes = drained.0;
                let offsets = drained.1;
                let ghost witnesses = lemma_index_from_map(seed, ks, tuples@, hashes@, offsets@);
                proof {
                    assert(hashes_distinct(ks, trial_seed(t as nat)));
                    assert(some_trial_succeeds(ks, max_num_tries as nat));
                    assert(ks.to_set() == data.keys().to_set());
                    lemma_build_result(
                        ks,
                        max_num_tries as nat,
                        t as nat,
                        seed,
                        hashes@,
                        offsets@,
                        witnesses.0,
                        witnesses.1,
                    );
                }
                return Some(
                    HashSet {
                        seed,
                        data,
                        hashes,
                        offsets,
                        filter: None,
                        owner: Ghost(witnesses.0),
                        slot: Ghost(witnesses.1),
                    },
                );
            }
            tuples.clear();
            t = t + 1;
        }
        None
    }

    /// Whether `key` is one of the keys the set was built from.
    pub fn contains(&self, key: &[u8]) -> (r: bool)
        ensures
            r == self@.contains(key@),
    {
        proof {
            use_type_invariant(self);
        }
        let h = wyhash::wyhash(key, self.seed);
        if let Some(f) = &self.filter {
            if !f.might_contain(h) {
                proof {
                    lemma_filter_rejects(*f, self.seed, self.data.keys(), key@);
                }
                return false;
            }
        }
        match find_hash(&self.hashes, h) {
            None => {
                proof {
                    lemma_miss(
                        self.seed,
                        self.data.keys(),
                        self.hashes@,
                        self.offsets@,
                        self.owner@,
                        self.slot@,
                        key@,
                    );
                }
                false
            },
            Some(idx) => {
                proof {
                    lemma_hit(
                        self.seed,
                        self.data.keys(),
                        self.hashes@,
                        self.offsets@,
                        self.owner@,
                        self.slot@,
                        key@,
                        idx as int,
                    );
                }
                match self.data.get(self.offsets[idx]) {
                    Some(res) => bytes_equal(res, key),
                    None => false,
                }
            },
        }
    }

    /// The same set, with a Bloom filter over its hashes consulted before the
    /// index on every lookup.
    pub fn with_filter(self) -> (r: HashSet)
        ensures
            r.keys() == self.keys(),
            r@ == self@,
            r.has_filter(),
            r.seed() == self.seed(),
            r.index_hashes() == self.index_hashes(),
            r.index_offsets() == self.index_offsets(),
            r.bloom() matches Some(f) && f.well_formed() && f.num_words()
                == self.index_hashes().len() / 64 * crate::bloom::BITS_PER_KEY + 1 && forall|i: int|
                0 <= i < self.index_hashes().len() ==> f.hashes().contains(
                    #[trigger] self.index_hashes()[i],
                ),
    {
        proof {
            use_type_invariant(&self);
        }
        let f = fill_filter(&self.hashes);
        proof {
            let keys = self.data.keys();
            assert forall|j: int| 0 <= j < keys.len() implies f.hashes().contains(
                wyhash_of(#[trigger] keys[j], self.seed),
            ) by {
                assert(slot_holds(self.seed, keys, self.hashes@, self.offsets@, self.slot@[j], j));
                assert(f.hashes().contains(self.hashes@[self.slot@[j]]));
            }
        }
        HashSet {
            seed: self.seed,
            data: self.data,
            hashes: self.hashes,
            offsets: self.offsets,
            filter: Some(f),
            owner: self.owner,
            slot: self.slot,
        }
    }

    /// Replaces the records by one lz4 blob; the index is carried over as it
    /// is. The records must fit lz4's 4-byte length header.
    pub fn compress(self) -> (r: CompressedHashSet)
        requires
            encode_all(self.keys()).len() <= u32::MAX,
        ensures
            r.keys() == self.keys(),
            r@ == self@,
            r.has_filter() == self.has_filter(),
            r.bloom() == self.bloom(),
            r.seed() == self.seed(),
            r.index_hashes() == self.index_hashes(),
            r.index_offsets() == self.index_offsets(),
            lz4_decoded(r.blob()) == Some(encode_all(self.keys())),
    {
        proof {
            use_type_invariant(&self);
        }
        let compressed = lz4_compress(self.data.as_bytes());
        let mut buf = Buffer::new(compressed.len());
        buf.write_at(0, compressed.as_slice());
        proof {
            assert(buf@ =~= compressed@);
        }
        CompressedHashSet {
            seed: self.seed,
            data: buf,
            hashes: self.hashes,
            offsets: self.offsets,
            filter: self.filter,
            keys: Ghost(self.data.keys()),
            owner: self.owner,
            slot: self.slot,
        }
    }
}

/// A `HashSet` whose records are held as one lz4 blob, decoded afresh on
/// every lookup.
pub struct CompressedHashSet {
    seed: u64,
    data: Buffer,
    hashes: Vec<u64>,
    offsets: Vec<usize>,
    filter: Option<BloomFilter>,
    keys: Ghost<Seq<Seq<u8>>>,
    owner: Ghost<Seq<int>>,
    slot: Ghost<Seq<int>>,
}

impl View for CompressedHashSet {
    type V = Set<Seq<u8>>;

    closed spec fn view(&self) -> Set<Seq<u8>> {
        self.keys@.to_set()
    }
}

impl CompressedHashSet {
    /// The keys, in the order they were given.
    pub closed spec fn keys(&self) -> Seq<Seq<u8>> {
        self.keys@
    }

    /// The lz4 blob that holds the records.
    pub closed spec fn blob(&self) -> Seq<u8> {
        self.data@
    }

    /// The seed the keys are hashed with.
    pub closed spec fn seed(&self) -> u64 {
        self.seed
    }

    /// The Bloom filter consulted before the index, if there is one.
    pub closed spec fn bloom(&self) -> Option<BloomFilter> {
        self.filter
    }

    /// The hashes of the index, in the order they are searched.
    pub closed spec fn index_hashes(&self) -> Seq<u64> {
        self.hashes@
    }

    /// The record offset paired with each hash of the index.
    pub closed spec fn index_offsets(&self) -> Seq<usize> {
        self.offsets@
    }

    #[verifier::type_invariant]
    spec fn well_formed(&self) -> bool {
        &&& lz4_decoded(self.data@) == Some(encode_all(self.keys@))
        &&& lengths_fit(self.keys@)
        &&& index_ok(self.seed, self.keys@, self.hashes@, self.offsets@, self.owner@, self.slot@)
        &&& filter_ok(self.filter, self.seed, self.keys@)
    }

    /// Whether lookups consult a Bloom filter first.
    pub closed spec fn has_filter(&self) -> bool {
        self.filter is Some
    }

    /// Whether `key` is one of the keys the set was built from.
    pub fn contains(&self, key: &[u8]) -> (r: bool)
        ensures
            r == self@.contains(key@),
    {
        proof {
            use_type_invariant(self);
        }
        let h = wyhash::wyhash(key, self.seed);
        if let Some(f) = &self.filter {
            if !f.might_contain(h) {
                proof {
                    lemma_filter_rejects(*f, self.seed, self.keys@, key@);
                }
                return false;
            }
        }
        match find_hash(&self.hashes, h) {
            None => {
                proof {
                    lemma_miss(
                        self.seed,
                        self.keys@,
                        self.hashes@,
                        self.offsets@,
                        self.owner@,
                        self.slot@,
                        key@,
                    );
                }
                false
            },
            Some(idx) => {
                proof {
                    lemma_hit(
                        self.seed,
                        self.keys@,
                        self.hashes@,
                        self.offsets@,
                        self.owner@,
                        self.slot@,
                        key@,
                        idx as int,
                    );
                    lemma_decode_record(self.keys@, self.owner@[idx as int]);
                }
                let offset = self.offsets[idx];
                match lz4_decompress(self.data.as_slice()) {
                    Some(records) => match get_with_offset(records.as_slice(), offset) {
                        Some(res) => bytes_equal(res, key),
                        None => false,
                    },
                    None => false,
                }
            },
        }
    }
}

/// A built set holds exactly the keys it was built from: each of them is a
/// member, and nothing else is.
pub proof fn members_are_the_keys(s: &HashSet, k: Seq<u8>)
    ensures
        s@.contains(k) <==> s.keys().contains(k),
{
}

/// A set built from no keys has no members.
pub proof fn empty_build_has_no_members(s: &HashSet, k: Seq<u8>)
    requires
        s.keys().len() == 0,
    ensures
        !s@.contains(k),
{
}

/// Compression changes no answer: the compressed form of a set holds the
/// same members, and these are exactly the keys it was built from.
pub proof fn compression_keeps_members(s: &HashSet, c: &CompressedHashSet, k: Seq<u8>)
    requires
        c.keys() == s.keys(),
    ensures
        c@.contains(k) == s@.contains(k),
        c@.contains(k) <==> c.keys().contains(k),
{
}

} // verus!
