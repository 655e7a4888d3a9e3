//! A Bloom filter over 64-bit hashes: a cheap pre-check that never rejects a
//! hash that was inserted, and may accept one that was not.
use vstd::prelude::*;

verus! {

/// Bits of filter per key.
pub const BITS_PER_KEY: usize = 8;

/// Number of bits probed per hash.
pub const NUM_PROBES: u64 = 3;

/// Whether bit `b` of `w` is set.
pub open spec fn word_bit(w: u64, b: u64) -> bool {
    (w >> b) & 1u64 == 1u64
}

/// The word that probe `p` of `h` reads, among `num_words` words.
pub open spec fn probe_word(h: u64, p: u64, num_words: int) -> int {
    ((h >> (21 * p + 6) as u64) as int) % num_words
}

/// The bit within that word that probe `p` of `h` reads.
pub open spec fn probe_bit(h: u64, p: u64) -> u64 {
    (h >> (21 * p) as u64) & 63u64
}

/// Whether every probe of `h` finds its bit set in `words`.
pub open spec fn all_probes_set(words: Seq<u64>, h: u64) -> bool {
    forall|p: u64|
        p < NUM_PROBES ==> word_bit(
            words[probe_word(h, p, words.len() as int)],
            #[trigger] probe_bit(h, p),
        )
}

proof fn lemma_set_bit(w: u64, b: u64, c: u64)
    requires
        b < 64,
        c < 64,
    ensures
        word_bit(w | (1u64 << b), b),
        word_bit(w, c) ==> word_bit(w | (1u64 << b), c),
{
    assert(((w | (1u64 << b)) >> b) & 1u64 == 1u64) by (bit_vector)
        requires
            b < 64,
    ;
    assert(((w >> c) & 1u64 == 1u64) ==> (((w | (1u64 << b)) >> c) & 1u64 == 1u64)) by (bit_vector)
        requires
            b < 64,
            c < 64,
    ;
}

proof fn lemma_zero_word(b: u64)
    requires
        b < 64,
    ensures
        !word_bit(0u64, b),
{
    assert((0u64 >> b) & 1u64 != 1u64) by (bit_vector)
        requires
            b < 64,
    ;
}

proof fn lemma_probe_bit_small(h: u64, p: u64)
    ensures
        probe_bit(h, p) < 64,
{
    assert((h >> (21 * p) as u64) & 63u64 < 64) by (bit_vector);
}

/// A fixed-size Bloom filter over hashes.
pub struct BloomFilter {
    words: Vec<u64>,
    inserted: Ghost<Set<u64>>,
}

impl BloomFilter {
    /// The hashes inserted so far.
    pub closed spec fn hashes(&self) -> Set<u64> {
        self.inserted@
    }

    /// The number of 64-bit words of the filter.
    pub closed spec fn num_words(&self) -> nat {
        self.words@.len()
    }

    /// Whether every probe of `h` finds its bit set, so that the filter lets
    /// `h` through.
    pub closed spec fn admits(&self, h: u64) -> bool {
        all_probes_set(self.words@, h)
    }

    /// Every inserted hash finds all its probe bits set.
    pub closed spec fn well_formed(&self) -> bool {
        &&& self.words@.len() > 0
        &&& forall|h: u64| #[trigger] self.inserted@.contains(h) ==> all_probes_set(self.words@, h)
    }

    /// An empty filter sized for `num_keys` keys.
    pub fn new(num_keys: usize) -> (r: BloomFilter)
        ensures
            r.well_formed(),
            r.hashes() == Set::<u64>::empty(),
            r.num_words() == num_keys / 64 * BITS_PER_KEY + 1,
            forall|h: u64| !r.admits(h),
    {
        let num_words = num_keys / 64 * BITS_PER_KEY + 1;
        let mut words: Vec<u64> = Vec::with_capacity(num_words);
        let mut i: usize = 0;
        while i < num_words
            invariant
                i <= num_words,
                words@.len() == i,
                forall|k: int| 0 <= k < i ==> words@[k] == 0u64,
            decreases num_words - i,
        {
            words.push(0u64);
            i = i + 1;
        }
        let r = BloomFilter { words, inserted: Ghost(Set::empty()) };
        proof {
            assert forall|h: u64| !r.admits(h) by {
                lemma_probe_bit_small(h, 0);
                lemma_zero_word(probe_bit(h, 0));
                assert(r.words@[probe_word(h, 0, r.words@.len() as int)] == 0u64);
            }
        }
        r
    }

    fn probe_at(&self, h: u64, p: u64) -> (r: (usize, u64))
        requires
            p < NUM_PROBES,
            self.words@.len() > 0,
        ensures
            r.0 == probe_word(h, p, self.words@.len() as int),
            r.1 == probe_bit(h, p),
            r.0 < self.words@.len(),
            r.1 < 64,
    {
        proof {
            lemma_probe_bit_small(h, p);
        }
        let n = self.words.len() as u64;
        let word = ((h >> (21 * p + 6)) % n) as usize;
        let bit = (h >> (21 * p)) & 63u64;
        (word, bit)
    }

    /// Records `h`; every hash recorded before stays recorded.
    pub fn insert(&mut self, h: u64)
        requires
            old(self).well_formed(),
        ensures
            final(self).well_formed(),
            final(self).hashes() == old(self).hashes().insert(h),
            final(self).num_words() == old(self).num_words(),
            final(self).admits(h),
            forall|g: u64| old(self).admits(g) ==> final(self).admits(g),
    {
        let ghost old_words = self.words@;
        let mut p: u64 = 0;
        while p < NUM_PROBES
            invariant
                p <= NUM_PROBES,
                self.words@.len() == old_words.len(),
                old_words.len() > 0,
                forall|k: int, c: u64|
                    0 <= k < old_words.len() && c < 64 && word_bit(old_words[k], c) ==> #[trigger] word_bit(self.words@[k], c),
                self.inserted == old(self).inserted,
                forall|g: u64| #[trigger] old(self).inserted@.contains(g) ==> all_probes_set(self.words@, g),
                forall|q: u64|
                    q < p ==> word_bit(
                        self.words@[probe_word(h, q, old_words.len() as int)],
                        #[trigger] probe_bit(h, q),
                    ),
            decreases NUM_PROBES - p,
        {
            let (word, bit) = self.probe_at(h, p);
            let ghost before = self.words@;
            let w = self.words[word];
            proof {
                lemma_set_bit(w, bit, 0);
            }
            self.words.set(word, w | (1u64 << bit));
            proof {
                assert forall|k: int, c: u64|
                    0 <= k < before.len() && c < 64 && word_bit(before[k], c) implies word_bit(
                    self.words@[k],
                    c,
                ) by {
                    if k == word as int {
                        lemma_set_bit(w, bit, c);
                    }
                }
                assert forall|k: int, c: u64|
                    0 <= k < old_words.len() && c < 64 && word_bit(old_words[k], c) implies #[trigger] word_bit(self.words@[k], c) by {
                    assert(word_bit(before[k], c));
                }
                assert forall|g: u64| #[trigger] old(self).inserted@.contains(g) implies all_probes_set(
                    self.words@,
                    g,
                ) by {
                    assert forall|q: u64| q < NUM_PROBES implies word_bit(
                        self.words@[probe_word(g, q, self.words@.len() as int)],
                        #[trigger] probe_bit(g, q),
                    ) by {
                        lemma_probe_bit_small(g, q);
                        assert(word_bit(before[probe_word(g, q, before.len() as int)], probe_bit(g, q)));
                    }
                }
                assert forall|q: u64| q < p + 1 implies word_bit(
                    self.words@[probe_word(h, q, old_words.len() as int)],
                    #[trigger] probe_bit(h, q),
                ) by {
                    lemma_probe_bit_small(h, q);
                    if q < p {
                        assert(word_bit(before[probe_word(h, q, old_words.len() as int)], probe_bit(h, q)));
                    }
                }
            }
            p = p + 1;
        }
        self.inserted = Ghost(self.inserted@.insert(h));
        proof {
            assert forall|g: u64| all_probes_set(old_words, g) implies all_probes_set(
                self.words@,
                g,
            ) by {
                assert forall|q: u64| q < NUM_PROBES implies word_bit(
                    self.words@[probe_word(g, q, self.words@.len() as int)],
                    #[trigger] probe_bit(g, q),
                ) by {
                    lemma_probe_bit_small(g, q);
                    assert(word_bit(old_words[probe_word(g, q, old_words.len() as int)], probe_bit(g, q)));
                }
            }
        }
    }

    /// `false` only for a hash that was never inserted.
    pub fn might_contain(&self, h: u64) -> (r: bool)
        requires
            self.well_formed(),
        ensures
            r == self.admits(h),
            self.hashes().contains(h) ==> r,
    {
        let mut p: u64 = 0;
        while p < NUM_PROBES
            invariant
                p <= NUM_PROBES,
                self.words@.len() > 0,
                self.hashes().contains(h) ==> all_probes_set(self.words@, h),
                forall|q: u64|
                    q < p ==> word_bit(
                        self.words@[probe_word(h, q, self.words@.len() as int)],
                        #[trigger] probe_bit(h, q),
                    ),
            decreases NUM_PROBES - p,
        {
            let (word, bit) = self.probe_at(h, p);
            if (self.words[word] >> bit) & 1u64 != 1u64 {
                proof {
                    assert(!word_bit(self.words@[probe_word(h, p, self.words@.len() as int)], probe_bit(h, p)));
                }
                return false;
            }
            p = p + 1;
        }
        true
    }
}

} // verus!
