//! The estimator: the counter table in memory and the operations on it.

use crate::hashing::fresh_seed;
use crate::hashing::slot;
use crate::hashing::Key;
use crate::sketch::Sketch;
use crate::theorems::estimate_is_minimum;
use vstd::bytes::spec_u64_to_le_bytes;
use vstd::bytes::u64_to_le_bytes;
use vstd::prelude::*;

verus! {

/// A count-min sketch: `seeds.len()` rows of counters, each row with a hash
/// seed of its own. `prefixes` holds each seed's bytes as the hasher takes
/// them, so that no operation allocates.
pub struct Estimator {
    seeds: Vec<u64>,
    prefixes: Vec<Vec<u8>>,
    counters: Vec<Vec<isize>>,
}

/// Each prefix is the little-endian bytes of the seed at its place.
spec fn encodes(prefixes: Seq<Vec<u8>>, seeds: Seq<u64>) -> bool {
    &&& prefixes.len() == seeds.len()
    &&& forall|i: int|
        0 <= i < seeds.len() ==> (#[trigger] prefixes[i])@ == spec_u64_to_le_bytes(seeds[i])
}

impl View for Estimator {
    type V = Sketch;

    closed spec fn view(&self) -> Sketch {
        Sketch {
            seeds: self.seeds@,
            rows: Seq::new(self.counters@.len(), |i: int| self.counters@[i]@),
        }
    }
}

impl Estimator {
    /// The table is well formed and each row's prefix is its seed's bytes.
    pub closed spec fn wf(&self) -> bool {
        &&& self@.wf()
        &&& encodes(self.prefixes@, self.seeds@)
    }

    /// A well-formed estimator has a well-formed table.
    pub proof fn lemma_wf_view(&self)
        requires
            self.wf(),
        ensures
            self@.wf(),
    {
    }

    /// Creates an estimator of `hashes` rows with `slots` counters each, all
    /// zero. Each row gets a seed of its own, drawn afresh.
    pub fn new(hashes: usize, slots: usize) -> (estimator: Estimator)
        requires
            hashes >= 1,
            slots >= 1,
        ensures
            estimator.wf(),
            estimator@.depth() == hashes,
            estimator@.width() == slots,
            estimator@.is_zero(),
    {
        let mut seeds: Vec<u64> = Vec::with_capacity(hashes);
        let mut i: usize = 0;
        while i < hashes
            invariant
                i <= hashes,
                seeds@.len() == i,
            decreases hashes - i,
        {
            seeds.push(fresh_seed());
            i += 1;
        }
        Estimator::with_seeds(seeds, slots)
    }

    /// Creates an estimator with one row for each of `seeds`, in their order,
    /// with `slots` counters each, all zero.
    pub fn with_seeds(seeds: Vec<u64>, slots: usize) -> (estimator: Estimator)
        requires
            seeds@.len() >= 1,
            slots >= 1,
        ensures
            estimator@ == Sketch::zeroed(seeds@, slots as nat),
            estimator.wf(),
    {
        let depth = seeds.len();
        let mut counters: Vec<Vec<isize>> = Vec::with_capacity(depth);
        let mut prefixes: Vec<Vec<u8>> = Vec::with_capacity(depth);
        let mut i: usize = 0;
        while i < depth
            invariant
                depth == seeds@.len(),
                i <= depth,
                counters@.len() == i,
                encodes(prefixes@, seeds@.take(i as int)),
                forall|k: int|
                    0 <= k < i ==> (#[trigger] counters@[k])@ == Seq::new(
                        slots as nat,
                        |j: int| 0isize,
                    ),
            decreases depth - i,
        {
            let mut row: Vec<isize> = Vec::with_capacity(slots);
            let mut j: usize = 0;
            while j < slots
                invariant
                    j <= slots,
                    row@.len() == j,
                    forall|k: int| 0 <= k < j ==> row@[k] == 0,
                decreases slots - j,
            {
                row.push(0);
                j += 1;
            }
            counters.push(row);
            prefixes.push(u64_to_le_bytes(seeds[i]));
            i += 1;
        }
        let estimator = Estimator { seeds, prefixes, counters };
        assert(estimator@.rows =~= Sketch::zeroed(seeds@, slots as nat).rows);
        estimator
    }

    /// Adds `value` to the counters of `key`, wrapping on overflow, and
    /// returns the new estimate for `key`.
    pub fn incr<K: Key + ?Sized>(&mut self, key: &K, value: isize) -> (estimate: isize)
        requires
            old(self).wf(),
        ensures
            final(self)@ == old(self)@.after_incr(key.key_bytes(), value),
            final(self).wf(),
            estimate == final(self)@.estimate(key.key_bytes()),
            final(self)@.is_minimum(key.key_bytes(), estimate as int),
    {
        let bytes = key.as_key_bytes();
        let ghost before = self@;
        let ghost after = before.after_incr(bytes@, value);
        let width = self.counters[0].len();
        let depth = self.counters.len();
        let mut least = isize::MAX;
        let mut i: usize = 0;
        while i < depth
            invariant
                before.wf(),
                after == before.after_incr(bytes@, value),
                depth == before.depth(),
                width == before.width(),
                i <= depth,
                self.seeds@ == before.seeds,
                encodes(self.prefixes@, before.seeds),
                self.counters@.len() == depth,
                forall|k: int| 0 <= k < i ==> (#[trigger] self.counters@[k])@ == after.rows[k],
                forall|k: int| i <= k < depth ==> (#[trigger] self.counters@[k])@ == before.rows[k],
                least == after.min_upto(bytes@, i as nat),
            decreases depth - i,
        {
            let j = slot(self.prefixes[i].as_slice(), bytes, width);
            let next = self.counters[i][j].wrapping_add(value);
            self.counters[i][j] = next;
            if next < least {
                least = next;
            }
            i += 1;
        }
        assert(self@.rows =~= after.rows);
        proof {
            estimate_is_minimum(after, bytes@);
        }
        least
    }

    /// Subtracts `value` from the counters of `key`, wrapping on overflow.
    pub fn decr<K: Key + ?Sized>(&mut self, key: &K, value: isize)
        requires
            old(self).wf(),
        ensures
            final(self)@ == old(self)@.after_decr(key.key_bytes(), value),
            final(self).wf(),
    {
        let bytes = key.as_key_bytes();
        let ghost before = self@;
        let ghost after = before.after_decr(bytes@, value);
        let width = self.counters[0].len();
        let depth = self.counters.len();
        let mut i: usize = 0;
        while i < depth
            invariant
                before.wf(),
                after == before.after_decr(bytes@, value),
                depth == before.depth(),
                width == before.width(),
                i <= depth,
                self.seeds@ == before.seeds,
                encodes(self.prefixes@, before.seeds),
                self.counters@.len() == depth,
                forall|k: int| 0 <= k < i ==> (#[trigger] self.counters@[k])@ == after.rows[k],
                forall|k: int| i <= k < depth ==> (#[trigger] self.counters@[k])@ == before.rows[k],
            decreases depth - i,
        {
            let j = slot(self.prefixes[i].as_slice(), bytes, width);
            let next = self.counters[i][j].wrapping_sub(value);
            self.counters[i][j] = next;
            i += 1;
        }
        assert(self@.rows =~= after.rows);
    }

    /// Returns the estimated frequency of `key`: the least of its counters.
    pub fn get<K: Key + ?Sized>(&self, key: &K) -> (estimate: isize)
        requires
            self.wf(),
        ensures
            estimate == self@.estimate(key.key_bytes()),
            self@.is_minimum(key.key_bytes(), estimate as int),
    {
        let bytes = key.as_key_bytes();
        let width = self.counters[0].len();
        let depth = self.counters.len();
        let mut least = isize::MAX;
        let mut i: usize = 0;
        while i < depth
            invariant
                self.wf(),
                depth == self@.depth(),
                width == self@.width(),
                i <= depth,
                least == self@.min_upto(bytes@, i as nat),
            decreases depth - i,
        {
            assert(self@.rows[i as int].len() == width);
            let j = slot(self.prefixes[i].as_slice(), bytes, width);
            let current = self.counters[i][j];
            if current < least {
                least = current;
            }
            i += 1;
        }
        proof {
            estimate_is_minimum(self@, bytes@);
        }
        least
    }

    /// Sets every counter to zero.
    pub fn reset(&mut self)
        requires
            old(self).wf(),
        ensures
            final(self)@ == old(self)@.cleared(),
            final(self).wf(),
    {
        let ghost before = self@;
        let width = self.counters[0].len();
        let depth = self.counters.len();
        let mut i: usize = 0;
        assert forall|k: int| 0 <= k < depth implies (#[trigger] self.counters@[k])@.len()
            == width by {
            assert(before.rows[k].len() == width);
        }
        while i < depth
            invariant
                before.wf(),
                depth == before.depth(),
                width == before.width(),
                i <= depth,
                self.seeds@ == before.seeds,
                encodes(self.prefixes@, before.seeds),
                self.counters@.len() == depth,
                forall|k: int|
                    0 <= k < i ==> (#[trigger] self.counters@[k])@ == Seq::new(
                        width as nat,
                        |j: int| 0isize,
                    ),
                forall|k: int| i <= k < depth ==> (#[trigger] self.counters@[k])@.len() == width,
            decreases depth - i,
        {
            let mut j: usize = 0;
            while j < width
                invariant
                    i < depth,
                    j <= width,
                    self.seeds@ == before.seeds,
                    encodes(self.prefixes@, before.seeds),
                    self.counters@.len() == depth,
                    self.counters@[i as int]@.len() == width,
                    forall|k: int| 0 <= k < j ==> self.counters@[i as int]@[k] == 0,
                    forall|k: int|
                        0 <= k < i ==> (#[trigger] self.counters@[k])@ == Seq::new(
                            width as nat,
                            |j: int| 0isize,
                        ),
                    forall|k: int|
                        i < k < depth ==> (#[trigger] self.counters@[k])@.len() == width,
                decreases width - j,
            {
                self.counters[i][j] = 0;
                j += 1;
            }
            i += 1;
        }
        assert(self@.rows =~= before.cleared().rows);
    }
}

} // verus!
