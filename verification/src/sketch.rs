//! The mathematical model of the estimator: a table of counters, one row per
//! seed, and what each operation does to it.

use crate::hashing::slot_of;
use vstd::prelude::*;
use vstd::wrapping::isize_specs::wrapping_add;
use vstd::wrapping::isize_specs::wrapping_sub;

verus! {

/// A count-min sketch as a value: `seeds[i]` is the hash seed of row `i`,
/// `rows[i]` its counters.
pub struct Sketch {
    pub seeds: Seq<u64>,
    pub rows: Seq<Seq<isize>>,
}

impl Sketch {
    /// The number of rows.
    pub open spec fn depth(self) -> nat {
        self.rows.len()
    }

    /// The number of counters in each row.
    pub open spec fn width(self) -> nat {
        self.rows[0].len()
    }

    /// At least one row, one seed per row, and all rows of one width that is
    /// at least one.
    pub open spec fn wf(self) -> bool {
        &&& self.rows.len() >= 1
        &&& self.seeds.len() == self.rows.len()
        &&& self.rows[0].len() >= 1
        &&& forall|i: int|
            0 <= i < self.rows.len() ==> (#[trigger] self.rows[i]).len() == self.rows[0].len()
    }

    /// The sketch of the given seeds and width in which every counter is zero.
    pub open spec fn zeroed(seeds: Seq<u64>, width: nat) -> Sketch {
        Sketch { seeds, rows: Seq::new(seeds.len(), |i: int| Seq::new(width, |j: int| 0isize)) }
    }

    /// Every counter is zero.
    pub open spec fn is_zero(self) -> bool {
        self == Sketch::zeroed(self.seeds, self.width())
    }

    /// The position in row `i` that `key` falls on.
    pub open spec fn slot(self, i: int, key: Seq<u8>) -> int {
        slot_of(self.seeds[i], key, self.width())
    }

    /// The counter of row `i` that `key` falls on.
    pub open spec fn cell(self, i: int, key: Seq<u8>) -> isize {
        self.rows[i][self.slot(i, key)]
    }

    /// The sketch after `value` was added, wrapping, to the counter of `key`
    /// in every row.
    pub open spec fn after_incr(self, key: Seq<u8>, value: isize) -> Sketch {
        Sketch {
            seeds: self.seeds,
            rows: Seq::new(
                self.rows.len(),
                |i: int| self.rows[i].update(self.slot(i, key), wrapping_add(self.cell(i, key), value)),
            ),
        }
    }

    /// The sketch after `value` was subtracted, wrapping, from the counter of
    /// `key` in every row.
    pub open spec fn after_decr(self, key: Seq<u8>, value: isize) -> Sketch {
        Sketch {
            seeds: self.seeds,
            rows: Seq::new(
                self.rows.len(),
                |i: int| self.rows[i].update(self.slot(i, key), wrapping_sub(self.cell(i, key), value)),
            ),
        }
    }

    /// The sketch with the same seeds and shape and every counter zero.
    pub open spec fn cleared(self) -> Sketch {
        Sketch::zeroed(self.seeds, self.width())
    }

    /// The least of the counters of `key` in the first `n` rows, and the
    /// largest `isize` where `n` is zero.
    pub open spec fn min_upto(self, key: Seq<u8>, n: nat) -> int
        decreases n,
    {
        if n == 0 {
            isize::MAX as int
        } else {
            let rest = self.min_upto(key, (n - 1) as nat);
            let here = self.cell(n - 1, key) as int;
            if here < rest {
                here
            } else {
                rest
            }
        }
    }

    /// `least` is the minimum of the counters of `key`: no row holds less for
    /// the key, and some row holds exactly that.
    pub open spec fn is_minimum(self, key: Seq<u8>, least: int) -> bool {
        &&& forall|i: int| 0 <= i < self.depth() ==> least <= #[trigger] self.cell(i, key)
        &&& exists|i: int| 0 <= i < self.depth() && least == #[trigger] self.cell(i, key)
    }

    /// The estimated frequency of `key`: the least of its counters over all
    /// rows.
    pub open spec fn estimate(self, key: Seq<u8>) -> int {
        self.min_upto(key, self.depth())
    }
}

} // verus!
