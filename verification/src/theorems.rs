//! What holds of the sketch model whatever the keys, seeds and counters are.

use crate::hashing::lemma_slot_in_range;
use crate::hashing::slot_of;
use crate::sketch::Sketch;
use vstd::prelude::*;

verus! {

/// The least counter of the first `n` rows is no greater than any of them,
/// and, where `n` is at least one, it is one of them.
pub proof fn lemma_min_upto_is_least(s: Sketch, key: Seq<u8>, n: nat)
    ensures
        s.min_upto(key, n) <= isize::MAX,
        forall|i: int| 0 <= i < n ==> s.min_upto(key, n) <= #[trigger] s.cell(i, key),
        n >= 1 ==> exists|i: int| 0 <= i < n && s.min_upto(key, n) == #[trigger] s.cell(i, key),
    decreases n,
{
    if n >= 1 {
        lemma_min_upto_is_least(s, key, (n - 1) as nat);
    }
}

/// Where each of the first `n` counters of `key` in `s` is no greater than
/// its counterpart in `t`, so is their least.
pub proof fn lemma_min_upto_monotone(s: Sketch, t: Sketch, key: Seq<u8>, n: nat)
    requires
        forall|i: int| 0 <= i < n ==> #[trigger] s.cell(i, key) <= t.cell(i, key),
    ensures
        s.min_upto(key, n) <= t.min_upto(key, n),
    decreases n,
{
    if n >= 1 {
        lemma_min_upto_monotone(s, t, key, (n - 1) as nat);
    }
}

/// Where each of the first `n` counters of `key` in `t` is its counterpart
/// in `s` plus `delta`, so is their least.
pub proof fn lemma_min_upto_shift(s: Sketch, t: Sketch, key: Seq<u8>, n: nat, delta: int)
    requires
        n >= 1,
        forall|i: int| 0 <= i < n ==> #[trigger] t.cell(i, key) == s.cell(i, key) + delta,
    ensures
        t.min_upto(key, n) == s.min_upto(key, n) + delta,
    decreases n,
{
    if n >= 2 {
        lemma_min_upto_shift(s, t, key, (n - 1) as nat, delta);
    } else {
        assert(s.min_upto(key, 0) == isize::MAX);
        assert(t.min_upto(key, 0) == isize::MAX);
    }
}

/// The estimate of a key is the minimum of its counters: no row holds less
/// for the key, and some row holds exactly that.
pub proof fn estimate_is_minimum(s: Sketch, key: Seq<u8>)
    requires
        s.wf(),
    ensures
        s.is_minimum(key, s.estimate(key)),
{
    lemma_min_upto_is_least(s, key, s.depth());
}

/// After all counters were cleared, every key is estimated at zero.
pub proof fn cleared_estimates_zero(s: Sketch, key: Seq<u8>)
    requires
        s.wf(),
    ensures
        s.cleared().wf(),
        s.cleared().estimate(key) == 0,
{
    let t = s.cleared();
    assert forall|i: int| 0 <= i < t.depth() implies #[trigger] t.cell(i, key) == 0 by {
        lemma_slot_in_range(t.seeds[i], key, t.width());
    }
    lemma_min_upto_is_least(t, key, t.depth());
}

/// An increment keeps the seeds and the shape of the sketch.
pub proof fn incr_keeps_shape(s: Sketch, key: Seq<u8>, value: isize)
    requires
        s.wf(),
    ensures
        s.after_incr(key, value).wf(),
        s.after_incr(key, value).seeds == s.seeds,
        s.after_incr(key, value).depth() == s.depth(),
        s.after_incr(key, value).width() == s.width(),
{
}

/// What an increment of `other` does to the counter of `key` in row `i`: it
/// adds `value`, wrapping, where both keys fall on the same counter of that
/// row, and leaves it unchanged otherwise.
pub proof fn incr_changes_cell(s: Sketch, other: Seq<u8>, value: isize, key: Seq<u8>, i: int)
    requires
        s.wf(),
        0 <= i < s.depth(),
    ensures
        s.after_incr(other, value).cell(i, key) == if s.slot(i, key) == s.slot(i, other) {
            vstd::wrapping::isize_specs::wrapping_add(s.cell(i, key), value)
        } else {
            s.cell(i, key)
        },
{
    incr_keeps_shape(s, other, value);
    lemma_slot_in_range(s.seeds[i], key, s.width());
    lemma_slot_in_range(s.seeds[i], other, s.width());
}

/// Absent overflow, an increment of a key raises its estimate by exactly the
/// value added.
pub proof fn incr_adds_to_estimate(s: Sketch, key: Seq<u8>, value: isize)
    requires
        s.wf(),
        forall|i: int|
            0 <= i < s.depth() ==> isize::MIN <= (#[trigger] s.cell(i, key)) + value <= isize::MAX,
    ensures
        s.after_incr(key, value).estimate(key) == s.estimate(key) + value,
{
    let t = s.after_incr(key, value);
    incr_keeps_shape(s, key, value);
    assert forall|i: int| 0 <= i < s.depth() implies #[trigger] t.cell(i, key) == s.cell(i, key)
        + value by {
        incr_changes_cell(s, key, value, key, i);
    }
    lemma_min_upto_shift(s, t, key, s.depth(), value as int);
}

/// Absent overflow, an increment by a value that is not negative lowers no
/// estimate, whichever key is incremented: the estimates that a run of such
/// increments returns for one key never decrease.
pub proof fn incr_never_lowers_estimate(s: Sketch, other: Seq<u8>, value: isize, key: Seq<u8>)
    requires
        s.wf(),
        value >= 0,
        forall|i: int| 0 <= i < s.depth() ==> (#[trigger] s.cell(i, other)) + value <= isize::MAX,
    ensures
        s.after_incr(other, value).estimate(key) >= s.estimate(key),
{
    let t = s.after_incr(other, value);
    incr_keeps_shape(s, other, value);
    assert forall|i: int| 0 <= i < s.depth() implies #[trigger] s.cell(i, key) <= t.cell(
        i,
        key,
    ) by {
        incr_changes_cell(s, other, value, key, i);
    }
    lemma_min_upto_monotone(s, t, key, s.depth());
}

/// A decrement takes back an increment of the same key by the same value,
/// overflow or not.
pub proof fn decr_undoes_incr(s: Sketch, key: Seq<u8>, value: isize)
    requires
        s.wf(),
    ensures
        s.after_incr(key, value).after_decr(key, value) == s,
{
    let t = s.after_incr(key, value);
    let u = t.after_decr(key, value);
    incr_keeps_shape(s, key, value);
    assert forall|i: int| 0 <= i < s.depth() implies #[trigger] u.rows[i] =~= s.rows[i] by {
        lemma_slot_in_range(s.seeds[i], key, s.width());
        incr_changes_cell(s, key, value, key, i);
    }
    assert(u.rows =~= s.rows);
}

/// A decrement by `value` is an increment by its negation.
pub proof fn decr_is_incr_of_negation(s: Sketch, key: Seq<u8>, value: isize)
    requires
        s.wf(),
        value > isize::MIN,
    ensures
        s.after_decr(key, value) == s.after_incr(key, (-value) as isize),
{
    assert(s.after_decr(key, value).rows =~= s.after_incr(key, (-value) as isize).rows);
}

/// Absent overflow, a decrement of a key lowers its estimate by exactly the
/// value subtracted.
pub proof fn decr_subtracts_from_estimate(s: Sketch, key: Seq<u8>, value: isize)
    requires
        s.wf(),
        value > isize::MIN,
        forall|i: int|
            0 <= i < s.depth() ==> isize::MIN <= (#[trigger] s.cell(i, key)) - value <= isize::MAX,
    ensures
        s.after_decr(key, value).estimate(key) == s.estimate(key) - value,
{
    decr_is_incr_of_negation(s, key, value);
    incr_adds_to_estimate(s, key, (-value) as isize);
}

/// One increment of a history: the key and the value added to it.
pub struct Increment {
    pub key: Seq<u8>,
    pub value: isize,
}

/// The sketch after the increments of `history` were applied to `s`, first
/// to last.
pub open spec fn replay(s: Sketch, history: Seq<Increment>) -> Sketch
    decreases history.len(),
{
    if history.len() == 0 {
        s
    } else {
        replay(s, history.drop_last()).after_incr(history.last().key, history.last().value)
    }
}

/// No increment of `history`, applied in turn to `s`, carries a counter past
/// the largest `isize`.
pub open spec fn fits(s: Sketch, history: Seq<Increment>) -> bool {
    forall|k: int, i: int|
        0 <= k < history.len() && 0 <= i < s.depth() ==> (#[trigger] replay(
            s,
            history.take(k),
        ).cell(i, history[k].key)) + history[k].value <= isize::MAX
}

/// Replaying a history keeps the seeds and the shape of the sketch.
pub proof fn replay_keeps_shape(s: Sketch, history: Seq<Increment>)
    requires
        s.wf(),
    ensures
        replay(s, history).wf(),
        replay(s, history).seeds == s.seeds,
        replay(s, history).depth() == s.depth(),
        replay(s, history).width() == s.width(),
    decreases history.len(),
{
    if history.len() > 0 {
        replay_keeps_shape(s, history.drop_last());
        incr_keeps_shape(replay(s, history.drop_last()), history.last().key, history.last().value);
    }
}

/// Under increments alone the estimate of a key never decreases: in a
/// history without negative values and without overflow, the estimate after
/// the first `a` increments is at most the estimate after the first `b`,
/// for `a <= b`, whichever keys were incremented in between.
pub proof fn replay_estimates_never_decrease(
    s: Sketch,
    history: Seq<Increment>,
    key: Seq<u8>,
    a: int,
    b: int,
)
    requires
        s.wf(),
        only_adds(history),
        fits(s, history),
        0 <= a <= b <= history.len(),
    ensures
        replay(s, history.take(a)).estimate(key) <= replay(s, history.take(b)).estimate(key),
    decreases b - a,
{
    if a < b {
        replay_estimates_never_decrease(s, history, key, a, b - 1);
        let r = replay(s, history.take(b - 1));
        let step = history[b - 1];
        assert(history.take(b).drop_last() =~= history.take(b - 1));
        replay_keeps_shape(s, history.take(b - 1));
        assert forall|i: int| 0 <= i < r.depth() implies (#[trigger] r.cell(i, step.key))
            + step.value <= isize::MAX by {
            assert(replay(s, history.take(b - 1)).cell(i, history[b - 1].key) + history[b
                - 1].value <= isize::MAX);
        }
        incr_never_lowers_estimate(r, step.key, step.value, key);
    }
}

/// The sum of all values added in `history`.
pub open spec fn total(history: Seq<Increment>) -> int
    decreases history.len(),
{
    if history.len() == 0 {
        0
    } else {
        total(history.drop_last()) + history.last().value
    }
}

/// The sum of the values that `history` added to `key`: its true frequency.
pub open spec fn total_of(history: Seq<Increment>, key: Seq<u8>) -> int
    decreases history.len(),
{
    if history.len() == 0 {
        0
    } else {
        total_of(history.drop_last(), key) + if history.last().key == key {
            history.last().value as int
        } else {
            0
        }
    }
}

/// The sum of the values that `history` added to keys that fall on counter
/// `j` of a row of `width` counters seeded with `seed`.
pub open spec fn landed(history: Seq<Increment>, seed: u64, width: nat, j: int) -> int
    decreases history.len(),
{
    if history.len() == 0 {
        0
    } else {
        landed(history.drop_last(), seed, width, j) + if slot_of(
            seed,
            history.last().key,
            width,
        ) == j {
            history.last().value as int
        } else {
            0
        }
    }
}

/// No value of the history is negative.
pub open spec fn only_adds(history: Seq<Increment>) -> bool {
    forall|k: int| 0 <= k < history.len() ==> (#[trigger] history[k]).value >= 0
}

/// In a history without negative values, what landed on one counter lies
/// between what was added to any one key that falls on it and the total.
pub proof fn lemma_landed_bounds(history: Seq<Increment>, seed: u64, width: nat, key: Seq<u8>)
    requires
        only_adds(history),
        width > 0,
    ensures
        0 <= total_of(history, key) <= landed(history, seed, width, slot_of(seed, key, width)),
        forall|j: int| 0 <= #[trigger] landed(history, seed, width, j) <= total(history),
        history.len() > 0 ==> only_adds(history.drop_last()),
        history.len() > 0 ==> total(history.drop_last()) <= total(history),
    decreases history.len(),
{
    if history.len() > 0 {
        let before = history.drop_last();
        assert(only_adds(before));
        lemma_landed_bounds(before, seed, width, key);
        assert forall|j: int| 0 <= #[trigger] landed(history, seed, width, j) <= total(
            history,
        ) by {
            assert(0 <= landed(before, seed, width, j) <= total(before));
        }
    }
}

/// No update is lost: after a history without negative values whose total
/// fits a counter was applied to a sketch of zeros, each counter holds
/// exactly the sum of the values whose keys fall on it.
pub proof fn replay_counts_what_landed(s: Sketch, history: Seq<Increment>)
    requires
        s.wf(),
        s.is_zero(),
        only_adds(history),
        total(history) <= isize::MAX,
    ensures
        replay(s, history).wf(),
        replay(s, history).seeds == s.seeds,
        replay(s, history).depth() == s.depth(),
        replay(s, history).width() == s.width(),
        forall|i: int, j: int|
            0 <= i < s.depth() && 0 <= j < s.width() ==> #[trigger] replay(s, history).rows[i][j]
                == landed(history, s.seeds[i], s.width(), j),
    decreases history.len(),
{
    if history.len() > 0 {
        let before = history.drop_last();
        let last = history.last();
        let r = replay(s, before);
        let t = replay(s, history);
        lemma_landed_bounds(history, s.seeds[0], s.width(), last.key);
        replay_counts_what_landed(s, before);
        incr_keeps_shape(r, last.key, last.value);
        assert forall|i: int, j: int| 0 <= i < s.depth() && 0 <= j < s.width() implies #[trigger] t.rows[i][j]
            == landed(history, s.seeds[i], s.width(), j) by {
            lemma_slot_in_range(s.seeds[i], last.key, s.width());
            lemma_landed_bounds(history, s.seeds[i], s.width(), last.key);
            lemma_landed_bounds(before, s.seeds[i], s.width(), last.key);
        }
    }
}

/// In a history without negative values, what the first `k` increments added
/// is not negative and, together with the next value, at most the total.
pub proof fn lemma_total_of_prefix(history: Seq<Increment>, k: int)
    requires
        only_adds(history),
        0 <= k <= history.len(),
    ensures
        only_adds(history.take(k)),
        0 <= total(history.take(k)) <= total(history),
        k < history.len() ==> total(history.take(k)) + history[k].value <= total(history),
    decreases history.len(),
{
    assert(only_adds(history.take(k)));
    lemma_landed_bounds(history.take(k), 0, 1, Seq::empty());
    if k == history.len() {
        assert(history.take(k) =~= history);
    } else {
        let before = history.drop_last();
        lemma_landed_bounds(history, 0, 1, Seq::empty());
        assert(history.take(k) =~= before.take(k));
        lemma_total_of_prefix(before, k);
    }
}

/// A history without negative values whose total fits a counter overflows
/// no counter of a sketch of zeros.
pub proof fn fresh_history_fits(s: Sketch, history: Seq<Increment>)
    requires
        s.wf(),
        s.is_zero(),
        only_adds(history),
        total(history) <= isize::MAX,
    ensures
        fits(s, history),
{
    assert forall|k: int, i: int| 0 <= k < history.len() && 0 <= i < s.depth() implies (
    #[trigger] replay(s, history.take(k)).cell(i, history[k].key)) + history[k].value
        <= isize::MAX by {
        let prefix = history.take(k);
        let key = history[k].key;
        lemma_total_of_prefix(history, k);
        replay_counts_what_landed(s, prefix);
        lemma_slot_in_range(s.seeds[i], key, s.width());
        lemma_landed_bounds(prefix, s.seeds[i], s.width(), key);
    }
}

/// The sketch never under-estimates: after a history without negative values
/// whose total fits a counter was applied to a sketch of zeros, the estimate
/// of each key is at least the sum of the values added to that key.
pub proof fn replay_never_underestimates(s: Sketch, history: Seq<Increment>, key: Seq<u8>)
    requires
        s.wf(),
        s.is_zero(),
        only_adds(history),
        total(history) <= isize::MAX,
    ensures
        replay(s, history).estimate(key) >= total_of(history, key),
{
    let t = replay(s, history);
    replay_counts_what_landed(s, history);
    estimate_is_minimum(t, key);
    let i = choose|i: int| 0 <= i < t.depth() && t.estimate(key) == #[trigger] t.cell(i, key);
    lemma_slot_in_range(s.seeds[i], key, s.width());
    lemma_landed_bounds(history, s.seeds[i], s.width(), key);
}

} // verus!
