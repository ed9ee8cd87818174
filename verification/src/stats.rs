//! Per-key running statistics: the `Entry` aggregate and its mathematical
//! model `Stat`. Joining two aggregates is commutative and associative, which
//! is what makes the merge phase independent of window count and order.

use vstd::prelude::*;

use crate::records::MAX_ABS_TENTHS;

verus! {

/// Mathematical model of a per-key aggregate.
pub ghost struct Stat {
    pub min: int,
    pub max: int,
    pub sum: int,
    pub count: int,
}

/// The aggregate of a single reading.
pub open spec fn stat_one(v: int) -> Stat {
    Stat { min: v, max: v, sum: v, count: 1 }
}

/// Componentwise combination of two aggregates: smallest minimum, largest
/// maximum, summed sum and count.
pub open spec fn stat_join(a: Stat, b: Stat) -> Stat {
    Stat {
        min: if a.min <= b.min { a.min } else { b.min },
        max: if a.max >= b.max { a.max } else { b.max },
        sum: a.sum + b.sum,
        count: a.count + b.count,
    }
}

/// Well-formedness of an aggregate: it has folded at least one reading, its
/// extremes lie in the fixed-point range, and the sum is bounded by the
/// count, which keeps every 128-bit sum of in-range readings exact.
pub open spec fn stat_wf(s: Stat) -> bool {
    &&& 1 <= s.count
    &&& -(MAX_ABS_TENTHS as int) <= s.min <= s.max <= MAX_ABS_TENTHS as int
    &&& -(MAX_ABS_TENTHS as int) * s.count <= s.sum <= (MAX_ABS_TENTHS as int) * s.count
}

/// Joining aggregates is commutative.
pub proof fn lemma_stat_join_commutative(a: Stat, b: Stat)
    ensures
        stat_join(a, b) == stat_join(b, a),
{
}

/// Joining aggregates is associative.
pub proof fn lemma_stat_join_associative(a: Stat, b: Stat, c: Stat)
    ensures
        stat_join(stat_join(a, b), c) == stat_join(a, stat_join(b, c)),
{
}

/// Joining preserves well-formedness.
pub proof fn lemma_stat_join_wf(a: Stat, b: Stat)
    requires
        stat_wf(a),
        stat_wf(b),
    ensures
        stat_wf(stat_join(a, b)),
{
}

/// Per-key running aggregate: minimum and maximum reading in tenths, the
/// exact sum of all readings in tenths, and how many readings were folded.
#[derive(Clone, Copy, Debug)]
pub struct Entry {
    /// Smallest reading folded in, in tenths.
    pub min: i16,
    /// Largest reading folded in, in tenths.
    pub max: i16,
    /// Exact sum of all readings folded in, in tenths.
    pub sum: i128,
    /// Number of readings folded in.
    pub count: u64,
}

impl View for Entry {
    type V = Stat;

    open spec fn view(&self) -> Stat {
        Stat {
            min: self.min as int,
            max: self.max as int,
            sum: self.sum as int,
            count: self.count as int,
        }
    }
}

/// The aggregate of a single reading.
pub fn entry_from_reading(v: i16) -> (r: Entry)
    requires
        -(MAX_ABS_TENTHS as int) <= v as int,
    ensures
        r@ == stat_one(v as int),
        stat_wf(r@),
{
    Entry { min: v, max: v, sum: v as i128, count: 1 }
}

/// Combines two aggregates componentwise. The count bound is what the
/// machine forces: the merged count must still fit in 64 bits.
pub fn entry_joined(a: &Entry, b: &Entry) -> (r: Entry)
    requires
        stat_wf(a@),
        stat_wf(b@),
        a@.count + b@.count <= u64::MAX,
    ensures
        r@ == stat_join(a@, b@),
        stat_wf(r@),
{
    Entry {
        min: if a.min <= b.min { a.min } else { b.min },
        max: if a.max >= b.max { a.max } else { b.max },
        sum: a.sum + b.sum,
        count: a.count + b.count,
    }
}

} // verus!
