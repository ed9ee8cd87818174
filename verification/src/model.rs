//! Mathematical model of the statistics table: a map from key to aggregate,
//! the insert-or-update step, the merge of two tables, and the laws that make
//! the pipeline independent of partitioning and merge order.

use vstd::prelude::*;

use crate::stats::{Stat, stat_one, stat_join, stat_wf, lemma_stat_join_associative};

verus! {

/// Insert-or-update: a new key maps to the given aggregate, an existing key
/// to the join of the old and the new aggregate.
pub open spec fn table_upsert(m: Map<Seq<u8>, Stat>, k: Seq<u8>, s: Stat) -> Map<Seq<u8>, Stat> {
    if m.contains_key(k) {
        m.insert(k, stat_join(m[k], s))
    } else {
        m.insert(k, s)
    }
}

/// Merge of two tables: keys of either side, aggregates joined where a key
/// is on both.
pub open spec fn table_merge(a: Map<Seq<u8>, Stat>, b: Map<Seq<u8>, Stat>) -> Map<Seq<u8>, Stat> {
    Map::new(
        |k: Seq<u8>| a.contains_key(k) || b.contains_key(k),
        |k: Seq<u8>| if a.contains_key(k) && b.contains_key(k) {
            stat_join(a[k], b[k])
        } else if a.contains_key(k) {
            a[k]
        } else {
            b[k]
        },
    )
}

/// Every aggregate of the table is well formed.
pub open spec fn table_wf(m: Map<Seq<u8>, Stat>) -> bool {
    forall|k: Seq<u8>| m.contains_key(k) ==> stat_wf(m[k])
}

/// The machine bound on merging: for a key on both sides, the merged count
/// must still fit in 64 bits.
pub open spec fn can_merge(a: Map<Seq<u8>, Stat>, b: Map<Seq<u8>, Stat>) -> bool {
    forall|k: Seq<u8>| a.contains_key(k) && b.contains_key(k)
        ==> a[k].count + b[k].count <= u64::MAX
}

/// Folds a list of records into a table, first record first.
pub open spec fn table_from(m: Map<Seq<u8>, Stat>, rs: Seq<(Seq<u8>, int)>) -> Map<Seq<u8>, Stat>
    decreases rs.len(),
{
    if rs.len() == 0 {
        m
    } else {
        table_from(table_upsert(m, rs[0].0, stat_one(rs[0].1)), rs.drop_first())
    }
}

/// The table summarizing a list of records.
pub open spec fn table_of(rs: Seq<(Seq<u8>, int)>) -> Map<Seq<u8>, Stat> {
    table_from(Map::empty(), rs)
}

/// Number of records in the list carrying the given key.
pub open spec fn count_key(rs: Seq<(Seq<u8>, int)>, k: Seq<u8>) -> int
    decreases rs.len(),
{
    if rs.len() == 0 {
        0
    } else {
        count_key(rs.drop_last(), k) + if rs.last().0 == k { 1int } else { 0int }
    }
}

/// Sum of the readings of the records carrying the given key.
pub open spec fn sum_key(rs: Seq<(Seq<u8>, int)>, k: Seq<u8>) -> int
    decreases rs.len(),
{
    if rs.len() == 0 {
        0
    } else {
        sum_key(rs.drop_last(), k) + if rs.last().0 == k { rs.last().1 } else { 0int }
    }
}

/// Merging is commutative: left and right table are interchangeable.
pub proof fn lemma_merge_commutative(a: Map<Seq<u8>, Stat>, b: Map<Seq<u8>, Stat>)
    ensures
        table_merge(a, b) == table_merge(b, a),
{
    assert(table_merge(a, b) =~= table_merge(b, a));
}

/// Merging is associative: any merge tree over the same tables yields the
/// same table.
pub proof fn lemma_merge_associative(
    a: Map<Seq<u8>, Stat>,
    b: Map<Seq<u8>, Stat>,
    c: Map<Seq<u8>, Stat>,
)
    ensures
        table_merge(table_merge(a, b), c) == table_merge(a, table_merge(b, c)),
{
    assert forall|k: Seq<u8>| #[trigger] table_merge(table_merge(a, b), c).contains_key(k)
        implies table_merge(table_merge(a, b), c)[k] == table_merge(a, table_merge(b, c))[k] by {
        if a.contains_key(k) && b.contains_key(k) && c.contains_key(k) {
            lemma_stat_join_associative(a[k], b[k], c[k]);
        }
    }
    assert(table_merge(table_merge(a, b), c) =~= table_merge(a, table_merge(b, c)));
}

/// Merging with an empty table, on either side, changes nothing.
pub proof fn lemma_merge_empty(m: Map<Seq<u8>, Stat>)
    ensures
        table_merge(m, Map::empty()) == m,
        table_merge(Map::empty(), m) == m,
{
    assert(table_merge(m, Map::empty()) =~= m);
    assert(table_merge(Map::empty(), m) =~= m);
}

/// Insert-or-update is a merge with the single-entry table.
pub proof fn lemma_upsert_as_merge(m: Map<Seq<u8>, Stat>, k: Seq<u8>, s: Stat)
    ensures
        table_upsert(m, k, s) == table_merge(m, Map::empty().insert(k, s)),
{
    assert(table_upsert(m, k, s) =~= table_merge(m, Map::empty().insert(k, s)));
}

/// Pulling one fresh-keyed entry out of the right table of a merge and
/// upserting it into the left leaves the merge unchanged.
pub proof fn lemma_merge_pull_entry(a: Map<Seq<u8>, Stat>, m: Map<Seq<u8>, Stat>, k: Seq<u8>, s: Stat)
    requires
        !m.contains_key(k),
    ensures
        table_merge(table_upsert(a, k, s), m) == table_merge(a, m.insert(k, s)),
{
    assert(table_merge(table_upsert(a, k, s), m) =~= table_merge(a, m.insert(k, s)));
}

/// Folding distributes over an accumulator: folding records into `m` is the
/// same as merging `m` with the table of the records alone.
pub proof fn lemma_table_from_merge(m: Map<Seq<u8>, Stat>, rs: Seq<(Seq<u8>, int)>)
    ensures
        table_from(m, rs) == table_merge(m, table_of(rs)),
    decreases rs.len(),
{
    if rs.len() == 0 {
        lemma_merge_empty(m);
    } else {
        let r = rs[0];
        let s = stat_one(r.1);
        let single = Map::<Seq<u8>, Stat>::empty().insert(r.0, s);
        lemma_table_from_merge(table_upsert(m, r.0, s), rs.drop_first());
        lemma_table_from_merge(table_upsert(Map::empty(), r.0, s), rs.drop_first());
        lemma_upsert_as_merge(m, r.0, s);
        lemma_upsert_as_merge(Map::empty(), r.0, s);
        lemma_merge_empty(single);
        lemma_merge_associative(m, single, table_of(rs.drop_first()));
        assert(table_of(rs) == table_merge(single, table_of(rs.drop_first())));
    }
}

/// Folding a concatenation folds the two halves in turn.
pub proof fn lemma_table_from_append(
    m: Map<Seq<u8>, Stat>,
    rs1: Seq<(Seq<u8>, int)>,
    rs2: Seq<(Seq<u8>, int)>,
)
    ensures
        table_from(m, rs1 + rs2) == table_from(table_from(m, rs1), rs2),
    decreases rs1.len(),
{
    if rs1.len() == 0 {
        assert(rs1 + rs2 =~= rs2);
    } else {
        let m2 = table_upsert(m, rs1[0].0, stat_one(rs1[0].1));
        assert((rs1 + rs2).drop_first() =~= rs1.drop_first() + rs2);
        lemma_table_from_append(m2, rs1.drop_first(), rs2);
    }
}

/// The central law of the pipeline: the table of a concatenation of record
/// lists is the merge of the tables of the parts. Scanning windows and
/// merging their tables therefore yields the table of the whole input,
/// whatever the partitioning.
pub proof fn lemma_table_of_append(rs1: Seq<(Seq<u8>, int)>, rs2: Seq<(Seq<u8>, int)>)
    ensures
        table_of(rs1 + rs2) == table_merge(table_of(rs1), table_of(rs2)),
{
    lemma_table_from_append(Map::empty(), rs1, rs2);
    lemma_table_from_merge(table_of(rs1), rs2);
}

/// Unfolds the table of a record list at its last record.
pub proof fn lemma_table_of_snoc(rs: Seq<(Seq<u8>, int)>, r: (Seq<u8>, int))
    ensures
        table_of(rs.push(r)) == table_upsert(table_of(rs), r.0, stat_one(r.1)),
{
    lemma_table_from_append(Map::empty(), rs, seq![r]);
    assert(rs.push(r) =~= rs + seq![r]);
    assert(table_from(table_of(rs), seq![r]) == table_upsert(table_of(rs), r.0, stat_one(r.1)))
        by {
        let single = seq![r];
        assert(single[0] == r);
        let m2 = table_upsert(table_of(rs), r.0, stat_one(r.1));
        assert(table_from(table_of(rs), single) == table_from(m2, single.drop_first()));
        assert(single.drop_first().len() == 0);
        assert(table_from(m2, single.drop_first()) == m2);
    }
}

/// What the table of a record list says, per key: a key is present exactly
/// when some record carries it; its count and sum are the exact number and
/// sum of those records; and every reading carrying the key lies between the
/// entry's minimum and maximum.
pub proof fn lemma_table_of_stats(rs: Seq<(Seq<u8>, int)>, k: Seq<u8>)
    ensures
        table_of(rs).contains_key(k) <==> count_key(rs, k) > 0,
        table_of(rs).contains_key(k) ==> table_of(rs)[k].count == count_key(rs, k),
        table_of(rs).contains_key(k) ==> table_of(rs)[k].sum == sum_key(rs, k),
        forall|i: int| 0 <= i < rs.len() && rs[i].0 == k ==>
            table_of(rs)[k].min <= #[trigger] rs[i].1 <= table_of(rs)[k].max,
    decreases rs.len(),
{
    if rs.len() > 0 {
        let rs0 = rs.drop_last();
        let r = rs.last();
        lemma_table_of_stats(rs0, k);
        lemma_table_of_snoc(rs0, r);
        assert(rs0.push(r) =~= rs);
        lemma_count_key_le_len(rs0, k);
        if k == r.0 {
            if table_of(rs0).contains_key(k) {
                assert(table_of(rs)[k] == stat_join(table_of(rs0)[k], stat_one(r.1)));
            } else {
                assert(table_of(rs)[k] == stat_one(r.1));
                assert(count_key(rs0, k) == 0);
                lemma_sum_key_of_absent(rs0, k);
            }
        } else {
            assert(count_key(rs, k) == count_key(rs0, k));
            assert(sum_key(rs, k) == sum_key(rs0, k));
            if table_of(rs0).contains_key(k) {
                assert(table_of(rs)[k] == table_of(rs0)[k]);
            } else {
                assert(!table_of(rs).contains_key(k));
            }
        }
        assert forall|i: int| 0 <= i < rs.len() && rs[i].0 == k
            implies table_of(rs)[k].min <= #[trigger] rs[i].1 <= table_of(rs)[k].max by {
            let t0 = table_of(rs0);
            let t = table_of(rs);
            if i < rs.len() - 1 {
                assert(rs[i] == rs0[i]);
                lemma_count_key_pos(rs0, k, i);
                assert(t0.contains_key(k));
                assert(t0[k].min <= rs0[i].1 <= t0[k].max);
                if k == r.0 {
                    assert(t[k] == stat_join(t0[k], stat_one(r.1)));
                } else {
                    assert(t[k] == t0[k]);
                }
            } else {
                assert(rs[i] == r);
                if t0.contains_key(k) {
                    assert(t[k] == stat_join(t0[k], stat_one(r.1)));
                } else {
                    assert(t[k] == stat_one(r.1));
                }
            }
        }
    }
}

/// The extremes are observed readings: some record with the key carries
/// exactly the entry's minimum, and some record its maximum.
pub proof fn lemma_table_of_extremes(rs: Seq<(Seq<u8>, int)>, k: Seq<u8>)
    requires
        table_of(rs).contains_key(k),
    ensures
        exists|i: int| 0 <= i < rs.len() && rs[i].0 == k && rs[i].1 == table_of(rs)[k].min,
        exists|i: int| 0 <= i < rs.len() && rs[i].0 == k && rs[i].1 == table_of(rs)[k].max,
    decreases rs.len(),
{
    lemma_table_of_stats(rs, k);
    lemma_count_key_le_len(rs, k);
    if rs.len() > 0 {
        let rs0 = rs.drop_last();
        let r = rs.last();
        lemma_table_of_snoc(rs0, r);
        assert(rs0.push(r) =~= rs);
        lemma_table_of_stats(rs0, k);
        lemma_count_key_le_len(rs0, k);
        if k == r.0 {
            if table_of(rs0).contains_key(k) {
                assert(table_of(rs)[k] == stat_join(table_of(rs0)[k], stat_one(r.1)));
                lemma_table_of_extremes(rs0, k);
                let i_min = choose|i: int| 0 <= i < rs0.len() && rs0[i].0 == k
                    && rs0[i].1 == table_of(rs0)[k].min;
                let i_max = choose|i: int| 0 <= i < rs0.len() && rs0[i].0 == k
                    && rs0[i].1 == table_of(rs0)[k].max;
                assert(rs[i_min] == rs0[i_min] && rs[i_max] == rs0[i_max]);
                assert(rs[rs.len() - 1] == r);
            } else {
                assert(table_of(rs)[k] == stat_one(r.1));
                assert(rs[rs.len() - 1] == r);
            }
        } else {
            assert(table_of(rs)[k] == table_of(rs0)[k]);
            lemma_table_of_extremes(rs0, k);
            let i_min = choose|i: int| 0 <= i < rs0.len() && rs0[i].0 == k
                && rs0[i].1 == table_of(rs0)[k].min;
            let i_max = choose|i: int| 0 <= i < rs0.len() && rs0[i].0 == k
                && rs0[i].1 == table_of(rs0)[k].max;
            assert(rs[i_min] == rs0[i_min] && rs[i_max] == rs0[i_max]);
        }
    }
}

/// A key carried by no record sums to zero.
pub proof fn lemma_sum_key_of_absent(rs: Seq<(Seq<u8>, int)>, k: Seq<u8>)
    requires
        count_key(rs, k) == 0,
    ensures
        sum_key(rs, k) == 0,
    decreases rs.len(),
{
    if rs.len() > 0 {
        lemma_count_key_le_len(rs.drop_last(), k);
        lemma_sum_key_of_absent(rs.drop_last(), k);
    }
}

/// A record carrying the key makes its count positive.
pub proof fn lemma_count_key_pos(rs: Seq<(Seq<u8>, int)>, k: Seq<u8>, i: int)
    requires
        0 <= i < rs.len(),
        rs[i].0 == k,
    ensures
        count_key(rs, k) > 0,
    decreases rs.len(),
{
    lemma_count_key_le_len(rs.drop_last(), k);
    if i < rs.len() - 1 {
        lemma_count_key_pos(rs.drop_last(), k, i);
    }
}

/// The count of any key is bounded by the number of records.
pub proof fn lemma_count_key_le_len(rs: Seq<(Seq<u8>, int)>, k: Seq<u8>)
    ensures
        0 <= count_key(rs, k) <= rs.len(),
    decreases rs.len(),
{
    if rs.len() > 0 {
        lemma_count_key_le_len(rs.drop_last(), k);
    }
}

/// The table of a list of in-range readings is well formed.
pub proof fn lemma_table_of_wf(rs: Seq<(Seq<u8>, int)>)
    requires
        forall|i: int| 0 <= i < rs.len() ==>
            -(crate::records::MAX_ABS_TENTHS as int) <= #[trigger] rs[i].1
                <= crate::records::MAX_ABS_TENTHS as int,
    ensures
        table_wf(table_of(rs)),
    decreases rs.len(),
{
    if rs.len() > 0 {
        let rs0 = rs.drop_last();
        let r = rs.last();
        lemma_table_of_wf(rs0);
        lemma_table_of_snoc(rs0, r);
        assert(rs0.push(r) =~= rs);
        assert forall|k: Seq<u8>| table_of(rs).contains_key(k)
            implies stat_wf(table_of(rs)[k]) by {
            if k == r.0 && table_of(rs0).contains_key(k) {
                crate::stats::lemma_stat_join_wf(table_of(rs0)[k], stat_one(r.1));
            }
        }
    }
}

} // verus!
