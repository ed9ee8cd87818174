//! The partitioner and the scheduler: divides the buffer into record-aligned
//! windows at approximate stride offsets, scans every window, and folds the
//! per-window tables into one. The result is the table of the whole buffer's
//! records, whatever the worker count.

use vstd::prelude::*;

use vstd::arithmetic::div_mod::{lemma_fundamental_div_mod, lemma_mod_bound};
use vstd::arithmetic::mul::lemma_mul_inequality;

use crate::model::{
    lemma_count_key_le_len, lemma_table_of_append, lemma_table_of_stats, table_of,
};
use crate::parser::ParseError;
use crate::records::{NEWLINE, aligned, lemma_records_len, lemma_records_split, records_in};
use crate::scanner::process_chunk;
use crate::table::{StatsTable, merge_results};

verus! {

/// Position after the first newline at or after `p`: the start of the next
/// record, or the buffer length if no newline remains.
pub open spec fn next_start(b: Seq<u8>, p: int) -> int
    decreases b.len() - p,
{
    if p < 0 || p >= b.len() {
        b.len() as int
    } else if b[p] == NEWLINE {
        p + 1
    } else {
        next_start(b, p + 1)
    }
}

/// The adjusted position never moves backward, stays in the buffer, and is
/// always record-aligned.
pub proof fn lemma_next_start_bounds(b: Seq<u8>, p: int)
    requires
        0 <= p <= b.len(),
    ensures
        p <= next_start(b, p) <= b.len(),
        aligned(b, next_start(b, p)),
    decreases b.len() - p,
{
    if p < b.len() && b[p] != NEWLINE {
        lemma_next_start_bounds(b, p + 1);
    }
}

/// Adjustment is monotone: a later proposed boundary never lands earlier.
pub proof fn lemma_next_start_monotone(b: Seq<u8>, p1: int, p2: int)
    requires
        0 <= p1 <= p2 <= b.len(),
    ensures
        next_start(b, p1) <= next_start(b, p2),
    decreases p2 - p1,
{
    if p1 < p2 {
        lemma_next_start_bounds(b, p2);
        if p1 < b.len() && b[p1] != NEWLINE {
            lemma_next_start_monotone(b, p1 + 1, p2);
        }
    }
}

/// Scans forward from `pos` to the start of the next record.
pub fn next_record_start(input: &[u8], pos: usize) -> (r: usize)
    requires
        pos <= input@.len(),
    ensures
        r as int == next_start(input@, pos as int),
{
    let len = input.len();
    let mut i = pos;
    while i < len
        invariant
            pos <= i <= len,
            len == input@.len(),
            next_start(input@, pos as int) == next_start(input@, i as int),
        decreases len - i,
    {
        if input[i] == NEWLINE {
            return i + 1;
        }
        i = i + 1;
    }
    len
}

/// Divides the buffer into `workers` windows: proposed boundaries at
/// multiples of `len / workers`, every internal boundary adjusted forward to
/// the next record start, the first window starting at zero and the last
/// ending at the buffer length. Windows chain without gap or overlap and
/// every window edge is record-aligned.
pub fn partition(input: &[u8], workers: usize) -> (r: Vec<(usize, usize)>)
    requires
        1 <= workers,
    ensures
        r@.len() == workers,
        r@[0].0 == 0,
        r@[workers - 1].1 == input@.len(),
        forall|i: int| 0 <= i < workers - 1 ==> #[trigger] r@[i].1 == r@[i + 1].0,
        forall|i: int| 0 <= i < workers ==> #[trigger] r@[i].0 <= r@[i].1 <= input@.len(),
        forall|i: int| 0 <= i < workers ==> aligned(input@, #[trigger] r@[i].1 as int),
        forall|i: int| 1 <= i < workers ==> #[trigger] r@[i].0 as int
            == next_start(input@, i * (input@.len() as int / workers as int)),
{
    let ghost b = input@;
    let len = input.len();
    let stride = len / workers;
    let mut r: Vec<(usize, usize)> = Vec::new();
    let mut prev: usize = 0;
    let mut i: usize = 1;
    proof {
        lemma_fundamental_div_mod(len as int, workers as int);
        lemma_mod_bound(len as int, workers as int);
    }
    while i < workers
        invariant
            b == input@,
            len == b.len(),
            stride == len as int / workers as int,
            (workers as int) * (stride as int) <= len,
            1 <= i <= workers,
            r@.len() == i - 1,
            prev <= len,
            aligned(b, prev as int),
            i == 1 ==> prev == 0,
            i > 1 ==> prev as int == next_start(b, (i - 1) * stride as int),
            i >= 1 && r@.len() > 0 ==> r@[0].0 == 0,
            forall|q: int| 0 <= q < i - 2 ==> #[trigger] r@[q].1 == r@[q + 1].0,
            r@.len() > 0 ==> r@[i - 2].1 == prev,
            forall|q: int| 0 <= q < i - 1 ==> #[trigger] r@[q].0 <= r@[q].1 <= len,
            forall|q: int| 0 <= q < i - 1 ==> aligned(b, #[trigger] r@[q].1 as int),
            forall|q: int| 1 <= q < i - 1 ==> #[trigger] r@[q].0 as int
                == next_start(b, q * stride as int),
            i > 1 ==> prev as int == next_start(b, (i - 1) * stride as int),
        decreases workers - i,
    {
        proof {
            lemma_mul_inequality(i as int, workers as int, stride as int);
        }
        let proposed = i * stride;
        let bound = next_record_start(input, proposed);
        proof {
            lemma_next_start_bounds(b, proposed as int);
            if i == 1 {
                assert(prev <= bound);
            } else {
                lemma_mul_inequality((i - 1) as int, i as int, stride as int);
                lemma_next_start_monotone(b, (i - 1) * stride as int, i * stride as int);
            }
        }
        r.push((prev, bound));
        prev = bound;
        i = i + 1;
    }
    r.push((prev, len));
    r
}

/// Runs the whole pipeline: partitions the buffer, scans every window, and
/// merges the per-window tables. Succeeds with the table of all records of
/// the buffer exactly when every record is well formed; the worker count
/// never changes the result.
pub fn aggregate(input: &[u8], workers: usize) -> (r: Result<StatsTable, ParseError>)
    requires
        1 <= workers,
    ensures
        match r {
            Ok(t) => {
                &&& records_in(input@, 0, input@.len() as int) is Some
                &&& t@ == table_of(records_in(input@, 0, input@.len() as int)->Some_0)
                &&& t.wf()
            },
            Err(_) => records_in(input@, 0, input@.len() as int) is None,
        },
{
    let ghost b = input@;
    let len = input.len();
    let windows = partition(input, workers);
    let mut acc = StatsTable::new();
    let mut i: usize = 0;
    while i < workers
        invariant
            b == input@,
            len == b.len(),
            1 <= workers,
            0 <= i <= workers,
            windows@.len() == workers,
            windows@[0].0 == 0,
            windows@[workers - 1].1 == len,
            forall|q: int| 0 <= q < workers - 1
                ==> #[trigger] windows@[q].1 == windows@[q + 1].0,
            forall|q: int| 0 <= q < workers
                ==> #[trigger] windows@[q].0 <= windows@[q].1 <= len,
            forall|q: int| 0 <= q < workers ==> aligned(b, #[trigger] windows@[q].1 as int),
            acc.wf(),
            records_in(b, 0, if i == 0 { 0int } else { windows@[i - 1].1 as int }) is Some,
            acc@ == table_of(
                records_in(b, 0, if i == 0 { 0int } else { windows@[i - 1].1 as int })->Some_0),
        decreases workers - i,
    {
        let w = windows[i];
        let from = w.0;
        let to = w.1;
        let ghost bound: int = if i == 0 { 0int } else { windows@[i as int - 1].1 as int };
        proof {
            assert(bound == from as int);
            assert(aligned(b, from as int)) by {
                if i == 0 {
                    assert(aligned(b, 0));
                } else {
                    assert(aligned(b, windows@[i as int - 1].1 as int));
                }
            }
        }
        match process_chunk(input, from, to) {
            Err(e) => {
                proof {
                    lemma_records_split(b, 0, from as int, to as int);
                    lemma_records_split(b, 0, to as int, len as int);
                }
                return Err(e);
            },
            Ok(t) => {
                proof {
                    let rs0 = records_in(b, 0, from as int)->Some_0;
                    let rsi = records_in(b, from as int, to as int)->Some_0;
                    lemma_records_split(b, 0, from as int, to as int);
                    assert(records_in(b, 0, to as int) == Some(rs0 + rsi));
                    lemma_records_len(b, 0, to as int);
                    assert(usize::MAX <= u64::MAX);
                    assert forall|k: Seq<u8>| acc@.contains_key(k) && t@.contains_key(k)
                        implies acc@[k].count + t@[k].count <= u64::MAX by {
                        lemma_table_of_stats(rs0, k);
                        lemma_table_of_stats(rsi, k);
                        lemma_count_key_le_len(rs0, k);
                        lemma_count_key_le_len(rsi, k);
                    }
                    lemma_table_of_append(rs0, rsi);
                }
                acc = merge_results(acc, t);
            },
        }
        i = i + 1;
    }
    proof {
        assert(windows@[workers - 1].1 == len);
    }
    Ok(acc)
}

} // verus!
