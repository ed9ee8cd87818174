//! The window scanner: walks a boundary-adjusted byte window record by
//! record and folds every reading into a fresh statistics table. The
//! resulting table is exactly the table of the records found in the window.

use vstd::prelude::*;

use crate::model::{
    count_key, lemma_count_key_le_len, lemma_table_of_snoc, lemma_table_of_stats, table_of,
};
use crate::parser::{ParseError, parse_record};
use crate::records::{lemma_rec_at_bounds, records_in};
use crate::table::{StatsTable, insert_reading};

verus! {

/// The workload promises at most this many distinct keys; pre-sizing the
/// table to it avoids reallocation in the hot loop.
pub const EXPECTED_KEYS: usize = 10000;

/// Scans the window `[from, to)`: parses every record whose first byte lies
/// in the window and folds its reading into a fresh table. The window must
/// start at a record boundary; a malformed or out-of-range record anywhere
/// in the window is a fatal error, and then no table is produced.
pub fn process_chunk(input: &[u8], from: usize, to: usize) -> (r: Result<StatsTable, ParseError>)
    requires
        from <= to <= input@.len(),
    ensures
        match r {
            Ok(t) => {
                &&& records_in(input@, from as int, to as int) is Some
                &&& t@ == table_of(records_in(input@, from as int, to as int)->Some_0)
                &&& t.wf()
            },
            Err(_) => records_in(input@, from as int, to as int) is None,
        },
{
    let ghost b = input@;
    let mut table = StatsTable::with_capacity(EXPECTED_KEYS);
    let ghost mut done: Seq<(Seq<u8>, int)> = Seq::empty();
    let mut head = from;
    while head < to
        invariant
            b == input@,
            from <= head,
            to <= b.len(),
            table.wf(),
            table@ == table_of(done),
            6 * done.len() <= head - from,
            records_in(b, head as int, to as int) is None
                ==> records_in(b, from as int, to as int) is None,
            records_in(b, head as int, to as int) is Some
                ==> records_in(b, from as int, to as int)
                    == Some(done + records_in(b, head as int, to as int)->Some_0),
            head <= b.len(),
        decreases b.len() - head,
    {
        match parse_record(input, head) {
            Err(e) => {
                proof {
                    assert(records_in(b, head as int, to as int) is None);
                }
                return Err(e);
            },
            Ok((j, v, n)) => {
                let key: &[u8] = &input[head..j];
                proof {
                    lemma_rec_at_bounds(b, head as int);
                    lemma_table_of_stats(done, key@);
                    lemma_count_key_le_len(done, key@);
                    assert(usize::MAX <= u64::MAX);
                    if table@.contains_key(key@) {
                        assert(table@[key@].count == count_key(done, key@));
                        assert(done.len() < u64::MAX);
                    }
                }
                insert_reading(&mut table, key, v);
                proof {
                    let r = (key@, v as int);
                    lemma_table_of_snoc(done, r);
                    let old_done = done;
                    done = done.push(r);
                    if n >= to {
                        assert(records_in(b, head as int, to as int) == Some(seq![r]));
                        assert(records_in(b, n as int, to as int)
                            == Some(Seq::<(Seq<u8>, int)>::empty()));
                        assert(old_done + seq![r] =~= done + Seq::<(Seq<u8>, int)>::empty());
                    } else {
                        match records_in(b, n as int, to as int) {
                            None => {
                                assert(records_in(b, head as int, to as int) is None);
                            },
                            Some(rest) => {
                                assert(records_in(b, head as int, to as int)
                                    == Some(seq![r] + rest));
                                assert(old_done + (seq![r] + rest) =~= done + rest);
                            },
                        }
                    }
                }
                head = n;
            },
        }
    }
    proof {
        assert(records_in(b, head as int, to as int) == Some(Seq::<(Seq<u8>, int)>::empty()));
        assert(done + Seq::<(Seq<u8>, int)>::empty() =~= done);
    }
    Ok(table)
}

} // verus!
