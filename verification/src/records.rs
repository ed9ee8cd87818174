//! The input grammar, as a mathematical model: a buffer holds records
//! `KEY;READING\n`, where `KEY` is a non-empty run of bytes containing
//! neither `;` nor a newline, and `READING` is a signed decimal number with
//! exactly one fractional digit. Readings are modelled as integers in
//! tenths, so `-12.3` is the integer `-123`.

use vstd::prelude::*;

verus! {

/// Byte value of the newline terminator.
pub const NEWLINE: u8 = 10;

/// Byte value of the `;` delimiter between key and reading.
pub const SEMICOLON: u8 = 59;

/// Byte value of the minus sign.
pub const MINUS: u8 = 45;

/// Byte value of the decimal point.
pub const DOT: u8 = 46;

/// Byte value of the digit `0`.
pub const DIGIT_ZERO: u8 = 48;

/// Largest reading magnitude the pipeline accepts, in fixed-point tenths.
pub const MAX_ABS_TENTHS: i16 = 32767;

/// A byte is an ASCII decimal digit.
pub open spec fn is_digit(b: u8) -> bool {
    DIGIT_ZERO <= b && b <= DIGIT_ZERO + 9
}

/// Index of the `;` that ends the key starting at `i`, if the key is well
/// formed: the delimiter comes before any newline and before the buffer ends.
pub open spec fn key_end(b: Seq<u8>, i: int) -> Option<int>
    decreases b.len() - i,
{
    if i < 0 || i >= b.len() {
        None
    } else if b[i] == SEMICOLON {
        Some(i)
    } else if b[i] == NEWLINE {
        None
    } else {
        key_end(b, i + 1)
    }
}

/// Continues an unsigned reading whose digits seen so far are worth `acc`:
/// consumes further digits, then the decimal point and exactly one
/// fractional digit. Yields the value in tenths and the index just past the
/// fractional digit.
pub open spec fn num_rest(b: Seq<u8>, i: int, acc: int) -> Option<(int, int)>
    decreases b.len() - i,
{
    if i < 0 || i >= b.len() {
        None
    } else if b[i] == DOT {
        if i + 1 < b.len() && is_digit(b[i + 1]) {
            Some((acc * 10 + (b[i + 1] - DIGIT_ZERO), i + 2))
        } else {
            None
        }
    } else if is_digit(b[i]) {
        num_rest(b, i + 1, acc * 10 + (b[i] - DIGIT_ZERO))
    } else {
        None
    }
}

/// An unsigned reading `\d+\.\d` starting at `i`: its value in tenths and
/// the index just past the fractional digit.
pub open spec fn magnitude_at(b: Seq<u8>, i: int) -> Option<(int, int)> {
    if 0 <= i && i < b.len() && is_digit(b[i]) {
        num_rest(b, i + 1, (b[i] - DIGIT_ZERO) as int)
    } else {
        None
    }
}

/// A signed reading `-?\d+\.\d` starting at `i`: its value in tenths and
/// the index just past the fractional digit.
pub open spec fn reading_at(b: Seq<u8>, i: int) -> Option<(int, int)> {
    if 0 <= i && i < b.len() && b[i] == MINUS {
        match magnitude_at(b, i + 1) {
            Some((v, n)) => Some((-v, n)),
            None => None,
        }
    } else {
        magnitude_at(b, i)
    }
}

/// One full record starting at `i`: the key, the reading in tenths, and the
/// index of the first byte after the terminating newline. The key must be
/// non-empty, the reading must fit the fixed-point range, and the newline
/// must directly follow the fractional digit.
pub open spec fn rec_at(b: Seq<u8>, i: int) -> Option<(Seq<u8>, int, int)> {
    match key_end(b, i) {
        None => None,
        Some(j) => if j == i {
            None
        } else {
            match reading_at(b, j + 1) {
                None => None,
                Some((v, n)) => if -(MAX_ABS_TENTHS as int) <= v <= MAX_ABS_TENTHS as int
                    && n < b.len() && b[n] == NEWLINE {
                    Some((b.subrange(i, j), v, n + 1))
                } else {
                    None
                },
            }
        },
    }
}

/// All records whose first byte lies in `[i, to)`, in buffer order. The
/// scan parses whole records, so the last one may end at or past `to`.
/// `None` means some record in the range is malformed.
pub open spec fn records_in(b: Seq<u8>, i: int, to: int) -> Option<Seq<(Seq<u8>, int)>>
    decreases to - i,
{
    if i >= to {
        Some(Seq::empty())
    } else {
        match rec_at(b, i) {
            None => None,
            Some((k, v, n)) => if n <= i {
                None
            } else if n >= to {
                Some(seq![(k, v)])
            } else {
                match records_in(b, n, to) {
                    None => None,
                    Some(rest) => Some(seq![(k, v)] + rest),
                }
            },
        }
    }
}

/// A position at which a scan may start or stop without splitting a record:
/// the start of the buffer, its end, or any byte directly after a newline.
pub open spec fn aligned(b: Seq<u8>, m: int) -> bool {
    m == 0 || m == b.len() || (0 < m < b.len() && b[m - 1] == NEWLINE)
}

/// The digits already consumed only ever grow the final value: whatever
/// `num_rest` returns is at least the accumulator it started from.
pub proof fn lemma_num_rest_lower(b: Seq<u8>, i: int, acc: int)
    requires
        0 <= acc,
        num_rest(b, i, acc) is Some,
    ensures
        acc <= num_rest(b, i, acc)->Some_0.0,
    decreases b.len() - i,
{
    if 0 <= i && i < b.len() && b[i] != DOT && is_digit(b[i]) {
        lemma_num_rest_lower(b, i + 1, acc * 10 + (b[i] - DIGIT_ZERO));
    }
}

/// Structural bounds of an unsigned reading: it ends within the buffer,
/// spans at least one digit, the point, and the fractional digit, its value
/// is non-negative, and no byte it covers is a newline.
pub proof fn lemma_num_rest_bounds(b: Seq<u8>, i: int, acc: int)
    requires
        0 <= acc,
        num_rest(b, i, acc) is Some,
    ensures
        ({
            let (v, n) = num_rest(b, i, acc)->Some_0;
            &&& i + 2 <= n <= b.len()
            &&& 0 <= v
            &&& forall|q: int| i <= q < n ==> b[q] != NEWLINE
        }),
    decreases b.len() - i,
{
    if 0 <= i && i < b.len() && b[i] != DOT && is_digit(b[i]) {
        lemma_num_rest_bounds(b, i + 1, acc * 10 + (b[i] - DIGIT_ZERO));
    }
}

/// Structural bounds of the key: the delimiter lies within the buffer, at
/// or after the scan start, and no byte up to and including it is a newline.
pub proof fn lemma_key_end_bounds(b: Seq<u8>, i: int)
    requires
        key_end(b, i) is Some,
    ensures
        ({
            let j = key_end(b, i)->Some_0;
            &&& 0 <= i <= j < b.len()
            &&& b[j] == SEMICOLON
            &&& forall|q: int| i <= q <= j ==> b[q] != NEWLINE
        }),
    decreases b.len() - i,
{
    if 0 <= i && i < b.len() && b[i] != SEMICOLON && b[i] != NEWLINE {
        lemma_key_end_bounds(b, i + 1);
    }
}

/// Structural bounds of a whole record: it spans at least six bytes, ends
/// within the buffer, and its only newline is the final byte.
pub proof fn lemma_rec_at_bounds(b: Seq<u8>, i: int)
    requires
        rec_at(b, i) is Some,
    ensures
        ({
            let (k, v, n) = rec_at(b, i)->Some_0;
            &&& 0 <= i && i + 6 <= n <= b.len()
            &&& b[n - 1] == NEWLINE
            &&& forall|q: int| i <= q < n - 1 ==> b[q] != NEWLINE
        }),
{
    let j = key_end(b, i)->Some_0;
    lemma_key_end_bounds(b, i);
    if 0 <= j + 1 && j + 1 < b.len() && b[j + 1] == MINUS {
        let (v0, n0) = magnitude_at(b, j + 2)->Some_0;
        lemma_num_rest_bounds(b, j + 3, (b[j + 2] - DIGIT_ZERO) as int);
    } else {
        let (v0, n0) = magnitude_at(b, j + 1)->Some_0;
        lemma_num_rest_bounds(b, j + 2, (b[j + 1] - DIGIT_ZERO) as int);
    }
}

/// A record cannot straddle an aligned position: if it starts before `m`
/// and `m` is aligned, it ends at or before `m`.
pub proof fn lemma_rec_at_aligned(b: Seq<u8>, i: int, m: int)
    requires
        rec_at(b, i) is Some,
        i < m,
        aligned(b, m),
    ensures
        rec_at(b, i)->Some_0.2 <= m,
{
    let n = rec_at(b, i)->Some_0.2;
    lemma_rec_at_bounds(b, i);
    if n > m {
        // then m - 1 is strictly inside the record, yet holds a newline
        assert(i <= m - 1 < n - 1);
        assert(b[m - 1] == NEWLINE);
    }
}

/// Scanning `[from, to)` equals scanning `[from, mid)` and then
/// `[mid, to)`, provided `mid` is aligned: the record lists concatenate,
/// and a malformed record on either side is malformed for the whole range.
pub proof fn lemma_records_split(b: Seq<u8>, from: int, mid: int, to: int)
    requires
        from <= mid <= to,
        aligned(b, mid),
    ensures
        records_in(b, from, mid) is None ==> records_in(b, from, to) is None,
        records_in(b, from, mid) matches Some(rs1) ==> records_in(b, from, to) == (
            match records_in(b, mid, to) {
                Some(rs2) => Some(rs1 + rs2),
                None => None::<Seq<(Seq<u8>, int)>>,
            }),
    decreases mid - from,
{
    if from >= mid {
        assert(from == mid);
        assert(records_in(b, from, mid) == Some(Seq::<(Seq<u8>, int)>::empty()));
        if records_in(b, mid, to) is Some {
            let rs2 = records_in(b, mid, to)->Some_0;
            assert(Seq::<(Seq<u8>, int)>::empty() + rs2 =~= rs2);
        }
    } else {
        match rec_at(b, from) {
            None => {},
            Some((k, v, n)) => {
                lemma_rec_at_bounds(b, from);
                lemma_rec_at_aligned(b, from, mid);
                lemma_records_split(b, n, mid, to);
                if records_in(b, from, mid) is Some {
                    let rs1 = records_in(b, from, mid)->Some_0;
                    let rest1 = records_in(b, n, mid)->Some_0;
                    assert(seq![(k, v)] + rest1 =~= rs1);
                    match records_in(b, mid, to) {
                        Some(rs2) => {
                            assert(records_in(b, n, to) == Some(rest1 + rs2));
                            if n >= to {
                                // n <= mid <= to forces n == mid == to, so all
                                // three tails are empty
                                assert(rest1 =~= Seq::<(Seq<u8>, int)>::empty());
                                assert(rs2 =~= Seq::<(Seq<u8>, int)>::empty());
                                assert(records_in(b, from, to) == Some(seq![(k, v)]));
                                assert(seq![(k, v)] =~= rs1 + rs2);
                            } else {
                                assert(records_in(b, from, to) == Some(
                                    seq![(k, v)] + (rest1 + rs2)));
                                assert(seq![(k, v)] + (rest1 + rs2) =~= rs1 + rs2);
                            }
                        },
                        None => {
                            assert(n < to);
                            assert(records_in(b, n, to) is None);
                            assert(records_in(b, from, to) is None);
                        },
                    }
                } else {
                    // the first record parses, so the failure lies beyond n
                    assert(n < mid);
                    assert(records_in(b, n, mid) is None);
                    assert(records_in(b, from, to) is None);
                }
            },
        }
    }
}

/// Every record spans at least six bytes, so a successful scan that starts
/// at `i` finds at most one sixth of the remaining buffer in records.
pub proof fn lemma_records_len(b: Seq<u8>, i: int, to: int)
    requires
        0 <= i <= b.len(),
        records_in(b, i, to) is Some,
    ensures
        6 * records_in(b, i, to)->Some_0.len() <= b.len() - i,
    decreases to - i,
{
    if i < to {
        let (k, v, n) = rec_at(b, i)->Some_0;
        lemma_rec_at_bounds(b, i);
        if n < to {
            lemma_records_len(b, n, to);
        }
    }
}

} // verus!
