//! The result formatter: sorts the final table's keys byte-lexicographically,
//! rounds each mean half away from zero to one decimal digit, and renders the
//! deterministic `{key=min/mean/max,...}` summary.

use vstd::prelude::*;

use vstd::arithmetic::div_mod::{
    lemma_fundamental_div_mod, lemma_mod_bound, lemma_multiply_divide_lt,
};
use vstd::arithmetic::mul::lemma_mul_unary_negation;

use crate::records::{DIGIT_ZERO, DOT, MAX_ABS_TENTHS, MINUS};
use crate::stats::{Entry, Stat, stat_wf};
use crate::table::{StatsTable, bytes_to_vec, keys_distinct, lemma_map_of_contains,
    lemma_map_of_index, map_of};

verus! {

/// Byte value of the opening brace.
pub const LBRACE: u8 = 123;

/// Byte value of the closing brace.
pub const RBRACE: u8 = 125;

/// Byte value of the comma separating entries.
pub const COMMA: u8 = 44;

/// Byte value of the `=` between key and values.
pub const EQUALS: u8 = 61;

/// Byte value of the `/` between min, mean and max.
pub const SLASH: u8 = 47;

/// Decimal digits of `n`, most significant first, no leading zeros except
/// for `n == 0` itself.
pub open spec fn dec_digits(n: nat) -> Seq<u8>
    decreases n,
{
    if n < 10 {
        seq![(DIGIT_ZERO + n) as u8]
    } else {
        dec_digits(n / 10).push((DIGIT_ZERO + n % 10) as u8)
    }
}

/// Rendering of a fixed-point tenths value as a signed decimal with exactly
/// one fractional digit.
pub open spec fn format_tenths(v: int) -> Seq<u8> {
    let m = if v < 0 { -v } else { v };
    (if v < 0 { seq![MINUS] } else { Seq::<u8>::empty() })
        + dec_digits((m / 10) as nat) + seq![DOT, (DIGIT_ZERO + m % 10) as u8]
}

/// The mean in tenths, rounded half away from zero: for a non-negative sum
/// the usual round-half-up of `sum / count`, mirrored for a negative sum.
pub open spec fn mean_rounded(sum: int, count: int) -> int {
    if sum >= 0 {
        (2 * sum + count) / (2 * count)
    } else {
        -((2 * (-sum) + count) / (2 * count))
    }
}

/// Rendering of one summary entry: `key=min/mean/max`.
pub open spec fn render_entry(k: Seq<u8>, s: Stat) -> Seq<u8> {
    k + seq![EQUALS] + format_tenths(s.min) + seq![SLASH]
        + format_tenths(mean_rounded(s.sum, s.count)) + seq![SLASH] + format_tenths(s.max)
}

/// Rendering of a list of entries, comma-separated.
pub open spec fn render_entries(es: Seq<(Seq<u8>, Stat)>) -> Seq<u8>
    decreases es.len(),
{
    if es.len() == 0 {
        Seq::empty()
    } else {
        render_entries(es.drop_last())
            + (if es.len() > 1 { seq![COMMA] } else { Seq::<u8>::empty() })
            + render_entry(es.last().0, es.last().1)
    }
}

/// The whole summary: the entries wrapped in braces.
pub open spec fn render_summary(es: Seq<(Seq<u8>, Stat)>) -> Seq<u8> {
    seq![LBRACE] + render_entries(es) + seq![RBRACE]
}

/// Strict byte-lexicographic order.
pub open spec fn lex_lt(a: Seq<u8>, b: Seq<u8>) -> bool
    decreases a.len(),
{
    if b.len() == 0 {
        false
    } else if a.len() == 0 {
        true
    } else if a[0] < b[0] {
        true
    } else if a[0] > b[0] {
        false
    } else {
        lex_lt(a.drop_first(), b.drop_first())
    }
}

/// `es` lists exactly the entries of the table `m`, keys strictly ascending.
pub open spec fn sorted_entries_of(m: Map<Seq<u8>, Stat>, es: Seq<(Seq<u8>, Stat)>) -> bool {
    &&& forall|i: int, j: int| 0 <= i < j < es.len() ==> lex_lt(es[i].0, es[j].0)
    &&& forall|i: int| 0 <= i < es.len()
        ==> m.contains_key(#[trigger] es[i].0) && es[i].1 == m[es[i].0]
    &&& forall|k: Seq<u8>| m.contains_key(k) ==> exists|i: int| 0 <= i < es.len() && es[i].0 == k
}

/// Nothing precedes itself.
pub proof fn lemma_lex_lt_irreflexive(a: Seq<u8>)
    ensures
        !lex_lt(a, a),
    decreases a.len(),
{
    if a.len() > 0 {
        lemma_lex_lt_irreflexive(a.drop_first());
    }
}

/// The order is asymmetric.
pub proof fn lemma_lex_lt_asymmetric(a: Seq<u8>, b: Seq<u8>)
    requires
        lex_lt(a, b),
    ensures
        !lex_lt(b, a),
    decreases a.len(),
{
    if a.len() > 0 && b.len() > 0 && a[0] == b[0] {
        lemma_lex_lt_asymmetric(a.drop_first(), b.drop_first());
    }
}

/// The order is transitive.
pub proof fn lemma_lex_lt_transitive(a: Seq<u8>, b: Seq<u8>, c: Seq<u8>)
    requires
        lex_lt(a, b),
        lex_lt(b, c),
    ensures
        lex_lt(a, c),
    decreases a.len(),
{
    if a.len() > 0 && b.len() > 0 && c.len() > 0 && a[0] == b[0] && b[0] == c[0] {
        lemma_lex_lt_transitive(a.drop_first(), b.drop_first(), c.drop_first());
    }
}

/// Distinct byte strings are ordered one way or the other.
pub proof fn lemma_lex_lt_connected(a: Seq<u8>, b: Seq<u8>)
    requires
        a != b,
    ensures
        lex_lt(a, b) || lex_lt(b, a),
    decreases a.len(),
{
    if a.len() == 0 && b.len() == 0 {
        assert(a =~= b);
    }
    if a.len() > 0 && b.len() > 0 && a[0] == b[0] {
        if a.drop_first() == b.drop_first() {
            assert(a.drop_first().len() == a.len() - 1);
            assert(b.drop_first().len() == b.len() - 1);
            assert(a.len() == b.len());
            assert forall|i: int| 0 <= i < a.len() implies a[i] == b[i] by {
                if i > 0 {
                    assert(a.drop_first()[i - 1] == a[i]);
                    assert(b.drop_first()[i - 1] == b[i]);
                }
            }
            assert(a =~= b);
        }
        lemma_lex_lt_connected(a.drop_first(), b.drop_first());
    }
}

/// A table has exactly one sorted entry list: the formatter's output is
/// fully determined by the table.
pub proof fn lemma_sorted_entries_unique(
    m: Map<Seq<u8>, Stat>,
    es1: Seq<(Seq<u8>, Stat)>,
    es2: Seq<(Seq<u8>, Stat)>,
)
    requires
        sorted_entries_of(m, es1),
        sorted_entries_of(m, es2),
    ensures
        es1 == es2,
    decreases es1.len(),
{
    if es1.len() == 0 {
        if es2.len() > 0 {
            assert(m.contains_key(es2[0].0));
            assert(exists|i: int| 0 <= i < es1.len() && es1[i].0 == es2[0].0);
        }
        assert(es1 =~= es2);
    } else {
        let k1 = es1[0].0;
        let k2 = es2[0].0;
        assert(m.contains_key(k1) && m.contains_key(k2));
        let j2 = choose|j: int| 0 <= j < es2.len() && es2[j].0 == k1;
        let j1 = choose|j: int| 0 <= j < es1.len() && es1[j].0 == k2;
        if k1 != k2 {
            assert(j2 > 0 && j1 > 0);
            assert(lex_lt(k2, es2[j2].0));
            assert(lex_lt(k1, es1[j1].0));
            lemma_lex_lt_asymmetric(k1, k2);
            assert(false);
        }
        assert(es1[0] == es2[0]);
        let m2 = m.remove(k1);
        let t1 = es1.drop_first();
        let t2 = es2.drop_first();
        assert forall|i: int| 0 <= i < t1.len()
            implies m2.contains_key(#[trigger] t1[i].0) && t1[i].1 == m2[t1[i].0] by {
            assert(t1[i] == es1[i + 1]);
            assert(lex_lt(k1, es1[i + 1].0));
            lemma_lex_lt_irreflexive(k1);
        }
        assert forall|i: int| 0 <= i < t2.len()
            implies m2.contains_key(#[trigger] t2[i].0) && t2[i].1 == m2[t2[i].0] by {
            assert(t2[i] == es2[i + 1]);
            assert(lex_lt(k2, es2[i + 1].0));
            lemma_lex_lt_irreflexive(k2);
        }
        assert forall|k: Seq<u8>| m2.contains_key(k)
            implies exists|i: int| 0 <= i < t1.len() && t1[i].0 == k by {
            let j = choose|j: int| 0 <= j < es1.len() && es1[j].0 == k;
            assert(j > 0);
            assert(t1[j - 1].0 == k);
        }
        assert forall|k: Seq<u8>| m2.contains_key(k)
            implies exists|i: int| 0 <= i < t2.len() && t2[i].0 == k by {
            let j = choose|j: int| 0 <= j < es2.len() && es2[j].0 == k;
            assert(j > 0);
            assert(t2[j - 1].0 == k);
        }
        lemma_sorted_entries_unique(m2, t1, t2);
        assert(es1 =~= es2) by {
            assert forall|i: int| 0 <= i < es1.len() implies es1[i] == es2[i] by {
                if i > 0 {
                    assert(es1[i] == t1[i - 1]);
                    assert(es2[i] == t2[i - 1]);
                }
            }
        }
    }
}

/// How the rounded mean sits against the exact mean: it is within half a
/// tenth of `sum / count`, and a tie lands on the side away from zero.
pub proof fn lemma_mean_rounding(sum: int, count: int)
    requires
        1 <= count,
    ensures
        ({
            let m = mean_rounded(sum, count);
            &&& 2 * count * m - count <= 2 * sum <= 2 * count * m + count
            &&& (2 * sum == 2 * count * m - count ==> sum >= 0)
            &&& (2 * sum == 2 * count * m + count ==> sum < 0)
        }),
{
    if sum >= 0 {
        let q = (2 * sum + count) / (2 * count);
        lemma_fundamental_div_mod(2 * sum + count, 2 * count);
        lemma_mod_bound(2 * sum + count, 2 * count);
    } else {
        let q = (2 * (-sum) + count) / (2 * count);
        lemma_fundamental_div_mod(2 * (-sum) + count, 2 * count);
        lemma_mod_bound(2 * (-sum) + count, 2 * count);
        lemma_mul_unary_negation(2 * count, q);
    }
}

/// A mean that rounds to zero renders as `0.0`, with no sign, even when the
/// sum was negative.
pub proof fn lemma_negative_zero_mean_renders_plain(sum: int, count: int)
    requires
        1 <= count,
        mean_rounded(sum, count) == 0,
    ensures
        format_tenths(mean_rounded(sum, count)) == seq![DIGIT_ZERO, DOT, DIGIT_ZERO],
{
    assert(format_tenths(0) =~= seq![DIGIT_ZERO, DOT, DIGIT_ZERO]);
}

/// Appends the decimal digits of `n`.
pub fn push_digits(out: &mut Vec<u8>, n: u16)
    ensures
        final(out)@ == old(out)@ + dec_digits(n as nat),
    decreases n,
{
    if n < 10 {
        out.push(DIGIT_ZERO + n as u8);
        proof {
            assert(final(out)@ =~= old(out)@ + dec_digits(n as nat));
        }
    } else {
        push_digits(out, n / 10);
        out.push(DIGIT_ZERO + (n % 10) as u8);
        proof {
            assert(final(out)@ =~= old(out)@ + dec_digits(n as nat));
        }
    }
}

/// Appends a fixed-point tenths value as a signed decimal with one
/// fractional digit.
pub fn write_i16_as_float(out: &mut Vec<u8>, value: i16)
    requires
        -(MAX_ABS_TENTHS as int) <= value as int,
    ensures
        final(out)@ == old(out)@ + format_tenths(value as int),
{
    if value < 0 {
        out.push(MINUS);
    }
    let m: u16 = if value < 0 {
        (-(value as i32)) as u16
    } else {
        value as u16
    };
    push_digits(out, m / 10);
    out.push(DOT);
    out.push(DIGIT_ZERO + (m % 10) as u8);
    proof {
        assert(final(out)@ =~= old(out)@ + format_tenths(value as int));
    }
}

/// The rounded mean of a well-formed aggregate, in tenths. It always fits
/// the fixed-point range.
pub fn mean_tenths(sum: i128, count: u64) -> (r: i16)
    requires
        1 <= count,
        -(MAX_ABS_TENTHS as int) * count <= sum as int <= (MAX_ABS_TENTHS as int) * count,
    ensures
        r as int == mean_rounded(sum as int, count as int),
        -(MAX_ABS_TENTHS as int) <= r as int <= MAX_ABS_TENTHS as int,
{
    let c: u128 = count as u128;
    let neg = sum < 0;
    proof {
        assert(sum as int > i128::MIN as int && -(sum as int) <= u128::MAX as int
            && sum as int <= u128::MAX as int) by (nonlinear_arith)
            requires
                0 <= count as int <= u64::MAX as int,
                -(MAX_ABS_TENTHS as int) * (count as int) <= sum as int
                    <= (MAX_ABS_TENTHS as int) * (count as int);
    }
    let m: u128 = if neg {
        (-sum) as u128
    } else {
        sum as u128
    };
    proof {
        assert(2 * (m as int) + (c as int) <= u128::MAX as int) by (nonlinear_arith)
            requires
                0 <= count as int <= u64::MAX as int,
                c as int == count as int,
                m as int == if sum < 0 { -(sum as int) } else { sum as int },
                -(MAX_ABS_TENTHS as int) * (count as int) <= sum as int
                    <= (MAX_ABS_TENTHS as int) * (count as int);
    }
    let num: u128 = 2 * m + c;
    let den: u128 = 2 * c;
    let q: u128 = num / den;
    proof {
        assert((num as int) < (den as int) * ((MAX_ABS_TENTHS as int) + 1)) by (nonlinear_arith)
            requires
                1 <= count as int,
                c as int == count as int,
                m as int == if sum < 0 { -(sum as int) } else { sum as int },
                -(MAX_ABS_TENTHS as int) * (count as int) <= sum as int
                    <= (MAX_ABS_TENTHS as int) * (count as int),
                num as int == 2 * (m as int) + (c as int),
                den as int == 2 * (c as int);
        lemma_multiply_divide_lt(num as int, den as int, (MAX_ABS_TENTHS as int) + 1);
    }
    if neg {
        -(q as i16)
    } else {
        q as i16
    }
}

/// Appends a byte string.
pub fn push_bytes(out: &mut Vec<u8>, a: &[u8])
    ensures
        final(out)@ == old(out)@ + a@,
{
    let len = a.len();
    let mut i: usize = 0;
    while i < len
        invariant
            i <= len,
            len == a@.len(),
            out@ == old(out)@ + a@.subrange(0, i as int),
        decreases len - i,
    {
        out.push(a[i]);
        proof {
            assert(out@ =~= old(out)@ + a@.subrange(0, i + 1));
        }
        i = i + 1;
    }
    proof {
        assert(old(out)@ + a@.subrange(0, len as int) =~= old(out)@ + a@);
    }
}

/// Strict byte-lexicographic comparison.
pub fn bytes_lt(a: &[u8], b: &[u8]) -> (r: bool)
    ensures
        r == lex_lt(a@, b@),
{
    let alen = a.len();
    let blen = b.len();
    let mut i: usize = 0;
    proof {
        assert(a@.skip(0) =~= a@);
        assert(b@.skip(0) =~= b@);
    }
    while i < alen && i < blen
        invariant
            i <= alen,
            i <= blen,
            alen == a@.len(),
            blen == b@.len(),
            lex_lt(a@, b@) == lex_lt(a@.skip(i as int), b@.skip(i as int)),
        decreases alen - i,
    {
        let x = a[i];
        let y = b[i];
        proof {
            assert(a@.skip(i as int)[0] == a@[i as int]);
            assert(b@.skip(i as int)[0] == b@[i as int]);
            assert(a@.skip(i as int).drop_first() =~= a@.skip(i + 1));
            assert(b@.skip(i as int).drop_first() =~= b@.skip(i + 1));
        }
        if x < y {
            return true;
        }
        if x > y {
            return false;
        }
        i = i + 1;
    }
    proof {
        assert(lex_lt(a@, b@) == lex_lt(a@.skip(i as int), b@.skip(i as int)));
    }
    // one side is exhausted: the shorter string comes first
    i >= alen && i < blen
}

/// Sorts an entry list with unique keys ascending by key. The result lists
/// exactly the entries of the list's model.
fn sort_entries(v: Vec<(Vec<u8>, Entry)>) -> (r: Vec<(Vec<u8>, Entry)>)
    requires
        keys_distinct(v@),
        forall|i: int| 0 <= i < v@.len() ==> stat_wf((#[trigger] v@[i]).1@),
    ensures
        forall|i: int, j: int| 0 <= i < j < r@.len() ==> lex_lt(r@[i].0@, r@[j].0@),
        forall|i: int| 0 <= i < r@.len() ==> map_of(v@).contains_key((#[trigger] r@[i]).0@)
            && map_of(v@)[r@[i].0@] == r@[i].1@ && stat_wf(r@[i].1@),
        forall|k: Seq<u8>| map_of(v@).contains_key(k)
            ==> exists|i: int| 0 <= i < r@.len() && r@[i].0@ == k,
{
    let ghost m0 = map_of(v@);
    let mut rem = v;
    let mut out: Vec<(Vec<u8>, Entry)> = Vec::new();
    proof {
        assert forall|i: int| 0 <= i < rem@.len()
            implies m0.contains_key((#[trigger] rem@[i]).0@)
                && m0[rem@[i].0@] == rem@[i].1@ && stat_wf(rem@[i].1@) by {
            lemma_map_of_index(rem@, i);
        }
        assert forall|k: Seq<u8>| m0.contains_key(k)
            implies (exists|i: int| 0 <= i < out@.len() && (#[trigger] out@[i]).0@ == k)
                || (exists|i: int| 0 <= i < rem@.len() && (#[trigger] rem@[i]).0@ == k) by {
            lemma_map_of_contains(rem@, k);
        }
    }
    while rem.len() > 0
        invariant
            keys_distinct(rem@),
            forall|i: int, j: int| 0 <= i < j < out@.len() ==> lex_lt(out@[i].0@, out@[j].0@),
            forall|i: int, j: int| 0 <= i < out@.len() && 0 <= j < rem@.len()
                ==> lex_lt((#[trigger] out@[i]).0@, (#[trigger] rem@[j]).0@),
            forall|i: int| 0 <= i < out@.len() ==> m0.contains_key((#[trigger] out@[i]).0@)
                && m0[out@[i].0@] == out@[i].1@ && stat_wf(out@[i].1@),
            forall|i: int| 0 <= i < rem@.len() ==> m0.contains_key((#[trigger] rem@[i]).0@)
                && m0[rem@[i].0@] == rem@[i].1@ && stat_wf(rem@[i].1@),
            forall|k: Seq<u8>| m0.contains_key(k)
                ==> (exists|i: int| 0 <= i < out@.len() && (#[trigger] out@[i]).0@ == k)
                    || (exists|i: int| 0 <= i < rem@.len() && (#[trigger] rem@[i]).0@ == k),
        decreases rem@.len(),
    {
        let mut min_i: usize = 0;
        let mut j: usize = 1;
        proof {
            lemma_lex_lt_irreflexive(rem@[0].0@);
        }
        while j < rem.len()
            invariant
                rem@.len() > 0,
                min_i < j,
                1 <= j <= rem@.len(),
                forall|q: int| 0 <= q < j ==> !lex_lt((#[trigger] rem@[q]).0@, rem@[min_i as int].0@),
            decreases rem@.len() - j,
        {
            if bytes_lt(rem[j].0.as_slice(), rem[min_i].0.as_slice()) {
                proof {
                    assert forall|q: int| 0 <= q < j
                        implies !lex_lt((#[trigger] rem@[q]).0@, rem@[j as int].0@) by {
                        if lex_lt(rem@[q].0@, rem@[j as int].0@) {
                            lemma_lex_lt_transitive(
                                rem@[q].0@, rem@[j as int].0@, rem@[min_i as int].0@);
                        }
                    }
                }
                min_i = j;
            }
            proof {
                lemma_lex_lt_irreflexive(rem@[j as int].0@);
            }
            j = j + 1;
        }
        let ghost old_rem = rem@;
        let ghost old_out = out@;
        let pair = rem.swap_remove(min_i);
        proof {
            // the popped pair carries the smallest remaining key
            assert forall|q: int| 0 <= q < old_rem.len() && q != min_i as int
                implies lex_lt(pair.0@, (#[trigger] old_rem[q]).0@) by {
                assert(!lex_lt(old_rem[q].0@, pair.0@));
                assert(old_rem[q].0@ != pair.0@);
                lemma_lex_lt_connected(pair.0@, old_rem[q].0@);
            }
            // each remaining slot holds one of the other old slots
            assert forall|l: int| 0 <= l < rem@.len()
                implies exists|q: int| 0 <= q < old_rem.len() && q != min_i as int
                    && old_rem[q] == (#[trigger] rem@[l]) by {
                if l == min_i as int {
                    assert(old_rem[old_rem.len() - 1] == rem@[l]);
                } else {
                    assert(old_rem[l] == rem@[l]);
                }
            }
            assert(keys_distinct(rem@)) by {
                assert forall|i: int, j2: int| 0 <= i < j2 < rem@.len()
                    implies (#[trigger] rem@[i]).0@ != (#[trigger] rem@[j2]).0@ by {
                    let qi: int = if i == min_i as int { old_rem.len() - 1 } else { i };
                    let qj: int = if j2 == min_i as int { old_rem.len() - 1 } else { j2 };
                    assert(rem@[i] == old_rem[qi]);
                    assert(rem@[j2] == old_rem[qj]);
                }
            }
        }
        out.push(pair);
        proof {
            assert forall|k: Seq<u8>| m0.contains_key(k)
                implies (exists|i: int| 0 <= i < out@.len() && (#[trigger] out@[i]).0@ == k)
                    || (exists|i: int| 0 <= i < rem@.len() && (#[trigger] rem@[i]).0@ == k) by {
                if exists|i: int| 0 <= i < old_rem.len() && (#[trigger] old_rem[i]).0@ == k {
                    let q = choose|q: int| 0 <= q < old_rem.len()
                        && (#[trigger] old_rem[q]).0@ == k;
                    if q == min_i as int {
                        assert(out@[out@.len() - 1].0@ == k);
                    } else if q == old_rem.len() - 1 {
                        assert(rem@[min_i as int] == old_rem[q]);
                    } else {
                        assert(rem@[q] == old_rem[q]);
                    }
                } else {
                    let q = choose|q: int| 0 <= q < old_out.len()
                        && (#[trigger] old_out[q]).0@ == k;
                    assert(out@[q].0@ == k);
                }
            }
        }
    }
    out
}

/// Renders the final table: keys sorted ascending by byte value, each entry
/// `key=min/mean/max` with exactly one fractional digit and the mean rounded
/// half away from zero, comma separated, wrapped in braces. The output is
/// the rendering of the table's unique sorted entry list.
#[verifier::rlimit(50)]
pub fn format_summary(table: &StatsTable) -> (out: Vec<u8>)
    requires
        table.wf(),
    ensures
        exists|es: Seq<(Seq<u8>, Stat)>|
            sorted_entries_of(table@, es) && out@ == render_summary(es),
        forall|es: Seq<(Seq<u8>, Stat)>|
            sorted_entries_of(table@, es) ==> out@ == render_summary(es),
{
    let n = table.entries.len();
    let mut copy: Vec<(Vec<u8>, Entry)> = Vec::new();
    let mut i: usize = 0;
    while i < n
        invariant
            i <= n,
            n == table.entries@.len(),
            table.wf(),
            copy@.len() == i,
            forall|q: int| 0 <= q < i ==> (#[trigger] copy@[q]).0@ == table.entries@[q].0@
                && copy@[q].1 == table.entries@[q].1,
        decreases n - i,
    {
        let key = bytes_to_vec(table.entries[i].0.as_slice());
        let e = table.entries[i].1;
        copy.push((key, e));
        i = i + 1;
    }
    proof {
        crate::table::lemma_map_of_congruent(copy@, table.entries@);
        assert(map_of(copy@) == table@);
        assert(keys_distinct(copy@));
    }
    let sorted = sort_entries(copy);
    let ghost es = sorted@.map_values(|p: (Vec<u8>, Entry)| (p.0@, p.1@));
    let mut out: Vec<u8> = Vec::new();
    out.push(LBRACE);
    let sn = sorted.len();
    let mut i: usize = 0;
    proof {
        assert(es.take(0) =~= Seq::<(Seq<u8>, Stat)>::empty());
        assert(out@ =~= seq![LBRACE] + render_entries(es.take(0)));
    }
    while i < sn
        invariant
            i <= sn,
            sn == sorted@.len(),
            es.len() == sn,
            forall|q: int| 0 <= q < sn ==> #[trigger] es[q]
                == (sorted@[q].0@, sorted@[q].1@),
            forall|q: int| 0 <= q < sn ==> stat_wf((#[trigger] sorted@[q]).1@),
            out@ == seq![LBRACE] + render_entries(es.take(i as int)),
        decreases sn - i,
    {
        if i > 0 {
            out.push(COMMA);
        }
        push_bytes(&mut out, sorted[i].0.as_slice());
        out.push(EQUALS);
        let e = sorted[i].1;
        write_i16_as_float(&mut out, e.min);
        out.push(SLASH);
        let mean = mean_tenths(e.sum, e.count);
        write_i16_as_float(&mut out, mean);
        out.push(SLASH);
        write_i16_as_float(&mut out, e.max);
        proof {
            assert(es.take(i + 1).drop_last() =~= es.take(i as int));
            assert(es.take(i + 1).last() == es[i as int]);
            assert(out@ =~= seq![LBRACE] + render_entries(es.take(i + 1)));
        }
        i = i + 1;
    }
    out.push(RBRACE);
    proof {
        assert(es.take(sn as int) =~= es);
        assert(out@ =~= render_summary(es));
        assert(sorted_entries_of(table@, es)) by {
            assert forall|k: Seq<u8>| table@.contains_key(k)
                implies exists|i2: int| 0 <= i2 < es.len() && es[i2].0 == k by {
                let j = choose|j: int| 0 <= j < sorted@.len()
                    && (#[trigger] sorted@[j]).0@ == k;
                assert(es[j].0 == k);
            }
        }
        assert forall|es2: Seq<(Seq<u8>, Stat)>| sorted_entries_of(table@, es2)
            implies out@ == render_summary(es2) by {
            lemma_sorted_entries_unique(table@, es, es2);
        }
    }
    out
}

} // verus!
