//! The statistics table: a mapping from key bytes to a running aggregate,
//! with insert-or-update and the order-independent merge. Its model is the
//! map built by `map_of`; well-formedness keeps keys unique and every
//! aggregate in range.

use vstd::prelude::*;

use crate::model::{can_merge, table_merge, table_upsert};
use crate::records::MAX_ABS_TENTHS;
use crate::stats::{Entry, Stat, entry_from_reading, entry_joined, stat_one, stat_wf};

verus! {

/// The model of an entry list: later entries overwrite earlier ones, which
/// with unique keys is plain lookup.
pub open spec fn map_of(s: Seq<(Vec<u8>, Entry)>) -> Map<Seq<u8>, Stat>
    decreases s.len(),
{
    if s.len() == 0 {
        Map::empty()
    } else {
        map_of(s.drop_last()).insert(s.last().0@, s.last().1@)
    }
}

/// No two entries carry the same key.
pub open spec fn keys_distinct(s: Seq<(Vec<u8>, Entry)>) -> bool {
    forall|i: int, j: int| 0 <= i < j < s.len() ==> s[i].0@ != s[j].0@
}

/// A key is in the model exactly when some entry carries it.
pub proof fn lemma_map_of_contains(s: Seq<(Vec<u8>, Entry)>, k: Seq<u8>)
    ensures
        map_of(s).contains_key(k) <==> exists|i: int| 0 <= i < s.len() && s[i].0@ == k,
    decreases s.len(),
{
    if s.len() > 0 {
        lemma_map_of_contains(s.drop_last(), k);
        if map_of(s).contains_key(k) && s.last().0@ != k {
            let i = choose|i: int| 0 <= i < s.drop_last().len() && s.drop_last()[i].0@ == k;
            assert(s[i].0@ == k);
        }
        if exists|i: int| 0 <= i < s.len() && s[i].0@ == k {
            let i = choose|i: int| 0 <= i < s.len() && s[i].0@ == k;
            if i < s.len() - 1 {
                assert(s.drop_last()[i].0@ == k);
            }
        }
    }
}

/// With unique keys, the model maps each entry's key to that entry's
/// aggregate.
pub proof fn lemma_map_of_index(s: Seq<(Vec<u8>, Entry)>, i: int)
    requires
        keys_distinct(s),
        0 <= i < s.len(),
    ensures
        map_of(s).contains_key(s[i].0@),
        map_of(s)[s[i].0@] == s[i].1@,
    decreases s.len(),
{
    if i < s.len() - 1 {
        lemma_map_of_index(s.drop_last(), i);
        assert(s.drop_last()[i] == s[i]);
    }
}

/// With unique keys, the model has exactly one key per entry.
pub proof fn lemma_map_of_card(s: Seq<(Vec<u8>, Entry)>)
    requires
        keys_distinct(s),
    ensures
        map_of(s).dom().finite(),
        map_of(s).dom().len() == s.len(),
    decreases s.len(),
{
    if s.len() > 0 {
        let s0 = s.drop_last();
        lemma_map_of_card(s0);
        lemma_map_of_contains(s0, s.last().0@);
        assert(forall|i: int| 0 <= i < s0.len() ==> s0[i].0@ != s.last().0@);
        assert(!map_of(s0).contains_key(s.last().0@));
        assert(map_of(s).dom() =~= map_of(s0).dom().insert(s.last().0@));
    }
}

/// Overwriting the aggregate of the entry at `i` updates exactly that key
/// in the model.
pub proof fn lemma_map_of_update(s: Seq<(Vec<u8>, Entry)>, i: int, e: Entry)
    requires
        keys_distinct(s),
        0 <= i < s.len(),
    ensures
        map_of(s.update(i, (s[i].0, e))) == map_of(s).insert(s[i].0@, e@),
    decreases s.len(),
{
    let s2 = s.update(i, (s[i].0, e));
    if i == s.len() - 1 {
        assert(s2.drop_last() =~= s.drop_last());
        assert(map_of(s2) =~= map_of(s).insert(s[i].0@, e@));
    } else {
        assert(s2.drop_last() =~= s.drop_last().update(i, (s[i].0, e)));
        lemma_map_of_update(s.drop_last(), i, e);
        assert(s.drop_last()[i] == s[i]);
        assert(s[i].0@ != s.last().0@);
        assert(map_of(s2) =~= map_of(s).insert(s[i].0@, e@));
    }
}

/// Entry lists equal pair for pair have the same model.
pub proof fn lemma_map_of_congruent(s1: Seq<(Vec<u8>, Entry)>, s2: Seq<(Vec<u8>, Entry)>)
    requires
        s1.len() == s2.len(),
        forall|i: int| 0 <= i < s1.len()
            ==> (#[trigger] s1[i]).0@ == s2[i].0@ && s1[i].1 == s2[i].1,
    ensures
        map_of(s1) == map_of(s2),
    decreases s1.len(),
{
    if s1.len() > 0 {
        assert forall|i: int| 0 <= i < s1.drop_last().len()
            implies (#[trigger] s1.drop_last()[i]).0@ == s2.drop_last()[i].0@
                && s1.drop_last()[i].1 == s2.drop_last()[i].1 by {
            assert(s1.drop_last()[i] == s1[i]);
            assert(s2.drop_last()[i] == s2[i]);
        }
        lemma_map_of_congruent(s1.drop_last(), s2.drop_last());
        assert(map_of(s1) =~= map_of(s2));
    }
}

/// Per-key statistics table. Keys are owned byte strings; the aggregates
/// are exact fixed-point statistics.
pub struct StatsTable {
    /// The entry list; `wf()` keeps its keys unique and its aggregates in
    /// range, and every function here requires and preserves it.
    pub entries: Vec<(Vec<u8>, Entry)>,
}

impl View for StatsTable {
    type V = Map<Seq<u8>, Stat>;

    open spec fn view(&self) -> Map<Seq<u8>, Stat> {
        map_of(self.entries@)
    }
}

impl StatsTable {
    /// Keys unique, every aggregate well formed.
    pub open spec fn wf(&self) -> bool {
        &&& keys_distinct(self.entries@)
        &&& forall|i: int| 0 <= i < self.entries@.len() ==> stat_wf(self.entries@[i].1@)
    }

    /// The empty table.
    pub fn new() -> (r: StatsTable)
        ensures
            r@ == Map::<Seq<u8>, Stat>::empty(),
            r.wf(),
    {
        StatsTable { entries: Vec::new() }
    }

    /// The empty table with room reserved for the expected number of keys:
    /// an allocation optimization only, the table grows past it freely.
    pub fn with_capacity(capacity: usize) -> (r: StatsTable)
        ensures
            r@ == Map::<Seq<u8>, Stat>::empty(),
            r.wf(),
    {
        StatsTable { entries: Vec::with_capacity(capacity) }
    }

    /// Number of distinct keys.
    pub fn len(&self) -> (r: usize)
        requires
            self.wf(),
        ensures
            r == self@.dom().len(),
    {
        proof {
            lemma_map_of_card(self.entries@);
        }
        self.entries.len()
    }

    /// The aggregate recorded for a key, if any.
    pub fn get(&self, key: &[u8]) -> (r: Option<Entry>)
        requires
            self.wf(),
        ensures
            match r {
                Some(e) => self@.contains_key(key@) && e@ == self@[key@] && stat_wf(e@),
                None => !self@.contains_key(key@),
            },
    {
        match find_key(&self.entries, key) {
            Some(i) => {
                proof {
                    lemma_map_of_index(self.entries@, i as int);
                }
                Some(self.entries[i].1)
            },
            None => {
                proof {
                    lemma_map_of_contains(self.entries@, key@);
                }
                None
            },
        }
    }
}

/// Byte-for-byte equality of two byte strings.
pub fn bytes_eq(a: &[u8], b: &[u8]) -> (r: bool)
    ensures
        r == (a@ == b@),
{
    if a.len() != b.len() {
        return false;
    }
    let len = a.len();
    let mut i: usize = 0;
    while i < len
        invariant
            i <= len,
            len == a@.len() == b@.len(),
            forall|q: int| 0 <= q < i ==> a@[q] == b@[q],
        decreases len - i,
    {
        if a[i] != b[i] {
            return false;
        }
        i = i + 1;
    }
    proof {
        assert(a@ =~= b@);
    }
    true
}

/// Copies a byte string into an owned vector.
pub fn bytes_to_vec(a: &[u8]) -> (r: Vec<u8>)
    ensures
        r@ == a@,
{
    let len = a.len();
    let mut v: Vec<u8> = Vec::new();
    let mut i: usize = 0;
    while i < len
        invariant
            i <= len,
            len == a@.len(),
            v@ == a@.subrange(0, i as int),
        decreases len - i,
    {
        v.push(a[i]);
        proof {
            assert(v@ =~= a@.subrange(0, i + 1));
        }
        i = i + 1;
    }
    proof {
        assert(a@.subrange(0, len as int) =~= a@);
    }
    v
}

/// Index of the entry carrying the key, if any.
fn find_key(entries: &Vec<(Vec<u8>, Entry)>, key: &[u8]) -> (r: Option<usize>)
    ensures
        match r {
            Some(i) => i < entries@.len() && entries@[i as int].0@ == key@,
            None => forall|i: int| 0 <= i < entries@.len() ==> entries@[i].0@ != key@,
        },
{
    let len = entries.len();
    let mut i: usize = 0;
    while i < len
        invariant
            i <= len,
            len == entries@.len(),
            forall|q: int| 0 <= q < i ==> entries@[q].0@ != key@,
        decreases len - i,
    {
        if bytes_eq(entries[i].0.as_slice(), key) {
            return Some(i);
        }
        i = i + 1;
    }
    None
}

/// Insert-or-update with a whole aggregate: a new key is inserted, an
/// existing key's aggregate is joined componentwise. The count bound is the
/// machine limit on the joined count.
pub fn upsert_entry(table: &mut StatsTable, key: Vec<u8>, entry: Entry)
    requires
        old(table).wf(),
        stat_wf(entry@),
        old(table)@.contains_key(key@) ==> old(table)@[key@].count + entry@.count <= u64::MAX,
    ensures
        final(table)@ == table_upsert(old(table)@, key@, entry@),
        final(table).wf(),
{
    let ghost s = table.entries@;
    match find_key(&table.entries, key.as_slice()) {
        Some(i) => {
            proof {
                lemma_map_of_index(s, i as int);
            }
            let joined = entry_joined(&table.entries[i].1, &entry);
            table.entries[i].1 = joined;
            proof {
                assert(table.entries@ =~= s.update(i as int, (s[i as int].0, joined)));
                lemma_map_of_update(s, i as int, joined);
            }
        },
        None => {
            proof {
                lemma_map_of_contains(s, key@);
            }
            table.entries.push((key, entry));
            proof {
                assert(table.entries@.drop_last() =~= s);
            }
        },
    }
}

/// Insert-or-update with a single reading: a new key starts an aggregate of
/// one reading, an existing key folds the reading in.
pub fn insert_reading(table: &mut StatsTable, key: &[u8], reading: i16)
    requires
        old(table).wf(),
        -(MAX_ABS_TENTHS as int) <= reading as int,
        old(table)@.contains_key(key@) ==> old(table)@[key@].count < u64::MAX,
    ensures
        final(table)@ == table_upsert(old(table)@, key@, stat_one(reading as int)),
        final(table).wf(),
{
    let owned = bytes_to_vec(key);
    let entry = entry_from_reading(reading);
    upsert_entry(table, owned, entry);
}

/// Merges the right table into the left: equivalent to having scanned the
/// union of their inputs, whichever side either table came from. The
/// `can_merge` bound is the machine limit on the merged counts.
pub fn merge_results(a: StatsTable, b: StatsTable) -> (r: StatsTable)
    requires
        a.wf(),
        b.wf(),
        can_merge(a@, b@),
    ensures
        r@ == table_merge(a@, b@),
        r.wf(),
{
    let ghost a0 = a@;
    let ghost b0 = b@;
    let mut a = a;
    let mut b = b;
    while b.entries.len() > 0
        invariant
            a.wf(),
            keys_distinct(b.entries@),
            forall|i: int| 0 <= i < b.entries@.len() ==> stat_wf(b.entries@[i].1@),
            can_merge(a@, map_of(b.entries@)),
            table_merge(a@, map_of(b.entries@)) == table_merge(a0, b0),
        decreases b.entries@.len(),
    {
        let ghost s = b.entries@;
        let popped = b.entries.pop();
        let (k, e) = popped.unwrap();
        proof {
            assert(s.drop_last() == b.entries@);
            assert(map_of(s) == map_of(b.entries@).insert(k@, e@));
            lemma_map_of_contains(b.entries@, k@);
            assert(!map_of(b.entries@).contains_key(k@));
            assert(map_of(s).contains_key(k@) && map_of(s)[k@] == e@);
            assert(stat_wf(s[s.len() - 1].1@));
        }
        let ghost a_before = a@;
        upsert_entry(&mut a, k, e);
        proof {
            crate::model::lemma_merge_pull_entry(a_before, map_of(b.entries@), k@, e@);
            assert(can_merge(a@, map_of(b.entries@))) by {
                assert forall|q: Seq<u8>|
                    a@.contains_key(q) && map_of(b.entries@).contains_key(q)
                    implies a@[q].count + map_of(b.entries@)[q].count <= u64::MAX by {
                    assert(q != k@);
                    assert(a@[q] == a_before[q]);
                    assert(map_of(b.entries@)[q] == map_of(s)[q]);
                    assert(map_of(s).contains_key(q));
                }
            }
        }
    }
    proof {
        assert(b.entries@.len() == 0);
        assert(map_of(b.entries@) =~= Map::<Seq<u8>, Stat>::empty());
        crate::model::lemma_merge_empty(a@);
    }
    a
}

/// Whether two tables can merge without overflowing any count: the runtime
/// test of the `can_merge` bound.
pub fn mergeable(a: &StatsTable, b: &StatsTable) -> (r: bool)
    requires
        a.wf(),
        b.wf(),
    ensures
        r == can_merge(a@, b@),
{
    let len = a.entries.len();
    let mut i: usize = 0;
    while i < len
        invariant
            i <= len,
            a.wf(),
            b.wf(),
            len == a.entries@.len(),
            forall|q: int| 0 <= q < i && b@.contains_key(#[trigger] a.entries@[q].0@)
                ==> a.entries@[q].1@.count + b@[a.entries@[q].0@].count <= u64::MAX,
        decreases len - i,
    {
        match find_key(&b.entries, a.entries[i].0.as_slice()) {
            Some(j) => {
                proof {
                    lemma_map_of_index(b.entries@, j as int);
                }
                let ea = a.entries[i].1;
                let eb = b.entries[j].1;
                if ea.count > u64::MAX - eb.count {
                    proof {
                        lemma_map_of_index(a.entries@, i as int);
                    }
                    return false;
                }
            },
            None => {
                proof {
                    lemma_map_of_contains(b.entries@, a.entries@[i as int].0@);
                }
            },
        }
        i = i + 1;
    }
    proof {
        assert forall|k: Seq<u8>| a@.contains_key(k) && b@.contains_key(k)
            implies a@[k].count + b@[k].count <= u64::MAX by {
            lemma_map_of_contains(a.entries@, k);
            let q = choose|q: int| 0 <= q < a.entries@.len() && a.entries@[q].0@ == k;
            lemma_map_of_index(a.entries@, q);
        }
    }
    true
}

/// Merge with the machine limit tested at run time: `None` exactly when
/// some key's merged count would overflow.
pub fn merge_checked(a: StatsTable, b: StatsTable) -> (r: Option<StatsTable>)
    requires
        a.wf(),
        b.wf(),
    ensures
        match r {
            Some(t) => can_merge(a@, b@) && t@ == table_merge(a@, b@) && t.wf(),
            None => !can_merge(a@, b@),
        },
{
    if mergeable(&a, &b) {
        Some(merge_results(a, b))
    } else {
        None
    }
}

} // verus!
