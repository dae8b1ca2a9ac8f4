//! The ordered table that collects records by offset, and the order in which
//! it hands them out.

use crate::format::{DumpRecord, RecordView};
use std::collections::BTreeMap;
use vstd::prelude::*;
use vstd::std_specs::cmp::OrdSpec;
use vstd::std_specs::iter::IteratorSpec;

verus! {

/// The records collected so far, each under the offset of its first byte.
pub struct ResultTable {
    map: BTreeMap<usize, DumpRecord>,
}

impl View for ResultTable {
    type V = Map<usize, RecordView>;

    closed spec fn view(&self) -> Map<usize, RecordView> {
        self.map@.map_values(|r: DumpRecord| r@)
    }
}

/// The mathematical content of a list of entries.
pub open spec fn entries_view(entries: Seq<(usize, DumpRecord)>) -> Seq<(usize, RecordView)> {
    entries.map_values(|e: (usize, DumpRecord)| (e.0, e.1@))
}

/// The offsets of the entries grow strictly from each entry to the next.
pub open spec fn ascending(entries: Seq<(usize, RecordView)>) -> bool {
    forall|i: int, j: int| 0 <= i < j < entries.len() ==> entries[i].0 < entries[j].0
}

/// `entries` holds exactly what `table` holds, in ascending order of offset.
pub open spec fn lists(entries: Seq<(usize, RecordView)>, table: Map<usize, RecordView>) -> bool {
    &&& ascending(entries)
    &&& forall|i: int|
        0 <= i < entries.len() ==> table.contains_pair((#[trigger] entries[i]).0, entries[i].1)
    &&& forall|k: usize| #[trigger]
        table.contains_key(k) ==> exists|i: int|
            0 <= i < entries.len() && (#[trigger] entries[i]).0 == k
}

/// The table after the entries have been put into it one after another.
pub open spec fn insert_all(table: Map<usize, RecordView>, entries: Seq<(usize, RecordView)>) -> Map<
    usize,
    RecordView,
>
    decreases entries.len(),
{
    if entries.len() == 0 {
        table
    } else {
        insert_all(table, entries.drop_last()).insert(entries.last().0, entries.last().1)
    }
}

/// The contents of a table in ascending order of offset.
pub open spec fn ordered_entries(table: Map<usize, RecordView>) -> Seq<(usize, RecordView)> {
    choose|entries: Seq<(usize, RecordView)>| lists(entries, table)
}

/// A table has only one listing in ascending order: whatever the order in
/// which its records arrived, it is read out in the same way.
pub proof fn lemma_listing_unique(
    a: Seq<(usize, RecordView)>,
    b: Seq<(usize, RecordView)>,
    table: Map<usize, RecordView>,
)
    requires
        lists(a, table),
        lists(b, table),
    ensures
        a == b,
    decreases a.len(),
{
    if a.len() == 0 {
        if b.len() > 0 {
            assert(table.contains_key(b[0].0));
        }
        assert(a =~= b);
    } else {
        let top = a.last().0;
        assert(table.contains_key(top));
        let j = choose|j: int| 0 <= j < b.len() && (#[trigger] b[j]).0 == top;
        if j != b.len() - 1 {
            let over = b.last().0;
            assert(b[j].0 < over);
            assert(table.contains_key(over));
            let i = choose|i: int| 0 <= i < a.len() && (#[trigger] a[i]).0 == over;
            assert(a[i].0 <= top);
        }
        let rest = table.remove(top);
        let a0 = a.drop_last();
        let b0 = b.drop_last();
        assert(lists(a0, rest)) by {
            assert forall|k: usize| #[trigger] rest.contains_key(k) implies exists|i: int|
                0 <= i < a0.len() && (#[trigger] a0[i]).0 == k by {
                assert(table.contains_key(k));
                let i = choose|i: int| 0 <= i < a.len() && (#[trigger] a[i]).0 == k;
                assert(a0[i].0 == k);
            }
        }
        assert(lists(b0, rest)) by {
            assert forall|k: usize| #[trigger] rest.contains_key(k) implies exists|i: int|
                0 <= i < b0.len() && (#[trigger] b0[i]).0 == k by {
                assert(table.contains_key(k));
                let i = choose|i: int| 0 <= i < b.len() && (#[trigger] b[i]).0 == k;
                assert(b0[i].0 == k);
            }
        }
        lemma_listing_unique(a0, b0, rest);
        assert(a.last() == b.last());
        assert(a =~= a0.push(a.last()));
        assert(b =~= b0.push(b.last()));
    }
}

/// A listing of a table in ascending order is the table's ordered contents.
pub proof fn lemma_listing_is_ordered_entries(
    entries: Seq<(usize, RecordView)>,
    table: Map<usize, RecordView>,
)
    requires
        lists(entries, table),
    ensures
        ordered_entries(table) == entries,
{
    lemma_listing_unique(ordered_entries(table), entries, table);
}

/// No two of the entries share an offset.
pub open spec fn distinct_offsets(entries: Seq<(usize, RecordView)>) -> bool {
    forall|i: int, j: int|
        0 <= i < j < entries.len() ==> (#[trigger] entries[i]).0 != (#[trigger] entries[j]).0
}

/// Entries in ascending order share no offset.
pub proof fn lemma_ascending_distinct(entries: Seq<(usize, RecordView)>)
    requires
        ascending(entries),
    ensures
        distinct_offsets(entries),
{
}

/// What a table holds after entries with pairwise distinct offsets have been
/// put into it: each of the entries, and otherwise what it held before.
pub proof fn lemma_insert_all_contents(
    table: Map<usize, RecordView>,
    entries: Seq<(usize, RecordView)>,
)
    requires
        distinct_offsets(entries),
    ensures
        forall|i: int|
            0 <= i < entries.len() ==> insert_all(table, entries).contains_pair(
                (#[trigger] entries[i]).0,
                entries[i].1,
            ),
        forall|k: usize| #[trigger]
            insert_all(table, entries).contains_key(k) ==> table.contains_key(k) || exists|i: int|
                0 <= i < entries.len() && (#[trigger] entries[i]).0 == k,
        forall|k: usize|
            table.contains_key(k) ==> #[trigger] insert_all(table, entries).contains_key(k),
        forall|k: usize|
            table.contains_key(k) && (forall|i: int|
                0 <= i < entries.len() ==> (#[trigger] entries[i]).0 != k) ==> #[trigger] insert_all(
                table,
                entries,
            )[k] == table[k],
    decreases entries.len(),
{
    if entries.len() > 0 {
        let front = entries.drop_last();
        let last = entries.last();
        lemma_insert_all_contents(table, front);
        let mid = insert_all(table, front);
        let after = insert_all(table, entries);
        assert(after == mid.insert(last.0, last.1));
        assert forall|i: int| 0 <= i < entries.len() implies after.contains_pair(
            (#[trigger] entries[i]).0,
            entries[i].1,
        ) by {
            if i < entries.len() - 1 {
                assert(front[i] == entries[i]);
                assert(entries[i].0 != entries[entries.len() - 1].0);
                assert(mid.contains_pair(front[i].0, front[i].1));
            }
        }
        assert forall|k: usize| #[trigger] after.contains_key(k) implies table.contains_key(k)
            || exists|i: int| 0 <= i < entries.len() && (#[trigger] entries[i]).0 == k by {
            if k == last.0 {
                assert(entries[entries.len() - 1].0 == k);
            } else {
                assert(mid.contains_key(k));
                if !table.contains_key(k) {
                    let i = choose|i: int| 0 <= i < front.len() && (#[trigger] front[i]).0 == k;
                    assert(entries[i].0 == k);
                }
            }
        }
        assert forall|k: usize|
            table.contains_key(k) && (forall|i: int|
                0 <= i < entries.len() ==> (#[trigger] entries[i]).0 != k) implies #[trigger] after[k]
            == table[k] by {
            assert(entries[entries.len() - 1].0 != k);
            assert forall|i: int| 0 <= i < front.len() implies (#[trigger] front[i]).0 != k by {
                assert(front[i] == entries[i]);
            }
            assert(mid[k] == table[k]);
        }
    }
}

/// The order in which records arrive does not matter: two runs of insertions
/// that carry the same entries, no two of them under one offset, leave the
/// same table.
pub proof fn lemma_insert_order_irrelevant(
    table: Map<usize, RecordView>,
    a: Seq<(usize, RecordView)>,
    b: Seq<(usize, RecordView)>,
)
    requires
        distinct_offsets(a),
        distinct_offsets(b),
        forall|e: (usize, RecordView)| a.contains(e) <==> b.contains(e),
    ensures
        insert_all(table, a) == insert_all(table, b),
{
    let ta = insert_all(table, a);
    let tb = insert_all(table, b);
    lemma_insert_all_contents(table, a);
    lemma_insert_all_contents(table, b);
    assert forall|k: usize| ta.contains_key(k) == tb.contains_key(k) && (ta.contains_key(k)
        ==> ta[k] == tb[k]) by {
        if ta.contains_key(k) {
            lemma_same_at(table, a, b, k);
        }
        if tb.contains_key(k) {
            lemma_same_at(table, b, a, k);
        }
    }
    assert(ta =~= tb);
}

/// Under one offset, what the one run leaves is what the other leaves.
proof fn lemma_same_at(
    table: Map<usize, RecordView>,
    a: Seq<(usize, RecordView)>,
    b: Seq<(usize, RecordView)>,
    k: usize,
)
    requires
        distinct_offsets(a),
        distinct_offsets(b),
        forall|e: (usize, RecordView)| a.contains(e) <==> b.contains(e),
        insert_all(table, a).contains_key(k),
    ensures
        insert_all(table, b).contains_key(k),
        insert_all(table, b)[k] == insert_all(table, a)[k],
{
    let ta = insert_all(table, a);
    let tb = insert_all(table, b);
    lemma_insert_all_contents(table, a);
    lemma_insert_all_contents(table, b);
    if exists|i: int| 0 <= i < a.len() && (#[trigger] a[i]).0 == k {
        let i = choose|i: int| 0 <= i < a.len() && (#[trigger] a[i]).0 == k;
        assert(ta.contains_pair(a[i].0, a[i].1));
        assert(a.contains(a[i]));
        assert(b.contains(a[i]));
        let j = choose|j: int| 0 <= j < b.len() && b[j] == a[i];
        assert(tb.contains_pair(b[j].0, b[j].1));
    } else {
        assert(table.contains_key(k));
        assert forall|j: int| 0 <= j < b.len() implies (#[trigger] b[j]).0 != k by {
            if b[j].0 == k {
                assert(b.contains(b[j]));
                assert(a.contains(b[j]));
                let i = choose|i: int| 0 <= i < a.len() && a[i] == b[j];
                assert(a[i].0 == k);
            }
        }
        assert(tb[k] == table[k]);
        assert(ta[k] == table[k]);
    }
}

/// Putting in two runs of entries one after the other is putting in the one
/// run that they make.
pub proof fn lemma_insert_all_concat(
    table: Map<usize, RecordView>,
    a: Seq<(usize, RecordView)>,
    b: Seq<(usize, RecordView)>,
)
    ensures
        insert_all(table, a + b) == insert_all(insert_all(table, a), b),
    decreases b.len(),
{
    if b.len() == 0 {
        assert(a + b =~= a);
    } else {
        lemma_insert_all_concat(table, a, b.drop_last());
        assert((a + b).drop_last() =~= a + b.drop_last());
        assert((a + b).last() == b.last());
    }
}

/// An entry whose offset lies above all others goes to the end of the listing.
pub proof fn lemma_lists_push(
    entries: Seq<(usize, RecordView)>,
    table: Map<usize, RecordView>,
    offset: usize,
    record: RecordView,
)
    requires
        lists(entries, table),
        forall|i: int| 0 <= i < entries.len() ==> (#[trigger] entries[i]).0 < offset,
    ensures
        lists(entries.push((offset, record)), table.insert(offset, record)),
{
    let longer = entries.push((offset, record));
    let after = table.insert(offset, record);
    assert forall|i: int| 0 <= i < longer.len() implies after.contains_pair(
        (#[trigger] longer[i]).0,
        longer[i].1,
    ) by {
        if i < entries.len() {
            assert(longer[i] == entries[i]);
            assert(table.contains_pair(entries[i].0, entries[i].1));
        }
    }
    assert forall|k: usize| #[trigger] after.contains_key(k) implies exists|i: int|
        0 <= i < longer.len() && (#[trigger] longer[i]).0 == k by {
        if k == offset {
            assert(longer[entries.len() as int].0 == k);
        } else {
            assert(table.contains_key(k));
            let i = choose|i: int| 0 <= i < entries.len() && (#[trigger] entries[i]).0 == k;
            assert(longer[i].0 == k);
        }
    }
    assert forall|i: int, j: int| 0 <= i < j < longer.len() implies longer[i].0 < longer[j].0 by {
        assert(longer[i] == entries[i]);
        if j < entries.len() {
            assert(longer[j] == entries[j]);
        }
    }
}

/// Entries in ascending order whose offsets lie above all others go to the
/// end of the listing, in their order.
pub proof fn lemma_lists_append(
    entries: Seq<(usize, RecordView)>,
    table: Map<usize, RecordView>,
    more: Seq<(usize, RecordView)>,
)
    requires
        lists(entries, table),
        ascending(more),
        forall|i: int, j: int|
            0 <= i < entries.len() && 0 <= j < more.len() ==> (#[trigger] entries[i]).0 < (
            #[trigger] more[j]).0,
    ensures
        lists(entries + more, insert_all(table, more)),
    decreases more.len(),
{
    if more.len() == 0 {
        assert(entries + more =~= entries);
    } else {
        let front = more.drop_last();
        let last = more.last();
        assert forall|i: int, j: int|
            0 <= i < entries.len() && 0 <= j < front.len() implies (#[trigger] entries[i]).0 < (
        #[trigger] front[j]).0 by {
            assert(front[j] == more[j]);
        }
        assert(ascending(front)) by {
            assert forall|i: int, j: int| 0 <= i < j < front.len() implies front[i].0
                < front[j].0 by {
                assert(front[i] == more[i] && front[j] == more[j]);
            }
        }
        lemma_lists_append(entries, table, front);
        let so_far = entries + front;
        assert forall|i: int| 0 <= i < so_far.len() implies (#[trigger] so_far[i]).0 < last.0 by {
            if i < entries.len() {
                assert(so_far[i] == entries[i]);
                assert(more[more.len() - 1] == last);
            } else {
                assert(so_far[i] == more[i - entries.len()]);
                assert(more[more.len() - 1] == last);
            }
        }
        lemma_lists_push(so_far, insert_all(table, front), last.0, last.1);
        assert(entries + more =~= so_far.push(last));
    }
}

/// Keys that an ordered map hands out in increasing order are strictly ascending integers.
proof fn lemma_increasing_keys(keys: Seq<usize>)
    requires
        vstd::std_specs::btree::increasing_seq(keys),
    ensures
        forall|i: int, j: int| 0 <= i < j < keys.len() ==> keys[i] < keys[j],
{
    assert forall|i: int, j: int| 0 <= i < j < keys.len() implies keys[i] < keys[j] by {
        assert(keys[i].cmp_spec(&keys[j]) is Less);
    }
}

impl ResultTable {
    /// An empty table.
    pub fn new() -> (table: Self)
        ensures
            table@ == Map::<usize, RecordView>::empty(),
    {
        let table = ResultTable { map: BTreeMap::new() };
        assert(table@ =~= Map::<usize, RecordView>::empty());
        table
    }

    /// Puts `record` under `offset`, in place of whatever stood there.
    pub fn insert(&mut self, offset: usize, record: DumpRecord)
        ensures
            final(self)@ == old(self)@.insert(offset, record@),
    {
        self.map.insert(offset, record);
        assert(self@ =~= old(self)@.insert(offset, record@));
    }

    /// Puts the entries into the table one after another, each in place of
    /// whatever stood under its offset.
    pub fn insert_entries(&mut self, entries: &Vec<(usize, DumpRecord)>)
        ensures
            final(self)@ == insert_all(old(self)@, entries_view(entries@)),
    {
        let ghost all = entries_view(entries@);
        let mut i: usize = 0;
        assert(all.take(0) =~= Seq::<(usize, RecordView)>::empty());
        while i < entries.len()
            invariant
                i <= entries.len(),
                all == entries_view(entries@),
                self@ == insert_all(old(self)@, all.take(i as int)),
            decreases entries.len() - i,
        {
            let record = entries[i].1.clone();
            self.insert(entries[i].0, record);
            proof {
                assert(all.take(i + 1).drop_last() =~= all.take(i as int));
                assert(all.take(i + 1).last() == all[i as int]);
            }
            i += 1;
        }
        assert(all.take(i as int) =~= all);
    }

    /// The number of records in the table.
    pub fn len(&self) -> (n: usize)
        ensures
            self@.dom().finite(),
            n == self@.dom().len(),
    {
        assert(self@.dom() =~= self.map@.dom());
        self.map.len()
    }

    /// Whether the table holds no record.
    pub fn is_empty(&self) -> (r: bool)
        ensures
            r == (self@ == Map::<usize, RecordView>::empty()),
    {
        assert(self@.dom() =~= self.map@.dom());
        proof {
            if self.map@.is_empty() {
                assert(self@ =~= Map::<usize, RecordView>::empty());
            }
        }
        self.map.is_empty()
    }

    /// The records of the table with their offsets, in ascending order of offset.
    pub fn drain_in_order(&self) -> (out: Vec<(usize, DumpRecord)>)
        ensures
            lists(entries_view(out@), self@),
            entries_view(out@) == ordered_entries(self@),
            self@.dom().finite(),
            out.len() == self@.dom().len(),
    {
        let mut out: Vec<(usize, DumpRecord)> = Vec::new();
        let iter = self.map.iter();
        let ghost all = iter.remaining();
        let ghost keys = all.map_values(|kv: (&usize, &DumpRecord)| *kv.0);
        for kv in it: iter
            invariant
                it.seq() == all,
                keys == all.map_values(|kv: (&usize, &DumpRecord)| *kv.0),
                vstd::std_specs::btree::increasing_seq(keys),
                all.len() == self.map@.dom().len(),
                forall|j: int|
                    0 <= j < all.len() ==> self.map@.contains_key(*all[j].0) && self.map@[*all[j].0]
                        == *all[j].1,
                forall|k: usize| #[trigger]
                    self.map@.contains_key(k) ==> all.contains((&k, &self.map@[k])),
                out.len() == it.index(),
                forall|j: int|
                    0 <= j < out.len() ==> out[j].0 == *all[j].0 && out[j].1@ == (*all[j].1)@,
        {
            let (k, v) = kv;
            out.push((*k, v.clone()));
        }
        proof {
            let entries = entries_view(out@);
            assert(self@.dom() =~= self.map@.dom());
            lemma_increasing_keys(keys);
            assert forall|i: int, j: int| 0 <= i < j < entries.len() implies entries[i].0
                < entries[j].0 by {
                assert(keys[i] == out[i].0);
                assert(keys[j] == out[j].0);
            }
            assert forall|i: int| 0 <= i < entries.len() implies self@.contains_pair(
                (#[trigger] entries[i]).0,
                entries[i].1,
            ) by {
                assert(self.map@.contains_key(*all[i].0) && self.map@[*all[i].0] == *all[i].1);
            }
            assert forall|k: usize| #[trigger] self@.contains_key(k) implies exists|i: int|
                0 <= i < entries.len() && (#[trigger] entries[i]).0 == k by {
                assert(self.map@.contains_key(k));
                let pair = (&k, &self.map@[k]);
                assert(all.contains(pair));
                let i = choose|i: int| 0 <= i < all.len() && all[i] == pair;
                assert(entries[i].0 == k);
            }
            lemma_listing_is_ordered_entries(entries, self@);
        }
        out
    }
}

} // verus!
