//! The memtable: the current state, in memory, in the order of the keys.

use crate::text;
use crate::text::Order;
use crate::text::order_of;
use vstd::prelude::*;

verus! {

/// What a table maps keys to: a value, or, for a deleted key, a tombstone.
pub type Table = Map<Seq<char>, Option<Seq<char>>>;

/// One key with its value, or with a tombstone.
pub type Entry = (String, Option<String>);

/// The text of a value, if there is one.
pub open spec fn text_of(value: Option<String>) -> Option<Seq<char>> {
    match value {
        Some(value) => Some(value@),
        None => None,
    }
}

/// An in-memory table whose keys are in order.
///
/// A deleted key is not removed but marked with a tombstone, which tells "deleted" from "never
/// written".
pub struct Memtable {
    entries: Vec<Entry>,
    size_bytes: usize,
}

/// Whether one of the entries has the key.
spec fn has_key(entries: Seq<Entry>, key: Seq<char>) -> bool {
    exists|i: int| 0 <= i < entries.len() && (#[trigger] entries[i]).0@ == key
}

/// Where the key stands among the entries.
spec fn index_of(entries: Seq<Entry>, key: Seq<char>) -> int {
    choose|i: int| 0 <= i < entries.len() && (#[trigger] entries[i]).0@ == key
}

/// What the entries map keys to.
spec fn table_of(entries: Seq<Entry>) -> Table {
    Map::new(
        |key: Seq<char>| has_key(entries, key),
        |key: Seq<char>| text_of(entries[index_of(entries, key)].1),
    )
}

/// The keys go up strictly.
spec fn is_sorted(entries: Seq<Entry>) -> bool {
    forall|i: int, j: int|
        #![trigger entries[i], entries[j]]
        0 <= i < j < entries.len() ==> text::comes_before(entries[i].0@, entries[j].0@)
}

impl View for Memtable {
    type V = Table;

    closed spec fn view(&self) -> Table {
        table_of(self.entries@)
    }
}

/// In a sorted run of entries, a key stands at one place only.
proof fn lemma_index_of(entries: Seq<Entry>, i: int)
    requires
        is_sorted(entries),
        0 <= i < entries.len(),
    ensures
        has_key(entries, entries[i].0@),
        index_of(entries, entries[i].0@) == i,
        table_of(entries).contains_key(entries[i].0@),
        table_of(entries)[entries[i].0@] == text_of(entries[i].1),
{
    let key = entries[i].0@;
    let j = index_of(entries, key);
    assert(entries[i].0@ == key);
    assert(0 <= j < entries.len() && entries[j].0@ == key);
    text::lemma_order_total(key, key);
    if j < i {
        assert(text::comes_before(entries[j].0@, entries[i].0@));
    } else if i < j {
        assert(text::comes_before(entries[i].0@, entries[j].0@));
    }
}

/// There are as many keys as entries.
proof fn lemma_table_len(entries: Seq<Entry>)
    requires
        is_sorted(entries),
    ensures
        table_of(entries).dom().finite(),
        table_of(entries).dom().len() == entries.len(),
{
    let keys = entries.map_values(|entry: Entry| entry.0@);
    assert(keys.no_duplicates()) by {
        assert forall|i: int, j: int|
            0 <= i < keys.len() && 0 <= j < keys.len() && i != j implies keys[i] != keys[j] by {
            lemma_index_of(entries, i);
            lemma_index_of(entries, j);
        }
    }
    keys.unique_seq_to_set();
    assert(table_of(entries).dom() =~= keys.to_set()) by {
        assert forall|key: Seq<char>| table_of(entries).dom().contains(key) implies keys.to_set().contains(key) by {
            let i = index_of(entries, key);
            assert(keys[i] == key);
        }
        assert forall|key: Seq<char>| keys.to_set().contains(key) implies table_of(entries).dom().contains(key) by {
            let i = choose|i: int| 0 <= i < keys.len() && keys[i] == key;
            assert(entries[i].0@ == key);
        }
    }
}

/// Whether the entry is among the entries.
spec fn has_entry(entries: Seq<Entry>, entry: Entry) -> bool {
    exists|i: int| 0 <= i < entries.len() && #[trigger] entries[i] == entry
}

/// Entries that differ only in one entry have tables that differ only in one key.
proof fn lemma_one_entry(before: Seq<Entry>, after: Seq<Entry>, entry: Entry)
    requires
        is_sorted(before),
        is_sorted(after),
        has_entry(after, entry),
        forall|i: int|
            0 <= i < before.len() && (#[trigger] before[i]).0@ != entry.0@ ==> has_entry(
                after,
                before[i],
            ),
        forall|i: int|
            0 <= i < after.len() && (#[trigger] after[i]).0@ != entry.0@ ==> has_entry(
                before,
                after[i],
            ),
    ensures
        table_of(after) == table_of(before).insert(entry.0@, text_of(entry.1)),
{
    let expected = table_of(before).insert(entry.0@, text_of(entry.1));
    assert forall|key: Seq<char>| #[trigger] table_of(after).contains_key(key) implies
        expected.contains_key(key) && table_of(after)[key] == expected[key] by {
        let i = index_of(after, key);
        lemma_index_of(after, i);
        if key == entry.0@ {
            let j = choose|j: int| 0 <= j < after.len() && #[trigger] after[j] == entry;
            lemma_index_of(after, j);
        } else {
            let j = choose|j: int| 0 <= j < before.len() && #[trigger] before[j] == after[i];
            lemma_index_of(before, j);
        }
    }
    assert forall|key: Seq<char>| #[trigger] expected.contains_key(key) implies table_of(
        after,
    ).contains_key(key) by {
        if key == entry.0@ {
            let j = choose|j: int| 0 <= j < after.len() && #[trigger] after[j] == entry;
            lemma_index_of(after, j);
        } else {
            let i = index_of(before, key);
            lemma_index_of(before, i);
            let j = choose|j: int| 0 <= j < after.len() && #[trigger] after[j] == before[i];
            lemma_index_of(after, j);
        }
    }
    assert(table_of(after) =~= expected);
}

/// To replace the value of a key is to insert into the table.
proof fn lemma_replace(entries: Seq<Entry>, at: int, entry: Entry)
    requires
        is_sorted(entries),
        0 <= at < entries.len(),
        entry.0@ == entries[at].0@,
    ensures
        is_sorted(entries.update(at, entry)),
        table_of(entries.update(at, entry)) == table_of(entries).insert(
            entry.0@,
            text_of(entry.1),
        ),
{
    let after = entries.update(at, entry);
    assert forall|i: int, j: int|
        #![trigger after[i], after[j]]
        0 <= i < j < after.len() implies text::comes_before(after[i].0@, after[j].0@) by {
        assert(text::comes_before(entries[i].0@, entries[j].0@));
    }
    assert(after[at] == entry);
    assert forall|i: int|
        0 <= i < entries.len() && (#[trigger] entries[i]).0@ != entry.0@ implies has_entry(
        after,
        entries[i],
    ) by {
        assert(after[i] == entries[i]);
    }
    assert forall|i: int|
        0 <= i < after.len() && (#[trigger] after[i]).0@ != entry.0@ implies has_entry(
        entries,
        after[i],
    ) by {
        assert(after[i] == entries[i]);
    }
    lemma_one_entry(entries, after, entry);
}

/// To put a new key in its place is to insert into the table.
proof fn lemma_insert(entries: Seq<Entry>, at: int, entry: Entry)
    requires
        is_sorted(entries),
        0 <= at <= entries.len(),
        forall|i: int| 0 <= i < at ==> text::comes_before((#[trigger] entries[i]).0@, entry.0@),
        forall|i: int|
            at <= i < entries.len() ==> text::comes_before(entry.0@, (#[trigger] entries[i]).0@),
    ensures
        is_sorted(entries.insert(at, entry)),
        table_of(entries.insert(at, entry)) == table_of(entries).insert(
            entry.0@,
            text_of(entry.1),
        ),
{
    let after = entries.insert(at, entry);
    assert(after[at] == entry);
    assert forall|i: int| 0 <= i < entries.len() implies has_entry(after, #[trigger] entries[i]) by {
        if i < at {
            assert(after[i] == entries[i]);
        } else {
            assert(after[i + 1] == entries[i]);
        }
    }
    assert forall|i: int|
        0 <= i < after.len() && (#[trigger] after[i]).0@ != entry.0@ implies has_entry(
        entries,
        after[i],
    ) by {
        if i < at {
            assert(entries[i] == after[i]);
        } else {
            assert(entries[i - 1] == after[i]);
        }
    }
    assert forall|i: int, j: int|
        #![trigger after[i], after[j]]
        0 <= i < j < after.len() implies text::comes_before(after[i].0@, after[j].0@) by {
        let a = if i < at {
            i
        } else {
            i - 1
        };
        let b = if j < at {
            j
        } else {
            j - 1
        };
        if i == at {
            assert(text::comes_before(entry.0@, entries[b].0@));
        } else if j == at {
            assert(text::comes_before(entries[a].0@, entry.0@));
        } else {
            assert(text::comes_before(entries[a].0@, entries[b].0@));
        }
    }
    lemma_one_entry(entries, after, entry);
}

/// A key that would stand between two neighbours is not in the table.
proof fn lemma_absent(entries: Seq<Entry>, at: int, key: Seq<char>)
    requires
        0 <= at <= entries.len(),
        forall|i: int| 0 <= i < at ==> text::comes_before((#[trigger] entries[i]).0@, key),
        forall|i: int|
            at <= i < entries.len() ==> text::comes_before(key, (#[trigger] entries[i]).0@),
    ensures
        !table_of(entries).contains_key(key),
{
    text::lemma_order_total(key, key);
    if has_key(entries, key) {
        let i = index_of(entries, key);
        assert(entries[i].0@ == key);
    }
}

impl Memtable {
    /// The keys are in order, and there is one entry for each.
    pub closed spec fn wf(&self) -> bool {
        is_sorted(self.entries@)
    }

    /// How many bytes have been written to the table since it was last empty.
    pub closed spec fn written(&self) -> nat {
        self.size_bytes as nat
    }

    /// An empty table.
    pub fn new() -> (table: Self)
        ensures
            table.wf(),
            table@ == Map::<Seq<char>, Option<Seq<char>>>::empty(),
            table.written() == 0,
    {
        let table = Memtable { entries: Vec::new(), size_bytes: 0 };
        assert(table@ =~= Map::<Seq<char>, Option<Seq<char>>>::empty());
        table
    }

    /// Where the key stands, or where it would stand.
    fn locate(&self, key: &str) -> (at: (usize, bool))
        requires
            self.wf(),
        ensures
            at.0 <= self.entries@.len(),
            at.1 ==> at.0 < self.entries@.len() && self.entries@[at.0 as int].0@ == key@,
            !at.1 ==> {
                &&& forall|i: int|
                    0 <= i < at.0 ==> text::comes_before(
                        (#[trigger] self.entries@[i]).0@,
                        key@,
                    )
                &&& forall|i: int|
                    at.0 <= i < self.entries@.len() ==> text::comes_before(
                        key@,
                        (#[trigger] self.entries@[i]).0@,
                    )
            },
    {
        let mut low: usize = 0;
        let mut high: usize = self.entries.len();
        while low < high
            invariant
                is_sorted(self.entries@),
                low <= high <= self.entries@.len(),
                forall|i: int|
                    0 <= i < low ==> text::comes_before((#[trigger] self.entries@[i]).0@, key@),
                forall|i: int|
                    high <= i < self.entries@.len() ==> text::comes_before(
                        key@,
                        (#[trigger] self.entries@[i]).0@,
                    ),
            decreases high - low,
        {
            let middle: usize = low + (high - low) / 2;
            let order: Order = order_of(key, self.entries[middle].0.as_str());
            let ghost pivot = self.entries@[middle as int].0@;
            match order {
                Order::Same => {
                    return (middle, true);
                },
                Order::Before => {
                    proof {
                        assert forall|i: int|
                            middle <= i < self.entries@.len() implies text::comes_before(
                            key@,
                            (#[trigger] self.entries@[i]).0@,
                        ) by {
                            if i > middle {
                                assert(text::comes_before(pivot, self.entries@[i].0@));
                                text::lemma_order_transitive(key@, pivot, self.entries@[i].0@);
                            }
                        }
                    }
                    high = middle;
                },
                Order::After => {
                    proof {
                        assert forall|i: int| 0 <= i <= middle implies text::comes_before(
                            (#[trigger] self.entries@[i]).0@,
                            key@,
                        ) by {
                            if i < middle {
                                assert(text::comes_before(self.entries@[i].0@, pivot));
                                text::lemma_order_transitive(self.entries@[i].0@, pivot, key@);
                            }
                        }
                    }
                    low = middle + 1;
                },
            }
        }
        (low, false)
    }

    /// Set the entry of a key.
    fn set(&mut self, key: String, value: Option<String>)
        requires
            old(self).wf(),
        ensures
            final(self).wf(),
            final(self)@ == old(self)@.insert(key@, text_of(value)),
            final(self).written() == old(self).written(),
    {
        let (at, found) = self.locate(key.as_str());
        let entry: Entry = (key, value);
        if found {
            proof {
                lemma_replace(self.entries@, at as int, entry);
            }
            self.entries[at] = entry;
        } else {
            proof {
                lemma_insert(self.entries@, at as int, entry);
            }
            self.entries.insert(at, entry);
        }
    }

    /// Insert or update a key, and return how many bytes were written.
    pub fn put(&mut self, key: String, value: String) -> (added: usize)
        requires
            old(self).wf(),
            old(self).written() + text::byte_len(key@) + text::byte_len(value@) <= usize::MAX,
        ensures
            final(self).wf(),
            final(self)@ == old(self)@.insert(key@, Some(value@)),
            added == text::byte_len(key@) + text::byte_len(value@),
            final(self).written() == old(self).written() + added,
    {
        let added: usize = key.as_str().as_bytes().len() + value.as_str().as_bytes().len();
        self.set(key, Some(value));
        self.size_bytes = self.size_bytes + added;
        added
    }

    /// Mark a key as deleted, and return how many bytes were written.
    pub fn delete(&mut self, key: String) -> (added: usize)
        requires
            old(self).wf(),
            old(self).written() + text::byte_len(key@) <= usize::MAX,
        ensures
            final(self).wf(),
            final(self)@ == old(self)@.insert(key@, None),
            added == text::byte_len(key@),
            final(self).written() == old(self).written() + added,
    {
        let added: usize = key.as_str().as_bytes().len();
        self.set(key, None);
        self.size_bytes = self.size_bytes + added;
        added
    }

    /// Look up a key: `Some(Some(_))` if it has a value, `Some(None)` if it was deleted, `None` if
    /// it was never written.
    pub fn get(&self, key: &str) -> (value: Option<Option<&str>>)
        requires
            self.wf(),
        ensures
            match value {
                Some(Some(value)) => self@.contains_key(key@) && self@[key@] == Some(value@),
                Some(None) => self@.contains_key(key@) && self@[key@] is None,
                None => !self@.contains_key(key@),
            },
    {
        let (at, found) = self.locate(key);
        if !found {
            proof {
                lemma_absent(self.entries@, at as int, key@);
            }
            return None;
        }
        proof {
            lemma_index_of(self.entries@, at as int);
        }
        match &self.entries[at].1 {
            Some(value) => Some(Some(value.as_str())),
            None => Some(None),
        }
    }

    /// How many bytes have been written to the table since it was last empty.
    pub fn size(&self) -> (bytes: usize)
        ensures
            bytes == self.written(),
    {
        self.size_bytes
    }

    /// How many keys the table has, deleted ones included.
    pub fn len(&self) -> (count: usize)
        requires
            self.wf(),
        ensures
            self@.dom().finite(),
            count == self@.dom().len(),
    {
        proof {
            lemma_table_len(self.entries@);
        }
        self.entries.len()
    }

    /// Whether the table has no key, not even a deleted one.
    pub fn is_empty(&self) -> (empty: bool)
        ensures
            empty == (self@ == Map::<Seq<char>, Option<Seq<char>>>::empty()),
    {
        proof {
            if self.entries@.len() == 0 {
                assert(self@ =~= Map::<Seq<char>, Option<Seq<char>>>::empty());
            } else {
                assert(has_key(self.entries@, self.entries@[0].0@));
                assert(self@.contains_key(self.entries@[0].0@));
            }
        }
        self.entries.len() == 0
    }

    /// All entries, in the order of their keys.
    pub fn iter(&self) -> (entries: Vec<(&String, &Option<String>)>)
        requires
            self.wf(),
        ensures
            entries@.len() == self@.dom().len(),
            forall|i: int, j: int|
                #![trigger entries@[i], entries@[j]]
                0 <= i < j < entries@.len() ==> text::comes_before(entries@[i].0@, entries@[j].0@),
            forall|i: int|
                0 <= i < entries@.len() ==> self@.contains_key((#[trigger] entries@[i]).0@)
                    && self@[entries@[i].0@] == text_of(*entries@[i].1),
            forall|key: Seq<char>| #[trigger]
                self@.contains_key(key) ==> exists|i: int|
                    0 <= i < entries@.len() && (#[trigger] entries@[i]).0@ == key,
    {
        let mut entries: Vec<(&String, &Option<String>)> = Vec::new();
        let mut i: usize = 0;
        while i < self.entries.len()
            invariant
                i <= self.entries@.len(),
                entries@.len() == i,
                forall|j: int|
                    0 <= j < i ==> *(#[trigger] entries@[j]).0 == self.entries@[j].0
                        && *entries@[j].1 == self.entries@[j].1,
            decreases self.entries@.len() - i,
        {
            entries.push((&self.entries[i].0, &self.entries[i].1));
            i += 1;
        }
        proof {
            lemma_table_len(self.entries@);
            assert forall|j: int| 0 <= j < entries@.len() implies self@.contains_key(
                (#[trigger] entries@[j]).0@,
            ) && self@[entries@[j].0@] == text_of(*entries@[j].1) by {
                lemma_index_of(self.entries@, j);
            }
            assert forall|key: Seq<char>| #[trigger] self@.contains_key(key) implies exists|j: int|
                0 <= j < entries@.len() && (#[trigger] entries@[j]).0@ == key by {
                let j = index_of(self.entries@, key);
                assert(entries@[j].0@ == key);
            }
            assert forall|a: int, b: int|
                #![trigger entries@[a], entries@[b]]
                0 <= a < b < entries@.len() implies text::comes_before(
                entries@[a].0@,
                entries@[b].0@,
            ) by {
                assert(text::comes_before(self.entries@[a].0@, self.entries@[b].0@));
            }
        }
        entries
    }

    /// Empty the table.
    pub fn clear(&mut self)
        ensures
            final(self).wf(),
            final(self)@ == Map::<Seq<char>, Option<Seq<char>>>::empty(),
            final(self).written() == 0,
    {
        self.entries.clear();
        self.size_bytes = 0;
        assert(self@ =~= Map::<Seq<char>, Option<Seq<char>>>::empty());
    }
}

} // verus!
