//! The storage engine: what is logged takes effect in the memtable, and nothing else does.

use super::memtable::Memtable;
use super::memtable::Table;
use super::wal;
use super::wal::Operation;
use super::wal::WalEntry;
use super::wal::WalView;
use super::wal::replay;
use crate::text;
use vstd::prelude::*;

verus! {

impl WalView {
    /// What the entry does to a table.
    pub open spec fn applied_to(self, table: Table) -> Table {
        match self.operation {
            Operation::Put => table.insert(self.key, Some(self.text())),
            Operation::Delete => table.insert(self.key, None),
        }
    }
}

/// What some entries, one after the other, do to a table.
pub open spec fn applied_in_order(entries: Seq<WalView>, table: Table) -> Table
    decreases entries.len(),
{
    if entries.len() == 0 {
        table
    } else {
        entries.last().applied_to(applied_in_order(entries.drop_last(), table))
    }
}

/// What a client reads from a table under a key: a deleted key reads as one never written.
pub open spec fn read(table: Table, key: Seq<char>) -> Option<Seq<char>> {
    if table.contains_key(key) {
        table[key]
    } else {
        None
    }
}

/// The storage engine.
///
/// A mutation has two halves. The caller appends the entry for it to the log and makes it
/// durable; then the engine is told how that went, and only what was logged takes effect.
pub struct StorageEngine {
    memtable: Memtable,
}

impl View for StorageEngine {
    type V = Table;

    closed spec fn view(&self) -> Table {
        self.memtable@
    }
}

impl StorageEngine {
    /// The memtable is in order.
    pub closed spec fn wf(&self) -> bool {
        self.memtable.wf()
    }

    /// How many bytes have been written to the memtable.
    pub closed spec fn written(&self) -> nat {
        self.memtable.written()
    }

    /// An engine that starts from the contents of a log, empty where this is the first start.
    pub fn new(contents: &str) -> (engine: Self)
        ensures
            engine.wf(),
            engine@ == applied_in_order(wal::replayed(contents@), Map::empty()),
            engine.written() == wal::weight_of(wal::replayed(contents@)),
    {
        StorageEngine::recover(replay(contents))
    }

    /// An engine that starts from the entries of a log.
    pub fn recover(entries: Vec<WalEntry>) -> (engine: Self)
        requires
            wal::weight_of(wal::entry_views(entries@)) <= usize::MAX,
        ensures
            engine.wf(),
            engine@ == applied_in_order(wal::entry_views(entries@), Map::empty()),
            engine.written() == wal::weight_of(wal::entry_views(entries@)),
    {
        let mut engine = StorageEngine { memtable: Memtable::new() };
        let ghost all = wal::entry_views(entries@);
        let mut i: usize = 0;
        proof {
            assert(all.take(0) =~= Seq::empty());
        }
        while i < entries.len()
            invariant
                i <= entries@.len(),
                all == wal::entry_views(entries@),
                wal::weight_of(all) <= usize::MAX,
                engine.wf(),
                engine@ == applied_in_order(all.take(i as int), Map::empty()),
                engine.written() == wal::weight_of(all.take(i as int)),
            decreases entries@.len() - i,
        {
            proof {
                lemma_weight_prefix(all, i + 1);
                assert(all.take(i + 1).drop_last() =~= all.take(i as int));
                assert(all.take(i + 1).last() == entries@[i as int]@);
            }
            engine.apply(&entries[i]);
            i += 1;
        }
        proof {
            assert(all.take(i as int) =~= all);
        }
        engine
    }

    /// Bring an entry into the memtable.
    fn apply(&mut self, entry: &WalEntry)
        requires
            old(self).wf(),
            old(self).written() + entry@.weight() <= usize::MAX,
        ensures
            final(self).wf(),
            final(self)@ == entry@.applied_to(old(self)@),
            final(self).written() == old(self).written() + entry@.weight(),
    {
        match entry.operation {
            Operation::Put => {
                let value: String = match &entry.value {
                    Some(value) => value.clone(),
                    None => String::new(),
                };
                self.memtable.put(entry.key.clone(), value);
            },
            Operation::Delete => {
                self.memtable.delete(entry.key.clone());
            },
        }
    }

    /// The entry to log before a key is put.
    pub fn put_entry(key: String, value: String) -> (entry: WalEntry)
        ensures
            entry@ == (WalView { operation: Operation::Put, key: key@, value: Some(value@) }),
    {
        WalEntry { operation: Operation::Put, key, value: Some(value) }
    }

    /// The entry to log before a key is deleted.
    pub fn delete_entry(key: String) -> (entry: WalEntry)
        ensures
            entry@ == (WalView { operation: Operation::Delete, key: key@, value: None }),
    {
        WalEntry { operation: Operation::Delete, key, value: None }
    }

    /// Whether the sizes of keys and values still fit the machine with those of an entry.
    pub fn has_room(&self, entry: &WalEntry) -> (fits: bool)
        ensures
            fits == (self.written() + entry@.weight() <= usize::MAX),
    {
        let with_key: usize = match self.size().checked_add(entry.key.as_str().as_bytes().len()) {
            Some(bytes) => bytes,
            None => {
                return false;
            },
        };
        match (entry.operation, &entry.value) {
            (Operation::Put, Some(value)) => with_key.checked_add(
                value.as_str().as_bytes().len(),
            ).is_some(),
            _ => true,
        }
    }

    /// Finish a mutation whose entry the log was to record. If the log failed, nothing changes.
    pub fn finish<E>(&mut self, entry: &WalEntry, logged: Result<(), E>) -> (result: Result<(), E>)
        requires
            old(self).wf(),
            logged is Ok ==> old(self).written() + entry@.weight() <= usize::MAX,
        ensures
            final(self).wf(),
            result == logged,
            logged is Ok ==> final(self)@ == entry@.applied_to(old(self)@) && final(self).written()
                == old(self).written() + entry@.weight(),
            logged is Err ==> final(self)@ == old(self)@ && final(self).written()
                == old(self).written(),
    {
        if logged.is_ok() {
            self.apply(entry);
        }
        logged
    }

    /// Put a key, after the log was to record it. If the log failed, nothing changes.
    pub fn put<E>(&mut self, key: String, value: String, logged: Result<(), E>) -> (result: Result<
        (),
        E,
    >)
        requires
            old(self).wf(),
            logged is Ok ==> old(self).written() + text::byte_len(key@) + text::byte_len(value@)
                <= usize::MAX,
        ensures
            final(self).wf(),
            result == logged,
            logged is Ok ==> final(self)@ == old(self)@.insert(key@, Some(value@))
                && final(self).written() == old(self).written() + text::byte_len(key@)
                + text::byte_len(value@),
            logged is Err ==> final(self)@ == old(self)@ && final(self).written()
                == old(self).written(),
    {
        let entry: WalEntry = StorageEngine::put_entry(key, value);
        self.finish(&entry, logged)
    }

    /// Delete a key, after the log was to record it. If the log failed, nothing changes.
    pub fn delete<E>(&mut self, key: String, logged: Result<(), E>) -> (result: Result<(), E>)
        requires
            old(self).wf(),
            logged is Ok ==> old(self).written() + text::byte_len(key@) <= usize::MAX,
        ensures
            final(self).wf(),
            result == logged,
            logged is Ok ==> final(self)@ == old(self)@.insert(key@, None) && final(self).written()
                == old(self).written() + text::byte_len(key@),
            logged is Err ==> final(self)@ == old(self)@ && final(self).written()
                == old(self).written(),
    {
        let entry: WalEntry = StorageEngine::delete_entry(key);
        self.finish(&entry, logged)
    }

    /// Look up a key: `None` if it was never written or was deleted.
    pub fn get(&self, key: &str) -> (value: Option<String>)
        requires
            self.wf(),
        ensures
            super::memtable::text_of(value) == read(self@, key@),
    {
        match self.memtable.get(key) {
            Some(Some(value)) => Some(value.to_owned()),
            Some(None) => None,
            None => None,
        }
    }

    /// How many bytes have been written to the memtable.
    pub fn size(&self) -> (bytes: usize)
        ensures
            bytes == self.written(),
    {
        self.memtable.size()
    }
}

/// The first entries weigh no more than all.
proof fn lemma_weight_prefix(entries: Seq<WalView>, length: int)
    requires
        0 <= length <= entries.len(),
    ensures
        wal::weight_of(entries.take(length)) <= wal::weight_of(entries),
    decreases entries.len() - length,
{
    if length == entries.len() {
        assert(entries.take(length) =~= entries);
    } else {
        lemma_weight_prefix(entries, length + 1);
        assert(entries.take(length + 1).drop_last() =~= entries.take(length));
    }
}

/// An engine that restarts from its log is back exactly where it was: the entries replayed have the
/// effect that they had when they were finished.
pub proof fn law_recovery_restores_the_table(entries: Seq<WalView>)
    requires
        forall|i: int| 0 <= i < entries.len() ==> (#[trigger] entries[i]).is_storable(),
    ensures
        applied_in_order(wal::replayed(wal::contents_of(entries)), Map::empty())
            == applied_in_order(entries, Map::empty()),
{
    wal::law_replay_gives_back_what_was_appended(entries);
}

/// One more finished mutation has the same effect at once and on replay.
pub proof fn law_replay_follows_each_mutation(entries: Seq<WalView>, entry: WalView)
    requires
        entry.is_storable(),
    ensures
        applied_in_order(wal::replayed(wal::contents_of(entries.push(entry))), Map::empty())
            == entry.applied_to(
            applied_in_order(wal::replayed(wal::contents_of(entries)), Map::empty()),
        ),
{
    wal::law_append_is_read_back(entries, entry);
    let before = wal::replayed(wal::contents_of(entries));
    assert(before.push(entry).drop_last() =~= before);
}

/// A client reads the value that was last put under a key, and nothing once the key is deleted,
/// however often the key was put before.
pub proof fn law_last_write_is_read(
    before: Seq<WalView>,
    entry: WalView,
    after: Seq<WalView>,
    table: Table,
)
    requires
        forall|i: int| 0 <= i < after.len() ==> (#[trigger] after[i]).key != entry.key,
    ensures
        read(applied_in_order(before.push(entry) + after, table), entry.key) == (
        match entry.operation {
            Operation::Put => Some(entry.text()),
            Operation::Delete => None,
        }),
    decreases after.len(),
{
    if after.len() == 0 {
        assert(before.push(entry) + after =~= before.push(entry));
        assert(before.push(entry).drop_last() =~= before);
    } else {
        let rest = after.drop_last();
        assert forall|i: int| 0 <= i < rest.len() implies (#[trigger] rest[i]).key
            != entry.key by {
            assert(rest[i] == after[i]);
        }
        law_last_write_is_read(before, entry, rest, table);
        assert((before.push(entry) + after).drop_last() =~= before.push(entry) + rest);
        assert(after[after.len() - 1].key != entry.key);
    }
}

/// A mutation of one key does not change what is read under another.
pub proof fn law_other_keys_are_untouched(entry: WalView, table: Table, key: Seq<char>)
    requires
        key != entry.key,
    ensures
        read(entry.applied_to(table), key) == read(table, key),
{
}

/// A put gives its key its value, and a deletion marks its key as deleted. Mutations take effect
/// one after the other.
pub proof fn law_mutations_take_effect_one_by_one(
    table: Table,
    entries: Seq<WalView>,
    key: Seq<char>,
    value: Seq<char>,
)
    ensures
        ({
            let put = WalView { operation: Operation::Put, key, value: Some(value) };
            let del = WalView { operation: Operation::Delete, key, value: None };
            &&& put.applied_to(table) == table.insert(key, Some(value))
            &&& del.applied_to(table) == table.insert(key, None)
            &&& applied_in_order(Seq::empty(), table) == table
            &&& applied_in_order(entries.push(put), table) == applied_in_order(
                entries,
                table,
            ).insert(key, Some(value))
            &&& applied_in_order(entries.push(del), table) == applied_in_order(
                entries,
                table,
            ).insert(key, None)
        }),
{
    let put = WalView { operation: Operation::Put, key, value: Some(value) };
    let del = WalView { operation: Operation::Delete, key, value: None };
    assert(entries.push(put).drop_last() =~= entries);
    assert(entries.push(del).drop_last() =~= entries);
}

/// A key reads as the value that the table has for it; a key that is marked as deleted reads as one
/// that was never written.
pub proof fn law_deleted_keys_read_as_unwritten(table: Table, key: Seq<char>, value: Seq<char>)
    ensures
        read(table.insert(key, Some(value)), key) == Some(value),
        read(table.insert(key, None), key) is None,
        !table.contains_key(key) ==> read(table, key) is None,
        table.contains_key(key) ==> read(table, key) == table[key],
{
}

} // verus!
