//! The memtable, the write-ahead log and the engine.

use raftkv::storage::engine::StorageEngine;
use raftkv::storage::escape::{escape, unescape};
use raftkv::storage::memtable::Memtable;
use raftkv::storage::wal::{replay, serialize_entry, Operation, WalEntry};

fn put(key: &str, value: &str) -> WalEntry {
    WalEntry {
        operation: Operation::Put,
        key: key.to_string(),
        value: Some(value.to_string()),
    }
}

fn delete(key: &str) -> WalEntry {
    WalEntry {
        operation: Operation::Delete,
        key: key.to_string(),
        value: None,
    }
}

/// A log file that lives in memory.
struct Disk {
    contents: String,
}

impl Disk {
    fn append(&mut self, entry: &WalEntry) -> Result<(), String> {
        self.contents.push_str(&serialize_entry(entry));
        Ok(())
    }
}

#[test]
fn test_wal_append_and_replay() {
    let mut disk = Disk { contents: String::new() };
    {
        disk.append(&WalEntry {
            operation: Operation::Put,
            key: "name".to_string(),
            value: Some("uday".to_string()),
        })
        .expect("Failed to append");

        disk.append(&WalEntry {
            operation: Operation::Put,
            key: "balance".to_string(),
            value: Some("5000".to_string()),
        })
        .expect("Failed to append");

        disk.append(&WalEntry {
            operation: Operation::Delete,
            key: "name".to_string(),
            value: None,
        })
        .expect("Failed to append");
    }

    let entries = replay(&disk.contents);

    assert_eq!(entries.len(), 3);

    assert_eq!(entries[0].key, "name");
    assert_eq!(entries[0].operation, Operation::Put);
    assert_eq!(entries[0].value, Some("uday".to_string()));

    assert_eq!(entries[1].key, "balance");
    assert_eq!(entries[1].operation, Operation::Put);
    assert_eq!(entries[1].value, Some("5000".to_string()));

    assert_eq!(entries[2].key, "name");
    assert_eq!(entries[2].operation, Operation::Delete);
    assert_eq!(entries[2].value, None);
}

#[test]
fn test_memtable_basic_operations() {
    let mut table = Memtable::new();

    // An empty table knows no key.
    assert!(table.get("name").is_none());
    assert!(table.is_empty());

    // A value that is put is read back.
    table.put("name".to_string(), "uday".to_string());
    assert_eq!(table.get("name"), Some(Some("uday")));
    assert_eq!(table.len(), 1);

    // A second put overwrites the first.
    table.put("name".to_string(), "pranay".to_string());
    assert_eq!(table.get("name"), Some(Some("pranay")));
    assert_eq!(table.len(), 1);

    table.put("balance".to_string(), "5000".to_string());
    assert_eq!(table.len(), 2);
    assert_eq!(table.get("balance"), Some(Some("5000")));

    // A deleted key is known, and dead.
    table.delete("name".to_string());
    assert_eq!(table.get("name"), Some(None));

    // A key that was never put is not known at all.
    assert!(table.get("nonexistent").is_none());
    assert_eq!(table.get("name"), Some(None));

    assert!(table.size() > 0);

    table.clear();
    assert!(table.is_empty());
    assert_eq!(table.size(), 0);
    assert!(table.get("name").is_none());
}

#[test]
fn test_engine_crash_recovery() {
    let mut disk = Disk { contents: String::new() };
    {
        let mut engine = StorageEngine::new(&disk.contents);

        let logged = disk.append(&put("name", "uday"));
        engine
            .put("name".to_string(), "uday".to_string(), logged)
            .expect("Failed to put");
        let logged = disk.append(&put("balance", "5000"));
        engine
            .put("balance".to_string(), "5000".to_string(), logged)
            .expect("Failed to put");
        let logged = disk.append(&put("city", "kharagpur"));
        engine
            .put("city".to_string(), "kharagpur".to_string(), logged)
            .expect("Failed to put");
        let logged = disk.append(&delete("city"));
        engine
            .delete("city".to_string(), logged)
            .expect("Failed to delete");

        assert_eq!(engine.get("name"), Some("uday".to_string()));
        assert_eq!(engine.get("balance"), Some("5000".to_string()));
        assert_eq!(engine.get("city"), None);
    }
    // The engine is gone; only the log is left.
    {
        let engine = StorageEngine::new(&disk.contents);

        assert_eq!(engine.get("name"), Some("uday".to_string()));
        assert_eq!(engine.get("balance"), Some("5000".to_string()));
        assert_eq!(engine.get("city"), None);
        assert_eq!(engine.get("nonexistent"), None);
    }
}

#[test]
fn a_log_line_has_a_fixed_form() {
    assert_eq!(serialize_entry(&put("name", "uday")), "PUT|name|uday\n");
    assert_eq!(serialize_entry(&delete("name")), "DELETE|name\n");
    let bare = WalEntry { operation: Operation::Put, key: "k".to_string(), value: None };
    assert_eq!(serialize_entry(&bare), "PUT|k|\n");
}

#[test]
fn malformed_log_lines_are_skipped() {
    let entries = replay("PUT|a|1\nPUT|a\nDELETE|a|b\nput|a|1\n\nDELETE|a\nPUT|b|");
    assert_eq!(entries.len(), 3);
    assert_eq!(entries[0].key, "a");
    assert_eq!(entries[0].value, Some("1".to_string()));
    assert_eq!(entries[1].operation, Operation::Delete);
    assert_eq!(entries[2].key, "b");
    assert_eq!(entries[2].value, Some(String::new()));
}

#[test]
fn log_lines_may_end_with_a_carriage_return() {
    let entries = replay("PUT|a|1\r\nDELETE|a\r\n");
    assert_eq!(entries.len(), 2);
    assert_eq!(entries[0].value, Some("1".to_string()));
    assert_eq!(entries[1].key, "a");
}

#[test]
fn a_log_line_is_read_back() {
    let texts = [
        "", "plain", "κλειδί", "x y", "b|c", "|", "b\nc", "\n", "b\r", "a\rb", "\r\n", "a\\b", "\\n", "\\",
        "\\p|\\\\r\r\n", "PUT|a|b\n", "ESCAPED-PUT",
    ];
    let mut entries = Vec::new();
    for key in texts {
        entries.push(delete(key));
        for value in texts {
            entries.push(put(key, value));
        }
    }
    let mut contents = String::new();
    for entry in &entries {
        let line = serialize_entry(entry);
        assert_eq!(line.matches('\n').count(), 1);
        let back = replay(&line);
        assert_eq!(back.len(), 1);
        contents.push_str(&line);
    }
    let back = replay(&contents);
    assert_eq!(back.len(), entries.len());
    for (entry, read) in entries.iter().zip(&back) {
        assert_eq!(read.operation, entry.operation);
        assert_eq!(read.key, entry.key);
        assert_eq!(read.value, entry.value);
    }
}

#[test]
fn texts_that_do_not_fit_on_a_line_are_escaped() {
    assert_eq!(serialize_entry(&put("a", "b|c")), "ESCAPED-PUT|a|b\\pc\n");
    assert_eq!(serialize_entry(&put("a\n", "\\\r")), "ESCAPED-PUT|a\\n|\\\\\\r\n");
    assert_eq!(serialize_entry(&delete("a\r")), "ESCAPED-DELETE|a\\r\n");
    // All others are written as they are.
    assert_eq!(serialize_entry(&put("a\\b", "c\\n")), "PUT|a\\b|c\\n\n");
    assert_eq!(serialize_entry(&put("a\r", "b")), "PUT|a\r|b\n");
}

#[test]
fn a_backslash_that_escapes_nothing_stands_for_itself() {
    assert_eq!(unescape("a\\b\\\\n\\p\\"), "a\\b\\n|\\");
    assert_eq!(escape("|\\\n\r."), "\\p\\\\\\n\\r.");
    let entries = replay("ESCAPED-PUT|a\\|b\\x\n");
    assert_eq!(entries[0].key, "a\\");
    assert_eq!(entries[0].value, Some("b\\x".to_string()));
}

#[test]
fn the_memtable_hands_its_entries_out_in_order() {
    let mut table = Memtable::new();
    for key in ["pear", "apple", "zebra", "äpfel", "banana"] {
        table.put(key.to_string(), key.to_uppercase());
    }
    table.delete("banana".to_string());
    let entries = table.iter();
    let keys: Vec<&str> = entries.iter().map(|(key, _)| key.as_str()).collect();
    assert_eq!(keys, vec!["apple", "banana", "pear", "zebra", "äpfel"]);
    assert_eq!(*entries[1].1, None);
    assert_eq!(*entries[2].1, Some("PEAR".to_string()));
}

#[test]
fn the_memtable_counts_the_bytes_that_are_written() {
    let mut table = Memtable::new();
    table.put("name".to_string(), "uday".to_string());
    assert_eq!(table.size(), 8);
    table.put("name".to_string(), "é".to_string());
    assert_eq!(table.size(), 14);
    table.delete("name".to_string());
    assert_eq!(table.size(), 18);
}

#[test]
fn what_is_not_logged_does_not_take_effect() {
    let mut engine = StorageEngine::new("");
    let failed: Result<(), &str> = Err("disk full");
    assert_eq!(engine.put("a".to_string(), "1".to_string(), failed), Err("disk full"));
    assert_eq!(engine.get("a"), None);
    assert_eq!(engine.size(), 0);
    let done: Result<(), &str> = Ok(());
    assert_eq!(engine.put("a".to_string(), "1".to_string(), done), Ok(()));
    assert_eq!(engine.delete("a".to_string(), Err("disk full")), Err("disk full"));
    assert_eq!(engine.get("a"), Some("1".to_string()));
}

#[test]
fn a_delete_survives_replay() {
    let mut contents = String::new();
    for entry in [put("k", "1"), put("k", "2"), delete("k"), put("j", "3")] {
        contents.push_str(&serialize_entry(&entry));
    }
    let engine = StorageEngine::new(&contents);
    assert_eq!(engine.get("k"), None);
    assert_eq!(engine.get("j"), Some("3".to_string()));
    let again = StorageEngine::recover(replay(&contents));
    assert_eq!(again.get("k"), None);
    assert_eq!(again.size(), engine.size());
}
