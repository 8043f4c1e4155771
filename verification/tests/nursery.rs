use hanoidb::compression::Compression;
use hanoidb::db::Command;
use hanoidb::entry::Entry;
use hanoidb::error::Error;
use hanoidb::files::{FileName, FileOp};
use hanoidb::memtable::{lookup, upsert};
use hanoidb::nursery::{Nursery, Value};
use hanoidb::tree::Tree;

const MIN_LEVEL: u32 = 10;

fn key_val(key: &str, value: &str) -> Entry {
    Entry::KeyVal { key: key.as_bytes().to_vec(), value: value.as_bytes().to_vec(), timestamp: None }
}

/// Logs the write, as the caller of a nursery does, and hands it to the
/// nursery.
fn add(nursery: &mut Nursery, key: Vec<u8>, value: Vec<u8>, journal: &mut Vec<FileOp>) -> Result<Vec<Command>, Error> {
    journal.push(Nursery::log_add(&key, &value));
    nursery.add(key, value, true, journal)
}

fn delete(nursery: &mut Nursery, key: Vec<u8>, journal: &mut Vec<FileOp>) -> Result<Vec<Command>, Error> {
    journal.push(Nursery::log_delete(&key));
    nursery.delete(key, true, journal)
}

fn log_of(journal: &[FileOp]) -> Vec<u8> {
    let mut log = Vec::new();
    for op in journal {
        match op {
            FileOp::Append { path: FileName::NurseryLog, data } => log.extend(data),
            FileOp::Write { path: FileName::NurseryLog, data } => log = data.clone(),
            FileOp::Truncate { path: FileName::NurseryLog } => log.clear(),
            _ => {},
        }
    }
    log
}

fn all_entries(tree: &Tree) -> Vec<Entry> {
    let mut walk = tree.entries().unwrap();
    let mut out = Vec::new();
    while let Some(entry) = walk.next() {
        out.push(entry);
    }
    out
}

#[test]
fn fresh_nursery() {
    let mut journal = Vec::new();
    let (nursery, command) = Nursery::new(None, MIN_LEVEL, Compression::Uncompressed, &mut journal).unwrap();
    assert!(command.is_none(), "fresh nursery wasn't empty");
    assert!(
        !journal.iter().any(|op| matches!(op, FileOp::Write { path: FileName::NurseryData, .. })),
        "recovery data was written on fresh nursery"
    );
    assert_eq!(nursery.total_size(), 0);
    assert!(nursery.is_empty());
    assert_eq!(journal, vec![FileOp::Write { path: FileName::NurseryLog, data: Vec::new() }]);
    assert_eq!(0, log_of(&journal).len());
}

#[test]
fn recover_nursery() {
    let mut journal = Vec::new();
    // Create a nursery and immediately drop it, leaving data in its log.
    {
        let (mut nursery, _) = Nursery::new(None, MIN_LEVEL, Compression::Uncompressed, &mut journal).unwrap();
        let commands = add(&mut nursery, "key".as_bytes().to_owned(), "value".as_bytes().to_owned(), &mut journal)
            .unwrap();
        assert!(commands.is_empty());
    }
    let log = log_of(&journal);
    let mut journal = Vec::new();
    let (nursery, command) = Nursery::new(Some(log), MIN_LEVEL, Compression::Uncompressed, &mut journal).unwrap();
    let Some(Command::PromoteFile { path, data, target_level }) = command else {
        panic!("recovery data was not written for fresh nursery");
    };
    assert_eq!(path, FileName::NurseryData);
    assert_eq!(target_level, 10);
    assert_eq!(
        journal,
        vec![
            FileOp::Write { path: FileName::NurseryData, data: data.clone() },
            FileOp::Remove { path: FileName::NurseryLog },
            FileOp::Write { path: FileName::NurseryLog, data: Vec::new() },
        ]
    );
    assert_eq!(all_entries(&Tree::from_file(data).unwrap()), vec![key_val("key", "value")]);
    assert_eq!(nursery.total_size(), 0);
    assert!(nursery.is_empty());
    assert_eq!(0, log_of(&journal).len());
}

#[test]
fn write_and_read() {
    let key = "key".as_bytes().to_owned();
    let value = "value".as_bytes().to_owned();
    let mut journal = Vec::new();
    let (mut nursery, _) = Nursery::new(None, MIN_LEVEL, Compression::Uncompressed, &mut journal).unwrap();
    let commands = add(&mut nursery, key.clone(), value.clone(), &mut journal).unwrap();
    assert!(
        commands.is_empty(),
        "empty nursery should not cause merges or promotions after one key is inserted"
    );
    assert_ne!(0, log_of(&journal).len(), "nursery log was not written to");
    assert_ne!(0, nursery.total_size());
    assert_eq!(Some(Value::Plain(value)), nursery.get_value(&key));
}

#[test]
fn delete_and_read() {
    let key = "key".as_bytes().to_owned();
    let mut journal = Vec::new();
    let (mut nursery, _) = Nursery::new(None, MIN_LEVEL, Compression::Uncompressed, &mut journal).unwrap();
    let commands = delete(&mut nursery, key.clone(), &mut journal).unwrap();
    assert!(
        commands.is_empty(),
        "empty nursery should not cause merges or promotions after one key is inserted"
    );
    assert_ne!(0, log_of(&journal).len(), "nursery log was not written to");
    assert_ne!(0, nursery.total_size());
    assert_eq!(Some(Value::Deleted), nursery.get_value(&key));
}

#[test]
fn trigger_incremental_merge() {
    let mut journal = Vec::new();
    let (mut nursery, _) = Nursery::new(None, MIN_LEVEL, Compression::Uncompressed, &mut journal).unwrap();
    let mut commands = vec![];
    // Write 512 KV pairs into the nursery, triggering
    // incremental merge at 1/2 the smallest level size
    for i in 0..512 {
        let key = format!("key-{i}").into_bytes();
        let value = format!("value-{i}").into_bytes();
        let step_commands = add(&mut nursery, key, value, &mut journal).unwrap();
        commands.extend(step_commands);
    }
    assert_ne!(0, log_of(&journal).len(), "nursery log was not written to");
    assert_ne!(0, nursery.total_size());
    assert_eq!(1, commands.len(), "should have produced a merge");
    assert_eq!(commands[0], Command::Merge { steps: 512, target_level: 10 });
}

#[test]
fn trigger_promotion() {
    let mut journal = Vec::new();
    let (mut nursery, _) = Nursery::new(None, MIN_LEVEL, Compression::Uncompressed, &mut journal).unwrap();
    let mut commands = vec![];
    // Write 1024 KV pairs into the nursery, triggering promotion
    // of the nursery data into the first level
    for i in 0..1024 {
        let key = format!("key-{i}").into_bytes();
        let value = format!("value-{i}").into_bytes();
        let step_commands = add(&mut nursery, key, value, &mut journal).unwrap();
        commands.extend(step_commands);
    }
    assert_eq!(0, log_of(&journal).len(), "nursery log was not truncated after data promotion");
    let written = journal
        .iter()
        .find_map(|op| match op {
            FileOp::Write { path: FileName::NurseryData, data } => Some(data.clone()),
            _ => None,
        })
        .unwrap();
    assert_ne!(0, written.len(), "nursery data file for promotion was empty");
    assert_ne!(0, nursery.total_size());
    assert_eq!(3, commands.len(), "should have produced two merges and a promotion");
    assert_eq!(
        commands,
        [
            Command::Merge { steps: 512, target_level: 10 },
            Command::PromoteFile { path: FileName::NurseryData, data: written.clone(), target_level: 10 },
            Command::Merge { steps: 512, target_level: 10 },
        ]
    );
    assert!(nursery.is_empty());
    let tree = Tree::from_file(written).unwrap();
    let entries = all_entries(&tree);
    assert_eq!(entries.len(), 1024);
    assert_eq!(entries[0], key_val("key-0", "value-0"));
    assert_eq!(entries[1], key_val("key-1", "value-1"));
    assert_eq!(entries[2], key_val("key-10", "value-10"));
    assert_eq!(entries[1023], key_val("key-999", "value-999"));
}

#[test]
fn the_log_record_comes_first() {
    let mut journal = Vec::new();
    let (mut nursery, _) = Nursery::new(None, 1, Compression::Uncompressed, &mut journal).unwrap();
    journal.clear();
    let commands = add(&mut nursery, b"a".to_vec(), b"1".to_vec(), &mut journal).unwrap();
    // With a first level of two entries every write asks for a merge.
    assert_eq!(commands, [Command::Merge { steps: 1, target_level: 1 }]);
    assert_eq!(journal, [FileOp::Append { path: FileName::NurseryLog, data: key_val("a", "1").encode() }]);
    journal.clear();
    let commands = delete(&mut nursery, b"b".to_vec(), &mut journal).unwrap();
    let deleted = Entry::Deleted { key: b"b".to_vec(), timestamp: None };
    assert_eq!(commands.len(), 2);
    let Command::PromoteFile { path, data, target_level } = &commands[0] else { panic!("no promotion") };
    assert_eq!((*path, *target_level), (FileName::NurseryData, 1));
    assert_eq!(commands[1], Command::Merge { steps: 1, target_level: 1 });
    assert_eq!(
        journal,
        [
            FileOp::Append { path: FileName::NurseryLog, data: deleted.encode() },
            FileOp::Write { path: FileName::NurseryData, data: data.clone() },
            FileOp::Truncate { path: FileName::NurseryLog },
        ]
    );
    assert_eq!(all_entries(&Tree::from_file(data.clone()).unwrap()), vec![key_val("a", "1"), deleted]);
    assert_eq!(nursery.len(), 0);
    assert_eq!(nursery.get_value(b"a"), None);
}

#[test]
fn replay_keeps_the_last_write_per_key() {
    let mut log = Vec::new();
    log.extend(key_val("b", "1").encode());
    log.extend(key_val("a", "2").encode());
    log.extend(key_val("b", "3").encode());
    log.extend(Entry::Deleted { key: b"a".to_vec(), timestamp: None }.encode());
    log.extend(key_val("c", "4").encode());
    log.extend(key_val("b", "5").encode());
    let data = Nursery::replay(&log).unwrap();
    assert_eq!(
        data,
        vec![Entry::Deleted { key: b"a".to_vec(), timestamp: None }, key_val("b", "5"), key_val("c", "4")]
    );
}

#[test]
fn replay_stops_at_the_first_bad_record() {
    let mut log = Vec::new();
    log.extend(key_val("a", "1").encode());
    let mut broken = key_val("b", "2").encode();
    broken[9] ^= 1;
    log.extend(broken);
    log.extend(key_val("c", "3").encode());
    assert_eq!(Nursery::replay(&log).unwrap(), vec![key_val("a", "1")]);
    assert_eq!(Nursery::replay(&log[..30]).unwrap(), vec![key_val("a", "1")]);
    assert!(Nursery::replay(&[]).unwrap().is_empty());
}

#[test]
fn replay_refuses_pointers() {
    let mut log = key_val("a", "1").encode();
    log.extend(Entry::PosLen { blockpos: 4, blocklen: 9, key: b"a".to_vec() }.encode());
    assert!(matches!(
        Nursery::replay(&log),
        Err(Error::CorruptedFile("nursery log contained b-tree internal entries"))
    ));
}

#[test]
fn recovery_of_an_empty_log_removes_it() {
    let mut journal = Vec::new();
    let command = Nursery::recover(&[], 10, Compression::Uncompressed, &mut journal).unwrap();
    assert!(command.is_none());
    assert_eq!(journal, [FileOp::Remove { path: FileName::NurseryLog }]);
}

#[test]
fn memtable_keeps_keys_in_order() {
    let mut data = Vec::new();
    for key in ["m", "c", "x", "a", "c", "z", "m"] {
        upsert(&mut data, key_val(key, key));
    }
    upsert(&mut data, Entry::Deleted { key: b"c".to_vec(), timestamp: None });
    let keys: Vec<&[u8]> = data.iter().map(|e| e.key()).collect();
    assert_eq!(keys, [b"a", b"c", b"m", b"x", b"z"]);
    assert_eq!(lookup(&data, b"c"), Some(&Entry::Deleted { key: b"c".to_vec(), timestamp: None }));
    assert_eq!(lookup(&data, b"m"), Some(&key_val("m", "m")));
    assert_eq!(lookup(&data, b"b"), None);
}

#[test]
fn a_write_that_was_not_logged_is_not_taken() {
    let mut journal = Vec::new();
    let (mut nursery, _) = Nursery::new(None, 1, Compression::Uncompressed, &mut journal).unwrap();
    add(&mut nursery, b"a".to_vec(), b"1".to_vec(), &mut journal).unwrap();
    journal.clear();
    let size = nursery.total_size();
    assert!(matches!(nursery.add(b"a".to_vec(), b"2".to_vec(), false, &mut journal), Err(Error::LogNotWritten)));
    assert!(matches!(nursery.delete(b"a".to_vec(), false, &mut journal), Err(Error::LogNotWritten)));
    assert!(matches!(nursery.add(b"b".to_vec(), b"3".to_vec(), false, &mut journal), Err(Error::LogNotWritten)));
    assert!(journal.is_empty());
    assert_eq!(nursery.get_value(b"a"), Some(Value::Plain(b"1".to_vec())));
    assert_eq!(nursery.get_value(b"b"), None);
    assert_eq!(nursery.len(), 1);
    assert_eq!(nursery.total_size(), size);
}

#[test]
fn the_record_to_log_is_the_encoded_entry() {
    assert_eq!(
        Nursery::log_add(b"key", b"value"),
        FileOp::Append { path: FileName::NurseryLog, data: key_val("key", "value").encode() }
    );
    assert_eq!(
        Nursery::log_delete(b"key"),
        FileOp::Append {
            path: FileName::NurseryLog,
            data: Entry::Deleted { key: b"key".to_vec(), timestamp: None }.encode()
        }
    );
}
