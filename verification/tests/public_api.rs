use std::collections::BTreeMap;

use hanoidb::level::Level;
use hanoidb::{Command, Compression, Entry, Error, FileName, FileOp, HanoiDB, LevelFiles, OpenOptions, Prefix, Snapshot};

/// A directory held in memory: what the files would hold had the journal
/// been carried out on disk.
#[derive(Default)]
struct Dir {
    files: BTreeMap<String, Vec<u8>>,
}

impl Dir {
    fn apply(&mut self, journal: Vec<FileOp>) {
        for op in journal {
            match op {
                FileOp::Append { path, data } => {
                    self.files.entry(path.to_string()).or_default().extend(data);
                },
                FileOp::Write { path, data } => {
                    self.files.insert(path.to_string(), data);
                },
                FileOp::Truncate { path } => {
                    self.files.insert(path.to_string(), Vec::new());
                },
                FileOp::Rename { from, to } => {
                    let data = self.files.remove(&from.to_string()).expect("renamed a file that is not there");
                    self.files.insert(to.to_string(), data);
                },
                FileOp::Remove { path } => {
                    self.files.remove(&path.to_string()).expect("removed a file that is not there");
                },
            }
        }
    }

    fn snapshot(&self, min_level: u32, max_level: u32) -> Snapshot {
        let file = |prefix: Prefix, level: u32| self.files.get(&FileName::Data { prefix, level }.to_string()).cloned();
        Snapshot {
            log: self.files.get("nursery.log").cloned(),
            levels: (min_level..=max_level)
                .map(|level| LevelFiles { a: file(Prefix::A, level), b: file(Prefix::B, level), c: file(Prefix::C, level) })
                .collect(),
        }
    }

    fn open(&mut self) -> HanoiDB {
        let mut db = HanoiDB::open(String::from("db"), self.snapshot(10, 25)).unwrap();
        self.apply(db.take_journal());
        db
    }

    fn ls(&self) -> String {
        self.files.keys().map(|name| format!("  {name}\n")).collect()
    }
}

/// Writes as a caller of the database does: the record goes to the log
/// first, and the database is told that it did.
fn insert(dir: &mut Dir, db: &mut HanoiDB, key: Vec<u8>, value: Vec<u8>) -> Result<(), Error> {
    dir.apply(vec![HanoiDB::log_insert(&key, &value)]);
    db.insert(key, value, true)
}

fn delete(dir: &mut Dir, db: &mut HanoiDB, key: Vec<u8>) -> Result<(), Error> {
    dir.apply(vec![HanoiDB::log_delete(&key)]);
    db.delete(key, true)
}

#[test]
fn read_empty_database() {
    let mut dir = Dir::default();
    let db = dir.open();
    let value = db.get("key".as_bytes()).unwrap();
    assert!(value.is_none());
}

#[test]
fn insert_kv_pair() {
    let mut dir = Dir::default();
    let mut db = dir.open();
    let key = String::from("key").into_bytes();
    let value = String::from("value").into_bytes();
    insert(&mut dir, &mut db, key.clone(), value.clone()).unwrap();
    assert_eq!(db.get(&key).unwrap(), Some(value));
}

#[test]
fn insert_and_delete() {
    let mut dir = Dir::default();
    let mut db = dir.open();
    let key = String::from("key").into_bytes();
    let value = String::from("value").into_bytes();
    insert(&mut dir, &mut db, key.clone(), value.clone()).unwrap();
    assert_eq!(db.get(&key).unwrap(), Some(value));
    delete(&mut dir, &mut db, key.clone()).unwrap();
    assert_eq!(db.get(&key).unwrap(), None);
}

#[test]
fn open_existing_dir() {
    let mut dir = Dir::default();
    let key = String::from("key").into_bytes();
    let value = String::from("value").into_bytes();
    {
        // Open the database, insert a value and then drop it.
        let mut db = dir.open();
        insert(&mut dir, &mut db, key.clone(), value.clone()).unwrap();
        dir.apply(db.take_journal());
        drop(db);
    }
    let db = dir.open();
    assert_eq!(db.get(&key).unwrap(), Some(value));
    assert_eq!(db.path(), "db");
    // What the log left behind went into the first level.
    assert_eq!(dir.files.get("nursery.log"), Some(&Vec::new()));
    assert!(dir.files.contains_key("A-10.data"));
    assert!(!dir.files.contains_key("nursery.data"));
}

#[test]
fn create_database_with_options() {
    let mut dir = Dir::default();
    let mut db = OpenOptions::new(String::from("db"))
        .with_compression(Compression::Lz4)
        .open(dir.snapshot(10, 25))
        .unwrap();
    dir.apply(db.take_journal());
    for i in 0..1024 {
        let key = format!("key-{i}").into_bytes();
        let value = format!("value-{i}").into_bytes();
        insert(&mut dir, &mut db, key, value)
            .map_err(|err| {
                println!("Could not insert key {i} because {err:?}");
                println!("Directory contents:\n{}", dir.ls());
                err
            })
            .unwrap();
        dir.apply(db.take_journal());
    }
    for i in 0..1024 {
        let key = format!("key-{i}").into_bytes();
        let value = format!("value-{i}").into_bytes();
        let found_value = db.get(&key).unwrap();
        assert_eq!(Some(value), found_value, "Expected to find key {}", i);
    }
    // The full nursery became the first file of the first level, written
    // through the codec that was asked for.
    let file = dir.files.get("A-10.data").unwrap();
    let root_pos = u64::from_be_bytes(file[file.len() - 8..].try_into().unwrap()) as usize;
    assert_eq!(file[root_pos + 6], 3);
}

#[test]
fn lots_of_entries() {
    let mut dir = Dir::default();
    let mut db = dir.open();
    for i in 0..2048 {
        let key = format!("key-{i}").into_bytes();
        let value = format!("value-{i}").into_bytes();
        insert(&mut dir, &mut db, key, value)
            .map_err(|err| {
                println!("Could not insert key {i} because {err:?}");
                println!("Directory contents:\n{}", dir.ls());
                err
            })
            .unwrap();
        dir.apply(db.take_journal());
    }
    for i in 0..2048 {
        let key = format!("key-{i}").into_bytes();
        let value = format!("value-{i}").into_bytes();
        let found_value = db.get(&key).unwrap();
        assert_eq!(Some(value), found_value, "Expected to find key {}", i);
    }
}

#[test]
fn bulk_with_lz4_leaves_no_work_files() {
    let mut dir = Dir::default();
    let options = || OpenOptions::new(String::from("db")).with_compression(Compression::Lz4);
    let mut db = options().open(dir.snapshot(10, 25)).unwrap();
    dir.apply(db.take_journal());
    for i in 0..2048 {
        insert(&mut dir, &mut db, format!("key-{i}").into_bytes(), format!("value-{i}").into_bytes()).unwrap();
        dir.apply(db.take_journal());
    }
    for i in 0..2048 {
        assert_eq!(db.get(format!("key-{i}").as_bytes()).unwrap(), Some(format!("value-{i}").into_bytes()));
    }
    drop(db);
    assert!(dir.files.keys().any(|name| name.ends_with("-10.data")), "{}", dir.ls());
    assert!(!dir.files.keys().any(|name| name.starts_with("X-") || name.starts_with("M-")), "{}", dir.ls());
    // What is on disk opens again and holds everything.
    let mut db = options().open(dir.snapshot(10, 25)).unwrap();
    dir.apply(db.take_journal());
    for i in 0..2048 {
        assert_eq!(db.get(format!("key-{i}").as_bytes()).unwrap(), Some(format!("value-{i}").into_bytes()));
    }
}

#[test]
fn small_levels_merge_and_promote() {
    let mut dir = Dir::default();
    let options = || OpenOptions::new(String::from("db")).with_min_level(2).with_max_level(8);
    let mut db = options().open(dir.snapshot(2, 8)).unwrap();
    dir.apply(db.take_journal());
    for i in 0..200u32 {
        insert(&mut dir, &mut db, format!("key-{i:03}").into_bytes(), format!("value-{i}").into_bytes()).unwrap();
        dir.apply(db.take_journal());
        if i % 3 == 0 {
            delete(&mut dir, &mut db, format!("key-{:03}", i / 2).into_bytes()).unwrap();
            dir.apply(db.take_journal());
        }
        for level in 2..=8u32 {
            let stable = ["A", "B", "C"].iter().filter(|p| dir.files.contains_key(&format!("{p}-{level}.data"))).count();
            assert!(stable <= 3);
            assert!(!dir.files.contains_key(&format!("M-{level}.data")));
        }
    }
    let deleted = |i: u32| (0..200u32).any(|j| j % 3 == 0 && j / 2 == i && j >= i);
    for i in 0..200u32 {
        let found = db.get(format!("key-{i:03}").as_bytes()).unwrap();
        if deleted(i) {
            assert_eq!(found, None, "key {i}");
        } else {
            assert_eq!(found, Some(format!("value-{i}").into_bytes()), "key {i}");
        }
    }
    assert!(dir.files.keys().any(|name| name.ends_with("-3.data") || name.ends_with("-4.data")), "{}", dir.ls());
}

#[test]
fn options_default_to_levels_10_to_25() {
    let options = OpenOptions::new(String::from("somewhere"));
    assert_eq!(options.path, "somewhere");
    assert_eq!(options.min_level, 10);
    assert_eq!(options.max_level, 25);
    assert_eq!(options.compression, Compression::Uncompressed);
    let options = options.with_min_level(3).with_max_level(7).with_compression(Compression::Gzip);
    assert_eq!((options.min_level, options.max_level, options.compression), (3, 7, Compression::Gzip));
    assert_eq!(options.path, "somewhere");
}

fn file_of(entries: &[(&str, Option<&str>)]) -> Vec<u8> {
    let entries: Vec<Entry> = entries
        .iter()
        .map(|(key, value)| match value {
            Some(value) => Entry::KeyVal { key: key.as_bytes().to_vec(), value: value.as_bytes().to_vec(), timestamp: None },
            None => Entry::Deleted { key: key.as_bytes().to_vec(), timestamp: None },
        })
        .collect();
    hanoidb::writer::write_file(&entries, 16, Compression::Uncompressed).unwrap()
}

#[test]
fn a_level_asks_its_newest_file_first() {
    let a = file_of(&[("1", Some("A1")), ("2", Some("A2")), ("4", Some("A4"))]);
    let b = file_of(&[("2", Some("B2")), ("3", Some("B3")), ("5", Some("B5")), ("6", Some("B6"))]);
    let c = file_of(&[("1", Some("C1")), ("3", Some("C3")), ("6", None)]);
    let level = Level::new(10, Some(a), Some(b), Some(c), Compression::Uncompressed).unwrap();
    let value = |key: &str| match level.get_entry(key.as_bytes()).unwrap() {
        Some(Entry::KeyVal { value, .. }) => Some(String::from_utf8(value).unwrap()),
        Some(Entry::Deleted { .. }) => Some(String::from("deleted")),
        _ => None,
    };
    assert_eq!(value("1").as_deref(), Some("C1"));
    assert_eq!(value("2").as_deref(), Some("B2"));
    assert_eq!(value("3").as_deref(), Some("C3"));
    assert_eq!(value("4").as_deref(), Some("A4"));
    assert_eq!(value("5").as_deref(), Some("B5"));
    assert_eq!(value("6").as_deref(), Some("deleted"));
    assert_eq!(value("7"), None);
    assert_eq!(
        level.tree_files(),
        [
            FileName::Data { prefix: Prefix::A, level: 10 },
            FileName::Data { prefix: Prefix::B, level: 10 },
            FileName::Data { prefix: Prefix::C, level: 10 },
        ]
    );
}

#[test]
fn a_level_takes_three_files_and_no_more() {
    let mut level = Level::new(4, None, None, None, Compression::Uncompressed).unwrap();
    let mut journal = Vec::new();
    for (n, prefix) in [Prefix::A, Prefix::B, Prefix::C].into_iter().enumerate() {
        let commands = level.promote_file(FileName::NurseryData, file_of(&[("k", Some("v"))]), &mut journal).unwrap();
        assert!(commands.is_empty());
        assert_eq!(journal.len(), n + 1);
        assert_eq!(journal[n], FileOp::Rename { from: FileName::NurseryData, to: FileName::Data { prefix, level: 4 } });
        assert_eq!(level.tree_files().len(), n + 1);
    }
    let full = level.promote_file(FileName::NurseryData, file_of(&[("k", Some("v"))]), &mut journal);
    assert!(matches!(full, Err(Error::LevelFull(4))));
    assert_eq!(journal.len(), 3);
    assert_eq!(level.tree_files().len(), 3);
}

#[test]
fn merge_without_two_files_passes_the_work_on() {
    let mut level = Level::new(4, Some(file_of(&[("k", Some("v"))])), None, None, Compression::Uncompressed).unwrap();
    let mut journal = Vec::new();
    assert_eq!(level.merge(7, 2, 4, 6, &mut journal).unwrap(), [Command::Merge { steps: 7, target_level: 5 }]);
    let mut top = Level::new(6, None, None, None, Compression::Uncompressed).unwrap();
    assert!(top.merge(7, 2, 4, 6, &mut journal).unwrap().is_empty());
    assert!(journal.is_empty());
}

#[test]
fn merge_spends_what_is_left_of_the_budget() {
    let a: Vec<(String, String)> = (0..10).map(|i| (format!("a{i}"), String::from("a"))).collect();
    let b: Vec<(String, String)> = (0..10).map(|i| (format!("b{i}"), String::from("b"))).collect();
    let a: Vec<(&str, Option<&str>)> = a.iter().map(|(k, v)| (k.as_str(), Some(v.as_str()))).collect();
    let b: Vec<(&str, Option<&str>)> = b.iter().map(|(k, v)| (k.as_str(), Some(v.as_str()))).collect();
    let mut level = Level::new(4, Some(file_of(&a)), Some(file_of(&b)), None, Compression::Uncompressed).unwrap();
    let mut journal = Vec::new();
    // Three levels of two units each are six; six are done: nothing is left.
    assert!(level.merge(6, 2, 4, 6, &mut journal).unwrap().is_empty());
    // Four are done: two are left, and the merge goes on.
    assert_eq!(level.merge(4, 2, 4, 6, &mut journal).unwrap(), [Command::Merge { steps: 6, target_level: 5 }]);
    assert!(journal.is_empty());
    // Plenty is left, but a level works no more than twice its size at a
    // time: 32 steps. The merge completes at its 19th step here; its 20
    // entries are more than the 16 of the level and go to the next.
    let commands = level.merge(0, 100, 4, 6, &mut journal).unwrap();
    assert_eq!(commands.len(), 2);
    let Command::PromoteFile { path, data, target_level } = &commands[0] else { panic!("no promotion") };
    assert_eq!((*path, *target_level), (FileName::Data { prefix: Prefix::X, level: 4 }, 5));
    assert_eq!(commands[1], Command::Merge { steps: 32 - 19, target_level: 5 });
    assert_eq!(
        journal,
        [
            FileOp::Write { path: FileName::Data { prefix: Prefix::X, level: 4 }, data: data.clone() },
            FileOp::Remove { path: FileName::Data { prefix: Prefix::A, level: 4 } },
            FileOp::Remove { path: FileName::Data { prefix: Prefix::B, level: 4 } },
        ]
    );
    assert!(level.tree_files().is_empty());
}

#[test]
fn a_merged_file_that_fits_becomes_a() {
    let mut level = Level::new(
        4,
        Some(file_of(&[("a", Some("old")), ("b", Some("b"))])),
        Some(file_of(&[("a", Some("new"))])),
        Some(file_of(&[("c", Some("c"))])),
        Compression::Uncompressed,
    )
    .unwrap();
    let mut journal = Vec::new();
    let commands = level.merge(0, 100, 4, 6, &mut journal).unwrap();
    // Two steps hand an entry on, one of them at the cost of two; the
    // third finds the end.
    assert_eq!(commands, [Command::Merge { steps: 32 - 3, target_level: 5 }]);
    let name = |prefix| FileName::Data { prefix, level: 4 };
    assert_eq!(journal.len(), 6);
    assert!(matches!(&journal[0], FileOp::Write { path, .. } if *path == name(Prefix::X)));
    assert_eq!(
        journal[1..],
        [
            FileOp::Rename { from: name(Prefix::X), to: name(Prefix::M) },
            FileOp::Remove { path: name(Prefix::A) },
            FileOp::Remove { path: name(Prefix::B) },
            FileOp::Rename { from: name(Prefix::M), to: name(Prefix::A) },
            FileOp::Rename { from: name(Prefix::C), to: name(Prefix::B) },
        ]
    );
    assert_eq!(level.tree_files(), [name(Prefix::A), name(Prefix::B)]);
    assert!(matches!(level.get_entry(b"a").unwrap(), Some(Entry::KeyVal { value, .. }) if value == b"new"));
    assert!(matches!(level.get_entry(b"b").unwrap(), Some(Entry::KeyVal { value, .. }) if value == b"b"));
    assert!(matches!(level.get_entry(b"c").unwrap(), Some(Entry::KeyVal { value, .. }) if value == b"c"));
}

#[test]
fn a_database_of_one_level_fills_up() {
    // With one level the budget of a merge is spent before it comes to the
    // level: its files are never merged, and the fourth has no place.
    let mut dir = Dir::default();
    let mut db = OpenOptions::new(String::from("db")).with_min_level(1).with_max_level(1).open(dir.snapshot(1, 1)).unwrap();
    dir.apply(db.take_journal());
    let mut failure = None;
    for i in 0..8u32 {
        match insert(&mut dir, &mut db, format!("key-{i}").into_bytes(), b"value".to_vec()) {
            Ok(()) => dir.apply(db.take_journal()),
            Err(e) => {
                failure = Some((i, e));
                break;
            },
        }
    }
    let (at, error) = failure.expect("the level took everything");
    assert_eq!(at, 7);
    assert!(matches!(error, Error::LevelFull(1)), "{error:?}");
    for i in 0..6u32 {
        assert_eq!(db.get(format!("key-{i}").as_bytes()).unwrap(), Some(b"value".to_vec()));
    }
}

#[test]
fn a_level_file_without_the_magic_keeps_the_database_shut() {
    let mut dir = Dir::default();
    dir.files.insert(String::from("B-11.data"), b"NOPE and more".to_vec());
    let opened = HanoiDB::open(String::from("db"), dir.snapshot(10, 25));
    assert!(matches!(opened, Err(Error::InvalidTreeFormat(found)) if found == b"NOPE"));
}

#[test]
fn a_log_with_a_pointer_keeps_the_database_shut() {
    let mut dir = Dir::default();
    let mut log = Entry::KeyVal { key: b"a".to_vec(), value: b"1".to_vec(), timestamp: None }.encode();
    log.extend(Entry::PosLen { blockpos: 4, blocklen: 9, key: b"b".to_vec() }.encode());
    dir.files.insert(String::from("nursery.log"), log);
    let opened = HanoiDB::open(String::from("db"), dir.snapshot(10, 25));
    assert!(matches!(opened, Err(Error::CorruptedFile("nursery log contained b-tree internal entries"))));
}

#[test]
fn a_write_whose_record_was_lost_changes_nothing() {
    let mut dir = Dir::default();
    let mut db = dir.open();
    insert(&mut dir, &mut db, b"key".to_vec(), b"value".to_vec()).unwrap();
    dir.apply(db.take_journal());
    assert!(matches!(db.insert(b"key".to_vec(), b"other".to_vec(), false), Err(Error::LogNotWritten)));
    assert!(matches!(db.delete(b"key".to_vec(), false), Err(Error::LogNotWritten)));
    assert!(matches!(db.insert(b"new".to_vec(), b"value".to_vec(), false), Err(Error::LogNotWritten)));
    assert!(db.take_journal().is_empty());
    assert_eq!(db.get(b"key").unwrap(), Some(b"value".to_vec()));
    assert_eq!(db.get(b"new").unwrap(), None);
    // What is found after the directory is opened again is what was logged.
    let mut again = dir.open();
    assert_eq!(again.get(b"key").unwrap(), Some(b"value".to_vec()));
    assert_eq!(again.get(b"new").unwrap(), None);
    assert_eq!(Error::LogNotWritten.to_string(), "nursery log could not be written");
}
