use hanoidb::compression::Compression;
use hanoidb::entry::Entry;
use hanoidb::error::Error;
use hanoidb::merger::{MergeOutcome, Merger};
use hanoidb::tree::Tree;
use hanoidb::writer::Writer;

fn key_val(key: &str, value: &str) -> Entry {
    Entry::KeyVal { key: key.as_bytes().to_vec(), value: value.as_bytes().to_vec(), timestamp: None }
}

fn tree_of(entries: &[Entry]) -> Tree {
    let mut writer = Writer::new();
    for entry in entries {
        writer.add(entry.clone()).unwrap();
    }
    Tree::from_file(writer.close().unwrap()).unwrap()
}

fn write_8kb(writer: &mut Writer, mut key: u64) -> u64 {
    let mut written: usize = 0;
    while written < 8192 {
        let entry = Entry::KeyVal {
            key: key.to_be_bytes().to_vec(),
            value: key.to_be_bytes().to_vec(),
            timestamp: None,
        };
        written += entry.encoded_size();
        writer.add(entry).unwrap();
        key += 1;
    }
    key
}

fn all_entries(tree: &Tree) -> Vec<Entry> {
    let mut walk = tree.entries().unwrap();
    let mut out = Vec::new();
    while let Some(entry) = walk.next() {
        out.push(entry);
    }
    out
}

fn complete(merger: Merger, work: usize) -> (usize, usize, Tree) {
    match merger.incremental_merge(work).unwrap() {
        MergeOutcome::Complete { count, steps, file } => (count, steps, Tree::from_file(file).unwrap()),
        MergeOutcome::Continue(_) => panic!("merge did not complete"),
    }
}

#[test]
fn complete_incremental_merge() {
    let a_tree = tree_of(&[key_val("a", "a_value")]);
    let b_tree = tree_of(&[key_val("b", "b_value")]);
    let merger = Merger::new(10, &a_tree, &b_tree, Compression::Uncompressed).unwrap();

    let result = merger.incremental_merge(512).unwrap();
    let MergeOutcome::Complete { count, steps, file } = result else {
        panic!("merge did not complete");
    };
    assert_eq!(count, 2);
    assert_eq!(steps, 3);
    assert!(!file.is_empty());
}

#[test]
fn incomplete_merge() {
    let mut a_writer = Writer::new();
    let _a_end = write_8kb(&mut a_writer, 0);
    let a_tree = Tree::from_file(a_writer.close().unwrap()).unwrap();
    let mut b_writer = Writer::new();
    let _b_end = write_8kb(&mut b_writer, 0);
    let b_tree = Tree::from_file(b_writer.close().unwrap()).unwrap();

    let merger = Merger::new(10, &a_tree, &b_tree, Compression::Uncompressed).unwrap();
    let result = merger.incremental_merge(1).unwrap();
    assert!(matches!(result, MergeOutcome::Continue(_)));
}

#[test]
fn complete_merge_with_disjoint_keys() {
    let a_tree = tree_of(&[key_val("a", "a_value")]);
    let b_tree = tree_of(&[key_val("b", "b_value")]);
    let merger = Merger::new(10, &a_tree, &b_tree, Compression::Uncompressed).unwrap();

    let result = merger.incremental_merge(512).unwrap();
    let MergeOutcome::Complete { file, .. } = result else {
        panic!("merge did not complete");
    };
    let x_tree = Tree::from_file(file).unwrap();
    assert!(x_tree.get_entry(b"a").unwrap().is_some());
    assert!(x_tree.get_entry(b"b").unwrap().is_some());
}

#[test]
fn complete_merge_with_overlapping() {
    let a_tree = tree_of(&[key_val("a", "a_value")]);
    let b_tree = tree_of(&[key_val("a", "b_value")]);
    let merger = Merger::new(10, &a_tree, &b_tree, Compression::Uncompressed).unwrap();

    let result = merger.incremental_merge(512).unwrap();
    let MergeOutcome::Complete { file, .. } = result else {
        panic!("merge did not complete");
    };
    let x_tree = Tree::from_file(file).unwrap();
    assert_eq!(x_tree.get_entry(b"a").unwrap().unwrap(), key_val("a", "b_value"));
}

#[test]
fn merge_prefers_the_newer_file() {
    let a_tree = tree_of(&[key_val("a", "a_old"), key_val("c", "c_old"), key_val("d", "d_old")]);
    let b_tree = tree_of(&[
        key_val("a", "a_new"),
        key_val("b", "b_new"),
        Entry::Deleted { key: b"d".to_vec(), timestamp: None },
    ]);
    let merger = Merger::new(3, &a_tree, &b_tree, Compression::Snappy).unwrap();
    let (count, steps, x_tree) = complete(merger, 100);
    assert_eq!(
        all_entries(&x_tree),
        vec![
            key_val("a", "a_new"),
            key_val("b", "b_new"),
            key_val("c", "c_old"),
            Entry::Deleted { key: b"d".to_vec(), timestamp: None },
        ]
    );
    assert_eq!(count, 4);
    // Four steps hand an entry on, the fifth finds both files exhausted.
    assert_eq!(steps, 5);
    assert_eq!(x_tree.get_entry(b"a").unwrap(), Some(key_val("a", "a_new")));
    assert_eq!(x_tree.root_block().unwrap().compression, Compression::Snappy);
}

#[test]
fn merge_goes_on_where_it_stopped() {
    let a: Vec<Entry> = (0..10).map(|i| key_val(&format!("a{i}"), "a")).collect();
    let b: Vec<Entry> = (0..10).map(|i| key_val(&format!("b{i}"), "b")).collect();
    let a_tree = tree_of(&a);
    let b_tree = tree_of(&b);
    let mut merger = Merger::new(4, &a_tree, &b_tree, Compression::Uncompressed).unwrap();
    let mut rounds = 0;
    let (count, steps, x_tree) = loop {
        rounds += 1;
        match merger.incremental_merge(3).unwrap() {
            MergeOutcome::Continue(next) => merger = next,
            MergeOutcome::Complete { count, steps, file } => {
                break (count, steps, Tree::from_file(file).unwrap());
            },
        }
    };
    // Twenty entries and the step that finds the end: six rounds of three
    // steps and a seventh that completes at its third step.
    assert_eq!(rounds, 7);
    assert_eq!(steps, 3);
    assert_eq!(count, 20);
    let mut expected = a.clone();
    expected.extend(b.clone());
    assert_eq!(all_entries(&x_tree), expected);
}

#[test]
fn merge_of_empty_files_is_empty() {
    let a_tree = tree_of(&[]);
    let b_tree = tree_of(&[]);
    let merger = Merger::new(10, &a_tree, &b_tree, Compression::Uncompressed).unwrap();
    let (count, steps, x_tree) = complete(merger, 1);
    assert_eq!(count, 0);
    assert_eq!(steps, 1);
    assert!(all_entries(&x_tree).is_empty());
}

#[test]
fn merge_without_work_goes_on() {
    let a_tree = tree_of(&[]);
    let b_tree = tree_of(&[]);
    let merger = Merger::new(10, &a_tree, &b_tree, Compression::Uncompressed).unwrap();
    assert!(matches!(merger.incremental_merge(0).unwrap(), MergeOutcome::Continue(_)));
}

#[test]
fn keys_are_held_to_their_order_within_a_block_only() {
    // A file whose second leaf block starts below the end of the first:
    // the writer takes it, and so does the writer of a merge.
    let mut writer = Writer::new();
    let end = write_8kb(&mut writer, 1000);
    assert_eq!(end, 1274);
    let low = Entry::KeyVal { key: 1001u64.to_be_bytes().to_vec(), value: Vec::new(), timestamp: None };
    writer.add(low.clone()).unwrap();
    assert!(matches!(writer.add(low.clone()), Err(Error::OutOfOrderWrite)));
    let a_tree = Tree::from_file(writer.close().unwrap()).unwrap();
    let b_tree = tree_of(&[]);
    let merger = Merger::new(10, &a_tree, &b_tree, Compression::Uncompressed).unwrap();
    let (count, steps, x_tree) = complete(merger, 10000);
    assert_eq!(count, 275);
    assert_eq!(steps, 276);
    assert_eq!(all_entries(&x_tree), all_entries(&a_tree));
}
