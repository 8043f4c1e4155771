use hanoidb::block::Block;
use hanoidb::compression::Compression;
use hanoidb::entry::Entry;
use hanoidb::error::Error;
use hanoidb::tree::Tree;
use hanoidb::writer::{write_file, Writer};

fn key_val(key: &[u8], value: &[u8]) -> Entry {
    Entry::KeyVal { key: key.to_vec(), value: value.to_vec(), timestamp: None }
}

fn numbered(key: u64) -> Entry {
    key_val(&key.to_be_bytes(), &key.to_be_bytes())
}

fn write_8kb(writer: &mut Writer, mut key: u64) -> Result<u64, Error> {
    let mut written: usize = 0;
    while written < 8192 {
        let entry = numbered(key);
        let entry_size = entry.encoded_size();
        writer.add(entry)?;
        written += entry_size;
        key += 1;
    }
    Ok(key)
}

fn all_entries(tree: &Tree) -> Vec<Entry> {
    let mut walk = tree.entries().unwrap();
    let mut out = Vec::new();
    while let Some(entry) = walk.next() {
        out.push(entry);
    }
    out
}

#[test]
fn roundtrip() {
    let deleted_key = "deleted".to_owned().into_bytes();
    let key = "key".to_owned().into_bytes();
    let value = "value".to_owned().into_bytes();

    let deleted = Entry::Deleted { key: deleted_key.clone(), timestamp: None };
    let kv = Entry::KeyVal { key: key.clone(), value: value.clone(), timestamp: None };
    let mut writer = Writer::new();

    writer.add(deleted.clone()).unwrap();
    writer.add(kv.clone()).unwrap();
    let data = writer.close().unwrap();

    let tree = Tree::from_file(data).unwrap();
    assert_eq!(tree.get_entry(&key).unwrap(), Some(kv));
    assert_eq!(tree.get_entry(&deleted_key).unwrap(), Some(deleted));
}

#[test]
fn writes_are_in_byte_order() {
    let deleted = Entry::Deleted { key: b"deleted".to_vec(), timestamp: None };
    let kv = key_val(b"key", b"value");
    let mut writer = Writer::new();

    writer.add(kv.clone()).unwrap();
    let error = writer.add(deleted.clone()).unwrap_err();
    assert_eq!(error.to_string(), "out-of-order write");
}

#[test]
fn equal_keys_are_out_of_order() {
    let mut writer = Writer::new();
    writer.add(key_val(b"key", b"one")).unwrap();
    assert!(matches!(writer.add(key_val(b"key", b"two")), Err(Error::OutOfOrderWrite)));
    assert!(matches!(
        writer.add(Entry::Deleted { key: b"key".to_vec(), timestamp: None }),
        Err(Error::OutOfOrderWrite)
    ));
    assert_eq!(writer.count(), 1);
    writer.add(key_val(b"kez", b"three")).unwrap();
    assert_eq!(writer.count(), 2);
}

#[test]
fn key_counts() {
    let deleted = Entry::Deleted { key: b"deleted".to_vec(), timestamp: None };
    let kv = key_val(b"key", b"value");
    let mut writer = Writer::new();

    writer.add(deleted.clone()).unwrap();
    assert_eq!(writer.count(), 1);
    assert_eq!(writer.tombstone_count(), 1);
    assert_eq!(writer.value_count(), 0);
    writer.add(kv.clone()).unwrap();
    assert_eq!(writer.count(), 2);
    assert_eq!(writer.tombstone_count(), 1);
    assert_eq!(writer.value_count(), 1);
    writer.close().unwrap();
}

#[test]
fn max_block_size_is_8kb() {
    let mut writer = Writer::new();
    let key = write_8kb(&mut writer, 0).unwrap();
    assert_eq!(writer.pending(), 1);
    assert!(writer.pending_level(0) > 0 && writer.pending_members(0) == 1);
    let _ = write_8kb(&mut writer, key);
    assert_eq!(writer.pending(), 1);
    assert_eq!(writer.pending_level(0), 1);
    assert_eq!(writer.pending_members(0), 2);
}

#[test]
fn a_block_closes_the_moment_it_is_full() {
    let mut writer = Writer::new();
    // Each entry takes 30 bytes: 273 of them are 8190, one more is 8220.
    for key in 0..273u64 {
        writer.add(numbered(key)).unwrap();
    }
    assert_eq!(writer.pending(), 1);
    assert_eq!(writer.pending_level(0), 0);
    assert_eq!(writer.pending_members(0), 273);
    assert_eq!(writer.written(), 4);
    writer.add(numbered(273)).unwrap();
    assert_eq!(writer.pending(), 1);
    assert_eq!(writer.pending_level(0), 1);
    assert_eq!(writer.pending_members(0), 1);
    assert_eq!(writer.written(), 4 + 7 + 1 + 8220);
}

#[test]
fn inner_nodes_have_fanout_gt_1() {
    let mut writer = Writer::new();
    let _key = write_8kb(&mut writer, 0).unwrap();
    assert_eq!(writer.pending(), 1);
    assert!(writer.pending_level(0) > 0 && writer.pending_members(0) == 1);
    let data = writer.close().unwrap();
    let tree = Tree::from_file(data).unwrap();
    let root = tree.root_block().unwrap();
    assert_eq!(root.level, 0);
    assert_eq!(root.start, 4);
    assert!(root.blocklen >= 8192);
}

#[test]
fn empty_file() {
    let writer = Writer::new();
    let contents = writer.close().unwrap();
    // magic - 4
    // blocklen - 4
    // level - 2
    // pad - 4
    // bloom - none: a file without entries writes no bloom filter
    // bloom_len - 4
    // root_pos - 8
    assert_eq!(contents.len(), 26);
    assert_eq!(&contents[0..4], "HAN3".as_bytes()); // magic
    assert_eq!(&contents[4..8], &[0, 0, 0, 0]); // blocklen = 0
    assert_eq!(&contents[8..10], &[0, 0]); // level = 0
    assert_eq!(&contents[10..14], &[0, 0, 0, 0]); // pad
    assert_eq!(&contents[contents.len() - 8..], &[0, 0, 0, 0, 0, 0, 0, 4]); // root_pos
    let bloom_len = u32::from_be_bytes(
        contents[contents.len() - 12..contents.len() - 8].try_into().unwrap(),
    );
    assert_eq!(bloom_len, 0);
    let _tree = Tree::from_file(contents).unwrap();
}

#[test]
fn a_file_with_entries_holds_its_bloom_filter() {
    let mut writer = Writer::new();
    writer.add(key_val(b"key", b"value")).unwrap();
    let contents = writer.close().unwrap();
    let bloom_len = u32::from_be_bytes(
        contents[contents.len() - 12..contents.len() - 8].try_into().unwrap(),
    );
    assert!(bloom_len > 0);
    let raw_bloom = &contents[contents.len() - 12 - bloom_len as usize..contents.len() - 12];
    assert_eq!(raw_bloom.len() % 8, 0);
    let bloom = hanoidb::bloom::BloomFilter::from_bytes(raw_bloom).unwrap();
    assert!(bloom.contains(b"key"));
    assert_eq!(&contents[contents.len() - 16 - bloom_len as usize..contents.len() - 12 - bloom_len as usize], &[0, 0, 0, 0]);
}

#[test]
fn block_from_start_accepts_empty_blocks() {
    let writer = Writer::new();
    let data = writer.close().unwrap();
    let tree = Tree::from_file(data).unwrap();
    let root_block = tree.root_block().unwrap();
    let mut entries = root_block.entries().unwrap();
    let mut count = 0;
    while entries.next().is_some() {
        count += 1;
    }
    assert_eq!(count, 0)
}

#[test]
fn empty_tree_has_no_entries_and_finds_nothing() {
    let tree = Tree::from_file(Writer::new().close().unwrap()).unwrap();
    assert!(all_entries(&tree).is_empty());
    assert_eq!(tree.get_entry(b"x").unwrap(), None);
}

#[test]
fn walk_yields_what_went_in() {
    for codec in [Compression::Uncompressed, Compression::Snappy, Compression::Gzip, Compression::Lz4] {
        let mut writer = Writer::with_expected_num_items(3000, codec);
        let mut input = Vec::new();
        for key in 0..3000u64 {
            let entry = if key % 7 == 0 {
                Entry::Deleted { key: key.to_be_bytes().to_vec(), timestamp: None }
            } else {
                numbered(key)
            };
            input.push(entry.clone());
            writer.add(entry).unwrap();
        }
        assert_eq!(writer.count(), 3000);
        let tree = Tree::from_file(writer.close().unwrap()).unwrap();
        let root = tree.root_block().unwrap();
        assert_eq!(root.level, 1);
        assert_eq!(root.compression, codec);
        assert_eq!(all_entries(&tree), input);
        for entry in &input {
            assert_eq!(tree.get_entry(entry.key()).unwrap().as_ref(), Some(entry));
        }
        assert_eq!(tree.get_entry(&3000u64.to_be_bytes()).unwrap(), None);
        assert_eq!(tree.get_entry(b"").unwrap(), None);
    }
}

#[test]
fn every_block_is_strictly_ascending() {
    let mut writer = Writer::new();
    for key in 0..1000u64 {
        writer.add(numbered(key * 3)).unwrap();
    }
    let data = writer.close().unwrap();
    let tree = Tree::from_file(data.clone()).unwrap();
    let root = tree.root_block().unwrap();
    assert_eq!(root.level, 1);
    let mut pointers = Vec::new();
    let mut entries = root.entries().unwrap();
    while let Some(entry) = entries.next() {
        assert!(entry.is_pos_len());
        pointers.push(entry);
    }
    assert_eq!(pointers.len(), 4);
    for (at, pointer) in pointers.iter().enumerate() {
        if at > 0 {
            assert!(pointers[at - 1].key() < pointer.key());
        }
        let child = tree.block_from_poslen_entry(pointer).unwrap();
        assert_eq!(child.level, 0);
        let mut entries = child.entries().unwrap();
        let mut last: Option<Vec<u8>> = None;
        let mut first = true;
        while let Some(entry) = entries.next() {
            if first {
                assert_eq!(entry.key(), pointer.key());
                first = false;
            }
            if let Some(last) = &last {
                assert!(last.as_slice() < entry.key());
            }
            assert!(pointer.key() <= entry.key());
            if at + 1 < pointers.len() {
                assert!(entry.key() < pointers[at + 1].key());
            }
            last = Some(entry.key().to_vec());
        }
        assert!(!first);
    }
}

#[test]
fn bloom_holds_every_key_written() {
    let mut writer = Writer::with_expected_num_items(500, Compression::Uncompressed);
    for key in 0..500u64 {
        writer.add(numbered(key)).unwrap();
    }
    let contents = writer.close().unwrap();
    let bloom_len = u32::from_be_bytes(
        contents[contents.len() - 12..contents.len() - 8].try_into().unwrap(),
    );
    let raw_bloom = &contents[contents.len() - 12 - bloom_len as usize..contents.len() - 12];
    assert_eq!(raw_bloom.len() % 8, 0);
    let bloom = hanoidb::bloom::BloomFilter::from_bytes(raw_bloom).unwrap();
    for key in 0..500u64 {
        assert!(bloom.contains(&key.to_be_bytes()[..]));
    }
    let misses = (1000..2000u64).filter(|key| !bloom.contains(&key.to_be_bytes()[..])).count();
    assert!(misses > 900);
}

#[test]
fn root_is_the_block_written_last() {
    let mut writer = Writer::new();
    let key = write_8kb(&mut writer, 0).unwrap();
    let _ = write_8kb(&mut writer, key).unwrap();
    let before = writer.written();
    let contents = writer.close().unwrap();
    let root_pos = u64::from_be_bytes(contents[contents.len() - 8..].try_into().unwrap());
    // Closing writes the pending inner block with its two pointers; it is the root.
    assert_eq!(root_pos, before as u64);
    let root = Block::from_start(&contents, root_pos).unwrap();
    assert_eq!(root.level, 1);
    assert_eq!(root.blocklen as usize, 3 + 1 + 2 * (9 + 1 + 8 + 4 + 8));
}

#[test]
fn close_stops_at_the_first_inner_block_with_one_pointer() {
    // 274 entries of 30 bytes fill a leaf block, and 274 pointers of 30
    // bytes fill a block of level 1: after 274 * 274 entries the one pending
    // block is of level 2 and holds one pointer.
    let mut writer = Writer::with_expected_num_items(80000, Compression::Uncompressed);
    let full: u64 = 274 * 274;
    for key in 0..full {
        writer.add(numbered(key)).unwrap();
    }
    assert_eq!(writer.pending(), 1);
    assert_eq!(writer.pending_level(0), 2);
    assert_eq!(writer.pending_members(0), 1);
    // One more entry: closing writes its leaf block, comes to the empty
    // block of level 1 with the one pointer to it, and stops there.
    writer.add(numbered(full)).unwrap();
    assert_eq!(writer.pending(), 3);
    let tree = Tree::from_file(writer.close().unwrap()).unwrap();
    assert_eq!(tree.root_block().unwrap().level, 0);
    assert_eq!(all_entries(&tree), vec![numbered(full)]);
}

#[test]
fn closing_at_a_full_level_keeps_everything() {
    let mut writer = Writer::with_expected_num_items(80000, Compression::Uncompressed);
    let full: u64 = 274 * 274;
    for key in 0..full {
        writer.add(numbered(key)).unwrap();
    }
    let tree = Tree::from_file(writer.close().unwrap()).unwrap();
    assert_eq!(tree.root_block().unwrap().level, 1);
    let entries = all_entries(&tree);
    assert_eq!(entries.len() as u64, full);
    assert_eq!(entries[0], numbered(0));
    assert_eq!(entries[entries.len() - 1], numbered(full - 1));
    assert_eq!(tree.get_entry(&12345u64.to_be_bytes()).unwrap(), Some(numbered(12345)));
}

#[test]
fn write_file_builds_a_tree() {
    let entries = vec![key_val(b"a", b"1"), Entry::Deleted { key: b"b".to_vec(), timestamp: None }, key_val(b"c", b"3")];
    let tree = Tree::from_file(write_file(&entries, 3, Compression::Lz4).unwrap()).unwrap();
    assert_eq!(all_entries(&tree), entries);
    let unsorted = vec![key_val(b"b", b"1"), key_val(b"a", b"2")];
    assert!(matches!(write_file(&unsorted, 2, Compression::Uncompressed), Err(Error::OutOfOrderWrite)));
}

#[test]
fn open_rejects_what_is_no_tree() {
    assert!(matches!(Tree::from_file(b"HAN2xxxxxxxxxxxxxxxxxxxxxxxx".to_vec()), Err(Error::InvalidTreeFormat(magic)) if magic == b"HAN2"));
    assert!(matches!(Tree::from_file(b"HA".to_vec()), Err(Error::InvalidTreeFormat(magic)) if magic == b"HA"));
    assert!(matches!(Tree::from_file(b"HAN3".to_vec()), Err(Error::CorruptedFile("file too short for a trailer"))));

    let mut writer = Writer::new();
    writer.add(key_val(b"key", b"value")).unwrap();
    let good = writer.close().unwrap();
    let len = good.len();
    let bloom_len = u32::from_be_bytes(good[len - 12..len - 8].try_into().unwrap()) as usize;

    let mut bad_padding = good.clone();
    bad_padding[len - 16 - bloom_len] = 1;
    assert!(matches!(Tree::from_file(bad_padding), Err(Error::CorruptedFile("missing trailer padding"))));

    let mut empty = Writer::new().close().unwrap();
    empty[10] = 1;
    assert!(matches!(Tree::from_file(empty), Err(Error::CorruptedFile("missing trailer padding"))));

    let mut bad_root = good.clone();
    bad_root[len - 8..].copy_from_slice(&(len as u64).to_be_bytes());
    assert!(matches!(Tree::from_file(bad_root), Err(Error::CorruptedFile("root block position outside bounds of file"))));

    let mut bad_len = good.clone();
    bad_len[len - 12..len - 8].copy_from_slice(&(len as u32).to_be_bytes());
    assert!(matches!(Tree::from_file(bad_len), Err(Error::CorruptedFile("trailer outside bounds of file"))));

    // A bloom filter that is no whole number of words.
    let mut bad_bloom = good[..len - 16 - bloom_len].to_vec();
    bad_bloom.extend([0u8; 4]);
    bad_bloom.extend([0xFFu8; 12]);
    bad_bloom.extend(12u32.to_be_bytes());
    bad_bloom.extend(&good[len - 8..]);
    assert!(matches!(Tree::from_file(bad_bloom), Err(Error::BloomFilterCorrupted)));

    // Whole words, whatever they hold, are a bloom filter: a lookup
    // answers, and finds what the filter lets through.
    let mut any_bloom = good.clone();
    for byte in &mut any_bloom[len - 12 - bloom_len..len - 12] {
        *byte = 0xFF;
    }
    let tree = Tree::from_file(any_bloom).unwrap();
    assert_eq!(tree.get_entry(b"key").unwrap(), Some(key_val(b"key", b"value")));
    assert_eq!(tree.get_entry(b"other").unwrap(), None);
}

#[test]
fn blocks_report_what_is_wrong_with_them() {
    let mut writer = Writer::new();
    let key = write_8kb(&mut writer, 0).unwrap();
    let _ = write_8kb(&mut writer, key).unwrap();
    let data = writer.close().unwrap();
    let tree = Tree::from_file(data.clone()).unwrap();

    assert!(matches!(tree.block_from_poslen_entry(&numbered(1)), Err(Error::PosLenEntryRequired)));
    let wrong = Entry::PosLen { blockpos: 4, blocklen: 12, key: Vec::new() };
    assert!(matches!(tree.block_from_poslen_entry(&wrong), Err(Error::IncorrectBlockLength(8, 8224))));
    let short = Entry::PosLen { blockpos: 4, blocklen: 3, key: Vec::new() };
    assert!(matches!(
        tree.block_from_poslen_entry(&short),
        Err(Error::CorruptedFile("block pointer shorter than a length field"))
    ));
    // The length of a pointer counts the four bytes of the length field.
    let right = Entry::PosLen { blockpos: 4, blocklen: 8228, key: Vec::new() };
    let block = tree.block_from_poslen_entry(&right).unwrap();
    assert_eq!((block.start, block.blocklen), (4, 8224));
    assert!(matches!(Block::from_start(&data, data.len() as u64 - 3), Err(Error::CorruptedFile("block header outside bounds of file"))));

    let mut bad_codec = data.clone();
    bad_codec[10] = 9;
    assert!(matches!(Block::from_start(&bad_codec, 4), Err(Error::InvalidCompression(9))));

    let mut no_terminator = data.clone();
    no_terminator[11] = 0;
    let block = Block::from_start(&no_terminator, 4).unwrap();
    assert!(matches!(block.entries(), Err(Error::CorruptedFile("block entries did not start with TAG_END"))));
}

#[test]
fn a_bad_entry_ends_a_block_silently() {
    let mut writer = Writer::new();
    for key in 0..10u64 {
        writer.add(numbered(key)).unwrap();
    }
    let mut data = writer.close().unwrap();
    // Break the checksum of the fourth entry of the only block.
    data[4 + 7 + 1 + 3 * 30 + 5] ^= 0xFF;
    let tree = Tree::from_file(data).unwrap();
    assert_eq!(all_entries(&tree), vec![numbered(0), numbered(1), numbered(2)]);
    assert_eq!(tree.get_entry(&2u64.to_be_bytes()).unwrap(), Some(numbered(2)));
    assert_eq!(tree.get_entry(&5u64.to_be_bytes()).unwrap(), None);
}

#[test]
fn a_second_handle_reads_the_same() {
    let mut writer = Writer::new();
    writer.add(key_val(b"a", b"1")).unwrap();
    let tree = Tree::from_file(writer.close().unwrap()).unwrap();
    let clone = tree.try_clone().unwrap();
    assert_eq!(clone.get_entry(b"a").unwrap(), Some(key_val(b"a", b"1")));
    assert_eq!(all_entries(&clone), all_entries(&tree));
}

#[test]
fn close_whole_closes_where_nothing_is_lost() {
    let build = || {
        let mut writer = Writer::new();
        for key in 0..1000u64 {
            writer.add(numbered(key)).unwrap();
        }
        writer
    };
    let file = build().close_whole().unwrap().expect("nothing would be lost");
    assert_eq!(all_entries(&Tree::from_file(file.clone()).unwrap()).len(), 1000);
    // The hasher of the bloom filter is seeded by chance: up to the
    // trailer the file is the one that `close` gives.
    let other = build().close().unwrap();
    let body = |file: &[u8]| {
        let bloom_len = u32::from_be_bytes(file[file.len() - 12..file.len() - 8].try_into().unwrap());
        file[..file.len() - 16 - bloom_len as usize].to_vec()
    };
    assert_eq!(body(&file), body(&other));
    assert_eq!(file[file.len() - 8..], other[other.len() - 8..]);
    assert!(Writer::new().close_whole().unwrap().is_some());
}

#[test]
fn close_whole_refuses_where_entries_would_be_lost() {
    let mut writer = Writer::with_expected_num_items(80000, Compression::Uncompressed);
    let full: u64 = 274 * 274;
    for key in 0..=full {
        writer.add(numbered(key)).unwrap();
    }
    assert_eq!(writer.close_whole().unwrap(), None);
}

#[test]
fn a_refused_entry_leaves_the_writer_as_it_was() {
    let mut writer = Writer::new();
    writer.add(key_val(b"a", b"1")).unwrap();
    writer.add(key_val(b"c", b"3")).unwrap();
    let before = (writer.count(), writer.written());
    assert!(matches!(writer.add(key_val(b"b", b"2")), Err(Error::OutOfOrderWrite)));
    assert!(matches!(writer.add(key_val(b"c", b"again")), Err(Error::OutOfOrderWrite)));
    assert_eq!((writer.count(), writer.written()), before);
    writer.add(key_val(b"d", b"4")).unwrap();
    let tree = Tree::from_file(writer.close().unwrap()).unwrap();
    let mut found = Vec::new();
    let mut walk = tree.entries().unwrap();
    while let Some(entry) = walk.next() {
        found.push(entry);
    }
    assert_eq!(found, vec![key_val(b"a", b"1"), key_val(b"c", b"3"), key_val(b"d", b"4")]);
    // The filter took the refused key too; the tree does not hold it.
    assert_eq!(tree.get_entry(b"b").unwrap(), None);
    assert_eq!(tree.get_entry(b"c").unwrap(), Some(key_val(b"c", b"3")));
}

#[test]
fn a_key_below_the_block_before_is_refused_one_level_up() {
    // The order of keys is held to within the pending leaf block. A key
    // below the block written before passes there, and is refused when its
    // block is written out and the pointer meets the pointer before it.
    let mut writer = Writer::new();
    writer.add(key_val(b"m", &[7u8; 8200])).unwrap();
    writer.add(key_val(b"a", b"small")).unwrap();
    assert!(matches!(writer.add(key_val(b"b", &[7u8; 8200])), Err(Error::OutOfOrderWrite)));
}

#[test]
fn rising_keys_are_never_refused() {
    let mut writer = Writer::new();
    for key in 0..3000u64 {
        writer.add(Entry::KeyVal { key: key.to_be_bytes().to_vec(), value: vec![1u8; 300], timestamp: None }).unwrap();
    }
    let tree = Tree::from_file(writer.close().unwrap()).unwrap();
    for key in [0u64, 1, 26, 27, 1500, 2999] {
        assert!(tree.get_entry(&key.to_be_bytes()).unwrap().is_some());
    }
    assert_eq!(tree.get_entry(&3000u64.to_be_bytes()).unwrap(), None);
}

#[test]
fn a_pointer_counts_the_whole_block() {
    // Two leaf blocks and the inner block above them: each pointer of the
    // root gives the place of a block and its length with the length field.
    let mut writer = Writer::new();
    let key = write_8kb(&mut writer, 0).unwrap();
    writer.add(numbered(key)).unwrap();
    let data = writer.close().unwrap();
    let tree = Tree::from_file(data.clone()).unwrap();
    let root = tree.root_block().unwrap();
    assert_eq!(root.level, 1);
    let mut pointers = root.entries().unwrap();
    let mut seen = 0;
    while let Some(entry) = pointers.next() {
        let Entry::PosLen { blockpos, blocklen, .. } = &entry else { panic!("a leaf entry in an inner block") };
        let declared = u32::from_be_bytes(data[*blockpos as usize..*blockpos as usize + 4].try_into().unwrap());
        assert_eq!(*blocklen, declared + 4);
        let child = tree.block_from_poslen_entry(&entry).unwrap();
        assert_eq!((child.start, child.blocklen, child.level), (*blockpos, declared, 0));
        seen += 1;
    }
    assert_eq!(seen, 2);
}
