use hanoidb::entry::Entry;
use hanoidb::error::Error;

fn key_val(key: &str, value: &str) -> Entry {
    Entry::KeyVal { key: key.as_bytes().to_vec(), value: value.as_bytes().to_vec(), timestamp: None }
}

#[test]
fn encode_key_val_is_bit_exact() {
    let entry = key_val("key", "value");
    let bytes = entry.encode();
    let payload: Vec<u8> = vec![0x80, 0, 0, 0, 3, b'k', b'e', b'y', b'v', b'a', b'l', b'u', b'e'];
    let mut expected: Vec<u8> = vec![0, 0, 0, 13];
    expected.extend(crc32fast::hash(&payload).to_be_bytes());
    expected.extend(&payload);
    expected.push(0xFF);
    assert_eq!(bytes, expected);
    assert_eq!(entry.encoded_size(), 22);
    assert_eq!(bytes.len(), 22);
}

#[test]
fn stored_crc_is_crc32_of_tag_and_body() {
    let entry = Entry::Deleted { key: b"gone".to_vec(), timestamp: Some(7) };
    let bytes = entry.encode();
    let length = u32::from_be_bytes([bytes[0], bytes[1], bytes[2], bytes[3]]) as usize;
    let stored = u32::from_be_bytes([bytes[4], bytes[5], bytes[6], bytes[7]]);
    assert_eq!(length, 1 + 4 + 4);
    assert_eq!(stored, crc32fast::hash(&bytes[8..8 + length]));
    assert_ne!(stored, 0);
    assert_eq!(bytes[8], 0x85);
}

#[test]
fn every_variant_round_trips() {
    let entries = vec![
        key_val("key", "value"),
        Entry::KeyVal { key: b"k".to_vec(), value: Vec::new(), timestamp: Some(0xDEADBEEF) },
        Entry::Deleted { key: b"deleted".to_vec(), timestamp: None },
        Entry::Deleted { key: Vec::new(), timestamp: Some(1) },
        Entry::PosLen { blockpos: 0x0102030405060708, blocklen: 0x0A0B0C0D, key: b"first".to_vec() },
    ];
    for entry in entries {
        let mut bytes = entry.encode();
        let size = bytes.len();
        assert_eq!(size, entry.encoded_size());
        bytes.extend([1, 2, 3]);
        let (read, taken) = Entry::read(&bytes, 0).unwrap();
        assert_eq!(read, entry);
        assert_eq!(taken, size);
    }
}

#[test]
fn pos_len_layout_is_bit_exact() {
    let entry = Entry::PosLen { blockpos: 4, blocklen: 0x0100, key: b"a".to_vec() };
    let bytes = entry.encode();
    assert_eq!(&bytes[8..], &[0x82, 0, 0, 0, 0, 0, 0, 0, 4, 0, 0, 1, 0, b'a', 0xFF]);
}

#[test]
fn read_at_offset() {
    let mut bytes = vec![9u8, 9, 9];
    bytes.extend(key_val("a", "1").encode());
    bytes.extend(key_val("b", "2").encode());
    let (first, taken) = Entry::read(&bytes, 3).unwrap();
    assert_eq!(first, key_val("a", "1"));
    let (second, _) = Entry::read(&bytes, 3 + taken).unwrap();
    assert_eq!(second, key_val("b", "2"));
}

#[test]
fn read_reports_end_of_file() {
    assert!(matches!(Entry::read(&[], 0), Err(Error::EndOfFile)));
    assert!(matches!(Entry::read(&[0, 0, 0, 1, 0, 0, 0], 0), Err(Error::EndOfFile)));
    assert!(matches!(Entry::read(&[1, 2, 3], 7), Err(Error::EndOfFile)));
}

#[test]
fn read_reports_incomplete_entry() {
    let bytes = key_val("key", "value").encode();
    assert!(matches!(Entry::read(&bytes[..12], 0), Err(Error::IncompleteEntry)));
    assert!(matches!(Entry::read(&bytes[..bytes.len() - 1], 0), Err(Error::IncompleteEntry)));
}

#[test]
fn read_reports_bad_crc() {
    let mut bytes = key_val("key", "value").encode();
    bytes[10] ^= 1;
    match Entry::read(&bytes, 0) {
        Err(Error::CorruptedFile(reason)) => assert_eq!(reason, "Entry had incorrect CRC32"),
        other => panic!("unexpected {other:?}"),
    }
}

#[test]
fn read_reports_missing_terminator() {
    let mut bytes = key_val("key", "value").encode();
    let last = bytes.len() - 1;
    bytes[last] = 0;
    match Entry::read(&bytes, 0) {
        Err(Error::CorruptedFile(reason)) => assert_eq!(reason, "Last byte of entry wasn't TAG_END"),
        other => panic!("unexpected {other:?}"),
    }
}

fn framed(payload: &[u8]) -> Vec<u8> {
    let mut bytes = (payload.len() as u32).to_be_bytes().to_vec();
    bytes.extend(crc32fast::hash(payload).to_be_bytes());
    bytes.extend(payload);
    bytes.push(0xFF);
    bytes
}

#[test]
fn read_reports_unknown_tag() {
    assert!(matches!(Entry::read(&framed(&[0x83, 1, 2]), 0), Err(Error::InvalidEntryTag(0x83))));
    assert!(matches!(Entry::read(&framed(&[0x00]), 0), Err(Error::InvalidEntryTag(0))));
}

#[test]
fn read_reports_short_bodies() {
    for payload in [vec![], vec![0x80, 0, 0], vec![0x80, 0, 0, 0, 9, b'k'], vec![0x84, 0, 0, 0, 1], vec![0x85, 1], vec![0x82, 0, 0, 0, 0]] {
        assert!(matches!(Entry::read(&framed(&payload), 0), Err(Error::CorruptedFile(_))), "{payload:?}");
    }
}

#[test]
fn variant_tests_and_key() {
    let kv = key_val("key", "value");
    let deleted = Entry::Deleted { key: b"d".to_vec(), timestamp: None };
    let pointer = Entry::PosLen { blockpos: 1, blocklen: 2, key: b"p".to_vec() };
    assert!(kv.is_key_val() && !kv.is_deleted() && !kv.is_pos_len());
    assert!(!deleted.is_key_val() && deleted.is_deleted() && !deleted.is_pos_len());
    assert!(!pointer.is_key_val() && !pointer.is_deleted() && pointer.is_pos_len());
    assert_eq!(kv.key(), b"key");
    assert_eq!(deleted.key(), b"d");
    assert_eq!(pointer.key(), b"p");
    assert_eq!(deleted.encoded_size(), 9 + 1 + 1);
    assert_eq!(pointer.encoded_size(), 9 + 1 + 8 + 4 + 1);
    assert_eq!(Entry::KeyVal { key: b"k".to_vec(), value: b"v".to_vec(), timestamp: Some(1) }.encoded_size(), 9 + 1 + 4 + 4 + 1 + 1);
    assert!(kv.is_storable());
    assert_eq!(kv.clone(), kv);
}

#[test]
fn error_messages() {
    assert_eq!(Error::OutOfOrderWrite.to_string(), "out-of-order write");
    assert_eq!(Error::InvalidCompression(7).to_string(), "invalid compression type: 7");
    assert_eq!(Error::IncorrectBlockLength(8195, 12).to_string(), "incorrect block length, expected 8195, got 12");
    assert_eq!(Error::CorruptedFile("missing trailer padding").to_string(), "corrupted file: missing trailer padding");
    assert_eq!(Error::InvalidEntryTag(131).to_string(), "invalid entry tag 131");
    assert_eq!(Error::EndOfFile.to_string(), "end of file reached");
    assert_eq!(Error::LevelFull(10).to_string(), "level is full: 10");
    assert_eq!(Error::InvalidLevel(4294967295).to_string(), "invalid level number: 4294967295");
}
