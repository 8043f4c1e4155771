use hanoidb::bytes::{copy_range, push_all, push_u16, push_u32, push_u64, read_u16, read_u32, read_u64};
use hanoidb::compression::Compression;
use hanoidb::error::Error;
use hanoidb::files::{data_file_name, FileName, Prefix};
use hanoidb::key::{compare, less, same, KeyOrder};
use hanoidb::level::{level_size, pow2_usize};

#[test]
fn keys_compare_byte_by_byte() {
    assert_eq!(compare(b"a", b"b"), KeyOrder::Less);
    assert_eq!(compare(b"b", b"a"), KeyOrder::Greater);
    assert_eq!(compare(b"abc", b"abc"), KeyOrder::Equal);
    assert_eq!(compare(b"", b""), KeyOrder::Equal);
    assert_eq!(compare(b"", b"a"), KeyOrder::Less);
    assert_eq!(compare(b"ab", b"abc"), KeyOrder::Less);
    assert_eq!(compare(b"abc", b"ab"), KeyOrder::Greater);
    assert_eq!(compare(&[0xFF], &[0x00, 0xFF]), KeyOrder::Greater);
    assert_eq!(compare(b"key-10", b"key-9"), KeyOrder::Less);
    assert!(less(b"deleted", b"key"));
    assert!(!less(b"key", b"key"));
    assert!(same(b"key", b"key"));
    assert!(!same(b"key", b"kez"));
}

#[test]
fn keys_order_as_slices_do() {
    let keys: [&[u8]; 6] = [b"", b"a", b"ab", b"b", &[0xFF], &[0xFF, 0x00]];
    for a in keys {
        for b in keys {
            let expected = match a.cmp(b) {
                std::cmp::Ordering::Less => KeyOrder::Less,
                std::cmp::Ordering::Equal => KeyOrder::Equal,
                std::cmp::Ordering::Greater => KeyOrder::Greater,
            };
            assert_eq!(compare(a, b), expected);
        }
    }
}

#[test]
fn big_endian_integers() {
    let mut out = Vec::new();
    push_u16(&mut out, 0x0102);
    push_u32(&mut out, 0x03040506);
    push_u64(&mut out, 0x0708090A0B0C0D0E);
    push_all(&mut out, &[0xAA, 0xBB]);
    assert_eq!(out, vec![1, 2, 3, 4, 5, 6, 7, 8, 9, 10, 11, 12, 13, 14, 0xAA, 0xBB]);
    assert_eq!(read_u16(&out, 0), 0x0102);
    assert_eq!(read_u32(&out, 2), 0x03040506);
    assert_eq!(read_u64(&out, 6), 0x0708090A0B0C0D0E);
    assert_eq!(read_u32(&[0xFF, 0xFF, 0xFF, 0xFF], 0), u32::MAX);
    assert_eq!(read_u64(&[0xFF; 8], 0), u64::MAX);
    assert_eq!(copy_range(&out, 14, 16), vec![0xAA, 0xBB]);
}

#[test]
fn file_names() {
    assert_eq!(data_file_name(10, "A"), "A-10.data");
    assert_eq!(data_file_name(0, "X"), "X-0.data");
    assert_eq!(data_file_name(4294967295, "M"), "M-4294967295.data");
    assert_eq!(FileName::NurseryLog.to_string(), "nursery.log");
    assert_eq!(FileName::NurseryData.to_string(), "nursery.data");
    assert_eq!(FileName::Data { prefix: Prefix::C, level: 25 }.to_string(), "C-25.data");
    assert_eq!(Prefix::B.as_str(), "B");
}

#[test]
fn level_sizes() {
    assert_eq!(level_size(0), 1);
    assert_eq!(level_size(10), 1024);
    assert_eq!(level_size(25), 33554432);
    assert_eq!(pow2_usize(31), 2147483648);
}

#[test]
fn compression_bytes() {
    assert_eq!(Compression::Uncompressed.to_byte(), 0);
    assert_eq!(Compression::Snappy.to_byte(), 1);
    assert_eq!(Compression::Gzip.to_byte(), 2);
    assert_eq!(Compression::Lz4.to_byte(), 3);
    assert_eq!(Compression::try_from(0).unwrap(), Compression::Uncompressed);
    assert_eq!(Compression::try_from(1).unwrap(), Compression::Snappy);
    assert_eq!(Compression::try_from(2).unwrap(), Compression::Gzip);
    assert_eq!(Compression::try_from(3).unwrap(), Compression::Lz4);
    assert!(matches!(Compression::try_from(4), Err(Error::InvalidCompression(4))));
    assert!(matches!(Compression::try_from(255), Err(Error::InvalidCompression(255))));
}

#[test]
fn every_codec_round_trips() {
    let mut input = Vec::new();
    for i in 0..2000u32 {
        input.extend(format!("key-{}", i % 17).as_bytes());
    }
    for codec in [Compression::Uncompressed, Compression::Snappy, Compression::Gzip, Compression::Lz4] {
        let packed = codec.compress(input.clone()).unwrap();
        if codec == Compression::Uncompressed {
            assert_eq!(packed, input);
        } else {
            assert_ne!(packed, input);
            assert!(packed.len() < input.len());
        }
        assert_eq!(codec.reader(&packed).unwrap(), input);
    }
}

#[test]
fn codecs_are_the_named_formats() {
    let input = b"hello hello hello hello".to_vec();
    let snappy = Compression::Snappy.compress(input.clone()).unwrap();
    assert_eq!(snap::raw::Decoder::new().decompress_vec(&snappy).unwrap(), input);
    let gzip = Compression::Gzip.compress(input.clone()).unwrap();
    assert_eq!(&gzip[..2], &[0x1f, 0x8b]);
    let lz4 = Compression::Lz4.compress(input.clone()).unwrap();
    assert_eq!(&lz4[..4], &[0x04, 0x22, 0x4D, 0x18]);
}

#[test]
fn codecs_report_garbage() {
    let garbage = vec![0xFFu8; 40];
    assert!(matches!(Compression::Snappy.reader(&garbage), Err(Error::SnappyDecompression)));
    assert!(matches!(Compression::Gzip.reader(&garbage), Err(Error::GzipDecompression)));
    assert!(matches!(Compression::Lz4.reader(&garbage), Err(Error::Lz4Decompression)));
    assert_eq!(Compression::Uncompressed.reader(&garbage).unwrap(), garbage);
}

#[test]
fn lz4_stands_where_the_least_significant_byte_comes_first() {
    // What the encoder wrote stands on a machine that reads 1 out of the
    // bytes 1 and 0, and is refused on one that reads 256.
    assert_eq!(Compression::lz4_outcome(Some(vec![1, 2, 3]), 1).unwrap(), vec![1, 2, 3]);
    assert!(matches!(Compression::lz4_outcome(Some(vec![1, 2, 3]), 256), Err(Error::Lz4Compression)));
    assert!(matches!(Compression::lz4_outcome(None, 1), Err(Error::Lz4Compression)));
    assert!(matches!(Compression::lz4_outcome(None, 256), Err(Error::Lz4Compression)));
    assert_eq!(hanoidb::compression::LEAST_FIRST, 1);
}
