use std::hash::{BuildHasher, Hasher};

use hanoidb::bloom::BloomFilter;
use hanoidb::error::Error;
use hanoidb::trailer::Trailer;

#[test]
fn bloom_never_forgets_a_key() {
    let mut bloom = BloomFilter::with_expected_items(1000);
    for i in 0..1000u32 {
        bloom.insert(format!("key-{i}").as_bytes());
    }
    for i in 0..1000u32 {
        assert!(bloom.contains(format!("key-{i}").as_bytes()));
    }
    let wrong = (0..1000u32).filter(|i| bloom.contains(format!("other-{i}").as_bytes())).count();
    assert!(wrong < 100);
}

#[test]
fn a_fresh_bloom_holds_nothing() {
    for expected in [0usize, 1, 1024] {
        let bloom = BloomFilter::with_expected_items(expected);
        assert!(!bloom.contains(b"key"));
        assert!(!bloom.contains(b""));
    }
}

#[test]
fn bloom_is_sized_by_ten_bits_a_key() {
    // 10240 bits are 160 words of eight bytes.
    assert_eq!(BloomFilter::with_expected_items(1024).to_bytes().len(), 1280);
    // Ten bits take one word.
    assert_eq!(BloomFilter::with_expected_items(0).to_bytes(), vec![0u8; 8]);
    assert_eq!(BloomFilter::with_expected_items(1).to_bytes(), vec![0u8; 8]);
    assert_eq!(BloomFilter::with_expected_items(7).to_bytes().len(), 16);
}

#[test]
fn bloom_bytes_are_its_words_most_significant_byte_first() {
    let mut bloom = BloomFilter::with_expected_items(100);
    for i in 0..100u32 {
        bloom.insert(&i.to_be_bytes());
    }
    let bytes = bloom.to_bytes();
    assert_eq!(bytes.len() % 8, 0);
    let words: Vec<u64> = bytes.chunks(8).map(|w| u64::from_be_bytes(w.try_into().unwrap())).collect();
    // A key is hashed by its bytes alone, under the seed of the library.
    let rebuilt = fastbloom::BloomFilter::from_vec(words).hashes(hanoidb::bloom::HASHES);
    for i in 0..100u32 {
        let mut hasher = fastbloom::DefaultHasher::seeded(&hanoidb::bloom::SEED.to_be_bytes()).build_hasher();
        hasher.write(&i.to_be_bytes());
        assert!(rebuilt.contains_hash(hasher.finish()));
    }
    // Two filters that took the same keys are the same bytes.
    let mut other = BloomFilter::with_expected_items(100);
    for i in (0..100u32).rev() {
        other.insert(&i.to_be_bytes());
    }
    assert_eq!(other.to_bytes(), bytes);
}

#[test]
fn bloom_survives_its_bytes() {
    let mut bloom = BloomFilter::with_expected_items(100);
    for i in 0..100u32 {
        bloom.insert(&i.to_be_bytes());
    }
    let bytes = bloom.to_bytes();
    assert!(!bytes.is_empty());
    let back = BloomFilter::from_bytes(&bytes).unwrap();
    for i in 0..100u32 {
        assert!(back.contains(&i.to_be_bytes()));
    }
    for i in 1000..2000u32 {
        assert_eq!(back.contains(&i.to_be_bytes()), bloom.contains(&i.to_be_bytes()));
    }
    let copy = bloom.clone();
    assert_eq!(copy.to_bytes(), bytes);
    assert!(copy.contains(&7u32.to_be_bytes()));
}

#[test]
fn bloom_refuses_what_is_no_filter() {
    assert!(BloomFilter::from_bytes(&[]).is_none());
    assert!(BloomFilter::from_bytes(&[0xFF; 7]).is_none());
}

#[test]
fn bloom_answers_on_whatever_words_a_file_holds() {
    // Every bit set: yes to every key.
    let full = BloomFilter::from_bytes(&[0xFF; 16]).unwrap();
    assert!(full.contains(b"key"));
    assert!(full.contains(b""));
    // No bit set: yes to none.
    let mut clear = BloomFilter::from_bytes(&[0; 24]).unwrap();
    assert!(!clear.contains(b"key"));
    clear.insert(b"key");
    assert!(clear.contains(b"key"));
    assert_eq!(clear.to_bytes().len(), 24);
    // Bytes that are no whole words are no filter.
    assert!(BloomFilter::from_bytes(&[0xFF; 9]).is_none());
    assert!(matches!(Trailer::new(vec![0u8; 12], 4), Err(Error::BloomFilterCorrupted)));
}

#[test]
fn trailer_layout_is_bit_exact() {
    let mut bloom = BloomFilter::with_expected_items(10);
    bloom.insert(b"key");
    let raw = bloom.to_bytes();
    let trailer = Trailer::with_bloom_filter(bloom, 0x0102030405060708);
    assert_eq!(trailer.root_pos, 0x0102030405060708);
    let bytes = trailer.encode().unwrap();
    let mut expected = vec![0u8, 0, 0, 0];
    expected.extend(&raw);
    expected.extend((raw.len() as u32).to_be_bytes());
    expected.extend([1, 2, 3, 4, 5, 6, 7, 8]);
    assert_eq!(bytes, expected);

    let back = Trailer::new(raw, 77).unwrap();
    assert_eq!(back.root_pos, 77);
    assert!(back.bloom.contains(b"key"));
}

#[test]
fn an_empty_bloom_stands_for_an_empty_file() {
    let trailer = Trailer::new(Vec::new(), 4).unwrap();
    assert_eq!(trailer.root_pos, 4);
    assert!(!trailer.bloom.contains(b"key"));
    assert!(matches!(Trailer::new(vec![0xFF; 9], 4), Err(Error::BloomFilterCorrupted)));
}

#[test]
fn a_filter_holds_the_same_bits_wherever_it_is_written() {
    // One word of bits and seven hashes of the bytes of the key: the word
    // is the same on every machine.
    let mut bloom = BloomFilter::with_expected_items(1);
    bloom.insert(b"key");
    assert_eq!(bloom.to_bytes(), vec![16u8, 0, 4, 32, 1, 128, 8, 4]);
    assert_eq!(bloom.to_bytes().iter().map(|byte| byte.count_ones()).sum::<u32>(), 7);
}
