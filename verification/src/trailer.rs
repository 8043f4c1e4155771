//! The end of a tree file: padding, the bloom filter, its length, and the
//! position of the root block.
use vstd::prelude::*;
use crate::bloom::BloomFilter;
use crate::bytes::{u32_be, u64_be, push_u32, push_u64, push_all};
use crate::error::Error;

verus! {

/// What the end of a tree file says: which keys the file may hold, and where
/// its root block starts.
#[derive(Debug)]
pub struct Trailer {
    pub bloom: BloomFilter,
    pub root_pos: u64,
}

/// The bytes of a trailer whose serialized filter is `image`.
pub open spec fn trailer_bytes(image: Seq<u8>, root_pos: u64) -> Seq<u8> {
    seq![0u8, 0u8, 0u8, 0u8] + image + u32_be(image.len() as u32) + u64_be(root_pos)
}

/// The keys of the filter that a trailer with the serialized filter `raw`
/// carries: none where `raw` is empty, else those of the filter it spells.
pub open spec fn trailer_keys(raw: Seq<u8>) -> Option<Set<Seq<u8>>> {
    if raw.len() == 0 {
        Some(Set::empty())
    } else {
        BloomFilter::parsed_keys(raw)
    }
}

impl Trailer {
    /// A trailer of these two parts.
    pub fn with_bloom_filter(bloom: BloomFilter, root_pos: u64) -> (r: Self)
        ensures
            r.bloom == bloom,
            r.root_pos == root_pos,
    {
        Trailer { bloom, root_pos }
    }

    /// The trailer of a file whose serialized filter is `raw_bloom`. An empty
    /// `raw_bloom` stands for a fresh filter sized for 1024 keys.
    pub fn new(raw_bloom: Vec<u8>, root_pos: u64) -> (r: Result<Self, Error>)
        ensures
            match r {
                Ok(t) => {
                    &&& raw_bloom@.len() <= u32::MAX
                    &&& t.root_pos == root_pos
                    &&& trailer_keys(raw_bloom@) == Some(t.bloom.keys())
                },
                Err(e) => if raw_bloom@.len() > u32::MAX {
                    e == Error::BloomFilterTooLarge
                } else {
                    e == Error::BloomFilterCorrupted && trailer_keys(raw_bloom@) is None
                },
            },
    {
        if raw_bloom.len() > u32::MAX as usize {
            return Err(Error::BloomFilterTooLarge);
        }
        if raw_bloom.len() == 0 {
            return Ok(Trailer { bloom: BloomFilter::with_expected_items(1024), root_pos });
        }
        match BloomFilter::from_bytes(raw_bloom.as_slice()) {
            Some(bloom) => Ok(Trailer { bloom, root_pos }),
            None => Err(Error::BloomFilterCorrupted),
        }
    }

    /// The trailer of a file without entries: no bloom filter is written,
    /// and a reader takes a fresh one in its place.
    pub fn encode_empty(root_pos: u64) -> (r: Vec<u8>)
        ensures
            r@ == trailer_bytes(Seq::empty(), root_pos),
    {
        let mut buffer: Vec<u8> = Vec::new();
        buffer.push(0);
        buffer.push(0);
        buffer.push(0);
        buffer.push(0);
        push_u32(&mut buffer, 0);
        push_u64(&mut buffer, root_pos);
        proof {
            assert(buffer@ =~= trailer_bytes(Seq::empty(), root_pos));
        }
        buffer
    }

    /// The trailer as it stands at the end of a file. It never fails: the
    /// bytes of a bloom filter fit the length field.
    pub fn encode(&self) -> (r: Result<Vec<u8>, Error>)
        ensures
            match r {
                Ok(v) => {
                    &&& self.bloom.image() matches Some(image)
                    &&& 8 <= image.len() <= u32::MAX
                    &&& v@ == trailer_bytes(image, self.root_pos)
                    &&& trailer_keys(image) == Some(self.bloom.keys())
                },
                Err(_) => false,
            },
    {
        let raw_bloom = self.bloom.to_bytes();
        let mut buffer: Vec<u8> = Vec::new();
        buffer.push(0);
        buffer.push(0);
        buffer.push(0);
        buffer.push(0);
        push_all(&mut buffer, raw_bloom.as_slice());
        push_u32(&mut buffer, raw_bloom.len() as u32);
        push_u64(&mut buffer, self.root_pos);
        proof {
            assert(buffer@ =~= trailer_bytes(raw_bloom@, self.root_pos));
        }
        Ok(buffer)
    }
}

} // verus!
