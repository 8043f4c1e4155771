//! The approximate set of keys that a tree file carries in its trailer.
use vstd::prelude::*;
use std::hash::{BuildHasher, Hasher};
use crate::bytes::{be_u64, lemma_be_round_trip, push_u64, read_u64, u64_be};

verus! {

/// The filter of the `fastbloom` crate with its default hasher.
#[verifier::external_body]
#[derive(Debug)]
pub struct RawFilter {
    inner: fastbloom::BloomFilter,
}

/// The words that hold the bits of the filter, as `as_slice` gives them.
pub uninterp spec fn bloom_words(filter: RawFilter) -> Seq<u64>;

/// The number of hashes that the filter takes of each key.
pub uninterp spec fn bloom_hashes(filter: RawFilter) -> u32;

/// The hash of the bytes of `key` under SipHash 1-3 with the sixteen bytes
/// of `seed`, most significant first, for its key: what the hasher of
/// `fastbloom::DefaultHasher::seeded` gives once the bytes were written to
/// it. The bytes are read in a fixed order, and nothing else is written.
pub uninterp spec fn key_hash(key: Seq<u8>, seed: u128) -> u64;

/// Whether `fastbloom::BloomFilter::contains_hash` says yes to `hash`, for
/// a filter with these words and this number of hashes: whether every bit
/// that the hash picks is set.
pub uninterp spec fn hash_found(words: Seq<u64>, hashes: u32, hash: u64) -> bool;

/// The keys for which a filter with these words and this number of hashes
/// answers yes, the keys being hashed under `seed`: every key inserted, and
/// those it mistakes for one.
pub open spec fn answers(words: Seq<u64>, hashes: u32, seed: u128) -> Set<Seq<u8>> {
    Set::new(|key: Seq<u8>| hash_found(words, hashes, key_hash(key, seed)))
}

/// Calls `fastbloom::BloomFilter::from_vec`, then `hashes` on what it
/// returns. Claimed: the filter has these words and this number of hashes,
/// and where no bit is set in the words it says yes to no hash. `from_vec`
/// panics on no words, which are left out, as are more words than there are
/// bits to count in a `usize`; `hashes` takes zero for one, which is left
/// out too.
#[verifier::external_body]
fn raw_from_words(words: Vec<u64>, hashes: u32) -> (r: RawFilter)
    requires
        0 < words@.len() <= usize::MAX / 64,
        hashes >= 1,
    ensures
        bloom_words(r) == words@,
        bloom_hashes(r) == hashes,
        (forall|i: int| 0 <= i < words@.len() ==> words@[i] == 0) ==> forall|hash: u64|
            !#[trigger] hash_found(bloom_words(r), hashes, hash),
{
    RawFilter { inner: fastbloom::BloomFilter::from_vec(words).hashes(hashes) }
}

/// Builds the hasher of `fastbloom::DefaultHasher::seeded`, writes the
/// bytes of the key to it, and finishes it. The result depends on the
/// bytes and the seed alone.
#[verifier::external_body]
fn raw_hash(key: &[u8], seed: u128) -> (r: u64)
    ensures
        r == key_hash(key@, seed),
{
    let mut hasher = fastbloom::DefaultHasher::seeded(&seed.to_be_bytes()).build_hasher();
    hasher.write(key);
    hasher.finish()
}

/// Calls `fastbloom::BloomFilter::insert_hash`. Claimed: the call sets bits
/// and does nothing else, so that afterwards the filter says yes to the
/// hash and to every hash it said yes to before, and has as many words and
/// hashes as it had; and the call does not unwind. A filter without words is
/// left out, and one with more words than there are bits to count in a
/// `usize`.
#[verifier::external_body]
fn raw_insert_hash(filter: &mut RawFilter, hash: u64)
    requires
        0 < bloom_words(*old(filter)).len() <= usize::MAX / 64,
    ensures
        hash_found(bloom_words(*final(filter)), bloom_hashes(*final(filter)), hash),
        forall|h: u64| #[trigger]
            hash_found(bloom_words(*old(filter)), bloom_hashes(*old(filter)), h) ==> hash_found(
                bloom_words(*final(filter)),
                bloom_hashes(*final(filter)),
                h,
            ),
        bloom_words(*final(filter)).len() == bloom_words(*old(filter)).len(),
        bloom_hashes(*final(filter)) == bloom_hashes(*old(filter)),
    no_unwind
{
    filter.inner.insert_hash(hash);
}

/// Calls `fastbloom::BloomFilter::contains_hash`. The answer is what
/// `hash_found` names. A filter without words is left out, and one with
/// more words than there are bits to count in a `usize`.
#[verifier::external_body]
fn raw_contains_hash(filter: &RawFilter, hash: u64) -> (r: bool)
    requires
        0 < bloom_words(*filter).len() <= usize::MAX / 64,
    ensures
        r == hash_found(bloom_words(*filter), bloom_hashes(*filter), hash),
{
    filter.inner.contains_hash(hash)
}

/// Calls `fastbloom::BloomFilter::as_slice` and copies what it gives.
#[verifier::external_body]
fn raw_words(filter: &RawFilter) -> (r: Vec<u64>)
    ensures
        r@ == bloom_words(*filter),
{
    filter.inner.as_slice().to_vec()
}

/// Calls `clone` on the filter. Claimed: the copy has the words and the
/// number of hashes of the filter it is made from.
#[verifier::external_body]
fn raw_clone(filter: &RawFilter) -> (r: RawFilter)
    ensures
        bloom_words(r) == bloom_words(*filter),
        bloom_hashes(r) == bloom_hashes(*filter),
{
    RawFilter { inner: filter.inner.clone() }
}

/// The number of bits a filter gets for each key it is expected to hold.
/// Ten bits a key keeps the rate of false positives near one in a hundred.
pub const BITS_PER_ITEM: usize = 10;

/// The largest number of bits that a filter has: with them its bytes
/// still fit the length field of a trailer, and its bits can be counted in
/// a `usize`.
pub const MAX_BITS: usize = 0xFFFF_FFC0;

/// The largest number of words that a filter has.
pub const MAX_WORDS: usize = 0x3FF_FFFF;

/// The number of hashes that every filter takes of a key.
pub const HASHES: u32 = 7;

/// The seed under which every key is hashed. A file does not hold it: who
/// reads the file hashes the keys anew.
pub const SEED: u128 = 0x4841_4E4F_4944_4221_424C_4F4F_4D33_3031;

/// The words as bytes: each word most significant byte first, the first
/// word first.
pub open spec fn words_image(words: Seq<u64>) -> Seq<u8>
    decreases words.len(),
{
    if words.len() == 0 {
        Seq::empty()
    } else {
        words_image(words.drop_last()) + u64_be(words.last())
    }
}

/// The words that `raw` spells, eight bytes to a word. Bytes behind the
/// last whole word are left out.
pub open spec fn image_words(raw: Seq<u8>) -> Seq<u64> {
    Seq::new((raw.len() / 8) as nat, |i: int| be_u64(raw.skip(8 * i)))
}

/// The bytes of words have eight bytes to a word and spell the words.
pub proof fn lemma_words_round_trip(words: Seq<u64>)
    ensures
        words_image(words).len() == 8 * words.len(),
        image_words(words_image(words)) == words,
    decreases words.len(),
{
    if words.len() > 0 {
        let front = words.drop_last();
        let raw = words_image(words);
        lemma_words_round_trip(front);
        lemma_be_round_trip(0, 0, words.last());
        assert(raw.len() == 8 * words.len());
        assert forall|i: int| 0 <= i < words.len() implies be_u64(raw.skip(8 * i)) == words[i] by {
            if i < front.len() {
                let old_tail = words_image(front).skip(8 * i);
                let new_tail = raw.skip(8 * i);
                assert(image_words(words_image(front))[i] == front[i]);
                assert(forall|j: int| 0 <= j < 8 ==> old_tail[j] == new_tail[j]);
                assert(forall|j: int| 0 <= j < 4 ==> old_tail.skip(4)[j] == new_tail.skip(4)[j]);
            } else {
                assert(raw.skip(8 * i) =~= u64_be(words.last()));
            }
        }
        assert(image_words(raw) =~= words);
    } else {
        assert(image_words(words_image(words)) =~= words);
    }
}

/// A bloom filter over keys: it never says no to a key that was inserted.
#[derive(Debug)]
pub struct BloomFilter {
    raw: RawFilter,
}

impl BloomFilter {
    #[verifier::type_invariant]
    spec fn made_here(self) -> bool {
        &&& 0 < bloom_words(self.raw).len() <= MAX_WORDS
        &&& bloom_hashes(self.raw) == HASHES
    }

    /// The keys for which `contains` answers yes.
    pub closed spec fn keys(self) -> Set<Seq<u8>> {
        answers(bloom_words(self.raw), bloom_hashes(self.raw), SEED)
    }

    /// The number of bits of the filter.
    pub closed spec fn bits(self) -> nat {
        bloom_words(self.raw).len() * 64
    }

    /// What `to_bytes` writes.
    pub closed spec fn image(self) -> Option<Seq<u8>> {
        Some(words_image(bloom_words(self.raw)))
    }

    /// The bytes of a filter are its bits, eight to a byte.
    pub proof fn lemma_image_len(self)
        ensures
            self.image() matches Some(image) && image.len() * 8 == self.bits(),
    {
        lemma_words_round_trip(bloom_words(self.raw));
    }

    /// The keys of the filter that `from_bytes` reads out of `raw`, where it
    /// reads one: `raw` must hold whole words, one at least, and no more
    /// than `MAX_WORDS`.
    pub open spec fn parsed_keys(raw: Seq<u8>) -> Option<Set<Seq<u8>>> {
        if raw.len() == 0 || raw.len() % 8 != 0 || raw.len() / 8 > MAX_WORDS {
            None
        } else {
            Some(answers(image_words(raw), HASHES, SEED))
        }
    }

    /// The number of bits of a fresh filter for `expected_items` keys: ten
    /// for each key, for one key at least, in whole words, and `MAX_BITS`
    /// at most.
    pub open spec fn sized_for(expected_items: usize) -> nat {
        let items: int = if expected_items == 0 {
            1
        } else {
            expected_items as int
        };
        let bits: int = if items > MAX_BITS / BITS_PER_ITEM {
            MAX_BITS as int
        } else {
            items * BITS_PER_ITEM
        };
        (((bits - 1) / 64 + 1) * 64) as nat
    }

    /// An empty filter sized for `expected_items` keys.
    pub fn with_expected_items(expected_items: usize) -> (r: Self)
        ensures
            r.keys() == Set::<Seq<u8>>::empty(),
            r.bits() == Self::sized_for(expected_items),
            64 <= r.bits() <= MAX_BITS,
    {
        let items: usize = if expected_items == 0 {
            1
        } else {
            expected_items
        };
        let bits: usize = if items > MAX_BITS / BITS_PER_ITEM {
            MAX_BITS
        } else {
            items * BITS_PER_ITEM
        };
        let count: usize = (bits - 1) / 64 + 1;
        let mut words: Vec<u64> = Vec::new();
        while words.len() < count
            invariant
                words@.len() <= count,
                forall|i: int| 0 <= i < words@.len() ==> words@[i] == 0,
            decreases count - words@.len(),
        {
            words.push(0);
        }
        let r = BloomFilter { raw: raw_from_words(words, HASHES) };
        proof {
            assert(r.keys() =~= Set::<Seq<u8>>::empty());
        }
        r
    }

    /// Records `key`. Nothing that was in the filter leaves it, and the
    /// filter keeps its size.
    pub fn insert(&mut self, key: &[u8])
        ensures
            final(self).keys().contains(key@),
            old(self).keys().subset_of(final(self).keys()),
            final(self).bits() == old(self).bits(),
    {
        proof {
            use_type_invariant(&*self);
        }
        let hash = raw_hash(key, SEED);
        raw_insert_hash(&mut self.raw, hash);
    }

    /// Whether `key` may have been inserted. Never `false` for a key that was.
    pub fn contains(&self, key: &[u8]) -> (r: bool)
        ensures
            r == self.keys().contains(key@),
    {
        proof {
            use_type_invariant(self);
        }
        let hash = raw_hash(key, SEED);
        raw_contains_hash(&self.raw, hash)
    }

    /// The filter as bytes: its words, each most significant byte first.
    pub fn to_bytes(&self) -> (r: Vec<u8>)
        ensures
            self.image() == Some(r@),
            8 <= r@.len() <= u32::MAX,
            r@.len() * 8 == self.bits(),
            Self::parsed_keys(r@) == Some(self.keys()),
    {
        proof {
            use_type_invariant(self);
        }
        let words = raw_words(&self.raw);
        let mut out: Vec<u8> = Vec::new();
        let mut i: usize = 0;
        while i < words.len()
            invariant
                i <= words@.len(),
                out@ == words_image(words@.take(i as int)),
            decreases words@.len() - i,
        {
            push_u64(&mut out, words[i]);
            proof {
                assert(words@.take(i + 1).drop_last() =~= words@.take(i as int));
            }
            i = i + 1;
        }
        proof {
            assert(words@.take(i as int) =~= words@);
            lemma_words_round_trip(words@);
        }
        out
    }

    /// The filter that `raw` spells, or `None` where `raw` is empty, does
    /// not hold whole words, or holds more of them than a filter can have.
    pub fn from_bytes(raw: &[u8]) -> (r: Option<Self>)
        ensures
            r is None ==> Self::parsed_keys(raw@) is None,
            r matches Some(f) ==> Self::parsed_keys(raw@) == Some(f.keys()) && f.bits()
                == raw@.len() * 8,
    {
        if raw.len() == 0 || raw.len() % 8 != 0 || raw.len() / 8 > MAX_WORDS {
            return None;
        }
        let count: usize = raw.len() / 8;
        let mut words: Vec<u64> = Vec::new();
        while words.len() < count
            invariant
                count == raw@.len() / 8,
                raw@.len() % 8 == 0,
                raw@.len() <= usize::MAX,
                words@.len() <= count,
                forall|i: int| 0 <= i < words@.len() ==> words@[i] == be_u64(raw@.skip(8 * i)),
            decreases count - words@.len(),
        {
            let at: usize = words.len() * 8;
            words.push(read_u64(raw, at));
        }
        proof {
            assert(words@ =~= image_words(raw@));
        }
        Some(BloomFilter { raw: raw_from_words(words, HASHES) })
    }
}

impl Clone for BloomFilter {
    fn clone(&self) -> (r: Self)
        ensures
            r.keys() == self.keys(),
            r.image() == self.image(),
            r.bits() == self.bits(),
    {
        proof {
            use_type_invariant(self);
        }
        BloomFilter { raw: raw_clone(&self.raw) }
    }
}

} // verus!
