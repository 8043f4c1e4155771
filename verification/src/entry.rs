//! The tagged records of a tree file and of the write-ahead log.
//!
//! On disk an entry is `length(4) | crc32(4) | tag(1) | body | 0xFF`, all
//! integers big-endian. `length` and the checksum cover the tag and the body.
use vstd::prelude::*;
use crate::bytes::{be_u32, be_u64, u32_be, u64_be, read_u32, read_u64, push_u32, push_u64, push_all, copy_range, lemma_be_round_trip, lemma_be_u32_encode_decoded, lemma_be_u64_encode_decoded};
use crate::error::Error;
use crate::{TAG_KV_DATA, TAG_DELETED, TAG_POSLEN32, TAG_KV_DATA2, TAG_DELETED2, TAG_END};

verus! {

/// The IEEE CRC-32 of `data`, as `crc32fast::hash` computes it.
pub uninterp spec fn crc32(data: Seq<u8>) -> u32;

/// Calls `crc32fast::hash`. The result is a function of the bytes alone, and
/// `crc32` is the name of that function; nothing else is claimed of it.
#[verifier::external_body]
fn checksum(data: &[u8]) -> (r: u32)
    ensures
        r == crc32(data@),
{
    crc32fast::hash(data)
}

/// A record: a key with its value, a tombstone, or a pointer from an inner
/// block to a child block.
#[derive(Debug, PartialEq, Eq)]
pub enum Entry {
    KeyVal { key: Vec<u8>, value: Vec<u8>, timestamp: Option<u32> },
    Deleted { key: Vec<u8>, timestamp: Option<u32> },
    PosLen { blockpos: u64, blocklen: u32, key: Vec<u8> },
}

/// What an `Entry` holds, as mathematical values.
pub enum EntryModel {
    KeyVal { key: Seq<u8>, value: Seq<u8>, timestamp: Option<u32> },
    Deleted { key: Seq<u8>, timestamp: Option<u32> },
    PosLen { blockpos: u64, blocklen: u32, key: Seq<u8> },
}

impl View for Entry {
    type V = EntryModel;

    open spec fn view(&self) -> EntryModel {
        match *self {
            Entry::KeyVal { key, value, timestamp } => EntryModel::KeyVal {
                key: key@,
                value: value@,
                timestamp,
            },
            Entry::Deleted { key, timestamp } => EntryModel::Deleted { key: key@, timestamp },
            Entry::PosLen { blockpos, blocklen, key } => EntryModel::PosLen {
                blockpos,
                blocklen,
                key: key@,
            },
        }
    }
}

impl DeepView for Entry {
    type V = EntryModel;

    open spec fn deep_view(&self) -> EntryModel {
        self@
    }
}

impl EntryModel {
    /// The key, which every variant carries.
    pub open spec fn key(self) -> Seq<u8> {
        match self {
            EntryModel::KeyVal { key, .. } => key,
            EntryModel::Deleted { key, .. } => key,
            EntryModel::PosLen { key, .. } => key,
        }
    }

    /// Whether this is a pointer to a child block.
    pub open spec fn is_pos_len(self) -> bool {
        self is PosLen
    }

    /// The tag byte that announces the variant and whether it is timestamped.
    pub open spec fn tag(self) -> u8 {
        match self {
            EntryModel::KeyVal { timestamp: None, .. } => TAG_KV_DATA,
            EntryModel::KeyVal { timestamp: Some(_), .. } => TAG_KV_DATA2,
            EntryModel::Deleted { timestamp: None, .. } => TAG_DELETED,
            EntryModel::Deleted { timestamp: Some(_), .. } => TAG_DELETED2,
            EntryModel::PosLen { .. } => TAG_POSLEN32,
        }
    }

    /// The bytes after the tag.
    pub open spec fn body(self) -> Seq<u8> {
        match self {
            EntryModel::KeyVal { key, value, timestamp: None } => u32_be(key.len() as u32) + key
                + value,
            EntryModel::KeyVal { key, value, timestamp: Some(ts) } => u32_be(ts) + u32_be(
                key.len() as u32,
            ) + key + value,
            EntryModel::Deleted { key, timestamp: None } => key,
            EntryModel::Deleted { key, timestamp: Some(ts) } => u32_be(ts) + key,
            EntryModel::PosLen { blockpos, blocklen, key } => u64_be(blockpos) + u32_be(blocklen)
                + key,
        }
    }

    /// The tag and the body: what the length counts and the checksum covers.
    pub open spec fn payload(self) -> Seq<u8> {
        seq![self.tag()] + self.body()
    }

    /// The number of bytes the entry takes on disk.
    pub open spec fn encoded_len(self) -> int {
        9 + self.payload().len() as int
    }

    /// The entry as it stands on disk.
    pub open spec fn encoded(self) -> Seq<u8> {
        u32_be(self.payload().len() as u32) + u32_be(crc32(self.payload())) + self.payload()
            + seq![TAG_END]
    }

    /// The entry fits the format: its length field can hold the length of
    /// its payload, and the whole fits in memory.
    pub open spec fn wf(self) -> bool {
        &&& self.payload().len() <= u32::MAX
        &&& self.encoded_len() <= usize::MAX
    }

    /// The entry fits the format, and so does a pointer under its key. Only
    /// such an entry can stand first in a block of a tree file.
    pub open spec fn storable(self) -> bool {
        &&& self.wf()
        &&& (EntryModel::PosLen { blockpos: 0, blocklen: 0, key: self.key() }).wf()
    }
}

/// The entry that a payload (tag and body) spells, or why it spells none.
pub open spec fn decode_payload(p: Seq<u8>) -> Result<EntryModel, Error> {
    if p.len() == 0 {
        Err(Error::CorruptedFile("Entry was empty"))
    } else if p[0] == TAG_KV_DATA {
        if p.len() < 5 || p.len() - 5 < be_u32(p.skip(1)) {
            Err(Error::CorruptedFile("Entry was shorter than its fields"))
        } else {
            let keylen = be_u32(p.skip(1)) as int;
            Ok(
                EntryModel::KeyVal {
                    key: p.subrange(5, 5 + keylen),
                    value: p.skip(5 + keylen),
                    timestamp: None,
                },
            )
        }
    } else if p[0] == TAG_KV_DATA2 {
        if p.len() < 9 || p.len() - 9 < be_u32(p.skip(5)) {
            Err(Error::CorruptedFile("Entry was shorter than its fields"))
        } else {
            let keylen = be_u32(p.skip(5)) as int;
            Ok(
                EntryModel::KeyVal {
                    key: p.subrange(9, 9 + keylen),
                    value: p.skip(9 + keylen),
                    timestamp: Some(be_u32(p.skip(1))),
                },
            )
        }
    } else if p[0] == TAG_DELETED {
        Ok(EntryModel::Deleted { key: p.skip(1), timestamp: None })
    } else if p[0] == TAG_DELETED2 {
        if p.len() < 5 {
            Err(Error::CorruptedFile("Entry was shorter than its fields"))
        } else {
            Ok(EntryModel::Deleted { key: p.skip(5), timestamp: Some(be_u32(p.skip(1))) })
        }
    } else if p[0] == TAG_POSLEN32 {
        if p.len() < 13 {
            Err(Error::CorruptedFile("Entry was shorter than its fields"))
        } else {
            Ok(
                EntryModel::PosLen {
                    blockpos: be_u64(p.skip(1)),
                    blocklen: be_u32(p.skip(9)),
                    key: p.skip(13),
                },
            )
        }
    } else {
        Err(Error::InvalidEntryTag(p[0]))
    }
}

/// The entry at the start of `s` with the number of bytes it takes, or why
/// none can be read there.
#[verifier::opaque]
pub open spec fn decode(s: Seq<u8>) -> Result<(EntryModel, int), Error> {
    if s.len() < 8 {
        Err(Error::EndOfFile)
    } else {
        let length = be_u32(s) as int;
        if s.len() - 8 < length {
            Err(Error::IncompleteEntry)
        } else if crc32(s.subrange(8, 8 + length)) != be_u32(s.skip(4)) {
            Err(Error::CorruptedFile("Entry had incorrect CRC32"))
        } else {
            match decode_payload(s.subrange(8, 8 + length)) {
                Err(e) => Err(e),
                Ok(entry) => if s.len() - 8 == length {
                    Err(Error::IncompleteEntry)
                } else if s[8 + length] != TAG_END {
                    Err(Error::CorruptedFile("Last byte of entry wasn't TAG_END"))
                } else {
                    Ok((entry, 9 + length))
                },
            }
        }
    }
}

/// What is left of `file` from `start` on; nothing when `start` is beyond it.
pub open spec fn tail(file: Seq<u8>, start: int) -> Seq<u8> {
    if 0 <= start <= file.len() {
        file.skip(start)
    } else {
        Seq::empty()
    }
}

/// A payload spells the entry it was made from.
pub proof fn lemma_decode_payload_of(e: EntryModel)
    requires
        e.wf(),
    ensures
        decode_payload(e.payload()) == Ok::<EntryModel, Error>(e),
{
    let p = e.payload();
    lemma_be_round_trip(0, 0, 0);
    match e {
        EntryModel::KeyVal { key, value, timestamp: None } => {
            lemma_be_round_trip(0, key.len() as u32, 0);
            assert(p.skip(1).subrange(0, 4) =~= u32_be(key.len() as u32));
            assert(be_u32(p.skip(1)) == be_u32(u32_be(key.len() as u32)));
            assert(p.subrange(5, 5 + key.len() as int) =~= key);
            assert(p.skip(5 + key.len() as int) =~= value);
        },
        EntryModel::KeyVal { key, value, timestamp: Some(ts) } => {
            lemma_be_round_trip(0, key.len() as u32, 0);
            lemma_be_round_trip(0, ts, 0);
            assert(be_u32(p.skip(1)) == be_u32(u32_be(ts)));
            assert(be_u32(p.skip(5)) == be_u32(u32_be(key.len() as u32)));
            assert(p.subrange(9, 9 + key.len() as int) =~= key);
            assert(p.skip(9 + key.len() as int) =~= value);
        },
        EntryModel::Deleted { key, timestamp: None } => {
            assert(p.skip(1) =~= key);
        },
        EntryModel::Deleted { key, timestamp: Some(ts) } => {
            lemma_be_round_trip(0, ts, 0);
            assert(be_u32(p.skip(1)) == be_u32(u32_be(ts)));
            assert(p.skip(5) =~= key);
        },
        EntryModel::PosLen { blockpos, blocklen, key } => {
            lemma_be_round_trip(0, blocklen, blockpos);
            assert(p.skip(1).subrange(0, 8) =~= u64_be(blockpos));
            assert(be_u32(p.skip(1)) == be_u32(u64_be(blockpos)));
            assert(p.skip(1).skip(4) =~= p.skip(5));
            assert(u64_be(blockpos).skip(4) =~= p.skip(5).subrange(0, 4));
            assert(be_u32(p.skip(1).skip(4)) == be_u32(u64_be(blockpos).skip(4)));
            assert(be_u64(p.skip(1)) == be_u64(u64_be(blockpos)));
            assert(be_u32(p.skip(9)) == be_u32(u32_be(blocklen)));
            assert(p.skip(13) =~= key);
        },
    }
}

/// Reading gives back what was written: whatever bytes follow it, the
/// encoding of a well-formed entry decodes to that entry and to its length.
pub proof fn lemma_decode_encoded(e: EntryModel, rest: Seq<u8>)
    requires
        e.wf(),
    ensures
        decode(e.encoded() + rest) == Ok::<(EntryModel, int), Error>((e, e.encoded_len())),
{
    reveal(decode);
    let p = e.payload();
    let s = e.encoded() + rest;
    let n = p.len() as int;
    lemma_be_round_trip(0, n as u32, 0);
    lemma_be_round_trip(0, crc32(p), 0);
    assert(be_u32(s) == be_u32(u32_be(n as u32)));
    assert(be_u32(s.skip(4)) == be_u32(u32_be(crc32(p))));
    assert(s.subrange(8, 8 + n) =~= p);
    lemma_decode_payload_of(e);
    assert(s[8 + n] == TAG_END);
}

/// A payload that spells an entry is the payload of that entry.
pub proof fn lemma_decoded_payload(p: Seq<u8>, e: EntryModel)
    requires
        decode_payload(p) == Ok::<EntryModel, Error>(e),
    ensures
        e.payload() == p,
{
    lemma_be_round_trip(0, 0, 0);
    if p[0] == TAG_KV_DATA {
        lemma_be_u32_encode_decoded(p.subrange(1, 5));
        assert(be_u32(p.skip(1)) == be_u32(p.subrange(1, 5)));
        assert(e.payload() =~= p);
    } else if p[0] == TAG_KV_DATA2 {
        lemma_be_u32_encode_decoded(p.subrange(1, 5));
        lemma_be_u32_encode_decoded(p.subrange(5, 9));
        assert(be_u32(p.skip(1)) == be_u32(p.subrange(1, 5)));
        assert(be_u32(p.skip(5)) == be_u32(p.subrange(5, 9)));
        assert(e.payload() =~= p);
    } else if p[0] == TAG_DELETED {
        assert(e.payload() =~= p);
    } else if p[0] == TAG_DELETED2 {
        lemma_be_u32_encode_decoded(p.subrange(1, 5));
        assert(be_u32(p.skip(1)) == be_u32(p.subrange(1, 5)));
        assert(e.payload() =~= p);
    } else {
        lemma_be_u64_encode_decoded(p.subrange(1, 9));
        lemma_be_u32_encode_decoded(p.subrange(9, 13));
        assert(be_u32(p.skip(1)) == be_u32(p.subrange(1, 9)));
        assert(be_u32(p.skip(1).skip(4)) == be_u32(p.subrange(1, 9).skip(4)));
        assert(be_u64(p.skip(1)) == be_u64(p.subrange(1, 9)));
        assert(be_u32(p.skip(9)) == be_u32(p.subrange(9, 13)));
        assert(e.payload() =~= p);
    }
}

/// Whatever is read was written so: the bytes that a successful read takes
/// are the encoding of the entry it returns, the entry is well-formed, and
/// the checksum stored in the bytes is the CRC-32 of its tag and body.
pub proof fn lemma_decoded_is_encoding(s: Seq<u8>, e: EntryModel, taken: int)
    requires
        decode(s) == Ok::<(EntryModel, int), Error>((e, taken)),
        s.len() <= usize::MAX,
    ensures
        e.wf(),
        taken == e.encoded_len(),
        9 <= taken <= s.len(),
        s.subrange(0, taken) == e.encoded(),
        be_u32(s.skip(4)) == crc32(e.payload()),
{
    reveal(decode);
    let length = be_u32(s) as int;
    let p = s.subrange(8, 8 + length);
    lemma_decoded_payload(p, e);
    lemma_be_u32_encode_decoded(s.subrange(0, 4));
    lemma_be_u32_encode_decoded(s.subrange(4, 8));
    assert(be_u32(s) == be_u32(s.subrange(0, 4)));
    assert(be_u32(s.skip(4)) == be_u32(s.subrange(4, 8)));
    assert(s.subrange(0, taken) =~= e.encoded());
}

impl Clone for Entry {
    fn clone(&self) -> (r: Self)
        ensures
            r@ == self@,
    {
        match self {
            Entry::KeyVal { key, value, timestamp } => Entry::KeyVal {
                key: key.clone(),
                value: value.clone(),
                timestamp: *timestamp,
            },
            Entry::Deleted { key, timestamp } => Entry::Deleted {
                key: key.clone(),
                timestamp: *timestamp,
            },
            Entry::PosLen { blockpos, blocklen, key } => Entry::PosLen {
                blockpos: *blockpos,
                blocklen: *blocklen,
                key: key.clone(),
            },
        }
    }
}

impl Entry {
    /// Whether this is a key with its value.
    pub fn is_key_val(&self) -> (r: bool)
        ensures
            r == (self@ is KeyVal),
    {
        match self {
            Entry::KeyVal { .. } => true,
            _ => false,
        }
    }

    /// Whether this is a tombstone.
    pub fn is_deleted(&self) -> (r: bool)
        ensures
            r == (self@ is Deleted),
    {
        match self {
            Entry::Deleted { .. } => true,
            _ => false,
        }
    }

    /// Whether this is a pointer to a child block.
    pub fn is_pos_len(&self) -> (r: bool)
        ensures
            r == self@.is_pos_len(),
    {
        match self {
            Entry::PosLen { .. } => true,
            _ => false,
        }
    }

    /// The key, which every variant carries.
    pub fn key(&self) -> (r: &[u8])
        ensures
            r@ == self@.key(),
    {
        match self {
            Entry::KeyVal { key, .. } => key.as_slice(),
            Entry::Deleted { key, .. } => key.as_slice(),
            Entry::PosLen { key, .. } => key.as_slice(),
        }
    }

    /// Whether the entry and a pointer under its key fit the format.
    pub fn is_storable(&self) -> (r: bool)
        ensures
            r == self@.storable(),
    {
        proof {
            lemma_be_round_trip(0, 0, 0);
        }
        let limit: usize = u32::MAX as usize;
        match self {
            Entry::KeyVal { key, value, timestamp } => {
                if key.len() > limit || value.len() > limit {
                    return false;
                }
                let stamp: u64 = if timestamp.is_some() {
                    4
                } else {
                    0
                };
                let payload: u64 = 1 + stamp + 4 + key.len() as u64 + value.len() as u64;
                payload <= u32::MAX as u64 && payload + 9 <= usize::MAX as u64 && key.len() as u64
                    + 13 <= u32::MAX as u64 && key.len() as u64 + 22 <= usize::MAX as u64
            },
            Entry::Deleted { key, timestamp } => {
                if key.len() > limit {
                    return false;
                }
                let stamp: u64 = if timestamp.is_some() {
                    4
                } else {
                    0
                };
                let payload: u64 = 1 + stamp + key.len() as u64;
                payload <= u32::MAX as u64 && payload + 9 <= usize::MAX as u64 && key.len() as u64
                    + 13 <= u32::MAX as u64 && key.len() as u64 + 22 <= usize::MAX as u64
            },
            Entry::PosLen { key, .. } => {
                if key.len() > limit {
                    return false;
                }
                key.len() as u64 + 13 <= u32::MAX as u64 && key.len() as u64 + 22
                    <= usize::MAX as u64
            },
        }
    }

    /// The number of bytes that `encode` produces.
    pub fn encoded_size(&self) -> (r: usize)
        requires
            self@.encoded_len() <= usize::MAX,
        ensures
            r == self@.encoded_len(),
    {
        proof {
            lemma_be_round_trip(0, 0, 0);
        }
        match self {
            Entry::KeyVal { key, value, timestamp } => {
                let stamp: usize = if timestamp.is_some() {
                    4
                } else {
                    0
                };
                9 + 1 + stamp + 4 + key.len() + value.len()
            },
            Entry::Deleted { key, timestamp } => {
                let stamp: usize = if timestamp.is_some() {
                    4
                } else {
                    0
                };
                9 + 1 + stamp + key.len()
            },
            Entry::PosLen { key, .. } => 9 + 1 + 8 + 4 + key.len(),
        }
    }

    /// The entry as it stands on disk.
    pub fn encode(&self) -> (r: Vec<u8>)
        requires
            self@.wf(),
        ensures
            r@ == self@.encoded(),
    {
        proof {
            lemma_be_round_trip(0, 0, 0);
        }
        let mut payload: Vec<u8> = Vec::new();
        match self {
            Entry::KeyVal { key, value, timestamp } => {
                match timestamp {
                    Some(ts) => {
                        payload.push(TAG_KV_DATA2);
                        push_u32(&mut payload, *ts);
                    },
                    None => {
                        payload.push(TAG_KV_DATA);
                    },
                }
                push_u32(&mut payload, key.len() as u32);
                push_all(&mut payload, key.as_slice());
                push_all(&mut payload, value.as_slice());
            },
            Entry::Deleted { key, timestamp } => {
                match timestamp {
                    Some(ts) => {
                        payload.push(TAG_DELETED2);
                        push_u32(&mut payload, *ts);
                    },
                    None => {
                        payload.push(TAG_DELETED);
                    },
                }
                push_all(&mut payload, key.as_slice());
            },
            Entry::PosLen { blockpos, blocklen, key } => {
                payload.push(TAG_POSLEN32);
                push_u64(&mut payload, *blockpos);
                push_u32(&mut payload, *blocklen);
                push_all(&mut payload, key.as_slice());
            },
        }
        proof {
            assert(payload@ =~= self@.payload());
        }
        let mut out: Vec<u8> = Vec::new();
        push_u32(&mut out, payload.len() as u32);
        push_u32(&mut out, checksum(payload.as_slice()));
        push_all(&mut out, payload.as_slice());
        out.push(TAG_END);
        proof {
            assert(out@ =~= self@.encoded());
        }
        out
    }

    /// Reads the entry that starts at `start` and says how many bytes it
    /// takes.
    pub fn read(file: &[u8], start: usize) -> (r: Result<(Entry, usize), Error>)
        ensures
            match r {
                Ok((entry, taken)) => decode(tail(file@, start as int)) == Ok::<
                    (EntryModel, int),
                    Error,
                >((entry@, taken as int)),
                Err(e) => decode(tail(file@, start as int)) == Err::<(EntryModel, int), Error>(e),
            },
            r is Ok ==> start + r.unwrap().1 <= file@.len(),
    {
        proof {
            reveal(decode);
        }
        let len: usize = file.len();
        if start > len || len - start < 8 {
            return Err(Error::EndOfFile);
        }
        let ghost s = file@.skip(start as int);
        let length: usize = read_u32(file, start) as usize;
        let stored: u32 = read_u32(file, start + 4);
        proof {
            assert(s.skip(4) =~= file@.skip(start as int + 4));
        }
        if len - start - 8 < length {
            return Err(Error::IncompleteEntry);
        }
        let from: usize = start + 8;
        let to: usize = from + length;
        let payload = vstd::slice::slice_subrange(file, from, to);
        proof {
            assert(payload@ =~= s.subrange(8, 8 + length));
        }
        if checksum(payload) != stored {
            return Err(Error::CorruptedFile("Entry had incorrect CRC32"));
        }
        let entry = Self::read_payload(payload)?;
        if to == len {
            return Err(Error::IncompleteEntry);
        }
        if file[to] != TAG_END {
            return Err(Error::CorruptedFile("Last byte of entry wasn't TAG_END"));
        }
        Ok((entry, 9 + length))
    }

    /// Reads the entry that a payload (tag and body) spells.
    fn read_payload(p: &[u8]) -> (r: Result<Entry, Error>)
        ensures
            match r {
                Ok(entry) => decode_payload(p@) == Ok::<EntryModel, Error>(entry@),
                Err(e) => decode_payload(p@) == Err::<EntryModel, Error>(e),
            },
    {
        let len: usize = p.len();
        if len == 0 {
            return Err(Error::CorruptedFile("Entry was empty"));
        }
        let tag: u8 = p[0];
        if tag == TAG_KV_DATA {
            if len < 5 {
                return Err(Error::CorruptedFile("Entry was shorter than its fields"));
            }
            let keylen: usize = read_u32(p, 1) as usize;
            if len - 5 < keylen {
                return Err(Error::CorruptedFile("Entry was shorter than its fields"));
            }
            let key = copy_range(p, 5, 5 + keylen);
            let value = copy_range(p, 5 + keylen, len);
            Ok(Entry::KeyVal { key, value, timestamp: None })
        } else if tag == TAG_KV_DATA2 {
            if len < 9 {
                return Err(Error::CorruptedFile("Entry was shorter than its fields"));
            }
            let ts: u32 = read_u32(p, 1);
            let keylen: usize = read_u32(p, 5) as usize;
            if len - 9 < keylen {
                return Err(Error::CorruptedFile("Entry was shorter than its fields"));
            }
            let key = copy_range(p, 9, 9 + keylen);
            let value = copy_range(p, 9 + keylen, len);
            Ok(Entry::KeyVal { key, value, timestamp: Some(ts) })
        } else if tag == TAG_DELETED {
            let key = copy_range(p, 1, len);
            Ok(Entry::Deleted { key, timestamp: None })
        } else if tag == TAG_DELETED2 {
            if len < 5 {
                return Err(Error::CorruptedFile("Entry was shorter than its fields"));
            }
            let ts: u32 = read_u32(p, 1);
            let key = copy_range(p, 5, len);
            Ok(Entry::Deleted { key, timestamp: Some(ts) })
        } else if tag == TAG_POSLEN32 {
            if len < 13 {
                return Err(Error::CorruptedFile("Entry was shorter than its fields"));
            }
            let blockpos: u64 = read_u64(p, 1);
            let blocklen: u32 = read_u32(p, 9);
            let key = copy_range(p, 13, len);
            Ok(Entry::PosLen { blockpos, blocklen, key })
        } else {
            Err(Error::InvalidEntryTag(tag))
        }
    }
}

} // verus!
