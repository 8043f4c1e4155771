//! A block of a tree file: a header and a sorted run of entries.
//!
//! On disk a block is `blocklen(4) | level(2) | compression(1) | payload`.
//! `blocklen` counts what follows it. The payload, read through the codec,
//! is the byte `0xFF` and then the entries one after another.
use vstd::prelude::*;
use crate::bytes::{be_u16, be_u32, read_u16, read_u32};
use crate::compression::Compression;
use crate::entry::{decode, tail, Entry, EntryModel, lemma_decoded_is_encoding};
use crate::error::Error;
use crate::TAG_END;

verus! {

/// The number of bytes of a block header.
pub const HEADER_SIZE: usize = 7;

/// What a block header says.
pub struct BlockHeader {
    pub blocklen: u32,
    pub level: u16,
    pub compression: Compression,
}

/// A block of a file: where it starts, what its header says, and the file.
#[derive(Debug)]
pub struct Block<'a> {
    pub start: u64,
    pub blocklen: u32,
    pub level: u16,
    pub compression: Compression,
    pub file: &'a [u8],
}

/// The entries of one block, handed out one by one.
#[derive(Debug)]
pub struct EntryIterator {
    data: Vec<u8>,
    pos: usize,
}

/// The header of the block that starts at `start`, or why there is none.
pub open spec fn header_at(file: Seq<u8>, start: int) -> Result<BlockHeader, Error> {
    if start < 0 || file.len() - start < 7 {
        Err(Error::CorruptedFile("block header outside bounds of file"))
    } else {
        match Compression::of_byte(file[start + 6]) {
            None => Err(Error::InvalidCompression(file[start + 6])),
            Some(compression) => Ok(
                BlockHeader {
                    blocklen: be_u32(file.skip(start)),
                    level: be_u16(file.skip(start + 4)),
                    compression,
                },
            ),
        }
    }
}

/// The header that a pointer with this position and length expects to
/// find, or why it does not find it. The length of a pointer counts the
/// whole block, the four bytes of its length field included, which the
/// length in the header leaves out.
pub open spec fn header_at_length(file: Seq<u8>, start: int, length: u32) -> Result<
    BlockHeader,
    Error,
> {
    match header_at(file, start) {
        Err(e) => Err(e),
        Ok(h) => if length < 4 {
            Err(Error::CorruptedFile("block pointer shorter than a length field"))
        } else if h.blocklen == length - 4 {
            Ok(h)
        } else {
            Err(Error::IncorrectBlockLength((length - 4) as u32, h.blocklen))
        },
    }
}

/// The payload of the block at `start`: what follows the header, up to the
/// end that `blocklen` gives or the end of the file.
pub open spec fn payload_at(file: Seq<u8>, start: int, blocklen: u32) -> Seq<u8> {
    let from = start + 7;
    let to = if start + 4 + blocklen <= file.len() {
        start + 4 + blocklen
    } else {
        file.len() as int
    };
    if 0 <= from <= to {
        file.subrange(from, to)
    } else {
        Seq::empty()
    }
}

/// The bytes that hold the entries of a block: nothing for a block of length
/// zero, else what the codec reads out of the payload, after the `0xFF` that
/// must open it. `None` where the codec fails or that byte is missing.
pub open spec fn body_of(payload: Seq<u8>, h: BlockHeader) -> Option<Seq<u8>> {
    if h.blocklen == 0 {
        Some(Seq::empty())
    } else {
        match h.compression.decompressed(payload) {
            None => None,
            Some(contents) => if contents.len() > 0 && contents[0] == TAG_END {
                Some(contents.skip(1))
            } else {
                None
            },
        }
    }
}

/// The error for a block whose body cannot be had.
pub open spec fn body_error(payload: Seq<u8>, h: BlockHeader) -> Error {
    match h.compression.decompressed(payload) {
        None => h.compression.decompress_error(),
        Some(_) => Error::CorruptedFile("block entries did not start with TAG_END"),
    }
}

/// The entries of the block with header `h` that starts at `start`, or why
/// they cannot be had.
pub open spec fn entries_at(file: Seq<u8>, start: int, h: BlockHeader) -> Result<
    Seq<EntryModel>,
    Error,
> {
    let payload = payload_at(file, start, h.blocklen);
    match body_of(payload, h) {
        Some(body) => Ok(entries_of(body)),
        None => Err(body_error(payload, h)),
    }
}

/// The entries that stand one after another at the start of `body`, up to
/// the first place where none can be read.
pub open spec fn entries_of(body: Seq<u8>) -> Seq<EntryModel>
    decreases body.len(),
{
    match decode(body) {
        Ok((entry, taken)) => if 0 < taken <= body.len() {
            seq![entry] + entries_of(body.skip(taken))
        } else {
            Seq::empty()
        },
        Err(_) => Seq::empty(),
    }
}

/// There are no more entries than bytes.
pub proof fn lemma_entries_of_len(body: Seq<u8>)
    ensures
        entries_of(body).len() <= body.len(),
    decreases body.len(),
{
    match decode(body) {
        Ok((entry, taken)) => {
            if 0 < taken <= body.len() {
                lemma_entries_of_len(body.skip(taken));
            }
        },
        Err(_) => {},
    }
}

/// Where an entry can be read, it is the first of the entries and the rest
/// follow from where it ends.
pub proof fn lemma_entries_of_step(body: Seq<u8>, entry: EntryModel, taken: int)
    requires
        decode(body) == Ok::<(EntryModel, int), Error>((entry, taken)),
        body.len() <= usize::MAX,
    ensures
        0 < taken <= body.len(),
        entries_of(body) == seq![entry] + entries_of(body.skip(taken)),
        entries_of(body).len() > 0,
        entries_of(body)[0] == entry,
        entries_of(body).skip(1) == entries_of(body.skip(taken)),
{
    lemma_decoded_is_encoding(body, entry, taken);
    assert((seq![entry] + entries_of(body.skip(taken))).skip(1) =~= entries_of(body.skip(taken)));
}

/// Nothing can be read where there are no bytes.
pub proof fn lemma_entries_of_nothing()
    ensures
        entries_of(Seq::<u8>::empty()) == Seq::<EntryModel>::empty(),
{
    assert(decode(Seq::<u8>::empty()) is Err) by {
        reveal(decode);
    }
}

/// Where no entry can be read, there are no entries.
pub proof fn lemma_entries_of_stop(body: Seq<u8>)
    requires
        decode(body) is Err,
    ensures
        entries_of(body) == Seq::<EntryModel>::empty(),
{
}

impl<'a> Block<'a> {
    /// What the header of the block says.
    pub open spec fn header(&self) -> BlockHeader {
        BlockHeader { blocklen: self.blocklen, level: self.level, compression: self.compression }
    }

    /// The entries of the block, or why they cannot be had.
    pub open spec fn entries_spec(&self) -> Result<Seq<EntryModel>, Error> {
        entries_at(self.file@, self.start as int, self.header())
    }

    /// Reads the header of the block that starts at `start`.
    pub fn from_start(file: &'a [u8], start: u64) -> (r: Result<Block<'a>, Error>)
        ensures
            match r {
                Ok(b) => header_at(file@, start as int) == Ok::<BlockHeader, Error>(b.header())
                    && b.start == start && b.file@ == file@,
                Err(e) => header_at(file@, start as int) == Err::<BlockHeader, Error>(e),
            },
    {
        let len: usize = file.len();
        if start > len as u64 || len as u64 - start < 7 {
            return Err(Error::CorruptedFile("block header outside bounds of file"));
        }
        let at: usize = start as usize;
        let blocklen: u32 = read_u32(file, at);
        let level: u16 = read_u16(file, at + 4);
        let compression = Compression::try_from(file[at + 6])?;
        Ok(Block { start, blocklen, level, compression, file })
    }

    /// Reads the header of the block that starts at `start` and holds it to
    /// the length that a pointer gives.
    pub fn from_start_length(file: &'a [u8], start: u64, length: u32) -> (r: Result<
        Block<'a>,
        Error,
    >)
        ensures
            match r {
                Ok(b) => header_at_length(file@, start as int, length) == Ok::<
                    BlockHeader,
                    Error,
                >(b.header()) && b.start == start && b.file@ == file@,
                Err(e) => header_at_length(file@, start as int, length) == Err::<
                    BlockHeader,
                    Error,
                >(e),
            },
    {
        let block = Self::from_start(file, start)?;
        if length < 4 {
            Err(Error::CorruptedFile("block pointer shorter than a length field"))
        } else if block.blocklen == length - 4 {
            Ok(block)
        } else {
            Err(Error::IncorrectBlockLength(length - 4, block.blocklen))
        }
    }

    /// The entries of the block, in the order in which they stand.
    pub fn entries(&self) -> (r: Result<EntryIterator, Error>)
        ensures
            match r {
                Ok(it) => self.entries_spec() == Ok::<Seq<EntryModel>, Error>(it.remaining())
                    && it.remaining().len() <= usize::MAX,
                Err(e) => self.entries_spec() == Err::<Seq<EntryModel>, Error>(e),
            },
    {
        if self.blocklen == 0 {
            proof {
                lemma_entries_of_len(Seq::<u8>::empty());
                assert(tail(Seq::<u8>::empty(), 0) =~= Seq::<u8>::empty());
            }
            return Ok(EntryIterator { data: Vec::new(), pos: 0 });
        }
        let len: usize = self.file.len();
        let payload: &[u8] = if len < 7 || self.start > (len - 7) as u64 {
            vstd::slice::slice_subrange(self.file, 0, 0)
        } else {
            let from: usize = self.start as usize + 7;
            let room: u64 = (len - from) as u64 + 3;
            let to: usize = if self.blocklen as u64 <= room {
                self.start as usize + 4 + self.blocklen as usize
            } else {
                len
            };
            if from <= to {
                vstd::slice::slice_subrange(self.file, from, to)
            } else {
                vstd::slice::slice_subrange(self.file, 0, 0)
            }
        };
        proof {
            assert(payload@ =~= payload_at(self.file@, self.start as int, self.blocklen));
        }
        let contents = self.compression.reader(payload)?;
        if contents.len() > 0 && contents[0] == TAG_END {
            proof {
                lemma_entries_of_len(contents@.skip(1));
            }
            Ok(EntryIterator { data: contents, pos: 1 })
        } else {
            Err(Error::CorruptedFile("block entries did not start with TAG_END"))
        }
    }
}

impl EntryIterator {
    /// The entries still to come.
    pub closed spec fn remaining(&self) -> Seq<EntryModel> {
        entries_of(tail(self.data@, self.pos as int))
    }

    /// The next entry of the block. Where none can be read the block is at
    /// its end, and stays there.
    pub fn next(&mut self) -> (r: Option<Entry>)
        ensures
            match r {
                Some(e) => old(self).remaining().len() > 0 && e@ == old(self).remaining()[0]
                    && final(self).remaining() == old(self).remaining().skip(1),
                None => old(self).remaining() == Seq::<EntryModel>::empty()
                    && final(self).remaining() == Seq::<EntryModel>::empty(),
            },
            final(self).remaining().len() <= usize::MAX,
    {
        let len: usize = self.data.len();
        match Entry::read(self.data.as_slice(), self.pos) {
            Ok((entry, taken)) => {
                proof {
                    let body = tail(self.data@, self.pos as int);
                    lemma_entries_of_step(body, entry@, taken as int);
                    assert(body.skip(taken as int) =~= tail(self.data@, self.pos + taken));
                    lemma_entries_of_len(tail(self.data@, self.pos + taken));
                }
                self.pos = self.pos + taken;
                Some(entry)
            },
            Err(_) => {
                proof {
                    lemma_entries_of_stop(tail(self.data@, self.pos as int));
                    lemma_entries_of_nothing();
                    assert(tail(self.data@, len as int) =~= Seq::<u8>::empty());
                }
                self.pos = len;
                None
            },
        }
    }
}

} // verus!
