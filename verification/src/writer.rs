//! Building a tree file in one forward pass.
//!
//! Entries arrive in ascending key order and gather in a leaf block. A
//! block that reaches `BLOCK_SIZE` is written out, and a pointer to it
//! gathers in the block one level up, which is written out in its turn when
//! it is full. Closing writes out what is pending, bottom-up, and ends the
//! file with the trailer.
use vstd::prelude::*;
use crate::bloom::BloomFilter;
use crate::bytes::{u16_be, u32_be, push_u16, push_u32, push_all, copy_range};
use crate::compression::Compression;
use crate::entry::{Entry, EntryModel};
use crate::error::Error;
use crate::memtable::ascending;
use crate::sealed::branching;
use crate::key::{key_le, key_lt, compare, KeyOrder, lemma_key_lt_total};
use crate::trailer::{trailer_bytes, trailer_keys, Trailer};
use crate::sound::{closed_bytes, rooted, lemma_closed_loses, lemma_closed_reads, lemma_drop_empty, lemma_fresh_sound, lemma_ready_above, lemma_ready_leaf, lemma_refused, lemma_take_sound, lemma_write_out_ready, lemma_stack_stable, reads_back, ready, sound, stack_leaves, stack_sealed};
use crate::tree::{all_leaves, has_magic, opens, trailer_at, tree_entries};
use crate::tree::MAGIC;
use crate::TAG_END;

verus! {

/// The size at which a block is written out.
pub const BLOCK_SIZE: u64 = 8192;

/// Where the first block of a file starts: right after the magic.
pub const FIRST_BLOCK_POS: u64 = 4;

/// A block that is still gathering entries.
#[derive(Debug)]
pub struct PendingBlock {
    pub level: u16,
    pub size: u64,
    pub members: Vec<Entry>,
}

/// What a pending block holds, as mathematical values.
pub struct PendingModel {
    pub level: u16,
    pub members: Seq<EntryModel>,
}

/// The state of a writer, as mathematical values.
pub struct WriterModel {
    /// The bytes written so far, the magic included.
    pub file: Seq<u8>,
    /// Position and length of the block written last.
    pub last_node: Option<(u64, u32)>,
    /// The pending blocks, the highest level first.
    pub blocks: Seq<PendingModel>,
    /// The codec that blocks pass through.
    pub compress: Compression,
    /// Every entry that `add` has taken, in order.
    pub input: Seq<EntryModel>,
}

/// Builds a tree file from entries that arrive in ascending key order.
pub struct Writer {
    file: Vec<u8>,
    last_node_pos: Option<u64>,
    last_node_size: Option<u32>,
    blocks: Vec<PendingBlock>,
    bloom: BloomFilter,
    compress: Compression,
    value_count: usize,
    tombstone_count: usize,
    input: Ghost<Seq<EntryModel>>,
    intact: Ghost<bool>,
}

/// The encodings of `members`, one after another.
pub open spec fn concat_encoded(members: Seq<EntryModel>) -> Seq<u8>
    decreases members.len(),
{
    if members.len() == 0 {
        Seq::empty()
    } else {
        concat_encoded(members.drop_last()) + members.last().encoded()
    }
}

/// The number of bytes that the encodings of `members` take.
pub open spec fn encoded_total(members: Seq<EntryModel>) -> int
    decreases members.len(),
{
    if members.len() == 0 {
        0
    } else {
        encoded_total(members.drop_last()) + members.last().encoded_len()
    }
}

/// How many of `entries` are keys with a value.
pub open spec fn key_vals(entries: Seq<EntryModel>) -> nat
    decreases entries.len(),
{
    if entries.len() == 0 {
        0
    } else {
        key_vals(entries.drop_last()) + if entries.last() is KeyVal {
            1nat
        } else {
            0nat
        }
    }
}

/// How many of `entries` are tombstones.
pub open spec fn tombstones(entries: Seq<EntryModel>) -> nat
    decreases entries.len(),
{
    if entries.len() == 0 {
        0
    } else {
        tombstones(entries.drop_last()) + if entries.last() is Deleted {
            1nat
        } else {
            0nat
        }
    }
}

/// `n`, or the largest `usize` where `n` is above it.
pub open spec fn capped(n: int) -> int {
    if n > usize::MAX {
        usize::MAX as int
    } else {
        n
    }
}

/// The bytes of a block of this level with these members, as it is written
/// to the file: the header and the payload, which is `0xFF` and the encoded
/// members passed through the codec.
pub open spec fn block_bytes(compress: Compression, level: u16, members: Seq<EntryModel>)
    -> Result<Seq<u8>, Error> {
    match compress.compressed(seq![TAG_END] + concat_encoded(members)) {
        None => Err(compress.compress_error()),
        Some(payload) => if payload.len() + 7 > u32::MAX {
            Err(Error::BlockTooLarge)
        } else {
            Ok(
                u32_be((payload.len() + 3) as u32) + u16_be(level) + seq![compress.byte()]
                    + payload,
            )
        },
    }
}

/// The pending blocks once there is one of `level` at the end: empty blocks
/// are added, level by level downwards, until there is.
pub open spec fn ensure_level(blocks: Seq<PendingModel>, level: u16) -> Seq<PendingModel>
    decreases
            (if blocks.len() > 0 {
                blocks.last().level as int
            } else {
                0
            }),
{
    if blocks.len() == 0 {
        seq![PendingModel { level, members: Seq::empty() }]
    } else if blocks.last().level > level {
        ensure_level(
            blocks.push(
                PendingModel { level: (blocks.last().level - 1) as u16, members: Seq::empty() },
            ),
            level,
        )
    } else {
        blocks
    }
}

/// Whether a block is an inner block with a single pointer: a node that
/// adds depth and no fan-out.
pub open spec fn is_solo(block: PendingModel) -> bool {
    block.level > 0 && block.members.len() == 1
}

/// What becomes of an entry that goes to a pending block.
pub enum Taken {
    /// Its key is not above the last of the block; nothing changes but
    /// that the block exists.
    Rejected(WriterModel),
    /// It is the last of the block now.
    Kept(WriterModel),
    /// It is the last of the block now, and the block is full.
    Full(WriterModel),
}

/// What becomes of a pending block that is written out.
pub enum Written {
    /// The codec refused it or made it too long; it is gone.
    Failed(WriterModel, Error),
    /// It is the last block of the file now, and this pointer leads to it.
    Done(WriterModel, EntryModel),
}

/// What becomes of `entry` when it goes to the pending block of `level`.
/// Its key must be above the last of that block.
pub open spec fn take(w: WriterModel, level: u16, entry: EntryModel) -> Taken {
    let blocks = ensure_level(w.blocks, level);
    let top = blocks.last();
    if top.members.len() > 0 && key_le(entry.key(), top.members.last().key()) {
        Taken::Rejected(WriterModel { blocks, ..w })
    } else {
        let grown = PendingModel { level: top.level, members: top.members.push(entry) };
        let taken = WriterModel {
            blocks: blocks.drop_last().push(grown),
            input: if level == 0 {
                w.input.push(entry)
            } else {
                w.input
            },
            ..w
        };
        if encoded_total(grown.members) >= BLOCK_SIZE {
            Taken::Full(taken)
        } else {
            Taken::Kept(taken)
        }
    }
}

/// What becomes of the last pending block, which is of `level` and not
/// empty, when it is written out: it is appended to the file, and a pointer
/// under its first key leads to it.
#[verifier::opaque]
pub open spec fn write_out(w: WriterModel, level: u16) -> Written {
    let top = w.blocks.last();
    let popped = WriterModel { blocks: w.blocks.drop_last(), ..w };
    match block_bytes(w.compress, level, top.members) {
        Err(e) => Written::Failed(popped, e),
        Ok(bytes) => {
            let blockpos = w.file.len() as u64;
            let blocklen = bytes.len() as u32;
            Written::Done(
                WriterModel {
                    file: w.file + bytes,
                    last_node: Some((blockpos, blocklen)),
                    ..popped
                },
                EntryModel::PosLen { blockpos, blocklen, key: top.members[0].key() },
            )
        },
    }
}

/// The writer after `entry` went to the pending block of `level`, and how
/// that went. A block that reaches `BLOCK_SIZE` is written out.
pub open spec fn append(w: WriterModel, level: u16, entry: EntryModel) -> (
    WriterModel,
    Result<(), Error>,
)
    decreases u16::MAX - level, 1int,
{
    match take(w, level, entry) {
        Taken::Rejected(w) => (w, Err(Error::OutOfOrderWrite)),
        Taken::Kept(w) => (w, Ok(())),
        Taken::Full(w) => flush(w, level),
    }
}

/// The writer after its last pending block, which is of `level` and not
/// empty, was written out, and how that went. The pointer to the block goes
/// to the block one level up.
pub open spec fn flush(w: WriterModel, level: u16) -> (WriterModel, Result<(), Error>)
    decreases u16::MAX - level, 0int,
{
    match write_out(w, level) {
        Written::Failed(w, e) => (w, Err(e)),
        Written::Done(w, pointer) => if level == u16::MAX {
            (w, Err(Error::TreeTooDeep))
        } else {
            append(w, (level + 1) as u16, pointer)
        },
    }
}

/// The writer after closing wrote out its pending blocks, the lowest first,
/// and how that went. It stops at an inner block with a single pointer,
/// which is dropped with all above it. `from` is a level that no pending
/// block is below.
pub open spec fn drain(w: WriterModel, from: int) -> (WriterModel, Result<(), Error>)
    decreases u16::MAX + 1 - from,
{
    if w.blocks.len() == 0 || is_solo(w.blocks.last()) || w.blocks.last().level < from {
        (w, Ok(()))
    } else if w.blocks.last().members.len() == 0 {
        drain(WriterModel { blocks: w.blocks.drop_last(), ..w }, w.blocks.last().level + 1)
    } else {
        let flushed = flush(w, w.blocks.last().level);
        match flushed.1 {
            Err(e) => flushed,
            Ok(_) => drain(flushed.0, w.blocks.last().level + 1),
        }
    }
}

/// Whether closing the writer `w`, whose bloom filter serializes to
/// `image`, gives the file `file`.
pub open spec fn closes_as(w: WriterModel, image: Option<Seq<u8>>, file: Seq<u8>) -> bool {
    closed_file(w, image) == Ok::<Seq<u8>, Error>(file)
}

/// The writer after it took `entries` one after another, up to the first
/// that it could not take, and how that went.
pub open spec fn append_all(w: WriterModel, entries: Seq<EntryModel>) -> (
    WriterModel,
    Result<(), Error>,
)
    decreases entries.len(),
{
    if entries.len() == 0 {
        (w, Ok(()))
    } else {
        let first = append(w, 0, entries[0]);
        match first.1 {
            Err(_) => first,
            Ok(_) => append_all(first.0, entries.skip(1)),
        }
    }
}

/// Whether `file` is the complete file of a writer that took `entries`
/// through `compress` and nothing else. Where they are leaf entries, the
/// file holds them, filter and all, if closing that writer leaves no block
/// beneath the root, and only then.
pub open spec fn is_file_of(file: Seq<u8>, entries: Seq<EntryModel>, compress: Compression)
    -> bool {
    let built = append_all(Writer::fresh(compress), entries);
    &&& built.1 is Ok
    &&& exists|image: Option<Seq<u8>>| #[trigger] closes_as(built.0, image, file)
    &&& all_leaves(entries) ==> (closes_whole(built.0) <==> holds_entries(file, entries))
}

/// Whether `e` is why no file that holds `entries` could be written through
/// `compress`: the error of the first entry that the writer did not take,
/// or, where it took them all, the error of the first pending block that
/// could not be written out; or the refusal of a codec that may refuse
/// whatever it is handed.
pub open spec fn is_file_error(e: Error, entries: Seq<EntryModel>, compress: Compression)
    -> bool {
    let built = append_all(Writer::fresh(compress), entries);
    ||| compress.gives_up(e)
    ||| match built.1 {
        Err(b) => b == e,
        Ok(_) => drain(built.0, 0).1 == Err::<(), Error>(e),
    }
}

/// Every entry fits the format, and so does a pointer under its key.
pub open spec fn all_storable(entries: Seq<EntryModel>) -> bool {
    forall|i: int| 0 <= i < entries.len() ==> (#[trigger] entries[i]).storable()
}

/// The complete file of a writer whose pending blocks are written out.
/// Where a block was written, it is the file so far and the trailer, which
/// holds the bloom filter and points at the block written last. Where none
/// was, it is the file so far, an empty leaf block, and a trailer without
/// bloom filter that points at that block. `image` is the serialized bloom
/// filter, where it can be serialized.
#[verifier::opaque]
pub open spec fn sealed_file(w: WriterModel, image: Option<Seq<u8>>) -> Result<Seq<u8>, Error> {
    match w.last_node {
        None => Ok(
            w.file + seq![0u8, 0u8, 0u8, 0u8, 0u8, 0u8] + trailer_bytes(
                Seq::empty(),
                FIRST_BLOCK_POS,
            ),
        ),
        Some((root_pos, _)) => match image {
            None => Err(Error::BloomFilterCorrupted),
            Some(image) => if image.len() == 0 {
                Err(Error::BloomFilterCorrupted)
            } else if image.len() > u32::MAX {
                Err(Error::BloomFilterTooLarge)
            } else {
                Ok(w.file + trailer_bytes(image, root_pos))
            },
        },
    }
}

/// The complete file that closing gives, or why it gives none. `image` is
/// the serialized bloom filter, where it can be serialized.
#[verifier::opaque]
pub open spec fn closed_file(w: WriterModel, image: Option<Seq<u8>>) -> Result<Seq<u8>, Error> {
    let drained = drain(w, 0);
    match drained.1 {
        Err(e) => Err(e),
        Ok(_) => sealed_file(drained.0, image),
    }
}

/// What writing out gives where the codec refuses the block or makes it
/// too long.
proof fn lemma_write_out_failed(w: WriterModel, block: PendingModel, e: Error)
    requires
        block_bytes(w.compress, block.level, block.members) == Err::<Seq<u8>, Error>(e),
    ensures
        write_out(WriterModel { blocks: w.blocks.push(block), ..w }, block.level)
            == Written::Failed(w, e),
{
    reveal(write_out);
    let start = WriterModel { blocks: w.blocks.push(block), ..w };
    assert(start.blocks.drop_last() =~= w.blocks);
    assert(start.blocks.last() == block);
    assert((WriterModel { blocks: start.blocks.drop_last(), ..start }) == w);
}

/// What writing out gives where the codec gives `payload`.
proof fn lemma_write_out_done(w: WriterModel, block: PendingModel, payload: Seq<u8>)
    requires
        payload.len() + 7 <= u32::MAX,
        block_bytes(w.compress, block.level, block.members) == Ok::<Seq<u8>, Error>(
            u32_be((payload.len() + 3) as u32) + u16_be(block.level) + seq![w.compress.byte()]
                + payload,
        ),
    ensures
        write_out(WriterModel { blocks: w.blocks.push(block), ..w }, block.level)
            == Written::Done(
            WriterModel {
                file: w.file + (u32_be((payload.len() + 3) as u32) + u16_be(block.level) + seq![
                    w.compress.byte(),
                ] + payload),
                last_node: Some((w.file.len() as u64, (payload.len() + 7) as u32)),
                ..w
            },
            EntryModel::PosLen {
                blockpos: w.file.len() as u64,
                blocklen: (payload.len() + 7) as u32,
                key: block.members[0].key(),
            },
        ),
{
    reveal(write_out);
    let start = WriterModel { blocks: w.blocks.push(block), ..w };
    assert(start.blocks.drop_last() =~= w.blocks);
    assert(start.blocks.last() == block);
    assert((WriterModel { blocks: start.blocks.drop_last(), ..start }) == w);
    crate::bytes::lemma_be_round_trip(0, 0, 0);
}

/// Writing out a block that was taken off a sound writer leaves the
/// pointer to it ready for the block one level up.
proof fn lemma_flush_ready(w: WriterModel, block: PendingModel, payload: Seq<u8>)
    requires
        sound(WriterModel { blocks: w.blocks.push(block), ..w }),
        stacked(w.blocks),
        w.blocks.len() > 0 ==> w.blocks.last().level == block.level + 1,
        block.level < u16::MAX,
        block.members.len() > 0,
        branching(block.members, block.level),
        forall|i: int| 0 <= i < block.members.len() ==> (#[trigger] block.members[i]).storable(),
        payload.len() + 7 <= u32::MAX,
        w.file.len() + payload.len() + 7 <= usize::MAX,
        concat_encoded(block.members).len() < usize::MAX,
        w.compress.decompressed(payload) == Some(seq![TAG_END] + concat_encoded(block.members)),
    ensures
        ready(
            WriterModel {
                file: w.file + (u32_be((payload.len() + 3) as u32) + u16_be(block.level) + seq![
                    w.compress.byte(),
                ] + payload),
                last_node: Some((w.file.len() as u64, (payload.len() + 7) as u32)),
                ..w
            },
            (block.level + 1) as u16,
            EntryModel::PosLen {
                blockpos: w.file.len() as u64,
                blocklen: (payload.len() + 7) as u32,
                key: block.members[0].key(),
            },
        ),
{
    let start = WriterModel { blocks: w.blocks.push(block), ..w };
    assert(start.blocks.drop_last() =~= w.blocks);
    assert(start.blocks.last() == block);
    assert forall|i: int| 0 <= i < block.members.len() implies (#[trigger] block.members[i]).wf() by {
        assert(block.members[i].storable());
    }
    assert(stacked(start.blocks)) by {
        assert forall|i: int| 0 < i < start.blocks.len() implies (#[trigger] start.blocks[i]).level
            + 1 == start.blocks[i - 1].level by {
            if i < w.blocks.len() {
                assert(start.blocks[i] == w.blocks[i]);
                assert(start.blocks[i - 1] == w.blocks[i - 1]);
            } else {
                assert(start.blocks[i] == block);
                assert(start.blocks[i - 1] == w.blocks[i - 1]);
            }
        }
    }
    lemma_write_out_ready(start, block.level, payload);
}

/// A pointer under the key of a storable entry is storable, wherever it
/// points.
pub proof fn lemma_pointer_storable(e: EntryModel, blockpos: u64, blocklen: u32)
    requires
        e.storable(),
    ensures
        (EntryModel::PosLen { blockpos, blocklen, key: e.key() }).storable(),
{
    let a = EntryModel::PosLen { blockpos, blocklen, key: e.key() };
    let b = EntryModel::PosLen { blockpos: 0, blocklen: 0, key: e.key() };
    crate::bytes::lemma_be_round_trip(0, 0, 0);
    crate::bytes::lemma_be_round_trip(0, blocklen, blockpos);
    assert(a.payload().len() == b.payload().len());
}

impl PendingBlock {
    /// What the block holds.
    pub open spec fn model(&self) -> PendingModel {
        PendingModel { level: self.level, members: self.members.deep_view() }
    }

    /// The size is that of the members, every member fits the format, and
    /// the block is not yet full.
    pub open spec fn wf(&self) -> bool {
        &&& self.size == encoded_total(self.members.deep_view())
        &&& self.size < BLOCK_SIZE
        &&& self.members_storable()
    }

    /// Every member fits the format, and so does a pointer under its key.
    pub open spec fn members_storable(&self) -> bool {
        forall|i: int|
            0 <= i < self.members.deep_view().len() ==> (
            #[trigger] self.members.deep_view()[i]).storable()
    }

    /// Whether `entry` may follow the members: the block is empty or the key
    /// of `entry` is above that of its last member.
    fn precedes(&self, entry: &Entry) -> (r: bool)
        ensures
            r == !(self.model().members.len() > 0 && key_le(
                entry@.key(),
                self.model().members.last().key(),
            )),
    {
        let count: usize = self.members.len();
        if count == 0 {
            return true;
        }
        let last = &self.members[count - 1];
        proof {
            assert(self.members.deep_view()[count - 1] == last@);
            lemma_key_lt_total(last@.key(), entry@.key());
        }
        match compare(last.key(), entry.key()) {
            KeyOrder::Less => true,
            _ => false,
        }
    }

    /// Puts `entry` behind the members.
    fn push(&mut self, entry: Entry)
        requires
            old(self).wf(),
            entry@.storable(),
        ensures
            final(self).model() == (PendingModel {
                level: old(self).level,
                members: old(self).model().members.push(entry@),
            }),
            final(self).size == encoded_total(final(self).model().members),
            final(self).size == old(self).size + entry@.encoded_len(),
            final(self).members_storable(),
            final(self).members@.len() > 0,
    {
        let ghost members = self.members.deep_view();
        let size: u64 = self.size + entry.encoded_size() as u64;
        proof {
            assert(members.push(entry@).drop_last() =~= members);
        }
        self.members.push(entry);
        self.size = size;
        proof {
            assert(self.members.deep_view() =~= members.push(entry@));
        }
    }

    /// Whether the block is an inner block with a single pointer.
    fn is_solo_inner_block(&self) -> (r: bool)
        ensures
            r == is_solo(self.model()),
    {
        self.level > 0 && self.members.len() == 1
    }
}

/// The pending blocks as values.
pub open spec fn models(blocks: Seq<PendingBlock>) -> Seq<PendingModel> {
    blocks.map_values(|b: PendingBlock| b.model())
}

/// Whether `r` is no refusal of a codec that may refuse whatever it is
/// handed. What a call makes of the writer is told for every result but
/// such a refusal.
pub open spec fn steady<T>(compress: Compression, r: Result<T, Error>) -> bool {
    !(r matches Err(e) && compress.gives_up(e))
}

/// Whether the keys of `input` rise strictly.
#[verifier::opaque]
pub open spec fn rising(input: Seq<EntryModel>) -> bool {
    ascending(input)
}

/// While the entries that went in rise, an entry that is ready is not
/// refused.
proof fn lemma_rising_above(m: WriterModel, level: u16, entry: EntryModel)
    requires
        ready(m, level, entry),
        m.blocks.len() > 0 ==> m.blocks.last().level >= level,
    ensures
        rising(
            if level == 0 {
                m.input.push(entry)
            } else {
                m.input
            },
        ) ==> !(take(m, level, entry) is Rejected),
{
    reveal(rising);
    if ascending(
        if level == 0 {
            m.input.push(entry)
        } else {
            m.input
        },
    ) {
        lemma_ready_above(m, level, entry);
    }
}

/// Every level is one below the level before it.
pub open spec fn stacked(blocks: Seq<PendingModel>) -> bool {
    forall|i: int| 0 < i < blocks.len() ==> (#[trigger] blocks[i]).level + 1 == blocks[i - 1].level
}

impl View for Writer {
    type V = WriterModel;

    closed spec fn view(&self) -> WriterModel {
        WriterModel {
            file: self.file@,
            last_node: match (self.last_node_pos, self.last_node_size) {
                (Some(pos), Some(size)) => Some((pos, size)),
                _ => None,
            },
            blocks: models(self.blocks@),
            compress: self.compress,
            input: self.input@,
        }
    }
}

impl Writer {
    /// The keys that the bloom filter of the file will say yes to.
    pub closed spec fn keys(&self) -> Set<Seq<u8>> {
        self.bloom.keys()
    }

    /// The serialized bloom filter of the file, where it can be serialized.
    pub closed spec fn image(&self) -> Option<Seq<u8>> {
        self.bloom.image()
    }

    /// Whether every entry the writer was handed was a leaf entry, and no
    /// call on it has failed but by refusing an entry for the leaf block,
    /// which leaves the writer as it was. Only then is the file it builds
    /// known to read back.
    pub closed spec fn intact(&self) -> bool {
        self.intact@
    }

    /// The bloom filter says yes to the key of every entry of `entries`.
    pub open spec fn covers(keys: Set<Seq<u8>>, entries: Seq<EntryModel>) -> bool {
        forall|i: int| 0 <= i < entries.len() ==> keys.contains((#[trigger] entries[i]).key())
    }

    /// The bloom filter says yes to the key of every leaf entry of
    /// `entries`.
    pub open spec fn covers_leaves(keys: Set<Seq<u8>>, entries: Seq<EntryModel>) -> bool {
        forall|i: int|
            0 <= i < entries.len() && !(#[trigger] entries[i]).is_pos_len() ==> keys.contains(
                entries[i].key(),
            )
    }

    /// The bloom filter of a writer says yes to the key of every leaf
    /// entry that the writer took, whatever became of its calls.
    pub proof fn lemma_keys_cover(&self)
        requires
            self.wf(),
        ensures
            Self::covers_leaves(self.keys(), self@.input),
    {
    }

    /// The writer holds together. Its pending blocks are stacked level on
    /// level, none is full, and the counters count what was taken. While it
    /// is intact, what it has written makes a tree under the pending blocks
    /// whose leaf entries are the entries that went in, and the bloom filter
    /// says yes to the key of each of them.
    pub closed spec fn wf(&self) -> bool {
        &&& self.shape()
        &&& Self::covers_leaves(self.bloom.keys(), self.input@)
        &&& self.intact@ ==> sound(self@) && Self::covers(self.bloom.keys(), self.input@)
    }

    /// The parts of the writer fit together.
    pub closed spec fn shape(&self) -> bool {
        &&& stacked(models(self.blocks@))
        &&& forall|i: int| 0 <= i < self.blocks@.len() ==> (#[trigger] self.blocks@[i]).wf()
        &&& self.value_count == capped(key_vals(self.input@) as int)
        &&& self.tombstone_count == capped(tombstones(self.input@) as int)
        &&& self.last_node_pos is Some <==> self.last_node_size is Some
        &&& self.file@.len() >= 4
        &&& self.last_node_pos is Some ==> self.last_node_pos->Some_0 <= self.file@.len()
    }

    /// A writer for an uncompressed file of about 1024 keys.
    pub fn new() -> (r: Self)
        ensures
            r.wf(),
            r.intact(),
            r@ == Self::fresh(Compression::Uncompressed),
            r.keys() == Set::<Seq<u8>>::empty(),
    {
        Self::with_expected_num_items(1024, Compression::Uncompressed)
    }

    /// The state of a writer that has taken nothing: the magic is written
    /// and nothing else.
    pub open spec fn fresh(compress: Compression) -> WriterModel {
        WriterModel {
            file: u32_be(MAGIC),
            last_node: None,
            blocks: Seq::empty(),
            compress,
            input: Seq::empty(),
        }
    }

    /// A writer whose bloom filter is sized for `expected_num_items` keys and
    /// whose blocks pass through `compress`.
    pub fn with_expected_num_items(expected_num_items: usize, compress: Compression) -> (r: Self)
        ensures
            r.wf(),
            r.intact(),
            r@ == Self::fresh(compress),
            r.keys() == Set::<Seq<u8>>::empty(),
    {
        let bloom = BloomFilter::with_expected_items(expected_num_items);
        let mut file: Vec<u8> = Vec::new();
        push_u32(&mut file, MAGIC);
        let w = Writer {
            file,
            last_node_pos: None,
            last_node_size: None,
            blocks: Vec::new(),
            bloom,
            compress,
            value_count: 0,
            tombstone_count: 0,
            input: Ghost(Seq::empty()),
            intact: Ghost(true),
        };
        proof {
            assert(w@.file =~= u32_be(MAGIC));
            assert(w@.blocks =~= Seq::<PendingModel>::empty());
            crate::bytes::lemma_be_round_trip(0, MAGIC, 0);
            assert(w@.file.len() == 4);
            assert(has_magic(w@.file));
            lemma_fresh_sound(w@);
        }
        w
    }

    /// The number of keys with a value taken so far; the largest `usize`
    /// where there are more.
    pub fn value_count(&self) -> (r: usize)
        requires
            self.wf(),
        ensures
            r == capped(key_vals(self@.input) as int),
    {
        self.value_count
    }

    /// The number of tombstones taken so far; the largest `usize` where
    /// there are more.
    pub fn tombstone_count(&self) -> (r: usize)
        requires
            self.wf(),
        ensures
            r == capped(tombstones(self@.input) as int),
    {
        self.tombstone_count
    }

    /// The number of pending blocks.
    pub fn pending(&self) -> (r: usize)
        ensures
            r == self@.blocks.len(),
    {
        self.blocks.len()
    }

    /// The level of the pending block `at`, the highest level first.
    pub fn pending_level(&self, at: usize) -> (r: u16)
        requires
            at < self@.blocks.len(),
        ensures
            r == self@.blocks[at as int].level,
    {
        self.blocks[at].level
    }

    /// The number of members of the pending block `at`.
    pub fn pending_members(&self, at: usize) -> (r: usize)
        requires
            at < self@.blocks.len(),
        ensures
            r == self@.blocks[at as int].members.len(),
    {
        self.blocks[at].members.len()
    }

    /// The number of bytes written so far, the magic included.
    pub fn written(&self) -> (r: usize)
        ensures
            r == self@.file.len(),
    {
        self.file.len()
    }

    /// The number of keys with a value and of tombstones taken so far; the
    /// largest `usize` where there are more.
    pub fn count(&self) -> (r: usize)
        requires
            self.wf(),
        ensures
            r == capped((key_vals(self@.input) + tombstones(self@.input)) as int),
    {
        if self.value_count > usize::MAX - self.tombstone_count {
            usize::MAX
        } else {
            self.value_count + self.tombstone_count
        }
    }
}

impl Writer {
    /// Takes `entry`, which must be above the entry taken before it in the
    /// pending leaf block. While the keys of the leaf entries that an intact
    /// writer is handed rise, none is refused as out of order, on whatever
    /// level its block is written out. What the call makes of the writer
    /// is told for every result but the refusal of a codec that may refuse
    /// whatever it is handed; after such a refusal the writer holds
    /// together and is no longer intact.
    pub fn add(&mut self, entry: Entry) -> (r: Result<(), Error>)
        requires
            old(self).wf(),
            entry@.storable(),
        ensures
            final(self).wf(),
            final(self)@.compress == old(self)@.compress,
            steady(old(self)@.compress, r) ==> final(self)@ == append(old(self)@, 0, entry@).0,
            steady(old(self)@.compress, r) ==> r == append(old(self)@, 0, entry@).1,
            r is Ok ==> final(self)@.input == old(self)@.input.push(entry@),
            r is Err ==> final(self)@.input == old(self)@.input || final(self)@.input == old(
                self,
            )@.input.push(entry@),
            take(old(self)@, 0, entry@) is Kept ==> r is Ok,
            take(old(self)@, 0, entry@) is Rejected ==> r == Err::<(), Error>(
                Error::OutOfOrderWrite,
            ),
            final(self).intact() == (old(self).intact() && !entry@.is_pos_len() && (r is Ok
                || take(old(self)@, 0, entry@) is Rejected)),
            old(self).keys().subset_of(final(self).keys()),
            !entry@.is_pos_len() ==> final(self).keys().contains(entry@.key()),
            old(self).intact() && !entry@.is_pos_len() && ascending(old(self)@.input.push(entry@))
                ==> r != Err::<(), Error>(Error::OutOfOrderWrite),
    {
        if !entry.is_pos_len() {
            self.bloom.insert(entry.key());
            proof {
                if self.intact@ {
                    lemma_ready_leaf(self@, entry@);
                }
            }
        } else {
            self.intact = Ghost(false);
        }
        let ghost keys = self.bloom.keys();
        let ghost before = self.input@;
        proof {
            reveal(rising);
        }
        let r = self.append_to_block(0, entry);
        proof {
            lemma_append_input(old(self)@, 0, entry@);
            assert forall|i: int|
                0 <= i < self.input@.len() && !(#[trigger] self.input@[i]).is_pos_len() implies keys.contains(
                self.input@[i].key(),
            ) by {
                if i < before.len() {
                    assert(self.input@[i] == before[i]);
                }
            }
            if self.intact@ {
                if r is Ok {
                    assert(self@.input == before.push(entry@));
                } else {
                    lemma_refused(old(self)@, 0, entry@);
                    assert(self@.input == before);
                }
                assert forall|i: int| 0 <= i < self.input@.len() implies keys.contains(
                    (#[trigger] self.input@[i]).key(),
                ) by {
                    if i < before.len() {
                        assert(self.input@[i] == before[i]);
                    }
                }
            }
        }
        r
    }

    /// A pending block of `level` without members.
    fn empty_block(level: u16) -> (r: PendingBlock)
        ensures
            r.wf(),
            r.model() == (PendingModel { level, members: Seq::empty() }),
    {
        let r = PendingBlock { level, size: 0, members: Vec::new() };
        proof {
            assert(r.members.deep_view() =~= Seq::<EntryModel>::empty());
        }
        r
    }

    /// The payload of a block with these members before it passes through
    /// the codec: `0xFF` and the encoded members.
    fn encode_members(members: &Vec<Entry>) -> (r: Vec<u8>)
        requires
            forall|i: int|
                0 <= i < members.deep_view().len() ==> (#[trigger] members.deep_view()[i]).wf(),
        ensures
            r@ == seq![TAG_END] + concat_encoded(members.deep_view()),
    {
        let ghost all = members.deep_view();
        let mut contents: Vec<u8> = Vec::new();
        contents.push(TAG_END);
        let mut i: usize = 0;
        proof {
            assert(all.take(0) =~= Seq::<EntryModel>::empty());
            assert(contents@ =~= seq![TAG_END] + concat_encoded(all.take(0)));
        }
        while i < members.len()
            invariant
                i <= members@.len(),
                all == members.deep_view(),
                forall|i: int| 0 <= i < all.len() ==> (#[trigger] all[i]).wf(),
                contents@ == seq![TAG_END] + concat_encoded(all.take(i as int)),
            decreases members@.len() - i,
        {
            let member = &members[i];
            proof {
                assert(all[i as int] == member@);
                assert(all.take(i + 1).drop_last() =~= all.take(i as int));
                assert(all.take(i + 1).last() == all[i as int]);
            }
            let encoded = member.encode();
            let ghost before = contents@;
            push_all(&mut contents, encoded.as_slice());
            proof {
                assert(concat_encoded(all.take(i + 1)) == concat_encoded(all.take(i as int))
                    + all[i as int].encoded());
                assert(contents@ =~= seq![TAG_END] + concat_encoded(all.take(i + 1)));
            }
            i = i + 1;
        }
        proof {
            assert(all.take(i as int) =~= all);
        }
        contents
    }

    /// Appends a block of `level` with this payload to the file and notes
    /// it as the block written last.
    fn write_block(&mut self, level: u16, payload: &Vec<u8>) -> (r: (u64, u32))
        requires
            old(self).shape(),
            payload@.len() + 7 <= u32::MAX,
        ensures
            final(self).shape(),
            r.0 == old(self)@.file.len(),
            r.1 == payload@.len() + 7,
            old(self)@.file.len() + payload@.len() + 7 <= usize::MAX,
            final(self)@ == (WriterModel {
                file: old(self)@.file + (u32_be((payload@.len() + 3) as u32) + u16_be(level) + seq![
                    old(self)@.compress.byte(),
                ] + payload@),
                last_node: Some(r),
                ..old(self)@
            }),
            final(self).keys() == old(self).keys(),
            final(self).image() == old(self).image(),
            final(self).intact() == old(self).intact(),
    {
        let blocklen: u32 = (payload.len() + 3) as u32;
        let blockpos: u64 = self.file.len() as u64;
        let ghost before = self.file@;
        push_u32(&mut self.file, blocklen);
        push_u16(&mut self.file, level);
        self.file.push(self.compress.to_byte());
        push_all(&mut self.file, payload.as_slice());
        self.last_node_pos = Some(blockpos);
        self.last_node_size = Some(blocklen + 4);
        let total: usize = self.file.len();
        proof {
            assert(self.file@ =~= before + (u32_be(blocklen) + u16_be(level) + seq![
                self.compress.byte(),
            ] + payload@));
            crate::bytes::lemma_be_round_trip(0, 0, 0);
            assert(total == before.len() + 7 + payload@.len());
        }
        (blockpos, blocklen + 4)
    }

    /// Takes `entries` one after another, up to the first that cannot be
    /// taken.
    pub fn add_all(&mut self, entries: &Vec<Entry>) -> (r: Result<(), Error>)
        requires
            old(self).wf(),
            all_storable(entries.deep_view()),
        ensures
            final(self).wf(),
            final(self)@.compress == old(self)@.compress,
            steady(old(self)@.compress, r) ==> final(self)@ == append_all(
                old(self)@,
                entries.deep_view(),
            ).0,
            steady(old(self)@.compress, r) ==> r == append_all(old(self)@, entries.deep_view()).1,
            old(self).keys().subset_of(final(self).keys()),
            r is Ok && all_leaves(entries.deep_view()) ==> final(self).intact() == old(self).intact(),
    {
        let ghost all = entries.deep_view();
        let mut i: usize = 0;
        proof {
            assert(all.skip(0) =~= all);
        }
        while i < entries.len()
            invariant
                i <= entries@.len(),
                all == entries.deep_view(),
                all_storable(all),
                self.wf(),
                all_leaves(all) ==> self.intact() == old(self).intact(),
                old(self).keys().subset_of(self.keys()),
                self@.compress == old(self)@.compress,
                append_all(self@, all.skip(i as int)) == append_all(old(self)@, all),
            decreases entries@.len() - i,
        {
            let entry = entries[i].clone();
            proof {
                assert(all[i as int] == entries@[i as int]@);
                assert(all.skip(i as int)[0] == all[i as int]);
                assert(all.skip(i as int).skip(1) =~= all.skip(i + 1));
            }
            match self.add(entry) {
                Ok(_) => {},
                Err(e) => {
                    return Err(e);
                },
            }
            i = i + 1;
        }
        Ok(())
    }

    /// Makes sure that the last pending block is of `level`.
    fn get_block_at_level(&mut self, level: u16)
        requires
            old(self).shape(),
            old(self)@.blocks.len() > 0 ==> old(self)@.blocks.last().level >= level,
        ensures
            final(self).shape(),
            final(self)@ == (WriterModel {
                blocks: ensure_level(old(self)@.blocks, level),
                ..old(self)@
            }),
            final(self)@.blocks.len() > 0,
            final(self)@.blocks.last().level == level,
            final(self).keys() == old(self).keys(),
            final(self).image() == old(self).image(),
            final(self).intact() == old(self).intact(),
    {
        if self.blocks.len() == 0 {
            let block = Self::empty_block(level);
            self.blocks.push(block);
            proof {
                assert(self@.blocks =~= seq![PendingModel { level, members: Seq::empty() }]);
            }
            return ;
        }
        let mut last_level: u16 = self.blocks[self.blocks.len() - 1].level;
        while last_level > level
            invariant
                self.shape(),
                self@.blocks.len() > 0,
                self@.blocks.last().level == last_level,
                last_level >= level,
                ensure_level(self@.blocks, level) == ensure_level(old(self)@.blocks, level),
                self@.file == old(self)@.file,
                self@.last_node == old(self)@.last_node,
                self@.compress == old(self)@.compress,
                self@.input == old(self)@.input,
                self.keys() == old(self).keys(),
                self.image() == old(self).image(),
                self.intact() == old(self).intact(),
            decreases last_level,
        {
            let ghost before = self@.blocks;
            last_level = last_level - 1;
            let block = Self::empty_block(last_level);
            self.blocks.push(block);
            proof {
                assert(self@.blocks =~= before.push(
                    PendingModel { level: last_level, members: Seq::empty() },
                ));
            }
        }
    }

    /// Counts `entry`, which a block of `level` has taken, and notes it as
    /// taken where it is a leaf entry.
    fn note_taken(&mut self, level: u16, entry: &Entry)
        requires
            old(self).shape(),
            level > 0 ==> entry@ is PosLen,
        ensures
            final(self).shape(),
            final(self)@ == (WriterModel {
                input: if level == 0 {
                    old(self)@.input.push(entry@)
                } else {
                    old(self)@.input
                },
                ..old(self)@
            }),
            final(self).keys() == old(self).keys(),
            final(self).image() == old(self).image(),
            final(self).intact() == old(self).intact(),
    {
        proof {
            assert(self.input@.push(entry@).drop_last() =~= self.input@);
        }
        if entry.is_deleted() {
            if self.tombstone_count < usize::MAX {
                self.tombstone_count = self.tombstone_count + 1;
            }
        } else if entry.is_key_val() {
            if self.value_count < usize::MAX {
                self.value_count = self.value_count + 1;
            }
        }
        if level == 0 {
            self.input = Ghost(self.input@.push(entry@));
        }
    }

    /// Takes the last pending block off the stack.
    fn pop_block(&mut self) -> (r: PendingBlock)
        requires
            old(self).shape(),
            old(self)@.blocks.len() > 0,
        ensures
            final(self).shape(),
            r.wf(),
            r.model() == old(self)@.blocks.last(),
            final(self)@ == (WriterModel { blocks: old(self)@.blocks.drop_last(), ..old(self)@ }),
            final(self).keys() == old(self).keys(),
            final(self).image() == old(self).image(),
            final(self).intact() == old(self).intact(),
    {
        let ghost before = self.blocks@;
        let block = match self.blocks.pop() {
            Some(block) => block,
            None => Self::empty_block(0),
        };
        proof {
            assert(self.blocks@ =~= before.drop_last());
            assert(block == before.last());
            assert(models(self.blocks@) =~= models(before).drop_last());
        }
        block
    }

    /// Puts `block` on the stack, which must be one level below the last.
    fn push_block(&mut self, block: PendingBlock)
        requires
            old(self).shape(),
            block.wf(),
            old(self)@.blocks.len() > 0 ==> old(self)@.blocks.last().level == block.level + 1,
        ensures
            final(self).shape(),
            final(self)@ == (WriterModel {
                blocks: old(self)@.blocks.push(block.model()),
                ..old(self)@
            }),
            final(self).keys() == old(self).keys(),
            final(self).image() == old(self).image(),
            final(self).intact() == old(self).intact(),
    {
        let ghost before = self.blocks@;
        self.blocks.push(block);
        proof {
            assert(models(self.blocks@) =~= models(before).push(block.model()));
        }
    }

    /// Puts `entry` into the pending block of `level`, and writes the block
    /// out where that fills it.
    #[verifier::rlimit(40)]
    fn append_to_block(&mut self, level: u16, entry: Entry) -> (r: Result<(), Error>)
        requires
            old(self).shape(),
            entry@.storable(),
            old(self)@.blocks.len() > 0 ==> old(self)@.blocks.last().level >= level,
            level > 0 ==> entry@ is PosLen,
            old(self).intact() ==> ready(old(self)@, level, entry@),
            old(self).intact() && level == 0 ==> sound(old(self)@),
        ensures
            final(self).shape(),
            final(self)@.compress == old(self)@.compress,
            steady(old(self)@.compress, r) ==> final(self)@ == append(old(self)@, level, entry@).0,
            steady(old(self)@.compress, r) ==> r == append(old(self)@, level, entry@).1,
            r is Ok ==> final(self)@.blocks.len() > 0 && final(self)@.blocks.last().level >= level,
            r is Ok ==> final(self)@.input == if level == 0 {
                old(self)@.input.push(entry@)
            } else {
                old(self)@.input
            },
            level > 0 ==> final(self)@.input == old(self)@.input,
            level == 0 ==> final(self)@.input == old(self)@.input || final(self)@.input == old(
                self,
            )@.input.push(entry@),
            take(old(self)@, level, entry@) is Rejected ==> r == Err::<(), Error>(
                Error::OutOfOrderWrite,
            ),
            take(old(self)@, level, entry@) is Kept ==> r is Ok,
            final(self).keys() == old(self).keys(),
            final(self).image() == old(self).image(),
            final(self).intact() == (old(self).intact() && (r is Ok || (level == 0 && take(
                old(self)@,
                level,
                entry@,
            ) is Rejected))),
            final(self).intact() ==> sound(final(self)@),
            old(self).intact() && rising(
                if level == 0 {
                    old(self)@.input.push(entry@)
                } else {
                    old(self)@.input
                },
            ) ==> r != Err::<(), Error>(Error::OutOfOrderWrite),
        decreases u16::MAX - level, 1int,
    {
        let ghost w0 = self@;
        proof {
            if self.intact@ {
                lemma_take_sound(w0, level, entry@);
                lemma_rising_above(w0, level, entry@);
            }
        }
        self.get_block_at_level(level);
        let ghost ensured = self@.blocks;
        let ghost top = ensured.last();
        let mut block = self.pop_block();
        if !block.precedes(&entry) {
            self.push_block(block);
            if level > 0 {
                self.intact = Ghost(false);
            }
            proof {
                assert(self@.blocks =~= ensured);
                assert(self@ == (WriterModel { blocks: ensured, ..w0 }));
                assert(take(w0, level, entry@) == Taken::Rejected(self@));
                lemma_refused(w0, level, entry@);
            }
            return Err(Error::OutOfOrderWrite);
        }
        self.note_taken(level, &entry);
        let ghost grown = PendingModel { level: top.level, members: top.members.push(entry@) };
        let ghost taken = WriterModel {
            blocks: ensured.drop_last().push(grown),
            input: if level == 0 {
                w0.input.push(entry@)
            } else {
                w0.input
            },
            ..w0
        };
        block.push(entry);
        if block.size >= BLOCK_SIZE {
            proof {
                assert(block.model() == grown);
                assert(self@.blocks == ensured.drop_last());
                assert((WriterModel { blocks: self@.blocks.push(block.model()), ..self@ })
                    == taken);
                assert(take(w0, level, entry@) == Taken::Full(taken));
            }
            self.flush_block_buffer(block)
        } else {
            proof {
                assert(block.model() == grown);
                assert(self@.blocks == ensured.drop_last());
            }
            self.push_block(block);
            proof {
                assert(self@ == taken);
                assert(take(w0, level, entry@) == Taken::Kept(taken));
            }
            Ok(())
        }
    }

    /// The payload of `block` after it passed through the codec.
    fn compress_block(&self, block: &PendingBlock) -> (r: Result<Vec<u8>, Error>)
        requires
            block.members_storable(),
        ensures
            match r {
                Ok(payload) => {
                    &&& payload@.len() + 7 <= u32::MAX
                    &&& concat_encoded(block.model().members).len() < usize::MAX
                    &&& self@.compress.compressed(
                        seq![TAG_END] + concat_encoded(block.model().members),
                    ) == Some(payload@)
                    &&& self@.compress.decompressed(payload@) == Some(
                        seq![TAG_END] + concat_encoded(block.model().members),
                    )
                    &&& block_bytes(self@.compress, block.level, block.model().members) == Ok::<
                        Seq<u8>,
                        Error,
                    >(
                        u32_be((payload@.len() + 3) as u32) + u16_be(block.level) + seq![
                            self@.compress.byte(),
                        ] + payload@,
                    )
                },
                Err(e) => self@.compress.gives_up(e) || block_bytes(
                    self@.compress,
                    block.level,
                    block.model().members,
                ) == Err::<Seq<u8>, Error>(e),
            },
    {
        let ghost members = block.members.deep_view();
        proof {
            assert forall|i: int| 0 <= i < members.len() implies (#[trigger] members[i]).wf() by {
                assert(members[i].storable());
            }
        }
        let contents = Self::encode_members(&block.members);
        let size: usize = contents.len();
        proof {
            assert(contents@.len() == 1 + concat_encoded(members).len());
        }
        let compressed = self.compress.compress(contents)?;
        if compressed.len() > (u32::MAX - 7) as usize {
            return Err(Error::BlockTooLarge);
        }
        Ok(compressed)
    }

    /// The pointer to a block at this place whose first member is `first`.
    fn pointer_to(first: &Entry, blockpos: u64, blocklen: u32) -> (r: Entry)
        requires
            first@.storable(),
        ensures
            r@ == (EntryModel::PosLen { blockpos, blocklen, key: first@.key() }),
            r@.storable(),
    {
        let key = copy_range(first.key(), 0, first.key().len());
        proof {
            assert(key@ =~= first@.key());
            lemma_pointer_storable(first@, blockpos, blocklen);
        }
        Entry::PosLen { blockpos, blocklen, key }
    }

    /// Writes `block` out, which was the last pending block, and puts a
    /// pointer to it into the block one level up.
    #[verifier::rlimit(40)]
    fn flush_block_buffer(&mut self, block: PendingBlock) -> (r: Result<(), Error>)
        requires
            old(self).shape(),
            block.members@.len() > 0,
            block.members_storable(),
            old(self)@.blocks.len() > 0 ==> old(self)@.blocks.last().level == block.level + 1,
            old(self).intact() ==> sound(
                WriterModel { blocks: old(self)@.blocks.push(block.model()), ..old(self)@ },
            ),
            old(self).intact() ==> branching(block.model().members, block.level),
        ensures
            final(self).shape(),
            final(self)@.compress == old(self)@.compress,
            steady(old(self)@.compress, r) ==> final(self)@ == flush(
                WriterModel { blocks: old(self)@.blocks.push(block.model()), ..old(self)@ },
                block.level,
            ).0,
            steady(old(self)@.compress, r) ==> r == flush(
                WriterModel { blocks: old(self)@.blocks.push(block.model()), ..old(self)@ },
                block.level,
            ).1,
            r is Ok ==> final(self)@.blocks.len() > 0 && final(self)@.blocks.last().level
                > block.level,
            final(self)@.input == old(self)@.input,
            final(self).keys() == old(self).keys(),
            final(self).image() == old(self).image(),
            final(self).intact() == (old(self).intact() && r is Ok),
            final(self).intact() ==> sound(final(self)@),
            old(self).intact() && rising(old(self)@.input) ==> r != Err::<(), Error>(
                Error::OutOfOrderWrite,
            ),
        decreases u16::MAX - block.level, 0int,
    {
        let ghost w0 = self@;
        let ghost start = WriterModel { blocks: w0.blocks.push(block.model()), ..w0 };
        let payload = match self.compress_block(&block) {
            Ok(payload) => payload,
            Err(e) => {
                self.intact = Ghost(false);
                proof {
                    if !w0.compress.gives_up(e) {
                        lemma_write_out_failed(w0, block.model(), e);
                    }
                }
                return Err(e);
            },
        };
        let (blockpos, blocklen) = self.write_block(block.level, &payload);
        proof {
            assert(block.model().members[0] == block.members@[0]@);
        }
        let pointer = Self::pointer_to(&block.members[0], blockpos, blocklen);
        proof {
            lemma_write_out_done(w0, block.model(), payload@);
        }
        if block.level == u16::MAX {
            self.intact = Ghost(false);
            return Err(Error::TreeTooDeep);
        }
        proof {
            if self.intact@ {
                assert(forall|i: int|
                    0 <= i < block.model().members.len() ==> (
                    #[trigger] block.model().members[i]).storable());
                lemma_flush_ready(w0, block.model(), payload@);
            }
        }
        self.append_to_block(block.level + 1, pointer)
    }

    /// Writes out what is pending, the lowest block first, up to an inner
    /// block with a single pointer.
    #[verifier::rlimit(40)]
    fn drain_pending(&mut self) -> (r: Result<(), Error>)
        requires
            old(self).wf(),
        ensures
            final(self).shape(),
            steady(old(self)@.compress, r) ==> final(self)@ == drain(old(self)@, 0).0,
            steady(old(self)@.compress, r) ==> r == drain(old(self)@, 0).1,
            old(self)@.blocks.len() == 0 || is_solo(old(self)@.blocks.last()) ==> r is Ok,
            final(self).image() == old(self).image(),
            final(self).keys() == old(self).keys(),
            r is Ok ==> final(self).intact() == old(self).intact(),
            final(self).intact() ==> sound(final(self)@),
            r is Ok ==> final(self)@.input == old(self)@.input,
            r is Ok && final(self)@.blocks.len() > 0 ==> is_solo(final(self)@.blocks.last()),
    {
        let ghost start = self@;
        let ghost mut from: int = 0;
        let ghost mut moved: bool = false;
        loop
            invariant_except_break
                self.shape(),
                0 <= from <= u16::MAX + 1,
                self@.blocks.len() > 0 ==> self@.blocks.last().level >= from,
                drain(self@, from) == drain(start, 0),
                self.image() == old(self).image(),
                self.keys() == old(self).keys(),
                self.intact() == old(self).intact(),
                self.intact() ==> sound(self@),
                self@.input == start.input,
                self@.compress == start.compress,
                !moved ==> self@ == start,
                moved ==> start.blocks.len() > 0 && !is_solo(start.blocks.last()),
            invariant
                start == old(self)@,
            ensures
                self.shape(),
                self.image() == old(self).image(),
                self.keys() == old(self).keys(),
                self.intact() == old(self).intact(),
                self.intact() ==> sound(self@),
                self@.input == start.input,
                self@.blocks.len() > 0 ==> is_solo(self@.blocks.last()),
                drain(start, 0) == (self@, Ok::<(), Error>(())),
            decreases u16::MAX + 1 - from,
        {
            let count: usize = self.blocks.len();
            if count == 0 {
                break ;
            }
            proof {
                assert(self@.blocks.last() == self.blocks@[count - 1].model());
            }
            if self.blocks[count - 1].is_solo_inner_block() {
                break ;
            }
            let ghost all = self@;
            proof {
                moved = true;
            }
            let block = self.pop_block();
            proof {
                assert(all == (WriterModel {
                    blocks: self@.blocks.push(block.model()),
                    ..self@
                })) by {
                    assert(all.blocks =~= self@.blocks.push(block.model()));
                }
                assert(drain(all, from) == if block.members@.len() == 0 {
                    drain(self@, block.level + 1)
                } else {
                    let flushed = flush(all, block.level);
                    if flushed.1 is Err {
                        flushed
                    } else {
                        drain(flushed.0, block.level + 1)
                    }
                });
                from = block.level + 1;
                if self.intact@ && block.members@.len() == 0 {
                    lemma_drop_empty(all);
                }
                if self@.blocks.len() > 0 {
                    assert(self@.blocks.last() == all.blocks[all.blocks.len() - 2]);
                }
            }
            if block.members.len() > 0 {
                let flushed = self.flush_block_buffer(block);
                match flushed {
                    Ok(_) => {
                        proof {
                            assert(steady(start.compress, flushed));
                        }
                    },
                    Err(e) => {
                        proof {
                            if !start.compress.gives_up(e) {
                                assert(steady(start.compress, flushed));
                            }
                        }
                        return Err(e);
                    },
                }
            }
        }
        Ok(())
    }

    /// Ends the file, whose pending blocks are written out, with the
    /// trailer. Where no block was written, an empty leaf block is written
    /// first for the trailer to point at, and the trailer holds no bloom
    /// filter.
    fn seal(self) -> (r: Result<Vec<u8>, Error>)
        requires
            self.shape(),
        ensures
            match r {
                Ok(file) => {
                    &&& sealed_file(self@, self.image()) == Ok::<Seq<u8>, Error>(file@)
                    &&& self@.last_node is Some ==> (self.image() matches Some(image)
                        && trailer_keys(image) == Some(self.keys()) && image.len() <= u32::MAX)
                    &&& self@.last_node is Some ==> carries_filter(file@, self.keys())
                },
                Err(_) => false,
            },
    {
        let mut w = self;
        match w.last_node_pos {
            None => {
                w.file.push(0);
                w.file.push(0);
                w.file.push(0);
                w.file.push(0);
                w.file.push(0);
                w.file.push(0);
                let encoded = Trailer::encode_empty(FIRST_BLOCK_POS);
                let mut file = w.file;
                push_all(&mut file, encoded.as_slice());
                proof {
                    reveal(sealed_file);
                    assert(file@ =~= self@.file + seq![0u8, 0u8, 0u8, 0u8, 0u8, 0u8] + trailer_bytes(
                        Seq::empty(),
                        FIRST_BLOCK_POS,
                    ));
                }
                Ok(file)
            },
            Some(root_pos) => {
                let trailer = Trailer::with_bloom_filter(w.bloom, root_pos);
                match trailer.encode() {
                    Ok(encoded) => {
                        let mut file = w.file;
                        push_all(&mut file, encoded.as_slice());
                        proof {
                            reveal(sealed_file);
                            crate::sound::lemma_trailer_reads(
                                self@.file,
                                self.image()->Some_0,
                                root_pos,
                            );
                        }
                        Ok(file)
                    },
                    Err(e) => {
                        proof {
                            reveal(sealed_file);
                        }
                        Err(e)
                    },
                }
            },
        }
    }

    /// Writes out what is pending, the lowest block first, up to an inner
    /// block with a single pointer, and ends the file with the trailer.
    /// Returns the bytes of the complete file.
    ///
    /// The file of an intact writer reads back as the entries that went in
    /// where closing ends with at most that one inner block pending, and
    /// only there: where it ends with blocks beneath that block, what hangs
    /// on them is not in the tree; the file is a tree all the same, in
    /// every block of which the keys rise, and so they do in the blocks
    /// beside the tree, which hang on what stayed pending. Whatever became of the calls before,
    /// a file with a block in it carries the bloom filter of the writer,
    /// which says yes to the key of every leaf entry that the writer took;
    /// and the file of an intact writer that took an entry has a block in it.
    pub fn close(self) -> (r: Result<Vec<u8>, Error>)
        requires
            self.wf(),
        ensures
            match r {
                Ok(file) => drain(self@, 0).1 is Ok && closed_file(self@, self.image()) == Ok::<
                    Seq<u8>,
                    Error,
                >(file@),
                Err(e) => self@.compress.gives_up(e) || drain(self@, 0).1 == Err::<(), Error>(e),
            },
            self@.blocks.len() == 0 || is_solo(self@.blocks.last()) ==> r is Ok,
            r is Ok && self.intact() ==> opens(r->Ok_0@),
            r is Ok && self.intact() ==> (closes_whole(self@) <==> holds_entries(
                r->Ok_0@,
                self@.input,
            )),
            r is Ok && self.intact() ==> is_tree(r->Ok_0@),
            r is Ok && self.intact() ==> stack_sealed(r->Ok_0@, drain(self@, 0).0.blocks)
                && stack_leaves(r->Ok_0@, drain(self@, 0).0.blocks) == self@.input,
            r is Ok && drain(self@, 0).0.last_node is Some ==> carries_filter(
                r->Ok_0@,
                self.keys(),
            ),
            r is Ok && self.intact() && self@.input.len() > 0 ==> drain(self@, 0).0.last_node
                is Some,
            Self::covers_leaves(self.keys(), self@.input),
    {
        let mut w = self;
        proof {
            reveal(closed_file);
        }
        w.drain_pending()?;
        let ghost drained = w@;
        let ghost keys = w.keys();
        let file = w.seal()?;
        proof {
            if self.intact() {
                lemma_sealed_pending(drained, self.image(), file@);
                if closes_whole(self@) {
                    lemma_sealed_holds(drained, self.image(), self.keys(), file@);
                    lemma_closed_reads(drained, Seq::empty());
                } else {
                    lemma_sealed_loses(drained, self.image(), file@);
                }
            }
        }
        Ok(file)
    }

    /// Closes the writer where that loses nothing. Returns the bytes of the
    /// complete file, or nothing where closing would end with blocks
    /// beneath the one that becomes the root; what hangs on them would not
    /// be in the tree.
    pub fn close_whole(self) -> (r: Result<Option<Vec<u8>>, Error>)
        requires
            self.wf(),
        ensures
            match r {
                Ok(Some(file)) => closes_whole(self@) && closed_file(self@, self.image()) == Ok::<
                    Seq<u8>,
                    Error,
                >(file@) && (self.intact() ==> holds_entries(file@, self@.input)),
                Ok(None) => !closes_whole(self@) && drain(self@, 0).1 is Ok,
                Err(e) => self@.compress.gives_up(e) || drain(self@, 0).1 == Err::<(), Error>(e),
            },
    {
        let mut w = self;
        proof {
            reveal(closed_file);
        }
        w.drain_pending()?;
        if w.blocks.len() > 1 {
            return Ok(None);
        }
        let ghost drained = w@;
        let file = w.seal()?;
        proof {
            if self.intact() {
                lemma_sealed_holds(drained, self.image(), self.keys(), file@);
            }
        }
        Ok(Some(file))
    }
}

/// A writer that takes an entry counts it among what went in: a leaf entry
/// that is taken is the last of what went in, and a pointer changes nothing
/// of it.
pub proof fn lemma_append_input(w: WriterModel, level: u16, entry: EntryModel)
    ensures
        append(w, level, entry).1 is Ok ==> append(w, level, entry).0.input == if level == 0 {
            w.input.push(entry)
        } else {
            w.input
        },
        level > 0 ==> append(w, level, entry).0.input == w.input,
        level == 0 ==> append(w, level, entry).0.input == w.input || append(
            w,
            level,
            entry,
        ).0.input == w.input.push(entry),
    decreases u16::MAX - level, 1int,
{
    match take(w, level, entry) {
        Taken::Full(full) => {
            lemma_flush_input(full, level);
        },
        _ => {},
    }
}

/// Writing a block out changes nothing of what went in.
pub proof fn lemma_flush_input(w: WriterModel, level: u16)
    ensures
        flush(w, level).0.input == w.input,
    decreases u16::MAX - level, 0int,
{
    reveal(write_out);
    match write_out(w, level) {
        Written::Done(written, pointer) => {
            if level < u16::MAX {
                lemma_append_input(written, (level + 1) as u16, pointer);
            }
        },
        _ => {},
    }
}

/// A writer that has taken entries one after another has them behind what
/// went in before, in order.
pub proof fn lemma_append_all_input(w: WriterModel, entries: Seq<EntryModel>)
    ensures
        append_all(w, entries).1 is Ok ==> append_all(w, entries).0.input == w.input + entries,
    decreases entries.len(),
{
    if entries.len() == 0 {
        assert(w.input + entries =~= w.input);
    } else {
        let first = append(w, 0, entries[0]);
        lemma_append_input(w, 0, entries[0]);
        if first.1 is Ok {
            lemma_append_all_input(first.0, entries.skip(1));
            assert(w.input.push(entries[0]) + entries.skip(1) =~= w.input + entries);
        }
    }
}

/// An entry whose key is not above the key of the entry before it in the
/// pending leaf block is refused as out of order, and the writer stays as
/// it is.
pub proof fn lemma_out_of_order(w: WriterModel, entry: EntryModel)
    requires
        w.blocks.len() > 0,
        w.blocks.last().level == 0,
        w.blocks.last().members.len() > 0,
        key_le(entry.key(), w.blocks.last().members.last().key()),
    ensures
        append(w, 0, entry) == (w, Err::<(), Error>(Error::OutOfOrderWrite)),
{
}

/// An entry whose key is above the key of the entry before it in the
/// pending leaf block, or that is the first of its block, is not refused as
/// out of order.
pub proof fn lemma_in_order(w: WriterModel, entry: EntryModel)
    requires
        w.blocks.len() > 0 ==> w.blocks.last().level == 0,
        w.blocks.len() > 0 && w.blocks.last().members.len() > 0 ==> key_lt(
            w.blocks.last().members.last().key(),
            entry.key(),
        ),
    ensures
        !(take(w, 0, entry) is Rejected),
{
    if w.blocks.len() > 0 && w.blocks.last().members.len() > 0 {
        lemma_key_lt_total(w.blocks.last().members.last().key(), entry.key());
    } else if w.blocks.len() == 0 {
        assert(ensure_level(w.blocks, 0).last().members.len() == 0);
    }
}

/// The trailer that closing writes: the serialized bloom filter where a
/// block was written, and none where none was.
pub open spec fn trailer_image(d: WriterModel, image: Option<Seq<u8>>) -> Seq<u8> {
    if d.last_node is Some && image is Some {
        image->Some_0
    } else {
        Seq::empty()
    }
}

/// The bytes of a sealed file.
proof fn lemma_sealed_bytes(d: WriterModel, image: Option<Seq<u8>>, file: Seq<u8>)
    requires
        sealed_file(d, image) == Ok::<Seq<u8>, Error>(file),
    ensures
        file == closed_bytes(d, trailer_image(d, image)),
        trailer_image(d, image).len() <= u32::MAX,
        d.last_node is Some ==> image is Some,
{
    reveal(sealed_file);
}

/// In the file of a sound writer, what stayed pending is sealed, and the
/// entries that went in are the leaf entries under it: every block that
/// holds one of them, in the tree of the file or beside it, can be read, has
/// keys that rise strictly, and holds leaf entries or pointers by its
/// level.
proof fn lemma_sealed_pending(d: WriterModel, image: Option<Seq<u8>>, file: Seq<u8>)
    requires
        sound(d),
        sealed_file(d, image) == Ok::<Seq<u8>, Error>(file),
    ensures
        stack_sealed(file, d.blocks),
        stack_leaves(file, d.blocks) == d.input,
{
    reveal(sound);
    lemma_sealed_bytes(d, image, file);
    let raw = trailer_image(d, image);
    match d.last_node {
        Some((pos, _)) => {
            lemma_stack_stable(d.file, trailer_bytes(raw, pos), d.blocks);
        },
        None => {
            let more = seq![0u8, 0u8, 0u8, 0u8, 0u8, 0u8] + trailer_bytes(raw, 4u64);
            assert(d.file + seq![0u8, 0u8, 0u8, 0u8, 0u8, 0u8] + trailer_bytes(raw, 4u64) =~= d.file
                + more);
            lemma_stack_stable(d.file, more, d.blocks);
        },
    }
}

/// A file that reads back as what went in, and whose bloom filter says yes
/// to the key of every entry that went in, holds the entries.
proof fn lemma_reads_back_holds(d: WriterModel, raw: Seq<u8>, keys: Set<Seq<u8>>)
    requires
        reads_back(d, raw),
        trailer_keys(raw) == Some(keys),
        Writer::covers(keys, d.input),
    ensures
        holds_entries(closed_bytes(d, raw), d.input),
{
    reveal(reads_back);
}

/// The file of a sound writer with at most the one inner block with the
/// one pointer pending holds the entries that went in.
proof fn lemma_sealed_holds(
    d: WriterModel,
    image: Option<Seq<u8>>,
    keys: Set<Seq<u8>>,
    file: Seq<u8>,
)
    requires
        sound(d),
        d.blocks.len() <= 1,
        d.blocks.len() > 0 ==> is_solo(d.blocks.last()),
        sealed_file(d, image) == Ok::<Seq<u8>, Error>(file),
        Writer::covers(keys, d.input),
        d.last_node is Some ==> trailer_keys(image->Some_0) == Some(keys),
    ensures
        holds_entries(file, d.input),
{
    let raw = trailer_image(d, image);
    lemma_sealed_bytes(d, image, file);
    if d.blocks.len() == 1 {
        assert(d.blocks.last() == d.blocks[0]);
    }
    lemma_closed_reads(d, raw);
    if d.last_node is Some {
        lemma_reads_back_holds(d, raw, keys);
    } else {
        lemma_reads_back_holds(d, raw, Set::<Seq<u8>>::empty());
    }
}

/// The file of a sound writer with blocks pending beneath the one inner
/// block with the one pointer does not hold the entries that went in.
proof fn lemma_sealed_loses(d: WriterModel, image: Option<Seq<u8>>, file: Seq<u8>)
    requires
        sound(d),
        d.blocks.len() >= 2,
        is_solo(d.blocks.last()),
        sealed_file(d, image) == Ok::<Seq<u8>, Error>(file),
    ensures
        !holds_entries(file, d.input),
        is_tree(file),
        d.last_node is Some,
{
    let raw = trailer_image(d, image);
    lemma_sealed_bytes(d, image, file);
    lemma_closed_loses(d, raw);
}

/// The bytes of entries are the bytes of the first and of the rest, and
/// none of them are fewer than nothing.
proof fn lemma_encoded_total_front(entries: Seq<EntryModel>)
    ensures
        encoded_total(entries) >= 0,
        entries.len() > 0 ==> encoded_total(entries) == entries[0].encoded_len() + encoded_total(
            entries.skip(1),
        ),
    decreases entries.len(),
{
    if entries.len() == 1 {
        assert(entries.drop_last() =~= Seq::<EntryModel>::empty());
        assert(entries.skip(1) =~= Seq::<EntryModel>::empty());
        assert(encoded_total(entries.drop_last()) == 0);
        assert(encoded_total(entries.skip(1)) == 0);
    } else if entries.len() > 1 {
        lemma_encoded_total_front(entries.drop_last());
        lemma_encoded_total_front(entries.skip(1));
        assert(entries.drop_last().skip(1) =~= entries.skip(1).drop_last());
        assert(entries.drop_last()[0] == entries[0]);
        assert(entries.skip(1).last() == entries.last());
    }
}

/// The members of the one pending leaf block of `w`, if there is one.
spec fn held(w: WriterModel) -> Seq<EntryModel> {
    if w.blocks.len() == 1 {
        w.blocks[0].members
    } else {
        Seq::empty()
    }
}

/// A writer with at most a leaf block pending takes entries that rise and
/// do not fill the block into that block, and writes nothing.
proof fn lemma_small_taken(w: WriterModel, entries: Seq<EntryModel>)
    requires
        w.blocks.len() <= 1,
        w.blocks.len() == 1 ==> w.blocks[0].level == 0,
        ascending(entries),
        entries.len() > 0 && held(w).len() > 0 ==> key_lt(held(w).last().key(), entries[0].key()),
        encoded_total(held(w)) + encoded_total(entries) < BLOCK_SIZE,
    ensures
        append_all(w, entries).1 is Ok,
        entries.len() > 0 ==> append_all(w, entries).0 == (WriterModel {
            blocks: seq![PendingModel { level: 0, members: held(w) + entries }],
            input: w.input + entries,
            ..w
        }),
    decreases entries.len(),
{
    if entries.len() > 0 {
        let e = entries[0];
        let rest = entries.skip(1);
        lemma_encoded_total_front(entries);
        lemma_encoded_total_front(rest);
        let blocks = ensure_level(w.blocks, 0);
        assert(blocks =~= seq![PendingModel { level: 0, members: held(w) }]);
        let top = blocks.last();
        if top.members.len() > 0 {
            lemma_key_lt_total(top.members.last().key(), e.key());
        }
        let grown = PendingModel { level: 0, members: top.members.push(e) };
        assert(grown.members.drop_last() =~= top.members);
        assert(encoded_total(grown.members) == encoded_total(top.members) + e.encoded_len());
        let taken = WriterModel {
            blocks: blocks.drop_last().push(grown),
            input: w.input.push(e),
            ..w
        };
        assert(take(w, 0, e) == Taken::Kept(taken));
        assert(taken.blocks =~= seq![grown]);
        assert(held(taken) == grown.members);
        if rest.len() > 0 {
            assert(rest[0] == entries[1]);
            assert(key_lt(entries[0].key(), entries[1].key()));
        }
        assert(ascending(rest)) by {
            assert forall|i: int, j: int| 0 <= i < j < rest.len() implies key_lt(
                (#[trigger] rest[i]).key(),
                (#[trigger] rest[j]).key(),
            ) by {
                assert(rest[i] == entries[i + 1] && rest[j] == entries[j + 1]);
            }
        }
        lemma_small_taken(taken, rest);
        assert(grown.members + rest =~= held(w) + entries);
        assert(w.input.push(e) + rest =~= w.input + entries);
        if rest.len() == 0 {
            assert(grown.members =~= held(w) + entries);
            assert(w.input.push(e) =~= w.input + entries);
        }
    }
}

/// Closing a writer whose one pending block is a leaf block, with a first
/// key whose pointer does not fill a block, leaves no block beneath the
/// root.
proof fn lemma_leaf_closes_whole(w: WriterModel)
    requires
        w.blocks.len() == 1,
        w.blocks[0].level == 0,
        w.blocks[0].members.len() > 0,
        (EntryModel::PosLen { blockpos: 0, blocklen: 0, key: w.blocks[0].members[0].key() })
            .encoded_len() < BLOCK_SIZE,
    ensures
        closes_whole(w),
        block_bytes(w.compress, 0, w.blocks[0].members) is Ok ==> drain(w, 0).1 is Ok,
{
    reveal(write_out);
    assert(w.blocks.last() == w.blocks[0]);
    assert(w.blocks.drop_last() =~= Seq::<PendingModel>::empty());
    match write_out(w, 0) {
        Written::Failed(popped, e) => {
            assert(drain(w, 0) == flush(w, 0));
            assert(block_bytes(w.compress, 0, w.blocks[0].members) is Err);
        },
        Written::Done(written, pointer) => {
            let blocks = ensure_level(written.blocks, 1);
            assert(blocks =~= seq![PendingModel { level: 1, members: Seq::empty() }]);
            let grown = PendingModel { level: 1, members: seq![pointer] };
            assert(blocks.last().members.push(pointer) =~= seq![pointer]);
            assert(seq![pointer].drop_last() =~= Seq::<EntryModel>::empty());
            assert(encoded_total(seq![pointer].drop_last()) == 0);
            assert(encoded_total(seq![pointer]) == pointer.encoded_len());
            crate::bytes::lemma_be_round_trip(0, 0, 0);
            assert(pointer.encoded_len() == (EntryModel::PosLen {
                blockpos: 0,
                blocklen: 0,
                key: w.blocks[0].members[0].key(),
            }).encoded_len());
            let kept = WriterModel { blocks: blocks.drop_last().push(grown), ..written };
            assert(take(written, 1, pointer) == Taken::Kept(kept));
            assert(kept.blocks =~= seq![grown]);
            assert(flush(w, 0) == (kept, Ok::<(), Error>(())));
            assert(is_solo(kept.blocks.last()));
            assert(drain(kept, 1) == (kept, Ok::<(), Error>(())));
            assert(drain(w, 0) == drain(kept, 1));
        },
    }
}

/// The encodings of entries, one after another, are as long as the
/// entries take on disk.
pub proof fn lemma_concat_len(entries: Seq<EntryModel>)
    ensures
        concat_encoded(entries).len() == encoded_total(entries),
    decreases entries.len(),
{
    if entries.len() > 0 {
        lemma_concat_len(entries.drop_last());
    }
}

/// No file fails to be written from entries that fit one block where
/// nothing is compressed.
pub proof fn lemma_small_file_written(entries: Seq<EntryModel>, e: Error)
    requires
        entries.len() > 0,
        ascending(entries),
        encoded_total(entries) < BLOCK_SIZE,
        (EntryModel::PosLen { blockpos: 0, blocklen: 0, key: entries[0].key() }).encoded_len()
            < BLOCK_SIZE,
    ensures
        !is_file_error(e, entries, Compression::Uncompressed),
{
    lemma_small_closes_whole(entries, Compression::Uncompressed);
}

/// Entries that fit one block close whole. Where the keys of entries rise,
/// their encodings together are shorter than a block, and so is a pointer
/// under the first key, a fresh writer takes them all, and closing it
/// leaves no block beneath the root: its file holds them. Closing succeeds
/// where the codec takes the one block, as it does where there is none.
pub proof fn lemma_small_closes_whole(entries: Seq<EntryModel>, compress: Compression)
    requires
        entries.len() > 0,
        ascending(entries),
        encoded_total(entries) < BLOCK_SIZE,
        (EntryModel::PosLen { blockpos: 0, blocklen: 0, key: entries[0].key() }).encoded_len()
            < BLOCK_SIZE,
    ensures
        append_all(Writer::fresh(compress), entries).1 is Ok,
        closes_whole(append_all(Writer::fresh(compress), entries).0),
        block_bytes(compress, 0, entries) is Ok ==> drain(
            append_all(Writer::fresh(compress), entries).0,
            0,
        ).1 is Ok,
        compress == Compression::Uncompressed ==> drain(
            append_all(Writer::fresh(compress), entries).0,
            0,
        ).1 is Ok,
{
    lemma_concat_len(entries);
    let w = Writer::fresh(compress);
    assert(held(w) =~= Seq::<EntryModel>::empty());
    assert(encoded_total(held(w)) == 0);
    lemma_small_taken(w, entries);
    assert(held(w) + entries =~= entries);
    lemma_leaf_closes_whole(append_all(w, entries).0);
}

/// A writer that took nothing closes whole.
pub proof fn lemma_fresh_closes_whole(compress: Compression)
    ensures
        closes_whole(Writer::fresh(compress)),
{
}

/// Whether closing the writer `w` leaves no block beneath the one that
/// becomes the root: once the pending blocks are written out, at most the
/// one inner block with the one pointer is pending.
pub open spec fn closes_whole(w: WriterModel) -> bool {
    drain(w, 0).0.blocks.len() <= 1
}

/// Whether `file` is a tree file: it starts with the magic, its trailer can
/// be read, and from the root that the trailer gives down, every block can
/// be read, is one level below the block that points to it, is not empty
/// where a pointer leads to it, holds leaf entries at the bottom and
/// pointers above it, and has keys that rise strictly, of which the first
/// is the key of the pointer to the block.
pub open spec fn is_tree(file: Seq<u8>) -> bool {
    &&& has_magic(file)
    &&& trailer_at(file) matches Ok((_, root_pos))
    &&& rooted(file, root_pos)
}

/// Whether the trailer of `file` carries a bloom filter, and the filter
/// says yes to the keys of `keys` and to no others.
pub open spec fn carries_filter(file: Seq<u8>, keys: Set<Seq<u8>>) -> bool {
    trailer_at(file) matches Ok((raw, _)) && raw.len() > 0 && trailer_keys(raw) == Some(keys)
}

/// Whether `file` is a tree file that holds `entries`: it starts with the
/// magic, its trailer can be read, a walk from the root that the trailer
/// gives yields `entries`, in order, and the bloom filter of the trailer
/// says yes to the key of each of them.
pub open spec fn holds_entries(file: Seq<u8>, entries: Seq<EntryModel>) -> bool {
    &&& has_magic(file)
    &&& trailer_at(file) matches Ok((raw, root_pos))
    &&& tree_entries(file, root_pos) == Ok::<Seq<EntryModel>, Error>(entries)
    &&& trailer_keys(raw) matches Some(keys)
    &&& Writer::covers(keys, entries)
    &&& rooted(file, root_pos)
}

/// The complete file that holds `entries`, written through `compress`, with
/// a bloom filter sized for `expected_num_items` keys.
pub fn write_file(entries: &Vec<Entry>, expected_num_items: usize, compress: Compression) -> (r:
    Result<Vec<u8>, Error>)
    requires
        all_storable(entries.deep_view()),
    ensures
        match r {
            Ok(file) => is_file_of(file@, entries.deep_view(), compress),
            Err(e) => is_file_error(e, entries.deep_view(), compress),
        },
{
    proof {
        lemma_append_all_input(Writer::fresh(compress), entries.deep_view());
        assert(Seq::<EntryModel>::empty() + entries.deep_view() =~= entries.deep_view());
    }
    let mut writer = Writer::with_expected_num_items(expected_num_items, compress);
    match writer.add_all(entries) {
        Ok(_) => {},
        Err(e) => {
            return Err(e);
        },
    }
    let ghost built = writer@;
    let ghost image = writer.image();
    match writer.close() {
        Ok(file) => {
            proof {
                assert(closes_as(built, image, file@));
            }
            Ok(file)
        },
        Err(e) => {
            proof {
                assert(is_file_error(e, entries.deep_view(), compress));
            }
            Err(e)
        },
    }
}

} // verus!
