//! Reading a tree file: the trailer, the descent to one key, and the walk
//! over all leaf entries in order.
//!
//! A tree file is the magic `HAN3`, blocks written bottom-up, and a trailer.
//! The root is the block the trailer points at. An inner block holds
//! pointers to blocks of lower levels, each under the first key of its
//! child.
use vstd::prelude::*;
use crate::block::{Block, BlockHeader, EntryIterator, entries_at, header_at, header_at_length};
use crate::bytes::{be_u32, be_u64, read_u32, read_u64, copy_range};
use crate::entry::{Entry, EntryModel};
use crate::error::Error;
use crate::key::{key_lt, less, same};
use crate::trailer::{trailer_keys, Trailer};

verus! {

/// The first four bytes of every tree file, `HAN3`, as a big-endian number.
pub const MAGIC: u32 = 0x48414E33;

/// A tree file held in memory, with its trailer read.
#[derive(Debug)]
pub struct Tree {
    file: Vec<u8>,
    trailer: Trailer,
}

/// One block on the way from the root to where a walk stands: the entries
/// of the block still to come, and its level.
#[derive(Debug)]
pub struct Frame {
    pub entries: EntryIterator,
    pub level: u16,
}

/// A walk over the leaf entries of a tree, in order. It holds a handle of
/// its own on the file.
#[derive(Debug)]
pub struct TreeEntryIterator {
    file: Vec<u8>,
    levels: Vec<Frame>,
}

/// What an open tree file holds, as mathematical values.
pub struct TreeModel {
    /// The bytes of the file.
    pub file: Seq<u8>,
    /// Where the root block starts.
    pub root_pos: u64,
    /// The keys that the bloom filter of the file says yes to.
    pub keys: Set<Seq<u8>>,
}

impl TreeModel {
    /// What a lookup of `key` finds: nothing where the bloom filter says
    /// no, else what the descent from the root finds.
    pub open spec fn get(self, key: Seq<u8>) -> Result<Option<EntryModel>, Error> {
        if !self.keys.contains(key) {
            Ok(None)
        } else {
            lookup(self.file, self.root_pos, key)
        }
    }

    /// The leaf entries of the tree in order, or why the root cannot be
    /// read.
    pub open spec fn entries(self) -> Result<Seq<EntryModel>, Error> {
        tree_entries(self.file, self.root_pos)
    }
}

/// Whether `file` starts with the magic.
pub open spec fn has_magic(file: Seq<u8>) -> bool {
    file.len() >= 4 && be_u32(file) == MAGIC
}

/// The serialized bloom filter and the position of the root that the end of
/// `file` gives, or why it gives none.
pub open spec fn trailer_at(file: Seq<u8>) -> Result<(Seq<u8>, u64), Error> {
    let len = file.len() as int;
    if len < 12 {
        Err(Error::CorruptedFile("file too short for a trailer"))
    } else {
        let bloom_len = be_u32(file.skip(len - 12)) as int;
        let root_pos = be_u64(file.skip(len - 8));
        if len - 16 < bloom_len {
            Err(Error::CorruptedFile("trailer outside bounds of file"))
        } else if file.subrange(len - 16 - bloom_len, len - 12 - bloom_len) != seq![
            0u8,
            0u8,
            0u8,
            0u8,
        ] {
            Err(Error::CorruptedFile("missing trailer padding"))
        } else if root_pos >= len {
            Err(Error::CorruptedFile("root block position outside bounds of file"))
        } else {
            Ok((file.subrange(len - 12 - bloom_len, len - 12), root_pos))
        }
    }
}

/// Of the entries before the first pointer whose key is above `key`, the
/// last one; `prev` where there is none. This is the child to descend into.
pub open spec fn select_from(prev: Option<EntryModel>, rest: Seq<EntryModel>, key: Seq<u8>)
    -> Option<EntryModel>
    decreases rest.len(),
{
    if rest.len() == 0 {
        prev
    } else if rest[0] is PosLen && key_lt(key, rest[0].key()) {
        prev
    } else {
        select_from(Some(rest[0]), rest.skip(1), key)
    }
}

/// The first of `entries` whose key is `key`.
pub open spec fn find(entries: Seq<EntryModel>, key: Seq<u8>) -> Option<EntryModel>
    decreases entries.len(),
{
    if entries.len() == 0 {
        None
    } else if entries[0].key() == key {
        Some(entries[0])
    } else {
        find(entries.skip(1), key)
    }
}

/// The header of the block that `entry` points at, which must lie below
/// `level`; or why there is no such block.
pub open spec fn child_at(file: Seq<u8>, entry: EntryModel, level: u16) -> Result<
    (int, BlockHeader),
    Error,
> {
    match entry {
        EntryModel::PosLen { blockpos, blocklen, .. } => match header_at_length(
            file,
            blockpos as int,
            blocklen,
        ) {
            Err(e) => Err(e),
            Ok(h) => if h.level < level {
                Ok((blockpos as int, h))
            } else {
                Err(Error::CorruptedFile("child block is not below its parent"))
            },
        },
        _ => Err(Error::PosLenEntryRequired),
    }
}

/// What the descent from the block with header `h` at `start` finds for
/// `key`: at a leaf the first entry with that key; at an inner block what
/// the descent finds in the selected child, or nothing where no child is
/// selected.
pub open spec fn descend(file: Seq<u8>, start: int, h: BlockHeader, key: Seq<u8>) -> Result<
    Option<EntryModel>,
    Error,
>
    decreases h.level,
{
    match entries_at(file, start, h) {
        Err(e) => Err(e),
        Ok(entries) => if h.level == 0 {
            Ok(find(entries, key))
        } else {
            match select_from(None, entries, key) {
                None => Ok(None),
                Some(entry) => match child_at(file, entry, h.level) {
                    Err(e) => Err(e),
                    Ok((pos, child)) => descend(file, pos, child, key),
                },
            }
        },
    }
}

/// What a lookup of `key` finds in the file whose root is at `root_pos`.
pub open spec fn lookup(file: Seq<u8>, root_pos: u64, key: Seq<u8>) -> Result<
    Option<EntryModel>,
    Error,
> {
    match header_at(file, root_pos as int) {
        Err(e) => Err(e),
        Ok(h) => descend(file, root_pos as int, h, key),
    }
}

/// The leaf entries that a walk yields from `entries`, which stand in a
/// block of this level: a leaf entry is yielded, a pointer is followed into
/// its child. The flag says whether the walk came to the end of `entries`;
/// it is `false` where a child could not be opened, and the walk ends there.
#[verifier::opaque]
pub open spec fn walk(file: Seq<u8>, entries: Seq<EntryModel>, level: u16) -> (
    Seq<EntryModel>,
    bool,
)
    decreases level, entries.len(),
{
    if entries.len() == 0 {
        (Seq::empty(), true)
    } else if entries[0] is PosLen {
        match child_at(file, entries[0], level) {
            Err(_) => (Seq::empty(), false),
            Ok((pos, h)) => match entries_at(file, pos, h) {
                Err(_) => (Seq::empty(), false),
                Ok(child) => {
                    let below = walk(file, child, h.level);
                    if below.1 {
                        let rest = walk(file, entries.skip(1), level);
                        (below.0 + rest.0, rest.1)
                    } else {
                        (below.0, false)
                    }
                },
            },
        }
    } else {
        let rest = walk(file, entries.skip(1), level);
        (seq![entries[0]] + rest.0, rest.1)
    }
}

/// A walk over no entries yields nothing and comes to its end.
pub proof fn lemma_walk_nothing(file: Seq<u8>, level: u16)
    ensures
        walk(file, Seq::<EntryModel>::empty(), level) == (Seq::<EntryModel>::empty(), true),
{
    reveal(walk);
}

/// How a walk goes on from its first entry.
pub proof fn lemma_walk_first(file: Seq<u8>, entries: Seq<EntryModel>, level: u16)
    requires
        entries.len() > 0,
    ensures
        walk(file, entries, level) == if entries[0] is PosLen {
            match child_at(file, entries[0], level) {
                Err(_) => (Seq::<EntryModel>::empty(), false),
                Ok((pos, h)) => match entries_at(file, pos, h) {
                    Err(_) => (Seq::<EntryModel>::empty(), false),
                    Ok(child) => {
                        let below = walk(file, child, h.level);
                        if below.1 {
                            let rest = walk(file, entries.skip(1), level);
                            (below.0 + rest.0, rest.1)
                        } else {
                            (below.0, false)
                        }
                    },
                },
            }
        } else {
            let rest = walk(file, entries.skip(1), level);
            (seq![entries[0]] + rest.0, rest.1)
        },
{
    reveal(walk);
}

/// No entry is a pointer to a block.
pub open spec fn all_leaves(entries: Seq<EntryModel>) -> bool {
    forall|i: int| 0 <= i < entries.len() ==> !(#[trigger] entries[i]).is_pos_len()
}

/// A walk yields leaf entries only.
pub proof fn lemma_walk_leaves(file: Seq<u8>, entries: Seq<EntryModel>, level: u16)
    ensures
        all_leaves(walk(file, entries, level).0),
    decreases level, entries.len(),
{
    reveal(walk);
    if entries.len() > 0 {
        lemma_walk_leaves(file, entries.skip(1), level);
        if entries[0] is PosLen {
            match child_at(file, entries[0], level) {
                Ok((pos, h)) => match entries_at(file, pos, h) {
                    Ok(child) => {
                        lemma_walk_leaves(file, child, h.level);
                    },
                    Err(_) => {},
                },
                Err(_) => {},
            }
        }
    }
}

/// A walk that stands at some frames yields leaf entries only.
pub proof fn lemma_stream_leaves(file: Seq<u8>, frames: Seq<(Seq<EntryModel>, u16)>)
    ensures
        all_leaves(stream(file, frames)),
    decreases frames.len(),
{
    if frames.len() > 0 {
        lemma_walk_leaves(file, frames.last().0, frames.last().1);
        lemma_stream_leaves(file, frames.drop_last());
    }
}

/// The leaf entries of the whole tree in order, or why the root cannot be
/// read.
pub open spec fn tree_entries(file: Seq<u8>, root_pos: u64) -> Result<Seq<EntryModel>, Error> {
    match header_at(file, root_pos as int) {
        Err(e) => Err(e),
        Ok(h) => match entries_at(file, root_pos as int, h) {
            Err(e) => Err(e),
            Ok(entries) => Ok(walk(file, entries, h.level).0),
        },
    }
}

/// What a walk yields that stands at these frames, the last being the
/// innermost: the rest of the innermost block, then that of the block above
/// it, and so on, up to the first child that cannot be opened.
pub open spec fn stream(file: Seq<u8>, frames: Seq<(Seq<EntryModel>, u16)>) -> Seq<EntryModel>
    decreases frames.len(),
{
    if frames.len() == 0 {
        Seq::empty()
    } else {
        let top = walk(file, frames.last().0, frames.last().1);
        if top.1 {
            top.0 + stream(file, frames.drop_last())
        } else {
            top.0
        }
    }
}

/// A bound on the work that one entry of a block of this level can cause.
pub open spec fn weight(level: nat) -> nat
    decreases level,
{
    if level == 0 {
        1
    } else {
        2 + 0x1_0000_0000_0000_0000 * weight((level - 1) as nat)
    }
}

/// A number that falls with every step of a walk that yields nothing.
pub open spec fn potential(frames: Seq<(Seq<EntryModel>, u16)>) -> nat
    decreases frames.len(),
{
    if frames.len() == 0 {
        0
    } else {
        potential(frames.drop_last()) + 1 + frames.last().0.len() * weight(frames.last().1 as nat)
    }
}

proof fn lemma_weight_monotone(a: nat, b: nat)
    requires
        a <= b,
    ensures
        weight(a) <= weight(b),
    decreases b,
{
    if a < b {
        lemma_weight_monotone(a, (b - 1) as nat);
        assert(weight((b - 1) as nat) <= 0x1_0000_0000_0000_0000 * weight((b - 1) as nat))
            by (nonlinear_arith);
    }
}

/// Entering a child costs less than the entry that points at it.
proof fn lemma_child_costs_less(child_len: nat, child_level: nat, level: nat)
    requires
        child_len <= usize::MAX,
        child_level < level,
    ensures
        1 + child_len * weight(child_level) < weight(level),
{
    lemma_weight_monotone(child_level, (level - 1) as nat);
    let w = weight(child_level);
    let v = weight((level - 1) as nat);
    assert(child_len * w <= 0x1_0000_0000_0000_0000 * v) by (nonlinear_arith)
        requires
            child_len <= 0x1_0000_0000_0000_0000,
            w <= v,
    ;
}

/// The view of an entry that may be absent.
pub open spec fn view_of(entry: Option<Entry>) -> Option<EntryModel> {
    match entry {
        Some(e) => Some(e@),
        None => None,
    }
}

/// Runs through the entries of an inner block up to the first pointer whose
/// key is above `key`, and returns the last entry before it.
fn select_child(entries: &mut EntryIterator, key: &[u8]) -> (r: Option<Entry>)
    ensures
        view_of(r) == select_from(None, old(entries).remaining(), key@),
{
    let mut selected: Option<Entry> = None;
    loop
        invariant
            select_from(view_of(selected), entries.remaining(), key@) == select_from(
                None,
                old(entries).remaining(),
                key@,
            ),
        decreases entries.remaining().len(),
    {
        match entries.next() {
            None => {
                return selected;
            },
            Some(entry) => {
                if entry.is_pos_len() && less(key, entry.key()) {
                    return selected;
                }
                selected = Some(entry);
            },
        }
    }
}

/// Runs through the entries of a leaf block up to the first with this key.
fn find_key(entries: &mut EntryIterator, key: &[u8]) -> (r: Option<Entry>)
    ensures
        view_of(r) == find(old(entries).remaining(), key@),
{
    loop
        invariant
            find(entries.remaining(), key@) == find(old(entries).remaining(), key@),
        decreases entries.remaining().len(),
    {
        match entries.next() {
            None => {
                return None;
            },
            Some(entry) => {
                if same(entry.key(), key) {
                    return Some(entry);
                }
            },
        }
    }
}

impl View for Tree {
    type V = TreeModel;

    closed spec fn view(&self) -> TreeModel {
        TreeModel {
            file: self.file@,
            root_pos: self.trailer.root_pos,
            keys: self.trailer.bloom.keys(),
        }
    }
}

/// What the file with these bytes opens as: the tree, or why it is none.
/// Of the bloom filter only its keys are told, so the tree is told up to
/// them.
pub open spec fn opens_as(file: Seq<u8>, t: TreeModel) -> bool {
    &&& has_magic(file)
    &&& t.file == file
    &&& trailer_at(file) matches Ok((raw, root_pos))
    &&& t.root_pos == root_pos
    &&& trailer_keys(raw) == Some(t.keys)
}

/// The error with which the file with these bytes fails to open, if it
/// fails and the error holds no bytes.
pub open spec fn open_error(file: Seq<u8>) -> Option<Error> {
    if !has_magic(file) {
        None
    } else {
        match trailer_at(file) {
            Err(e) => Some(e),
            Ok((raw, _)) => if trailer_keys(raw) is None {
                Some(Error::BloomFilterCorrupted)
            } else {
                None
            },
        }
    }
}

/// Whether `e` is the error with which the file with these bytes fails to
/// open: the bytes found in place of the magic, or what is wrong with the
/// trailer.
pub open spec fn fails_to_open(file: Seq<u8>, e: Error) -> bool {
    if !has_magic(file) {
        e matches Error::InvalidTreeFormat(found) && found@ == file.take(
            if file.len() < 4 {
                file.len() as int
            } else {
                4
            },
        )
    } else {
        open_error(file) == Some(e)
    }
}

/// Whether the file with these bytes opens.
pub open spec fn opens(file: Seq<u8>) -> bool {
    has_magic(file) && open_error(file) is None
}

impl Tree {
    /// The bytes of the file.
    pub open spec fn bytes(&self) -> Seq<u8> {
        self@.file
    }

    /// Where the root block starts.
    pub open spec fn root_pos(&self) -> u64 {
        self@.root_pos
    }

    /// The keys that the bloom filter of the file says yes to.
    pub open spec fn keys(&self) -> Set<Seq<u8>> {
        self@.keys
    }

    /// Opens the file with these bytes: checks the magic and reads the
    /// trailer.
    pub fn from_file(file: Vec<u8>) -> (r: Result<Tree, Error>)
        ensures
            match r {
                Ok(t) => opens_as(file@, t@) && opens(file@),
                Err(e) => fails_to_open(file@, e) && !opens(file@),
            },
    {
        let len: usize = file.len();
        if len < 4 {
            return Err(Error::InvalidTreeFormat(copy_range(file.as_slice(), 0, len)));
        }
        proof {
            assert(file@.skip(0) =~= file@);
        }
        if read_u32(file.as_slice(), 0) != MAGIC {
            return Err(Error::InvalidTreeFormat(copy_range(file.as_slice(), 0, 4)));
        }
        let trailer = Self::read_trailer(file.as_slice())?;
        Ok(Tree { file, trailer })
    }

    /// Reads the trailer at the end of `file`.
    fn read_trailer(file: &[u8]) -> (r: Result<Trailer, Error>)
        ensures
            match r {
                Ok(t) => {
                    &&& trailer_at(file@) matches Ok((raw, root_pos))
                    &&& t.root_pos == root_pos
                    &&& trailer_keys(raw) == Some(t.bloom.keys())
                },
                Err(e) => match trailer_at(file@) {
                    Err(t) => e == t,
                    Ok((raw, _)) => trailer_keys(raw) is None && e == Error::BloomFilterCorrupted,
                },
            },
    {
        let len: usize = file.len();
        if len < 12 {
            return Err(Error::CorruptedFile("file too short for a trailer"));
        }
        let bloom_len: usize = read_u32(file, len - 12) as usize;
        let root_pos: u64 = read_u64(file, len - 8);
        if len < 16 || len - 16 < bloom_len {
            return Err(Error::CorruptedFile("trailer outside bounds of file"));
        }
        let pad: usize = len - 16 - bloom_len;
        if file[pad] != 0 || file[pad + 1] != 0 || file[pad + 2] != 0 || file[pad + 3] != 0 {
            proof {
                let p = file@.subrange(pad as int, pad + 4);
                assert(p[0] == file@[pad as int]);
                assert(p[1] == file@[pad + 1]);
                assert(p[2] == file@[pad + 2]);
                assert(p[3] == file@[pad + 3]);
            }
            return Err(Error::CorruptedFile("missing trailer padding"));
        }
        proof {
            assert(file@.subrange(pad as int, pad + 4) =~= seq![0u8, 0u8, 0u8, 0u8]);
        }
        if root_pos >= len as u64 {
            return Err(Error::CorruptedFile("root block position outside bounds of file"));
        }
        let bloom = copy_range(file, len - 12 - bloom_len, len - 12);
        Trailer::new(bloom, root_pos)
    }

    /// A second handle on the same file.
    pub fn try_clone(&self) -> (r: Result<Tree, Error>)
        ensures
            r matches Ok(t) && t.bytes() == self.bytes() && t.root_pos() == self.root_pos()
                && t.keys() == self.keys(),
    {
        let file = self.file.clone();
        let trailer = Trailer { bloom: self.trailer.bloom.clone(), root_pos: self.trailer.root_pos };
        Ok(Tree { file, trailer })
    }

    /// The block that the trailer points at.
    pub fn root_block(&self) -> (r: Result<Block<'_>, Error>)
        ensures
            match r {
                Ok(b) => header_at(self.bytes(), self.root_pos() as int) == Ok::<
                    BlockHeader,
                    Error,
                >(b.header()) && b.start == self.root_pos() && b.file@ == self.bytes(),
                Err(e) => header_at(self.bytes(), self.root_pos() as int) == Err::<
                    BlockHeader,
                    Error,
                >(e),
            },
    {
        Block::from_start(self.file.as_slice(), self.trailer.root_pos)
    }

    /// The block that `entry` points at, whose header must give the length
    /// that `entry` gives.
    pub fn block_from_poslen_entry(&self, entry: &Entry) -> (r: Result<Block<'_>, Error>)
        ensures
            match r {
                Ok(b) => entry@ matches EntryModel::PosLen { blockpos, blocklen, .. }
                    && header_at_length(self.bytes(), blockpos as int, blocklen) == Ok::<
                    BlockHeader,
                    Error,
                >(b.header()) && b.start == blockpos && b.file@ == self.bytes(),
                Err(e) => match entry@ {
                    EntryModel::PosLen { blockpos, blocklen, .. } => header_at_length(
                        self.bytes(),
                        blockpos as int,
                        blocklen,
                    ) == Err::<BlockHeader, Error>(e),
                    _ => e == Error::PosLenEntryRequired,
                },
            },
    {
        match entry {
            Entry::PosLen { blockpos, blocklen, .. } => Block::from_start_length(
                self.file.as_slice(),
                *blockpos,
                *blocklen,
            ),
            _ => Err(Error::PosLenEntryRequired),
        }
    }

    /// A walk over the leaf entries of the tree, in order.
    pub fn entries(&self) -> (r: Result<TreeEntryIterator, Error>)
        ensures
            match r {
                Ok(it) => it.wf() && it.bytes() == self.bytes() && tree_entries(
                    self.bytes(),
                    self.root_pos(),
                ) == Ok::<Seq<EntryModel>, Error>(it.remaining()),
                Err(e) => tree_entries(self.bytes(), self.root_pos()) == Err::<
                    Seq<EntryModel>,
                    Error,
                >(e),
            },
    {
        let root = self.root_block()?;
        let entries = root.entries()?;
        let file = self.file.clone();
        let mut levels: Vec<Frame> = Vec::new();
        levels.push(Frame { entries, level: root.level });
        let it = TreeEntryIterator { file, levels };
        proof {
            let frames = it.frames();
            assert(frames =~= seq![(entries.remaining(), root.level)]);
            assert(frames.drop_last() =~= Seq::<(Seq<EntryModel>, u16)>::empty());
            let top = walk(it.file@, frames.last().0, frames.last().1);
            assert(stream(it.file@, frames.drop_last()) =~= Seq::<EntryModel>::empty());
            assert(top.0 + Seq::<EntryModel>::empty() =~= top.0);
            assert(stream(it.file@, frames) == top.0);
        }
        Ok(it)
    }

    /// Looks `key` up: nothing where the bloom filter says no, else what the
    /// descent from the root finds.
    pub fn get_entry(&self, key: &[u8]) -> (r: Result<Option<Entry>, Error>)
        ensures
            match r {
                Ok(found) => self.lookup_spec(key@) == Ok::<Option<EntryModel>, Error>(
                    view_of(found),
                ),
                Err(e) => self.lookup_spec(key@) == Err::<Option<EntryModel>, Error>(e),
            },
    {
        if !self.trailer.bloom.contains(key) {
            return Ok(None);
        }
        let mut block = self.root_block()?;
        loop
            invariant
                block.file@ == self.bytes(),
                lookup(self.bytes(), self.root_pos(), key@) == descend(
                    self.bytes(),
                    block.start as int,
                    block.header(),
                    key@,
                ),
                self.keys().contains(key@),
            decreases block.level,
        {
            let mut entries = block.entries()?;
            if block.level == 0 {
                return Ok(find_key(&mut entries, key));
            }
            match select_child(&mut entries, key) {
                None => {
                    return Ok(None);
                },
                Some(inner_entry) => {
                    let child = self.block_from_poslen_entry(&inner_entry)?;
                    if child.level >= block.level {
                        return Err(Error::CorruptedFile("child block is not below its parent"));
                    }
                    block = child;
                },
            }
        }
    }

    /// What `get_entry` finds for `key`.
    pub open spec fn lookup_spec(&self, key: Seq<u8>) -> Result<Option<EntryModel>, Error> {
        if !self.keys().contains(key) {
            Ok(None)
        } else {
            lookup(self.bytes(), self.root_pos(), key)
        }
    }
}

impl TreeEntryIterator {
    /// The frames of the walk as values: for each block on the way, the
    /// entries still to come and the level.
    pub closed spec fn frames(&self) -> Seq<(Seq<EntryModel>, u16)> {
        self.levels@.map_values(|f: Frame| (f.entries.remaining(), f.level))
    }

    /// The bytes of the file that is walked.
    pub closed spec fn bytes(&self) -> Seq<u8> {
        self.file@
    }

    /// Every frame holds no more entries than memory can.
    pub closed spec fn wf(&self) -> bool {
        forall|i: int| 0 <= i < self.levels@.len() ==> (#[trigger] self.levels@[i]).entries.remaining().len() <= usize::MAX
    }

    /// The leaf entries still to come.
    pub open spec fn remaining(&self) -> Seq<EntryModel> {
        stream(self.bytes(), self.frames())
    }

    /// What is still to come are leaf entries.
    pub proof fn lemma_remaining_leaves(&self)
        ensures
            all_leaves(self.remaining()),
    {
        lemma_stream_leaves(self.bytes(), self.frames());
    }

    /// The next leaf entry. A walk that cannot open a child ends there and
    /// stays at its end.
    pub fn next(&mut self) -> (r: Option<Entry>)
        requires
            old(self).wf(),
        ensures
            final(self).wf(),
            final(self).bytes() == old(self).bytes(),
            match r {
                Some(e) => old(self).remaining().len() > 0 && e@ == old(self).remaining()[0]
                    && final(self).remaining() == old(self).remaining().skip(1),
                None => old(self).remaining() == Seq::<EntryModel>::empty()
                    && final(self).remaining() == Seq::<EntryModel>::empty(),
            },
    {
        loop
            invariant
                self.wf(),
                self.bytes() == old(self).bytes(),
                self.remaining() == old(self).remaining(),
            decreases potential(self.frames()),
        {
            let ghost before = self.frames();
            let ghost file = self.bytes();
            let mut frame = match self.levels.pop() {
                None => {
                    return None;
                },
                Some(frame) => frame,
            };
            let ghost below = self.frames();
            let ghost rest = frame.entries.remaining();
            proof {
                assert(below =~= before.drop_last());
                assert(before.last() == (rest, frame.level));
            }
            match frame.entries.next() {
                None => {
                    proof {
                        lemma_walk_nothing(file, frame.level);
                        assert(walk(file, rest, frame.level) == (
                            Seq::<EntryModel>::empty(),
                            true,
                        ));
                        assert(stream(file, below) =~= Seq::<EntryModel>::empty() + stream(
                            file,
                            below,
                        ));
                        assert(stream(file, before) == stream(file, below));
                        assert(potential(before) == potential(below) + 1 + rest.len() * weight(
                            frame.level as nat,
                        ));
                    }
                },
                Some(entry) => {
                    let ghost after = frame.entries.remaining();
                    proof {
                        lemma_walk_first(file, rest, frame.level);
                    }
                    if entry.is_pos_len() {
                        let level = frame.level;
                        let opened = match &entry {
                            Entry::PosLen { blockpos, blocklen, .. } => open_child(
                                self.file.as_slice(),
                                *blockpos,
                                *blocklen,
                                level,
                            ),
                            _ => None,
                        };
                        match opened {
                            None => {
                                self.levels.clear();
                                proof {
                                    assert(self.frames() =~= Seq::<(Seq<EntryModel>, u16)>::empty());
                                }
                                return None;
                            },
                            Some(child) => {
                                let ghost inner = child.entries.remaining();
                                let ghost inner_level = child.level;
                                self.levels.push(frame);
                                self.levels.push(child);
                                proof {
                                    let middle = below.push((after, level));
                                    let now = self.frames();
                                    assert(now =~= middle.push((inner, inner_level)));
                                    assert(now.drop_last() =~= middle);
                                    assert(middle.drop_last() =~= below);
                                    let a = walk(file, inner, inner_level);
                                    let b = walk(file, after, level);
                                    assert(rest[0] == entry@);
                                    assert(after == rest.skip(1));
                                    assert(walk(file, rest, level) == if a.1 {
                                        (a.0 + b.0, b.1)
                                    } else {
                                        (a.0, false)
                                    });
                                    assert(stream(file, middle) == if b.1 {
                                        b.0 + stream(file, below)
                                    } else {
                                        b.0
                                    });
                                    assert(stream(file, now) == if a.1 {
                                        a.0 + stream(file, middle)
                                    } else {
                                        a.0
                                    });
                                    if a.1 && b.1 {
                                        assert((a.0 + b.0) + stream(file, below) =~= a.0 + (b.0
                                            + stream(file, below)));
                                    }
                                    assert(stream(file, now) == stream(file, before));
                                    assert(potential(before) == potential(below) + 1 + rest.len()
                                        * weight(level as nat));
                                    assert(potential(middle) == potential(below) + 1 + after.len()
                                        * weight(level as nat));
                                    assert(potential(now) == potential(middle) + 1 + inner.len()
                                        * weight(inner_level as nat));
                                    lemma_child_costs_less(
                                        inner.len(),
                                        inner_level as nat,
                                        level as nat,
                                    );
                                    assert(rest.len() * weight(level as nat) == after.len()
                                        * weight(level as nat) + weight(level as nat))
                                        by (nonlinear_arith)
                                        requires
                                            rest.len() == after.len() + 1,
                                    ;
                                }
                            },
                        }
                    } else {
                        self.levels.push(frame);
                        proof {
                            let now = self.frames();
                            assert(now =~= below.push((after, frame.level)));
                            assert(now.drop_last() =~= below);
                            let b = walk(file, after, frame.level);
                            if b.1 {
                                assert((seq![entry@] + b.0) + stream(file, below) =~= seq![
                                    entry@,
                                ] + (b.0 + stream(file, below)));
                            }
                            assert((seq![entry@] + stream(file, now)).skip(1) =~= stream(
                                file,
                                now,
                            ));
                        }
                        return Some(entry);
                    }
                },
            }
        }
    }
}

/// Opens the block at `blockpos`, which must have the length `blocklen` and
/// lie below `level`, and starts on its entries.
fn open_child(file: &[u8], blockpos: u64, blocklen: u32, level: u16) -> (r: Option<Frame>)
    ensures
        match r {
            Some(frame) => {
                &&& child_at(
                    file@,
                    EntryModel::PosLen { blockpos, blocklen, key: Seq::empty() },
                    level,
                ) matches Ok((pos, h))
                &&& entries_at(file@, pos, h) == Ok::<Seq<EntryModel>, Error>(
                    frame.entries.remaining(),
                )
                &&& frame.level == h.level
                &&& frame.level < level
                &&& frame.entries.remaining().len() <= usize::MAX
            },
            None => match child_at(
                file@,
                EntryModel::PosLen { blockpos, blocklen, key: Seq::empty() },
                level,
            ) {
                Err(_) => true,
                Ok((pos, h)) => entries_at(file@, pos, h) is Err,
            },
        },
{
    match Block::from_start_length(file, blockpos, blocklen) {
        Err(_) => None,
        Ok(block) => {
            if block.level >= level {
                None
            } else {
                match block.entries() {
                    Err(_) => None,
                    Ok(entries) => Some(Frame { entries, level: block.level }),
                }
            }
        },
    }
}

} // verus!
