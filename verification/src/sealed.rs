//! What makes the blocks of a file a tree that a reader can walk: every
//! pointer leads to a block that lies whole inside the file, one level
//! down, whose first key is the key of the pointer.
use vstd::prelude::*;
use crate::block::{entries_at, entries_of, header_at, header_at_length, payload_at, BlockHeader, lemma_entries_of_step, lemma_entries_of_stop};
use crate::bytes::{be_u16, be_u32, u16_be, u32_be, lemma_be_round_trip};
use crate::compression::Compression;
use crate::entry::{decode, lemma_decode_encoded, EntryModel};
use crate::error::Error;
use crate::memtable::ascending;
use crate::tree::{walk, lemma_walk_nothing};
use crate::writer::{concat_encoded, encoded_total, BLOCK_SIZE};
use crate::TAG_END;

verus! {

/// Whether a block of `level` with these members branches where it is an
/// inner block: it holds two pointers at least, or one whose encoding alone
/// fills a block.
pub open spec fn branching(members: Seq<EntryModel>, level: u16) -> bool {
    level > 0 ==> members.len() >= 2 || encoded_total(members) >= BLOCK_SIZE
}

/// Whether every pointer that a walk from `entries` comes to, which stand
/// in a block of `level`, leads to a block that lies whole inside the file,
/// one level down, that can be read and is not empty, whose keys rise
/// strictly, whose first key is the key of the pointer, and which branches
/// where it is an inner block. Pointers stand in inner blocks only and leaf
/// entries in leaf blocks only.
#[verifier::opaque]
pub open spec fn sealed(file: Seq<u8>, entries: Seq<EntryModel>, level: u16) -> bool
    decreases level, entries.len(),
{
    if entries.len() == 0 {
        true
    } else {
        &&& match entries[0] {
            EntryModel::PosLen { blockpos, blocklen, key } => {
                &&& level > 0
                &&& blocklen >= 7
                &&& blockpos + blocklen <= file.len()
                &&& header_at_length(file, blockpos as int, blocklen) matches Ok(h)
                &&& h.level + 1 == level
                &&& entries_at(file, blockpos as int, h) matches Ok(child)
                &&& child.len() > 0
                &&& child[0].key() == key
                &&& ascending(child)
                &&& branching(child, h.level)
                &&& sealed(file, child, h.level)
            },
            _ => level == 0,
        }
        &&& sealed(file, entries.skip(1), level)
    }
}

/// No entries are sealed.
pub proof fn lemma_sealed_empty(file: Seq<u8>, level: u16)
    ensures
        sealed(file, Seq::<EntryModel>::empty(), level),
{
    reveal(sealed);
    reveal(walk);
}

/// A leaf entry alone is sealed in a leaf block, and a walk yields it.
pub proof fn lemma_sealed_leaf(file: Seq<u8>, entry: EntryModel)
    requires
        !entry.is_pos_len(),
    ensures
        sealed(file, seq![entry], 0),
        leaves_of(file, seq![entry], 0) == seq![entry],
{
    reveal(sealed);
    reveal(walk);
    let none = Seq::<EntryModel>::empty();
    assert(seq![entry].skip(1) =~= none);
    assert(sealed(file, none, 0));
    assert(walk(file, none, 0) == (none, true));
    assert(seq![entry] + none =~= seq![entry]);
    assert(leaves_of(file, seq![entry], 0) =~= seq![entry]);
}

/// A pointer alone that is sealed points to a block inside the file that
/// reads as sealed entries, and a walk yields what it yields from them.
pub proof fn lemma_sealed_pointer_alone(file: Seq<u8>, entry: EntryModel, level: u16)
    requires
        sealed(file, seq![entry], level),
        entry is PosLen,
    ensures
        level > 0,
        entry->blocklen >= 7,
        entry->blockpos + entry->blocklen <= file.len(),
        header_at_length(file, entry->blockpos as int, entry->blocklen) matches Ok(h) && h.level
            + 1 == level && (entries_at(file, entry->blockpos as int, h) matches Ok(child)
            && child.len() > 0 && child[0].key() == entry.key() && ascending(child) && branching(
            child,
            h.level,
        ) && sealed(file, child, h.level) && leaves_of(file, seq![entry], level) == leaves_of(
            file,
            child,
            h.level,
        )),
{
    reveal(sealed);
    reveal(walk);
    let none = Seq::<EntryModel>::empty();
    let h = header_at_length(file, entry->blockpos as int, entry->blocklen)->Ok_0;
    let child = entries_at(file, entry->blockpos as int, h)->Ok_0;
    lemma_sealed_walk(file, child, h.level);
    assert(seq![entry].skip(1) =~= none);
    assert(walk(file, none, level) == (none, true));
    let below = walk(file, child, h.level);
    assert(below.0 + none =~= below.0);
}

/// A pointer alone is sealed where it points to a block inside the file,
/// one level down, that reads as sealed entries of which the first has its
/// key.
pub proof fn lemma_seal_pointer(
    file: Seq<u8>,
    entry: EntryModel,
    level: u16,
    h: BlockHeader,
    child: Seq<EntryModel>,
)
    requires
        entry is PosLen,
        level > 0,
        entry->blocklen >= 7,
        entry->blockpos + entry->blocklen <= file.len(),
        header_at_length(file, entry->blockpos as int, entry->blocklen) == Ok::<
            BlockHeader,
            Error,
        >(h),
        h.level + 1 == level,
        entries_at(file, entry->blockpos as int, h) == Ok::<Seq<EntryModel>, Error>(child),
        child.len() > 0,
        child[0].key() == entry.key(),
        ascending(child),
        branching(child, h.level),
        sealed(file, child, h.level),
    ensures
        sealed(file, seq![entry], level),
        leaves_of(file, seq![entry], level) == leaves_of(file, child, h.level),
{
    reveal(sealed);
    reveal(walk);
    let none = Seq::<EntryModel>::empty();
    assert(seq![entry].skip(1) =~= none);
    assert(sealed(file, none, level));
    assert(walk(file, none, level) == (none, true));
    lemma_sealed_walk(file, child, h.level);
    let below = walk(file, child, h.level);
    assert(below.0 + none =~= below.0);
}

/// Sealed members that hold a pointer stand in an inner block.
pub proof fn lemma_sealed_pointer(file: Seq<u8>, members: Seq<EntryModel>, level: u16, at: int)
    requires
        sealed(file, members, level),
        0 <= at < members.len(),
        members[at] is PosLen,
    ensures
        level > 0,
    decreases members.len(),
{
    reveal(sealed);
    reveal(walk);
    if at > 0 {
        assert(members.skip(1)[at - 1] == members[at]);
        lemma_sealed_pointer(file, members.skip(1), level, at - 1);
    }
}

/// Sealed entries are a sealed first entry and sealed entries behind it,
/// and a walk yields what it yields from the first and then what it yields
/// from the rest.
pub proof fn lemma_sealed_split(file: Seq<u8>, entries: Seq<EntryModel>, level: u16)
    requires
        sealed(file, entries, level),
        entries.len() > 0,
    ensures
        sealed(file, seq![entries[0]], level),
        sealed(file, entries.skip(1), level),
        leaves_of(file, entries, level) == leaves_of(file, seq![entries[0]], level) + leaves_of(
            file,
            entries.skip(1),
            level,
        ),
        entries[0] is PosLen <==> level > 0,
{
    let first = seq![entries[0]];
    assert(sealed(file, first, level) && sealed(file, entries.skip(1), level) && (entries[0] is PosLen
        <==> level > 0)) by {
        reveal(sealed);
        assert(first.skip(1) =~= Seq::<EntryModel>::empty());
        assert(sealed(file, first.skip(1), level));
    }
    assert(first + entries.skip(1) =~= entries);
    lemma_sealed_concat(file, first, entries.skip(1), level);
}

/// In a leaf block a walk over sealed entries yields the entries.
pub proof fn lemma_sealed_leaves(file: Seq<u8>, entries: Seq<EntryModel>)
    requires
        sealed(file, entries, 0),
    ensures
        leaves_of(file, entries, 0) == entries,
    decreases entries.len(),
{
    if entries.len() == 0 {
        lemma_walk_nothing(file, 0);
        assert(entries =~= Seq::<EntryModel>::empty());
        assert(leaves_of(file, entries, 0) =~= entries);
    } else {
        lemma_sealed_split(file, entries, 0);
        lemma_sealed_leaf(file, entries[0]);
        lemma_sealed_leaves(file, entries.skip(1));
        assert(seq![entries[0]] + entries.skip(1) =~= entries);
    }
}

/// A walk over sealed entries, of which there are any, yields first an
/// entry with the key of the first of them.
pub proof fn lemma_first_leaf(file: Seq<u8>, entries: Seq<EntryModel>, level: u16)
    requires
        sealed(file, entries, level),
        entries.len() > 0,
    ensures
        leaves_of(file, entries, level).len() > 0,
        leaves_of(file, entries, level)[0].key() == entries[0].key(),
    decreases level,
{
    lemma_sealed_split(file, entries, level);
    if level == 0 {
        lemma_sealed_leaf(file, entries[0]);
    } else {
        lemma_sealed_pointer_alone(file, entries[0], level);
        let e = entries[0];
        let h = header_at_length(file, e->blockpos as int, e->blocklen)->Ok_0;
        let child = entries_at(file, e->blockpos as int, h)->Ok_0;
        lemma_first_leaf(file, child, h.level);
    }
}

/// The leaf entries that a walk from `entries` yields.
pub open spec fn leaves_of(file: Seq<u8>, entries: Seq<EntryModel>, level: u16) -> Seq<
    EntryModel,
> {
    walk(file, entries, level).0
}

/// A block that lies inside a file reads the same when the file grows.
pub proof fn lemma_block_stable(file: Seq<u8>, more: Seq<u8>, start: int, length: u32)
    requires
        0 <= start,
        length >= 7,
        start + length <= file.len(),
    ensures
        header_at(file + more, start) == header_at(file, start),
        header_at_length(file + more, start, length) == header_at_length(file, start, length),
        payload_at(file + more, start, (length - 4) as u32) == payload_at(
            file,
            start,
            (length - 4) as u32,
        ),
{
    let blocklen = (length - 4) as u32;
    let grown = file + more;
    assert(grown[start + 6] == file[start + 6]);
    assert(be_u32(grown.skip(start)) == be_u32(file.skip(start)));
    assert(be_u16(grown.skip(start + 4)) == be_u16(file.skip(start + 4)));
    if start + 7 <= start + 4 + blocklen {
        assert(grown.subrange(start + 7, start + 4 + blocklen) =~= file.subrange(
            start + 7,
            start + 4 + blocklen,
        ));
    }
}

/// A walk over sealed entries comes to its end.
pub proof fn lemma_sealed_walk(file: Seq<u8>, entries: Seq<EntryModel>, level: u16)
    requires
        sealed(file, entries, level),
    ensures
        walk(file, entries, level).1,
    decreases level, entries.len(),
{
    reveal(sealed);
    reveal(walk);
    if entries.len() > 0 {
        match entries[0] {
            EntryModel::PosLen { blockpos, blocklen, key } => {
                let h = header_at_length(file, blockpos as int, blocklen)->Ok_0;
                let child = entries_at(file, blockpos as int, h)->Ok_0;
                lemma_sealed_walk(file, child, h.level);
            },
            _ => {},
        }
        lemma_sealed_walk(file, entries.skip(1), level);
    }
}

/// Sealed entries stay sealed when the file grows, and a walk over them
/// yields the same.
pub proof fn lemma_sealed_stable(file: Seq<u8>, more: Seq<u8>, entries: Seq<EntryModel>, level: u16)
    requires
        sealed(file, entries, level),
    ensures
        sealed(file + more, entries, level),
        walk(file + more, entries, level) == walk(file, entries, level),
    decreases level, entries.len(),
{
    reveal(sealed);
    reveal(walk);
    if entries.len() > 0 {
        match entries[0] {
            EntryModel::PosLen { blockpos, blocklen, key } => {
                let h = header_at_length(file, blockpos as int, blocklen)->Ok_0;
                let child = entries_at(file, blockpos as int, h)->Ok_0;
                lemma_block_stable(file, more, blockpos as int, blocklen);
                lemma_sealed_stable(file, more, child, h.level);
            },
            _ => {},
        }
        lemma_sealed_stable(file, more, entries.skip(1), level);
    }
}

/// Where entries behind entries are sealed, both are.
pub proof fn lemma_sealed_parts(file: Seq<u8>, a: Seq<EntryModel>, b: Seq<EntryModel>, level: u16)
    requires
        sealed(file, a + b, level),
    ensures
        sealed(file, a, level),
        sealed(file, b, level),
    decreases a.len(),
{
    reveal(sealed);
    if a.len() == 0 {
        assert(a + b =~= b);
    } else {
        assert((a + b).skip(1) =~= a.skip(1) + b);
        assert((a + b)[0] == a[0]);
        lemma_sealed_parts(file, a.skip(1), b, level);
    }
}

/// Sealed entries behind sealed entries are sealed, and a walk yields what
/// it yields from the first and then what it yields from the second.
pub proof fn lemma_sealed_concat(file: Seq<u8>, a: Seq<EntryModel>, b: Seq<EntryModel>, level: u16)
    requires
        sealed(file, a, level),
        sealed(file, b, level),
    ensures
        sealed(file, a + b, level),
        leaves_of(file, a + b, level) == leaves_of(file, a, level) + leaves_of(file, b, level),
    decreases a.len(),
{
    reveal(sealed);
    reveal(walk);
    if a.len() == 0 {
        assert(a + b =~= b);
        assert(leaves_of(file, a, level) + leaves_of(file, b, level) =~= leaves_of(file, b, level));
    } else {
        assert((a + b).skip(1) =~= a.skip(1) + b);
        assert((a + b)[0] == a[0]);
        lemma_sealed_concat(file, a.skip(1), b, level);
        lemma_sealed_walk(file, a.skip(1), level);
        lemma_sealed_walk(file, (a + b).skip(1), level);
        let rest_a = leaves_of(file, a.skip(1), level);
        let rest_b = leaves_of(file, b, level);
        match a[0] {
            EntryModel::PosLen { blockpos, blocklen, key } => {
                let h = header_at_length(file, blockpos as int, blocklen)->Ok_0;
                let child = entries_at(file, blockpos as int, h)->Ok_0;
                lemma_sealed_walk(file, child, h.level);
                let below = leaves_of(file, child, h.level);
                assert(below + (rest_a + rest_b) =~= (below + rest_a) + rest_b);
            },
            _ => {
                assert(seq![a[0]] + (rest_a + rest_b) =~= (seq![a[0]] + rest_a) + rest_b);
            },
        }
    }
}

/// The encodings of entries behind an entry are the encoding of the entry
/// and then theirs.
pub proof fn lemma_concat_encoded_front(first: EntryModel, rest: Seq<EntryModel>)
    ensures
        concat_encoded(seq![first] + rest) == first.encoded() + concat_encoded(rest),
    decreases rest.len(),
{
    let all = seq![first] + rest;
    if rest.len() == 0 {
        assert(all.drop_last() =~= Seq::<EntryModel>::empty());
        assert(all.last() == first);
        assert(concat_encoded(all.drop_last()) =~= Seq::<u8>::empty());
        assert(concat_encoded(rest) =~= Seq::<u8>::empty());
        assert(concat_encoded(all) == concat_encoded(all.drop_last()) + all.last().encoded());
        assert(concat_encoded(all) =~= first.encoded() + concat_encoded(rest));
    } else {
        assert(all.drop_last() =~= seq![first] + rest.drop_last());
        assert(all.last() == rest.last());
        lemma_concat_encoded_front(first, rest.drop_last());
        assert(concat_encoded(all) =~= first.encoded() + concat_encoded(rest));
    }
}

/// Entries that fit the format read back from their encodings, one after
/// another, as they were written.
pub proof fn lemma_entries_of_encoded(members: Seq<EntryModel>)
    requires
        forall|i: int| 0 <= i < members.len() ==> (#[trigger] members[i]).wf(),
        concat_encoded(members).len() <= usize::MAX,
    ensures
        entries_of(concat_encoded(members)) == members,
    decreases members.len(),
{
    if members.len() == 0 {
        assert(decode(Seq::<u8>::empty()) is Err) by {
            reveal(decode);
        }
        lemma_entries_of_stop(concat_encoded(members));
        assert(entries_of(concat_encoded(members)) =~= members);
    } else {
        let first = members[0];
        let rest = members.skip(1);
        assert(members =~= seq![first] + rest);
        lemma_concat_encoded_front(first, rest);
        let bytes = concat_encoded(members);
        lemma_decode_encoded(first, concat_encoded(rest));
        lemma_entries_of_step(bytes, first, first.encoded_len());
        assert(bytes.skip(first.encoded_len()) =~= concat_encoded(rest));
        assert forall|i: int| 0 <= i < rest.len() implies (#[trigger] rest[i]).wf() by {
            assert(rest[i] == members[i + 1]);
        }
        lemma_entries_of_encoded(rest);
    }
}

/// A block that was appended to a file reads back as it was written: its
/// header gives its length, level and codec, and its entries are its
/// members.
pub proof fn lemma_block_written(
    file: Seq<u8>,
    compress: Compression,
    level: u16,
    members: Seq<EntryModel>,
    payload: Seq<u8>,
)
    requires
        forall|i: int| 0 <= i < members.len() ==> (#[trigger] members[i]).wf(),
        payload.len() + 7 <= u32::MAX,
        concat_encoded(members).len() < usize::MAX,
        compress.decompressed(payload) == Some(seq![TAG_END] + concat_encoded(members)),
    ensures
        ({
            let blocklen = (payload.len() + 3) as u32;
            let length = (payload.len() + 7) as u32;
            let grown = file + (u32_be(blocklen) + u16_be(level) + seq![compress.byte()] + payload);
            let h = BlockHeader { blocklen, level, compression: compress };
            &&& header_at_length(grown, file.len() as int, length) == Ok::<BlockHeader, Error>(h)
            &&& entries_at(grown, file.len() as int, h) == Ok::<Seq<EntryModel>, Error>(members)
            &&& file.len() + length == grown.len()
        }),
{
    let blocklen = (payload.len() + 3) as u32;
    let bytes = u32_be(blocklen) + u16_be(level) + seq![compress.byte()] + payload;
    let grown = file + bytes;
    let start = file.len() as int;
    let h = BlockHeader { blocklen, level, compression: compress };
    lemma_be_round_trip(level, blocklen, 0);
    assert(grown.skip(start) =~= bytes);
    assert(be_u32(bytes) == be_u32(u32_be(blocklen)));
    assert(grown.skip(start + 4) =~= bytes.skip(4));
    assert(be_u16(bytes.skip(4)) == be_u16(u16_be(level)));
    assert(grown[start + 6] == compress.byte());
    assert(Compression::of_byte(compress.byte()) == Some(compress));
    assert(payload_at(grown, start, blocklen) =~= payload);
    let contents = seq![TAG_END] + concat_encoded(members);
    assert(contents.skip(1) =~= concat_encoded(members));
    lemma_entries_of_encoded(members);
}

} // verus!
