//! What a writer keeps true of the file it builds, so that the file reads
//! back as the entries that went in.
use vstd::prelude::*;
use crate::block::{entries_at, header_at_length, BlockHeader};
use crate::compression::Compression;
use crate::entry::EntryModel;
use crate::error::Error;
use crate::memtable::ascending;
use crate::key::{key_le, key_lt, lemma_key_lt_total, lemma_key_lt_transitive};
use crate::sealed::{branching, leaves_of, sealed, lemma_block_written, lemma_seal_pointer, lemma_sealed_concat, lemma_sealed_empty, lemma_sealed_pointer, lemma_sealed_stable};
use crate::tree::{has_magic, walk, trailer_at, tree_entries, lemma_walk_nothing};
use crate::trailer::trailer_bytes;
use crate::block::{header_at, lemma_entries_of_nothing};
use crate::sealed::{lemma_block_stable, lemma_sealed_pointer_alone};
use crate::writer::is_solo;
use crate::bytes::{be_u32, be_u64, u64_be, lemma_be_round_trip};
use crate::bytes::{u16_be, u32_be};
use crate::writer::{concat_encoded, ensure_level, stacked, take, PendingModel, Taken, WriterModel};
use crate::TAG_END;

verus! {

/// The members of every pending block are sealed, and their keys rise
/// strictly.
pub open spec fn stack_sealed(file: Seq<u8>, blocks: Seq<PendingModel>) -> bool {
    forall|i: int|
        0 <= i < blocks.len() ==> sealed(file, (#[trigger] blocks[i]).members, blocks[i].level)
            && ascending(blocks[i].members)
}

/// The leaf entries under the pending blocks, those of the highest level
/// first.
pub open spec fn stack_leaves(file: Seq<u8>, blocks: Seq<PendingModel>) -> Seq<EntryModel>
    decreases blocks.len(),
{
    if blocks.len() == 0 {
        Seq::empty()
    } else {
        stack_leaves(file, blocks.drop_last()) + leaves_of(
            file,
            blocks.last().members,
            blocks.last().level,
        )
    }
}

/// Whether `entry` is a pointer to the block at this position and of this
/// length.
pub open spec fn points_to(entry: EntryModel, node: (u64, u32)) -> bool {
    entry matches EntryModel::PosLen { blockpos, blocklen, .. } && blockpos == node.0 && blocklen
        == node.1
}

/// Whether the pending block `at` ends with the pointer to `node`, and no
/// block behind it holds a pointer.
pub open spec fn holds_last(blocks: Seq<PendingModel>, at: int, node: (u64, u32)) -> bool {
    &&& 0 <= at < blocks.len()
    &&& blocks[at].members.len() > 0
    &&& points_to(blocks[at].members.last(), node)
    &&& forall|j: int|
        at < j < blocks.len() ==> (#[trigger] blocks[j]).level == 0 || blocks[j].members.len() == 0
}

/// Whether the block written last is the one that the lowest pointer among
/// the pending blocks leads to; where none was written, the file is the
/// magic alone.
pub open spec fn last_held(m: WriterModel) -> bool {
    match m.last_node {
        None => m.file.len() == 4,
        Some(node) => exists|at: int| holds_last(m.blocks, at, node),
    }
}

/// The pending block of the highest level, if there is one, is not empty.
pub open spec fn grounded(blocks: Seq<PendingModel>) -> bool {
    blocks.len() > 0 ==> blocks[0].members.len() > 0
}

/// What a writer keeps true between two calls: the file starts with the
/// magic, the pending blocks are sealed, the leaf entries under them are the
/// entries that went in, the block written last hangs on the lowest
/// pointer, and the pending block of the highest level is not empty.
#[verifier::opaque]
pub open spec fn sound(m: WriterModel) -> bool {
    &&& has_magic(m.file)
    &&& stack_sealed(m.file, m.blocks)
    &&& stack_leaves(m.file, m.blocks) == m.input
    &&& last_held(m)
    &&& grounded(m.blocks)
}

/// What holds of a writer and an entry that is about to go to the pending
/// block of `level`: with the entry in its place the writer is sound.
#[verifier::opaque]
pub open spec fn ready(m: WriterModel, level: u16, entry: EntryModel) -> bool {
    &&& has_magic(m.file)
    &&& stack_sealed(m.file, m.blocks)
    &&& sealed(m.file, seq![entry], level)
    &&& stack_leaves(m.file, m.blocks) + leaves_of(m.file, seq![entry], level) == if level == 0 {
        m.input.push(entry)
    } else {
        m.input
    }
    &&& if level == 0 {
        last_held(m)
    } else {
        m.last_node matches Some(node) && points_to(entry, node)
    }
    &&& grounded(m.blocks)
}

/// An empty block on top changes nothing of what the pending blocks hold.
pub proof fn lemma_push_empty(file: Seq<u8>, blocks: Seq<PendingModel>, level: u16)
    requires
        stack_sealed(file, blocks),
    ensures
        stack_sealed(file, blocks.push(PendingModel { level, members: Seq::empty() })),
        stack_leaves(file, blocks.push(PendingModel { level, members: Seq::empty() }))
            == stack_leaves(file, blocks),
        forall|at: int, node: (u64, u32)|
            holds_last(blocks, at, node) ==> #[trigger] holds_last(
                blocks.push(PendingModel { level, members: Seq::empty() }),
                at,
                node,
            ),
        blocks.len() > 0 ==> blocks.push(PendingModel { level, members: Seq::empty() })[0]
            == blocks[0],
{
    let pushed = blocks.push(PendingModel { level, members: Seq::empty() });
    lemma_sealed_empty(file, level);
    crate::tree::lemma_walk_nothing(file, level);
    assert(pushed.drop_last() =~= blocks);
    assert(stack_leaves(file, pushed) =~= stack_leaves(file, blocks));
    assert forall|i: int| 0 <= i < pushed.len() implies sealed(
        file,
        (#[trigger] pushed[i]).members,
        pushed[i].level,
    ) && ascending(pushed[i].members) by {
        if i < blocks.len() {
            assert(pushed[i] == blocks[i]);
        }
    }
    assert forall|at: int, node: (u64, u32)| holds_last(blocks, at, node) implies #[trigger] holds_last(
        pushed,
        at,
        node,
    ) by {
        assert(pushed[at] == blocks[at]);
        assert forall|j: int| at < j < pushed.len() implies (#[trigger] pushed[j]).level == 0
            || pushed[j].members.len() == 0 by {
            if j < blocks.len() {
                assert(pushed[j] == blocks[j]);
            }
        }
    }
}

/// Making sure of a block of `level` changes nothing of what the pending
/// blocks hold, and leaves a block of `level` on top.
pub proof fn lemma_ensure_level(file: Seq<u8>, blocks: Seq<PendingModel>, level: u16)
    requires
        stack_sealed(file, blocks),
        blocks.len() > 0 ==> blocks.last().level >= level,
    ensures
        stack_sealed(file, ensure_level(blocks, level)),
        stack_leaves(file, ensure_level(blocks, level)) == stack_leaves(file, blocks),
        ensure_level(blocks, level).len() > 0,
        ensure_level(blocks, level).last().level == level,
        forall|at: int, node: (u64, u32)|
            holds_last(blocks, at, node) ==> #[trigger] holds_last(
                ensure_level(blocks, level),
                at,
                node,
            ),
        blocks.len() > 0 ==> ensure_level(blocks, level)[0] == blocks[0],
        blocks.len() == 0 ==> ensure_level(blocks, level).len() == 1,
    decreases
            (if blocks.len() > 0 {
                blocks.last().level as int
            } else {
                0
            }),
{
    if blocks.len() == 0 {
        let made = seq![PendingModel { level, members: Seq::empty() }];
        assert(made =~= blocks.push(PendingModel { level, members: Seq::empty() }));
        lemma_push_empty(file, blocks, level);
    } else if blocks.last().level > level {
        let below = (blocks.last().level - 1) as u16;
        let pushed = blocks.push(PendingModel { level: below, members: Seq::empty() });
        lemma_push_empty(file, blocks, below);
        lemma_ensure_level(file, pushed, level);
        assert forall|at: int, node: (u64, u32)| holds_last(blocks, at, node) implies #[trigger] holds_last(
            ensure_level(blocks, level),
            at,
            node,
        ) by {
            assert(holds_last(pushed, at, node));
        }
    }
}

/// Pending blocks that are sealed stay sealed when the file grows, and the
/// leaf entries under them stay the same.
pub proof fn lemma_stack_stable(file: Seq<u8>, more: Seq<u8>, blocks: Seq<PendingModel>)
    requires
        stack_sealed(file, blocks),
    ensures
        stack_sealed(file + more, blocks),
        stack_leaves(file + more, blocks) == stack_leaves(file, blocks),
    decreases blocks.len(),
{
    assert forall|i: int| 0 <= i < blocks.len() implies sealed(
        file + more,
        (#[trigger] blocks[i]).members,
        blocks[i].level,
    ) && ascending(blocks[i].members) by {
        lemma_sealed_stable(file, more, blocks[i].members, blocks[i].level);
    }
    if blocks.len() > 0 {
        let rest = blocks.drop_last();
        assert forall|i: int| 0 <= i < rest.len() implies sealed(
            file,
            (#[trigger] rest[i]).members,
            rest[i].level,
        ) && ascending(rest[i].members) by {
            assert(rest[i] == blocks[i]);
        }
        lemma_stack_stable(file, more, rest);
        lemma_sealed_stable(file, more, blocks.last().members, blocks.last().level);
    }
}

/// The leaf entries under pending blocks whose top block grew by `entry`.
proof fn lemma_grow_top(file: Seq<u8>, blocks: Seq<PendingModel>, entry: EntryModel)
    requires
        blocks.len() > 0,
        stack_sealed(file, blocks),
        sealed(file, seq![entry], blocks.last().level),
        blocks.last().members.len() > 0 ==> key_lt(
            blocks.last().members.last().key(),
            entry.key(),
        ),
    ensures
        ({
            let top = blocks.last();
            let grown = PendingModel { level: top.level, members: top.members.push(entry) };
            let after = blocks.drop_last().push(grown);
            &&& stack_sealed(file, after)
            &&& stack_leaves(file, after) == stack_leaves(file, blocks) + leaves_of(
                file,
                seq![entry],
                top.level,
            )
        }),
{
    let top = blocks.last();
    let grown = PendingModel { level: top.level, members: top.members.push(entry) };
    let rest = blocks.drop_last();
    let after = rest.push(grown);
    assert(top.members.push(entry) =~= top.members + seq![entry]);
    lemma_sealed_concat(file, top.members, seq![entry], top.level);
    assert(after.drop_last() =~= rest);
    assert(after.last() == grown);
    assert(ascending(grown.members)) by {
        assert forall|i: int, j: int| 0 <= i < j < grown.members.len() implies key_lt(
            (#[trigger] grown.members[i]).key(),
            (#[trigger] grown.members[j]).key(),
        ) by {
            if j < top.members.len() {
                assert(key_lt(top.members[i].key(), top.members[j].key()));
            } else if i < top.members.len() - 1 {
                assert(key_lt(top.members[i].key(), top.members.last().key()));
                lemma_key_lt_transitive(
                    top.members[i].key(),
                    top.members.last().key(),
                    entry.key(),
                );
            }
        }
    }
    assert forall|i: int| 0 <= i < after.len() implies sealed(
        file,
        (#[trigger] after[i]).members,
        after[i].level,
    ) && ascending(after[i].members) by {
        if i < rest.len() {
            assert(after[i] == blocks[i]);
        }
    }
    let a = stack_leaves(file, rest);
    let b = leaves_of(file, top.members, top.level);
    let c = leaves_of(file, seq![entry], top.level);
    assert(a + (b + c) =~= (a + b) + c);
}

/// The block written last still hangs on the lowest pointer when the top
/// block, which is a leaf block, grows.
proof fn lemma_grow_leaf_held(
    file: Seq<u8>,
    blocks: Seq<PendingModel>,
    entry: EntryModel,
    node: (u64, u32),
    at: int,
)
    requires
        blocks.len() > 0,
        blocks.last().level == 0,
        stack_sealed(file, blocks),
        holds_last(blocks, at, node),
    ensures
        holds_last(
            blocks.drop_last().push(
                PendingModel { level: 0, members: blocks.last().members.push(entry) },
            ),
            at,
            node,
        ),
{
    let top = blocks.last();
    let after = blocks.drop_last().push(
        PendingModel { level: 0, members: top.members.push(entry) },
    );
    if at == blocks.len() - 1 {
        lemma_sealed_pointer(file, top.members, top.level, top.members.len() - 1);
    }
    assert(after[at] == blocks[at]);
    assert forall|j: int| at < j < after.len() implies (#[trigger] after[j]).level == 0
        || after[j].members.len() == 0 by {
        if j < after.len() - 1 {
            assert(after[j] == blocks[j]);
        }
    }
}

/// A writer that has taken nothing is sound.
pub proof fn lemma_fresh_sound(m: WriterModel)
    requires
        has_magic(m.file),
        m.file.len() == 4,
        m.blocks.len() == 0,
        m.input.len() == 0,
        m.last_node is None,
    ensures
        sound(m),
{
    reveal(sound);
    assert(stack_leaves(m.file, m.blocks) =~= m.input);
}

/// A leaf entry is ready for the leaf block of a sound writer.
pub proof fn lemma_ready_leaf(m: WriterModel, entry: EntryModel)
    requires
        sound(m),
        !entry.is_pos_len(),
    ensures
        ready(m, 0, entry),
{
    reveal(sound);
    reveal(ready);
    crate::sealed::lemma_sealed_leaf(m.file, entry);
    assert(m.input.push(entry) =~= m.input + seq![entry]);
}

/// A block that has members after a block of `level` was made sure of was
/// there before, and nothing was added.
pub proof fn lemma_ensured_top(blocks: Seq<PendingModel>, level: u16)
    requires
        ensure_level(blocks, level).last().members.len() > 0,
    ensures
        ensure_level(blocks, level) == blocks,
    decreases
            (if blocks.len() > 0 {
                blocks.last().level as int
            } else {
                0
            }),
{
    if blocks.len() > 0 && blocks.last().level > level {
        let more = blocks.push(
            PendingModel { level: (blocks.last().level - 1) as u16, members: Seq::empty() },
        );
        lemma_ensured_top(more, level);
    }
}

/// An entry that is refused leaves the writer as it was.
pub proof fn lemma_refused(m: WriterModel, level: u16, entry: EntryModel)
    requires
        take(m, level, entry) is Rejected,
    ensures
        take(m, level, entry) == Taken::Rejected(m),
{
    lemma_ensured_top(m.blocks, level);
}

/// While the entries that went in rise, no entry is refused: the key of an
/// entry that is ready is above the last key of the pending block that it
/// goes to, on whatever level.
pub proof fn lemma_ready_above(m: WriterModel, level: u16, entry: EntryModel)
    requires
        ready(m, level, entry),
        m.blocks.len() > 0 ==> m.blocks.last().level >= level,
        ascending(
            if level == 0 {
                m.input.push(entry)
            } else {
                m.input
            },
        ),
    ensures
        !(take(m, level, entry) is Rejected),
{
    reveal(ready);
    let blocks = ensure_level(m.blocks, level);
    lemma_ensure_level(m.file, m.blocks, level);
    let top = blocks.last();
    if top.members.len() > 0 {
        let all = if level == 0 {
            m.input.push(entry)
        } else {
            m.input
        };
        let last = top.members.last();
        let front = top.members.drop_last();
        assert(front + seq![last] =~= top.members);
        assert(sealed(m.file, top.members, top.level));
        crate::sealed::lemma_sealed_parts(m.file, front, seq![last], level);
        crate::sealed::lemma_sealed_concat(m.file, front, seq![last], level);
        crate::sealed::lemma_first_leaf(m.file, seq![last], level);
        crate::sealed::lemma_first_leaf(m.file, seq![entry], level);
        let a = stack_leaves(m.file, blocks.drop_last());
        let b = leaves_of(m.file, front, level);
        let c = leaves_of(m.file, seq![last], level);
        let d = leaves_of(m.file, seq![entry], level);
        assert(stack_leaves(m.file, blocks) == a + leaves_of(m.file, top.members, level));
        assert(all =~= a + (b + c) + d);
        let i = a.len() + b.len();
        let j = a.len() + b.len() + c.len();
        assert(all[i as int] == c[0]);
        assert(all[j as int] == d[0]);
        assert(key_lt(all[i as int].key(), all[j as int].key()));
        lemma_key_lt_total(last.key(), entry.key());
    }
}

/// An entry that is ready leaves a sound writer where it is taken.
pub proof fn lemma_take_sound(m: WriterModel, level: u16, entry: EntryModel)
    requires
        ready(m, level, entry),
        m.blocks.len() > 0 ==> m.blocks.last().level >= level,
    ensures
        match take(m, level, entry) {
            Taken::Rejected(_) => true,
            Taken::Kept(w) => sound(w),
            Taken::Full(w) => sound(w) && w.blocks.len() > 0 && w.blocks.last().level == level
                && w.blocks.last().members.len() > 0,
        },
{
    reveal(sound);
    reveal(ready);
    let blocks = ensure_level(m.blocks, level);
    lemma_ensure_level(m.file, m.blocks, level);
    let top = blocks.last();
    if !(top.members.len() > 0 && key_le(entry.key(), top.members.last().key())) {
        if top.members.len() > 0 {
            lemma_key_lt_total(top.members.last().key(), entry.key());
        }
        lemma_taken_sound(m, level, entry, blocks);
    }
}

/// The writer with a ready entry behind the last pending block, above whose
/// last key its key is, is sound.
proof fn lemma_taken_sound(
    m: WriterModel,
    level: u16,
    entry: EntryModel,
    blocks: Seq<PendingModel>,
)
    requires
        ready(m, level, entry),
        blocks == ensure_level(m.blocks, level),
        blocks.len() > 0,
        blocks.last().level == level,
        stack_sealed(m.file, blocks),
        stack_leaves(m.file, blocks) == stack_leaves(m.file, m.blocks),
        forall|at: int, node: (u64, u32)|
            holds_last(m.blocks, at, node) ==> #[trigger] holds_last(blocks, at, node),
        blocks.last().members.len() > 0 ==> key_lt(
            blocks.last().members.last().key(),
            entry.key(),
        ),
        m.blocks.len() > 0 ==> blocks[0] == m.blocks[0],
        m.blocks.len() == 0 ==> blocks.len() == 1,
    ensures
        sound(
            WriterModel {
                blocks: blocks.drop_last().push(
                    PendingModel {
                        level: blocks.last().level,
                        members: blocks.last().members.push(entry),
                    },
                ),
                input: if level == 0 {
                    m.input.push(entry)
                } else {
                    m.input
                },
                ..m
            },
        ),
{
    reveal(sound);
    reveal(ready);
    let top = blocks.last();
    let grown = PendingModel { level: top.level, members: top.members.push(entry) };
    let after = blocks.drop_last().push(grown);
    let w = WriterModel {
        blocks: after,
        input: if level == 0 {
            m.input.push(entry)
        } else {
            m.input
        },
        ..m
    };
    lemma_grow_top(m.file, blocks, entry);
    assert(after.last() == grown);
    assert(w.last_node == m.last_node);
    assert(w.file == m.file);
    assert(grounded(after)) by {
        if blocks.len() > 1 {
            assert(after[0] == blocks[0]);
        }
    }
    if level == 0 {
        if m.last_node is Some {
            let node = m.last_node->Some_0;
            assert(last_held(m));
            let at = choose|at: int| holds_last(m.blocks, at, node);
            assert(holds_last(m.blocks, at, node));
            assert(holds_last(blocks, at, node));
            lemma_grow_leaf_held(m.file, blocks, entry, node, at);
            assert(grown == (PendingModel { level: 0, members: top.members.push(entry) }));
            assert(holds_last(w.blocks, at, node));
            assert(w.last_node == Some(node));
            assert(last_held(w));
        } else {
            assert(last_held(w));
        }
    } else {
        let node = m.last_node->Some_0;
        assert(after.len() == blocks.len());
        assert(grown.members.last() == entry);
        assert(points_to(entry, node));
        let at = after.len() - 1;
        assert(holds_last(w.blocks, at, node));
        assert(w.last_node == Some(node));
        assert(last_held(w));
    }
    assert(sound(w));
}

/// Dropping an empty block from the top of a sound writer leaves it sound.
pub proof fn lemma_drop_empty(m: WriterModel)
    requires
        sound(m),
        m.blocks.len() > 0,
        m.blocks.last().members.len() == 0,
    ensures
        sound(WriterModel { blocks: m.blocks.drop_last(), ..m }),
{
    reveal(sound);
    reveal(ready);
    let rest = m.blocks.drop_last();
    assert forall|i: int| 0 <= i < rest.len() implies sealed(
        m.file,
        (#[trigger] rest[i]).members,
        rest[i].level,
    ) && ascending(rest[i].members) by {
        assert(rest[i] == m.blocks[i]);
    }
    assert(m.blocks.last().members =~= Seq::<EntryModel>::empty());
    crate::tree::lemma_walk_nothing(m.file, m.blocks.last().level);
    assert(leaves_of(m.file, m.blocks.last().members, m.blocks.last().level)
        =~= Seq::<EntryModel>::empty());
    assert(stack_leaves(m.file, m.blocks) =~= stack_leaves(m.file, rest));
    assert(stack_sealed(m.file, rest));
    let after = WriterModel { blocks: rest, ..m };
    if m.last_node is Some {
        let node = m.last_node->Some_0;
        let at = choose|at: int| holds_last(m.blocks, at, node);
        assert(holds_last(m.blocks, at, node));
        assert(at < m.blocks.len() - 1);
        assert(rest[at] == m.blocks[at]);
        assert forall|j: int| at < j < rest.len() implies (#[trigger] rest[j]).level == 0
            || rest[j].members.len() == 0 by {
            assert(rest[j] == m.blocks[j]);
        }
        assert(holds_last(after.blocks, at, node));
        assert(after.last_node == Some(node));
        assert(last_held(after));
    } else {
        assert(last_held(after));
    }
    assert(has_magic(after.file));
    assert(stack_sealed(after.file, after.blocks));
    assert(stack_leaves(after.file, after.blocks) == after.input);
    assert(grounded(after.blocks)) by {
        if rest.len() > 0 {
            assert(rest[0] == m.blocks[0]);
        }
    }
}

/// Writing out the top block of a sound writer leaves the pointer to it
/// ready for the block one level up. `payload` is what the codec made of the
/// block, and reads back through it as the block.
pub proof fn lemma_write_out_ready(m: WriterModel, level: u16, payload: Seq<u8>)
    requires
        sound(m),
        stacked(m.blocks),
        m.blocks.len() > 0,
        m.blocks.last().level == level,
        level < u16::MAX,
        m.blocks.last().members.len() > 0,
        branching(m.blocks.last().members, level),
        forall|i: int|
            0 <= i < m.blocks.last().members.len() ==> (#[trigger] m.blocks.last().members[i]).wf(),
        payload.len() + 7 <= u32::MAX,
        m.file.len() + payload.len() + 7 <= usize::MAX,
        concat_encoded(m.blocks.last().members).len() < usize::MAX,
        m.compress.decompressed(payload) == Some(
            seq![TAG_END] + concat_encoded(m.blocks.last().members),
        ),
    ensures
        ({
            let blocklen = (payload.len() + 3) as u32;
            let length = (payload.len() + 7) as u32;
            let bytes = u32_be(blocklen) + u16_be(level) + seq![m.compress.byte()] + payload;
            let after = WriterModel {
                file: m.file + bytes,
                last_node: Some((m.file.len() as u64, length)),
                blocks: m.blocks.drop_last(),
                ..m
            };
            let pointer = EntryModel::PosLen {
                blockpos: m.file.len() as u64,
                blocklen: length,
                key: m.blocks.last().members[0].key(),
            };
            &&& ready(after, (level + 1) as u16, pointer)
            &&& after.blocks.len() > 0 ==> after.blocks.last().level >= level + 1
        }),
{
    reveal(sound);
    reveal(ready);
    let members = m.blocks.last().members;
    let blocklen = (payload.len() + 3) as u32;
    let bytes = u32_be(blocklen) + u16_be(level) + seq![m.compress.byte()] + payload;
    let grown = m.file + bytes;
    let rest = m.blocks.drop_last();
    let pos = m.file.len() as u64;
    let pointer = EntryModel::PosLen {
        blockpos: pos,
        blocklen: (payload.len() + 7) as u32,
        key: members[0].key(),
    };
    let h = BlockHeader { blocklen, level, compression: m.compress };
    lemma_block_written(m.file, m.compress, level, members, payload);
    lemma_stack_stable(m.file, bytes, m.blocks);
    assert forall|i: int| 0 <= i < rest.len() implies sealed(
        grown,
        (#[trigger] rest[i]).members,
        rest[i].level,
    ) && ascending(rest[i].members) by {
        assert(rest[i] == m.blocks[i]);
    }
    assert(sealed(m.file, members, level) && ascending(members));
    lemma_sealed_stable(m.file, bytes, members, level);
    lemma_seal_pointer(grown, pointer, (level + 1) as u16, h, members);
    assert(stack_leaves(m.file, m.blocks) == stack_leaves(m.file, rest) + leaves_of(
        m.file,
        members,
        level,
    ));
    assert(has_magic(grown)) by {
        assert(crate::bytes::be_u32(grown) == crate::bytes::be_u32(m.file));
    }
    if rest.len() > 0 {
        assert(rest.last() == m.blocks[m.blocks.len() - 2]);
        assert(rest[0] == m.blocks[0]);
    }
}

/// A trailer behind a body reads back as it was written.
#[verifier::rlimit(60)]
pub proof fn lemma_trailer_reads(body: Seq<u8>, image: Seq<u8>, root_pos: u64)
    requires
        body.len() >= 4,
        image.len() <= u32::MAX,
        root_pos <= body.len(),
    ensures
        trailer_at(body + trailer_bytes(image, root_pos)) == Ok::<(Seq<u8>, u64), Error>(
            (image, root_pos),
        ),
{
    let trailer = trailer_bytes(image, root_pos);
    let file = body + trailer;
    let len = file.len() as int;
    lemma_be_round_trip(0, image.len() as u32, root_pos);
    assert(trailer.len() == image.len() + 16);
    assert(file.skip(len - 12) =~= u32_be(image.len() as u32) + u64_be(root_pos));
    assert(be_u32(file.skip(len - 12)) == be_u32(u32_be(image.len() as u32)));
    assert(file.skip(len - 8) =~= u64_be(root_pos));
    assert(be_u64(file.skip(len - 8)) == root_pos);
    let bloom_len = image.len() as int;
    assert(be_u32(file.skip(len - 12)) as int == bloom_len);
    assert(len == body.len() + bloom_len + 16);
    assert(root_pos < len);
    assert(file.subrange(len - 16 - bloom_len, len - 12 - bloom_len) =~= seq![
        0u8,
        0u8,
        0u8,
        0u8,
    ]);
    assert(file.subrange(len - 12 - bloom_len, len - 12) =~= image);
}

/// The file of a writer that took nothing reads back as no entries: its
/// root is an empty leaf block right behind the magic.
pub proof fn lemma_empty_root_reads(magic: Seq<u8>, image: Seq<u8>)
    requires
        magic.len() == 4,
    ensures
        tree_entries(
            magic + seq![0u8, 0u8, 0u8, 0u8, 0u8, 0u8] + trailer_bytes(image, 4),
            4,
        ) == Ok::<Seq<EntryModel>, Error>(Seq::empty()),
        rooted(magic + seq![0u8, 0u8, 0u8, 0u8, 0u8, 0u8] + trailer_bytes(image, 4), 4),
{
    lemma_sealed_empty(magic + seq![0u8, 0u8, 0u8, 0u8, 0u8, 0u8] + trailer_bytes(image, 4), 0);
    let file = magic + seq![0u8, 0u8, 0u8, 0u8, 0u8, 0u8] + trailer_bytes(image, 4);
    assert(file.len() >= 26);
    assert(file[10] == 0u8);
    assert(Compression::of_byte(0u8) == Some(Compression::Uncompressed));
    let h = BlockHeader { blocklen: 0, level: 0, compression: Compression::Uncompressed };
    assert(be_u32(file.skip(4)) == 0);
    assert(crate::bytes::be_u16(file.skip(8)) == 0);
    assert(header_at(file, 4) == Ok::<BlockHeader, Error>(h));
    lemma_entries_of_nothing();
    assert(entries_at(file, 4, h) == Ok::<Seq<EntryModel>, Error>(Seq::empty()));
    lemma_walk_nothing(file, 0);
}

/// A sound writer that wrote no block holds no entries once at most the one
/// inner block with the one pointer is pending.
proof fn lemma_nothing_written(d: WriterModel)
    requires
        sound(d),
        d.last_node is None,
        d.blocks.len() <= 1,
        d.blocks.len() == 1 ==> is_solo(d.blocks[0]),
    ensures
        d.input == Seq::<EntryModel>::empty(),
        d.file.len() == 4,
{
    reveal(sound);
    reveal(ready);
    if d.blocks.len() == 1 {
        let p = d.blocks[0].members[0];
        assert(d.blocks[0].members =~= seq![p]);
        assert(sealed(d.file, d.blocks[0].members, d.blocks[0].level));
        lemma_sealed_pointer_is(d.file, p, d.blocks[0].level);
        lemma_sealed_pointer_alone(d.file, p, d.blocks[0].level);
    }
    assert(d.blocks =~= Seq::<PendingModel>::empty());
}

/// In a sound writer that wrote a block, with the one inner block with the
/// one pointer pending, the block written last reads as sealed entries under
/// which the entries that went in lie.
proof fn lemma_root_written(d: WriterModel, node: (u64, u32))
    requires
        sound(d),
        d.last_node == Some(node),
        d.blocks.len() <= 1,
        d.blocks.len() == 1 ==> is_solo(d.blocks[0]),
    ensures
        node.1 >= 7,
        node.0 + node.1 <= d.file.len(),
        header_at_length(d.file, node.0 as int, node.1) matches Ok(h) && (entries_at(
            d.file,
            node.0 as int,
            h,
        ) matches Ok(child) && ascending(child) && branching(child, h.level) && sealed(
            d.file,
            child,
            h.level,
        ) && leaves_of(d.file, child, h.level) == d.input),
{
    reveal(sound);
    reveal(ready);
    let at = choose|at: int| holds_last(d.blocks, at, node);
    assert(holds_last(d.blocks, at, node));
    assert(at == 0);
    let block = d.blocks[0];
    let p = block.members[0];
    assert(block.members =~= seq![p]);
    assert(block.members.last() == p);
    assert(sealed(d.file, block.members, block.level));
    lemma_sealed_pointer_alone(d.file, p, block.level);
    assert(d.blocks.drop_last() =~= Seq::<PendingModel>::empty());
    assert(stack_leaves(d.file, d.blocks.drop_last()) =~= Seq::<EntryModel>::empty());
    assert(stack_leaves(d.file, d.blocks) =~= leaves_of(d.file, block.members, block.level));
}

/// A tree whose root reads as sealed entries still reads so behind a
/// trailer.
proof fn lemma_root_reads(file: Seq<u8>, more: Seq<u8>, node: (u64, u32))
    requires
        node.1 >= 7,
        node.0 + node.1 <= file.len(),
        header_at_length(file, node.0 as int, node.1) matches Ok(h) && (entries_at(
            file,
            node.0 as int,
            h,
        ) matches Ok(child) && ascending(child) && branching(child, h.level) && sealed(
            file,
            child,
            h.level,
        )),
    ensures
        ({
            let h = header_at_length(file, node.0 as int, node.1)->Ok_0;
            let child = entries_at(file, node.0 as int, h)->Ok_0;
            &&& tree_entries(file + more, node.0) == Ok::<Seq<EntryModel>, Error>(
                leaves_of(file, child, h.level),
            )
            &&& rooted(file + more, node.0)
            &&& leaves_of(file + more, child, h.level) == leaves_of(file, child, h.level)
            &&& header_at(file + more, node.0 as int) == Ok::<BlockHeader, Error>(h)
            &&& entries_at(file + more, node.0 as int, h) == Ok::<Seq<EntryModel>, Error>(child)
        }),
{
    let h = header_at_length(file, node.0 as int, node.1)->Ok_0;
    let child = entries_at(file, node.0 as int, h)->Ok_0;
    lemma_block_stable(file, more, node.0 as int, node.1);
    lemma_sealed_stable(file, more, child, h.level);
    assert(header_at(file + more, node.0 as int) == Ok::<BlockHeader, Error>(h));
    assert(entries_at(file + more, node.0 as int, h) == Ok::<Seq<EntryModel>, Error>(child));
}

/// A file that starts with the magic still does when it grows.
pub proof fn lemma_magic_stable(file: Seq<u8>, more: Seq<u8>)
    requires
        has_magic(file),
    ensures
        has_magic(file + more),
{
    assert(be_u32(file + more) == be_u32(file));
}

/// The closed file of a writer that wrote no block.
proof fn lemma_closed_empty(d: WriterModel, image: Seq<u8>)
    requires
        sound(d),
        d.last_node is None,
        d.blocks.len() <= 1,
        d.blocks.len() == 1 ==> is_solo(d.blocks[0]),
        image.len() <= u32::MAX,
    ensures
        reads_back(d, image),
{
    reveal(sound);
    reveal(ready);
    reveal(reads_back);
    let body = d.file + seq![0u8, 0u8, 0u8, 0u8, 0u8, 0u8];
    lemma_nothing_written(d);
    lemma_magic_stable(d.file, seq![0u8, 0u8, 0u8, 0u8, 0u8, 0u8]);
    lemma_magic_stable(body, trailer_bytes(image, 4));
    lemma_trailer_reads(body, image, 4);
    lemma_empty_root_reads(d.file, image);
}

/// The closed file of a writer that wrote a block.
proof fn lemma_closed_rooted(d: WriterModel, image: Seq<u8>, node: (u64, u32))
    requires
        sound(d),
        d.last_node == Some(node),
        d.blocks.len() <= 1,
        d.blocks.len() == 1 ==> is_solo(d.blocks[0]),
        image.len() <= u32::MAX,
    ensures
        reads_back(d, image),
{
    reveal(sound);
    reveal(ready);
    reveal(reads_back);
    lemma_magic_stable(d.file, trailer_bytes(image, node.0));
    lemma_root_written(d, node);
    lemma_trailer_reads(d.file, image, node.0);
    lemma_root_reads(d.file, trailer_bytes(image, node.0), node);
}

/// A closed file reads back as what went in. Where the writer is sound and
/// closing left at most the one inner block with the one pointer, the file
/// starts with the magic, its trailer gives the bloom filter and the block
/// written last as the root, and a walk from the root yields the entries
/// that went in, in order.
pub proof fn lemma_closed_reads(d: WriterModel, image: Seq<u8>)
    requires
        sound(d),
        d.blocks.len() <= 1,
        d.blocks.len() == 1 ==> is_solo(d.blocks[0]),
        image.len() <= u32::MAX,
    ensures
        reads_back(d, image),
        d.last_node is None ==> d.input.len() == 0,
{
    match d.last_node {
        None => {
            lemma_closed_empty(d, image);
            lemma_nothing_written(d);
        },
        Some(node) => {
            lemma_closed_rooted(d, image, node);
        },
    }
}

/// There are at least as many leaf entries under pending blocks as under
/// the first of them.
proof fn lemma_stack_leaves_first(file: Seq<u8>, blocks: Seq<PendingModel>)
    requires
        blocks.len() > 0,
    ensures
        stack_leaves(file, blocks).len() >= leaves_of(
            file,
            blocks[0].members,
            blocks[0].level,
        ).len(),
    decreases blocks.len(),
{
    if blocks.len() > 1 {
        lemma_stack_leaves_first(file, blocks.drop_last());
        assert(blocks.drop_last()[0] == blocks[0]);
    } else {
        assert(blocks.drop_last() =~= Seq::<PendingModel>::empty());
        assert(blocks.last() == blocks[0]);
    }
}

/// Where closing leaves blocks beneath the one inner block with the one
/// pointer, what hangs on them is lost. The closed file is a tree from its
/// root down, which holds fewer entries than went in.
pub proof fn lemma_closed_loses(d: WriterModel, image: Seq<u8>)
    requires
        sound(d),
        d.blocks.len() >= 2,
        is_solo(d.blocks.last()),
        image.len() <= u32::MAX,
    ensures
        d.last_node is Some,
        trailer_at(d.file + trailer_bytes(image, d.last_node->Some_0.0)) == Ok::<
            (Seq<u8>, u64),
            Error,
        >((image, d.last_node->Some_0.0)),
        tree_entries(d.file + trailer_bytes(image, d.last_node->Some_0.0), d.last_node->Some_0.0)
            matches Ok(found) && found.len() < d.input.len(),
        rooted(d.file + trailer_bytes(image, d.last_node->Some_0.0), d.last_node->Some_0.0),
        has_magic(d.file + trailer_bytes(image, d.last_node->Some_0.0)),
{
    reveal(sound);
    lemma_magic_stable(d.file, trailer_bytes(image, d.last_node->Some_0.0));
    let top = d.blocks.last();
    let p = top.members[0];
    assert(top.members =~= seq![p]);
    assert(top.members.last() == p);
    assert(sealed(d.file, top.members, top.level));
    lemma_sealed_pointer_is(d.file, p, top.level);
    lemma_sealed_pointer_alone(d.file, p, top.level);
    let node = d.last_node->Some_0;
    let at = choose|at: int| holds_last(d.blocks, at, node);
    assert(holds_last(d.blocks, at, node));
    assert(at == d.blocks.len() - 1);
    let h = header_at_length(d.file, node.0 as int, node.1)->Ok_0;
    let child = entries_at(d.file, node.0 as int, h)->Ok_0;
    lemma_root_reads(d.file, trailer_bytes(image, node.0), node);
    lemma_trailer_reads(d.file, image, node.0);
    let rest = d.blocks.drop_last();
    assert(rest[0] == d.blocks[0]);
    assert(sealed(d.file, rest[0].members, rest[0].level));
    crate::sealed::lemma_first_leaf(d.file, rest[0].members, rest[0].level);
    lemma_stack_leaves_first(d.file, rest);
}

/// Whether the blocks from the root at `root_pos` down make a tree: the
/// root can be read, its keys rise strictly, it branches where it is an
/// inner block, and its entries are sealed, which says the same of every
/// block beneath it.
pub open spec fn rooted(file: Seq<u8>, root_pos: u64) -> bool {
    &&& header_at(file, root_pos as int) matches Ok(h)
    &&& entries_at(file, root_pos as int, h) matches Ok(entries)
    &&& ascending(entries)
    &&& branching(entries, h.level)
    &&& sealed(file, entries, h.level)
}

/// Whether the file that closing makes of the writer `d`, whose pending
/// blocks are written out and whose bloom filter serializes to `image`,
/// reads back as what went in: it starts with the magic, its trailer gives
/// the bloom filter and the root, and a walk from the root yields the
/// entries that went in, in order.
#[verifier::opaque]
pub open spec fn reads_back(d: WriterModel, image: Seq<u8>) -> bool {
    let root_pos = match d.last_node {
        Some((pos, _)) => pos,
        None => 4u64,
    };
    let file = closed_bytes(d, image);
    &&& has_magic(file)
    &&& trailer_at(file) == Ok::<(Seq<u8>, u64), Error>((image, root_pos))
    &&& tree_entries(file, root_pos) == Ok::<Seq<EntryModel>, Error>(d.input)
    &&& rooted(file, root_pos)
}

/// The bytes of the file that closing makes of the writer `d`, whose
/// pending blocks are written out and whose trailer holds `image`.
pub open spec fn closed_bytes(d: WriterModel, image: Seq<u8>) -> Seq<u8> {
    match d.last_node {
        Some((pos, _)) => d.file + trailer_bytes(image, pos),
        None => d.file + seq![0u8, 0u8, 0u8, 0u8, 0u8, 0u8] + trailer_bytes(image, 4u64),
    }
}

/// A sealed entry in an inner block is a pointer.
proof fn lemma_sealed_pointer_is(file: Seq<u8>, entry: EntryModel, level: u16)
    requires
        sealed(file, seq![entry], level),
        level > 0,
    ensures
        entry is PosLen,
{
    reveal(sealed);
}

} // verus!
