//! Why the descent finds what the tree holds: in a tree whose leaf entries
//! rise strictly by key, the descent to a key comes to the one leaf block
//! that can hold it.
use vstd::prelude::*;
use crate::block::{entries_at, header_at_length, BlockHeader};
use crate::entry::EntryModel;
use crate::error::Error;
use crate::key::{key_le, key_lt, lemma_key_lt_irreflexive, lemma_key_lt_total, lemma_key_lt_transitive};
use crate::memtable::{ascending, has_key, lemma_find_absent};
use crate::sealed::{branching, leaves_of, lemma_first_leaf, lemma_sealed_leaves, lemma_sealed_pointer_alone, lemma_sealed_split, sealed};
use crate::block::header_at;
use crate::memtable::lemma_find_some;
use crate::tree::{child_at, descend, find, opens_as, select_from, TreeModel};
use crate::writer::{encoded_total, holds_entries, BLOCK_SIZE};

verus! {

/// What is found in entries behind entries is what is found in the first,
/// and what is found in the second where the first hold nothing.
pub proof fn lemma_find_concat(a: Seq<EntryModel>, b: Seq<EntryModel>, key: Seq<u8>)
    ensures
        find(a + b, key) == match find(a, key) {
            Some(e) => Some(e),
            None => find(b, key),
        },
    decreases a.len(),
{
    if a.len() == 0 {
        assert(a + b =~= b);
    } else {
        assert((a + b)[0] == a[0]);
        assert((a + b).skip(1) =~= a.skip(1) + b);
        lemma_find_concat(a.skip(1), b, key);
    }
}

/// The parts of entries whose keys rise have rising keys, and every key of
/// the first part is below every key of the second.
pub proof fn lemma_ascending_parts(a: Seq<EntryModel>, b: Seq<EntryModel>)
    requires
        ascending(a + b),
    ensures
        ascending(a),
        ascending(b),
        forall|i: int, j: int|
            0 <= i < a.len() && 0 <= j < b.len() ==> key_lt(
                (#[trigger] a[i]).key(),
                (#[trigger] b[j]).key(),
            ),
{
    let all = a + b;
    assert forall|i: int, j: int| 0 <= i < j < a.len() implies key_lt(
        (#[trigger] a[i]).key(),
        (#[trigger] a[j]).key(),
    ) by {
        assert(all[i] == a[i] && all[j] == a[j]);
    }
    assert forall|i: int, j: int| 0 <= i < j < b.len() implies key_lt(
        (#[trigger] b[i]).key(),
        (#[trigger] b[j]).key(),
    ) by {
        assert(all[a.len() + i] == b[i] && all[a.len() + j] == b[j]);
    }
    assert forall|i: int, j: int| 0 <= i < a.len() && 0 <= j < b.len() implies key_lt(
        (#[trigger] a[i]).key(),
        (#[trigger] b[j]).key(),
    ) by {
        assert(all[i] == a[i] && all[a.len() + j] == b[j]);
    }
}

/// Among entries whose keys rise, nothing is found under a key below the
/// first key.
pub proof fn lemma_find_below(entries: Seq<EntryModel>, key: Seq<u8>)
    requires
        ascending(entries),
        entries.len() > 0 ==> key_lt(key, entries[0].key()),
    ensures
        find(entries, key) is None,
{
    if has_key(entries, key) {
        let i = choose|i: int| 0 <= i < entries.len() && (#[trigger] entries[i]).key() == key;
        lemma_key_lt_irreflexive(key);
        if i > 0 {
            assert(key_lt(entries[0].key(), entries[i].key()));
            lemma_key_lt_transitive(key, entries[0].key(), key);
        }
    }
    lemma_find_absent(entries, key);
}

/// Among entries whose keys are all below `bound`, nothing is found under a
/// key that is not below it.
pub proof fn lemma_find_above(entries: Seq<EntryModel>, bound: Seq<u8>, key: Seq<u8>)
    requires
        forall|i: int| 0 <= i < entries.len() ==> key_lt((#[trigger] entries[i]).key(), bound),
        key_le(bound, key),
    ensures
        find(entries, key) is None,
{
    if has_key(entries, key) {
        let i = choose|i: int| 0 <= i < entries.len() && (#[trigger] entries[i]).key() == key;
        lemma_key_lt_irreflexive(key);
        if bound != key {
            lemma_key_lt_transitive(key, bound, key);
        }
    }
    lemma_find_absent(entries, key);
}

/// What the descent finds once a child is selected: nothing where none is,
/// else what the descent finds in the child.
pub open spec fn through(file: Seq<u8>, level: u16, selected: Option<EntryModel>, key: Seq<u8>)
    -> Result<Option<EntryModel>, Error> {
    match selected {
        None => Ok(None),
        Some(entry) => match child_at(file, entry, level) {
            Err(e) => Err(e),
            Ok((pos, child)) => descend(file, pos, child, key),
        },
    }
}

/// The leaf entries under a pointer that may be absent.
pub open spec fn leaves_under(file: Seq<u8>, level: u16, selected: Option<EntryModel>) -> Seq<
    EntryModel,
> {
    match selected {
        None => Seq::empty(),
        Some(entry) => leaves_of(file, seq![entry], level),
    }
}

/// The descent finds what the tree holds. In a block whose entries are
/// sealed and rise by key, over leaf entries that rise by key, the descent
/// to a key finds the leaf entry with that key, and nothing where there is
/// none.
pub proof fn lemma_descend_finds(file: Seq<u8>, start: int, h: BlockHeader, key: Seq<u8>)
    requires
        entries_at(file, start, h) is Ok,
        sealed(file, entries_at(file, start, h)->Ok_0, h.level),
        ascending(entries_at(file, start, h)->Ok_0),
        ascending(leaves_of(file, entries_at(file, start, h)->Ok_0, h.level)),
    ensures
        descend(file, start, h, key) == Ok::<Option<EntryModel>, Error>(
            find(leaves_of(file, entries_at(file, start, h)->Ok_0, h.level), key),
        ),
    decreases h.level, 2int, 0int,
{
    let entries = entries_at(file, start, h)->Ok_0;
    if h.level == 0 {
        lemma_sealed_leaves(file, entries);
    } else {
        assert(leaves_under(file, h.level, None) + leaves_of(file, entries, h.level)
            =~= leaves_of(file, entries, h.level));
        lemma_select_finds(file, h.level, None, entries, key);
    }
}

/// The selection among the pointers of an inner block leads to what the
/// tree holds. `prev` is the pointer selected so far, whose key is not above
/// `key`, and `rest` are the pointers still to come.
pub proof fn lemma_select_finds(
    file: Seq<u8>,
    level: u16,
    prev: Option<EntryModel>,
    rest: Seq<EntryModel>,
    key: Seq<u8>,
)
    requires
        level > 0,
        sealed(file, rest, level),
        ascending(rest),
        prev is Some ==> sealed(file, seq![prev->Some_0], level) && key_le(
            (prev->Some_0).key(),
            key,
        ),
        ascending(leaves_under(file, level, prev) + leaves_of(file, rest, level)),
    ensures
        through(file, level, select_from(prev, rest, key), key) == Ok::<Option<EntryModel>, Error>(
            find(leaves_under(file, level, prev) + leaves_of(file, rest, level), key),
        ),
    decreases level, 1int, rest.len(),
{
    let under = leaves_under(file, level, prev);
    let ahead = leaves_of(file, rest, level);
    lemma_ascending_parts(under, ahead);
    lemma_find_concat(under, ahead, key);
    if rest.len() == 0 || key_lt(key, rest[0].key()) {
        if rest.len() > 0 {
            lemma_first_leaf(file, rest, level);
            lemma_sealed_split(file, rest, level);
        } else {
            assert(rest =~= Seq::<EntryModel>::empty());
            crate::tree::lemma_walk_nothing(file, level);
        }
        lemma_find_below(ahead, key);
        lemma_under_finds(file, level, prev, key);
        assert(find(under + ahead, key) == find(under, key)) by {
            if find(under, key) is None {
            }
        }
    } else {
        lemma_sealed_split(file, rest, level);
        lemma_key_lt_total(key, rest[0].key());
        let first = rest[0];
        let below = leaves_of(file, seq![first], level);
        let behind = leaves_of(file, rest.skip(1), level);
        assert(under + (below + behind) =~= (under + below) + behind);
        lemma_ascending_parts(under + below, behind);
        lemma_ascending_parts(under, below);
        assert forall|i: int, j: int| 0 <= i < j < rest.skip(1).len() implies key_lt(
            (#[trigger] rest.skip(1)[i]).key(),
            (#[trigger] rest.skip(1)[j]).key(),
        ) by {
            assert(rest.skip(1)[i] == rest[i + 1]);
            assert(rest.skip(1)[j] == rest[j + 1]);
        }
        assert(ascending(below + behind));
        lemma_select_finds(file, level, Some(first), rest.skip(1), key);
        // Everything under the pointer before is below the first key here.
        lemma_first_leaf(file, seq![first], level);
        assert forall|i: int| 0 <= i < under.len() implies key_lt(
            (#[trigger] under[i]).key(),
            first.key(),
        ) by {
            assert(key_lt(under[i].key(), below[0].key()));
        }
        lemma_find_above(under, first.key(), key);
    }
}

/// The descent into a selected child finds what lies under it.
proof fn lemma_under_finds(file: Seq<u8>, level: u16, prev: Option<EntryModel>, key: Seq<u8>)
    requires
        level > 0,
        prev is Some ==> sealed(file, seq![prev->Some_0], level),
        ascending(leaves_under(file, level, prev)),
    ensures
        through(file, level, prev, key) == Ok::<Option<EntryModel>, Error>(
            find(leaves_under(file, level, prev), key),
        ),
    decreases level, 0int, 0int,
{
    match prev {
        None => {
            assert(find(Seq::<EntryModel>::empty(), key) is None);
        },
        Some(p) => {
            lemma_sealed_split(file, seq![p], level);
            lemma_sealed_pointer_alone(file, p, level);
            let h = header_at_length(file, p->blockpos as int, p->blocklen)->Ok_0;
            lemma_descend_finds(file, p->blockpos as int, h, key);
        },
    }
}

/// A tree file that holds entries whose keys rise gives each of them back
/// under its key, and nothing under any other key; and a walk over it yields
/// all of them in order. `t` is what the file opens as.
pub proof fn lemma_tree_gets(file: Seq<u8>, t: TreeModel, entries: Seq<EntryModel>, key: Seq<u8>)
    requires
        holds_entries(file, entries),
        opens_as(file, t),
        ascending(entries),
    ensures
        t.entries() == Ok::<Seq<EntryModel>, Error>(entries),
        t.get(key) == Ok::<Option<EntryModel>, Error>(find(entries, key)),
{
    let root_pos = t.root_pos;
    let h = header_at(file, root_pos as int)->Ok_0;
    lemma_descend_finds(file, root_pos as int, h, key);
    if find(entries, key) is Some {
        lemma_find_some(entries, key);
    }
}

/// Whether `pointer` is a pointer among `entries`, which stand in a block of
/// `level`, or a pointer in a block beneath one of them, however deep.
pub open spec fn reaches(file: Seq<u8>, entries: Seq<EntryModel>, level: u16, pointer: EntryModel)
    -> bool
    decreases level, entries.len(),
{
    if entries.len() == 0 {
        false
    } else if entries[0] is PosLen && entries[0] == pointer {
        true
    } else if reaches(file, entries.skip(1), level, pointer) {
        true
    } else {
        match entries[0] {
            EntryModel::PosLen { blockpos, blocklen, .. } => match header_at_length(
                file,
                blockpos as int,
                blocklen,
            ) {
                Ok(h) => if h.level < level {
                    match entries_at(file, blockpos as int, h) {
                        Ok(child) => reaches(file, child, h.level, pointer),
                        Err(_) => false,
                    }
                } else {
                    false
                },
                Err(_) => false,
            },
            _ => false,
        }
    }
}

/// On every level the blocks of a tree are in order and branch. A pointer
/// that is reached from sealed entries, however deep, leads to a block that
/// can be read, is not empty, has keys that rise strictly, of which the
/// first is the key of the pointer, and holds, where it is an inner block,
/// two pointers at least or one whose encoding alone fills a block.
pub proof fn lemma_reached_block(file: Seq<u8>, entries: Seq<EntryModel>, level: u16, pointer: EntryModel)
    requires
        sealed(file, entries, level),
        reaches(file, entries, level, pointer),
    ensures
        pointer is PosLen,
        header_at_length(file, pointer->blockpos as int, pointer->blocklen) matches Ok(h)
            && entries_at(file, pointer->blockpos as int, h) matches Ok(child) && child.len() > 0
            && child[0].key() == pointer.key() && ascending(child) && branching(child, h.level),
    decreases level, entries.len(),
{
    lemma_sealed_split(file, entries, level);
    if entries[0] is PosLen && entries[0] == pointer {
        lemma_sealed_pointer_alone(file, pointer, level);
    } else if reaches(file, entries.skip(1), level, pointer) {
        lemma_reached_block(file, entries.skip(1), level, pointer);
    } else {
        let first = entries[0];
        lemma_sealed_pointer_alone(file, first, level);
        let h = header_at_length(file, first->blockpos as int, first->blocklen)->Ok_0;
        let child = entries_at(file, first->blockpos as int, h)->Ok_0;
        lemma_reached_block(file, child, h.level, pointer);
    }
}

/// Inner blocks branch. The block that a sealed pointer leads to holds, where
/// it is an inner block, two pointers at least, or one pointer whose
/// encoding alone fills a block: so it holds two at least wherever the
/// encoding of its first pointer is shorter than a block.
pub proof fn lemma_inner_blocks_branch(file: Seq<u8>, pointer: EntryModel, level: u16)
    requires
        sealed(file, seq![pointer], level),
        pointer is PosLen,
    ensures
        header_at_length(file, pointer->blockpos as int, pointer->blocklen) matches Ok(h)
            && entries_at(file, pointer->blockpos as int, h) matches Ok(child) && branching(
            child,
            h.level,
        ) && (h.level > 0 && child[0].encoded_len() < BLOCK_SIZE ==> child.len() >= 2),
{
    lemma_sealed_pointer_alone(file, pointer, level);
    let h = header_at_length(file, pointer->blockpos as int, pointer->blocklen)->Ok_0;
    let child = entries_at(file, pointer->blockpos as int, h)->Ok_0;
    if child.len() == 1 {
        assert(child.drop_last().len() == 0);
        assert(encoded_total(child.drop_last()) == 0);
        assert(encoded_total(child) == child[0].encoded_len());
    }
}

/// The pointers of an inner block part the keys beneath it. In a block
/// whose entries are sealed, over leaf entries that rise by key, every leaf
/// entry under the pointer `at` has a key that is not below the key of the
/// pointer, and below the key of the pointer behind it where there is one.
pub proof fn lemma_pointers_partition(
    file: Seq<u8>,
    entries: Seq<EntryModel>,
    level: u16,
    at: int,
    leaf: int,
)
    requires
        level > 0,
        sealed(file, entries, level),
        ascending(leaves_of(file, entries, level)),
        0 <= at < entries.len(),
        0 <= leaf < leaves_of(file, seq![entries[at]], level).len(),
    ensures
        key_le(entries[at].key(), leaves_of(file, seq![entries[at]], level)[leaf].key()),
        at + 1 < entries.len() ==> key_lt(
            leaves_of(file, seq![entries[at]], level)[leaf].key(),
            entries[at + 1].key(),
        ),
        ascending(leaves_of(file, seq![entries[at]], level)),
    decreases at,
{
    lemma_sealed_split(file, entries, level);
    let below = leaves_of(file, seq![entries[0]], level);
    let behind = leaves_of(file, entries.skip(1), level);
    lemma_ascending_parts(below, behind);
    if at == 0 {
        lemma_first_leaf(file, seq![entries[0]], level);
        if leaf > 0 {
            assert(key_lt(below[0].key(), below[leaf].key()));
        }
        if entries.len() > 1 {
            lemma_first_leaf(file, entries.skip(1), level);
            assert(entries.skip(1)[0] == entries[1]);
            assert(key_lt(below[leaf].key(), behind[0].key()));
        }
    } else {
        assert(entries.skip(1)[at - 1] == entries[at]);
        if at + 1 < entries.len() {
            assert(entries.skip(1)[at] == entries[at + 1]);
        }
        lemma_pointers_partition(file, entries.skip(1), level, at - 1, leaf);
    }
}

} // verus!
