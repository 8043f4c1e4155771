//! Entries kept in memory in ascending key order, one for each key.
use vstd::prelude::*;
use crate::entry::{Entry, EntryModel};
use crate::key::{compare, key_lt, key_order, KeyOrder, lemma_key_lt_irreflexive, lemma_key_lt_total, lemma_key_lt_transitive};
use crate::tree::find;

verus! {

/// Every entry comes before every entry behind it: the keys rise strictly.
pub open spec fn ascending(entries: Seq<EntryModel>) -> bool {
    forall|i: int, j: int|
        0 <= i < j < entries.len() ==> key_lt(
            (#[trigger] entries[i]).key(),
            (#[trigger] entries[j]).key(),
        )
}

/// Every entry of `after` is `entry` or one of `before`.
pub open spec fn came_from(after: Seq<EntryModel>, before: Seq<EntryModel>, entry: EntryModel)
    -> bool {
    forall|i: int|
        0 <= i < after.len() ==> #[trigger] after[i] == entry || exists|j: int|
            0 <= j < before.len() && #[trigger] before[j] == after[i]
}

/// The entries with `entry` in its place, instead of the entry that has
/// its key if there is one.
pub open spec fn upserted(entries: Seq<EntryModel>, entry: EntryModel) -> Seq<EntryModel>
    decreases entries.len(),
{
    if entries.len() == 0 {
        seq![entry]
    } else {
        match key_order(entries[0].key(), entry.key()) {
            KeyOrder::Less => seq![entries[0]] + upserted(entries.skip(1), entry),
            KeyOrder::Equal => seq![entry] + entries.skip(1),
            KeyOrder::Greater => seq![entry] + entries,
        }
    }
}

/// Whether an entry with `key` is among `entries`.
pub open spec fn has_key(entries: Seq<EntryModel>, key: Seq<u8>) -> bool {
    exists|i: int| 0 <= i < entries.len() && (#[trigger] entries[i]).key() == key
}

/// Where no entry has the key, none is found.
pub proof fn lemma_find_absent(entries: Seq<EntryModel>, key: Seq<u8>)
    requires
        !has_key(entries, key),
    ensures
        find(entries, key) is None,
    decreases entries.len(),
{
    if entries.len() > 0 {
        assert(entries[0].key() != key);
        assert forall|i: int| 0 <= i < entries.skip(1).len() implies (
        #[trigger] entries.skip(1)[i]).key() != key by {
            assert(entries.skip(1)[i] == entries[i + 1]);
        }
        lemma_find_absent(entries.skip(1), key);
    }
}

/// Among entries with rising keys the entry at each place is the one found
/// under its key.
pub proof fn lemma_find_at(entries: Seq<EntryModel>, at: int)
    requires
        ascending(entries),
        0 <= at < entries.len(),
    ensures
        find(entries, entries[at].key()) == Some(entries[at]),
    decreases entries.len(),
{
    if at > 0 {
        lemma_key_lt_total(entries[0].key(), entries[at].key());
        assert forall|i: int, j: int| 0 <= i < j < entries.skip(1).len() implies key_lt(
            (#[trigger] entries.skip(1)[i]).key(),
            (#[trigger] entries.skip(1)[j]).key(),
        ) by {
            assert(entries.skip(1)[i] == entries[i + 1]);
            assert(entries.skip(1)[j] == entries[j + 1]);
        }
        assert(entries.skip(1)[at - 1] == entries[at]);
        lemma_find_at(entries.skip(1), at - 1);
    }
}

/// What is found is among the entries and has the key.
pub proof fn lemma_find_some(entries: Seq<EntryModel>, key: Seq<u8>)
    requires
        find(entries, key) is Some,
    ensures
        find(entries, key).unwrap().key() == key,
        exists|i: int| 0 <= i < entries.len() && #[trigger] entries[i] == find(entries, key).unwrap(),
    decreases entries.len(),
{
    if entries.len() > 0 {
        if entries[0].key() == key {
            assert(entries[0] == find(entries, key).unwrap());
        } else {
            lemma_find_some(entries.skip(1), key);
            let i = choose|i: int|
                0 <= i < entries.skip(1).len() && #[trigger] entries.skip(1)[i] == find(
                    entries.skip(1),
                    key,
                ).unwrap();
            assert(entries[i + 1] == find(entries, key).unwrap());
        }
    }
}

/// The entry with `key`, if there is one.
pub fn lookup<'a>(data: &'a Vec<Entry>, key: &[u8]) -> (r: Option<&'a Entry>)
    ensures
        match r {
            Some(e) => find(data.deep_view(), key@) == Some(e@),
            None => find(data.deep_view(), key@) is None,
        },
{
    let mut i: usize = 0;
    proof {
        assert(data.deep_view().skip(0) =~= data.deep_view());
    }
    while i < data.len()
        invariant
            i <= data@.len(),
            find(data.deep_view().skip(i as int), key@) == find(data.deep_view(), key@),
        decreases data@.len() - i,
    {
        let entry = &data[i];
        proof {
            assert(data.deep_view().skip(i as int)[0] == entry@);
            assert(data.deep_view().skip(i as int).skip(1) =~= data.deep_view().skip(i + 1));
        }
        match compare(entry.key(), key) {
            KeyOrder::Equal => {
                return Some(entry);
            },
            _ => {},
        }
        i = i + 1;
    }
    None
}

/// Puts `entry` in its place, instead of the entry that has its key if
/// there is one.
pub fn upsert(data: &mut Vec<Entry>, entry: Entry)
    requires
        ascending(old(data).deep_view()),
    ensures
        final(data).deep_view() == upserted(old(data).deep_view(), entry@),
        ascending(final(data).deep_view()),
        forall|key: Seq<u8>|
            #[trigger] find(final(data).deep_view(), key) == if key == entry@.key() {
                Some(entry@)
            } else {
                find(old(data).deep_view(), key)
            },
        final(data)@.len() == old(data)@.len() + if has_key(old(data).deep_view(), entry@.key()) {
            0int
        } else {
            1int
        },
        came_from(final(data).deep_view(), old(data).deep_view(), entry@),
{
    let ghost before = data.deep_view();
    let (at, found) = position(data, entry.key());
    if found {
        let _ = data.remove(at);
        data.insert(at, entry);
        proof {
            let after = data.deep_view();
            assert(after =~= before.update(at as int, entry@));
            lemma_upsert_replaced(before, after, at as int, entry@);
            lemma_upserted_at(before, at as int, true, entry@);
        }
    } else {
        data.insert(at, entry);
        proof {
            let after = data.deep_view();
            assert(after =~= before.insert(at as int, entry@));
            lemma_upsert_inserted(before, after, at as int, entry@);
            lemma_upserted_at(before, at as int, false, entry@);
        }
    }
}

/// The place of `key` among the entries: the first place whose key is not
/// below it, and whether the entry there has the key.
fn position(data: &Vec<Entry>, key: &[u8]) -> (r: (usize, bool))
    ensures
        r.0 <= data@.len(),
        forall|i: int| 0 <= i < r.0 ==> key_lt((#[trigger] data.deep_view()[i]).key(), key@),
        r.1 ==> r.0 < data@.len() && data.deep_view()[r.0 as int].key() == key@,
        !r.1 && r.0 < data@.len() ==> key_lt(key@, data.deep_view()[r.0 as int].key()),
{
    let mut at: usize = 0;
    while at < data.len()
        invariant
            at <= data@.len(),
            forall|i: int| 0 <= i < at ==> key_lt((#[trigger] data.deep_view()[i]).key(), key@),
        decreases data@.len() - at,
    {
        proof {
            assert(data.deep_view()[at as int] == data@[at as int]@);
            lemma_key_lt_total(data.deep_view()[at as int].key(), key@);
        }
        match compare(data[at].key(), key) {
            KeyOrder::Less => {},
            KeyOrder::Equal => {
                return (at, true);
            },
            KeyOrder::Greater => {
                return (at, false);
            },
        }
        at = at + 1;
    }
    (at, false)
}

/// Putting an entry in its place keeps the keys rising. Afterwards the
/// entry is found under its key, and under every other key what was found
/// before.
pub proof fn lemma_upserted(entries: Seq<EntryModel>, entry: EntryModel)
    requires
        ascending(entries),
    ensures
        ascending(upserted(entries, entry)),
        came_from(upserted(entries, entry), entries, entry),
        forall|key: Seq<u8>|
            #[trigger] find(upserted(entries, entry), key) == if key == entry.key() {
                Some(entry)
            } else {
                find(entries, key)
            },
{
    let at = place(entries, entry.key());
    lemma_place(entries, entry.key());
    let found = at < entries.len() && entries[at].key() == entry.key();
    if at < entries.len() {
        lemma_key_lt_total(entries[at].key(), entry.key());
    }
    lemma_upserted_at(entries, at, found, entry);
    if found {
        lemma_upsert_replaced(entries, entries.update(at, entry), at, entry);
    } else {
        lemma_upsert_inserted(entries, entries.insert(at, entry), at, entry);
    }
}

/// The number of entries at the start whose keys are below `key`.
pub open spec fn place(entries: Seq<EntryModel>, key: Seq<u8>) -> int
    decreases entries.len(),
{
    if entries.len() == 0 || !key_lt(entries[0].key(), key) {
        0
    } else {
        1 + place(entries.skip(1), key)
    }
}

proof fn lemma_place(entries: Seq<EntryModel>, key: Seq<u8>)
    ensures
        0 <= place(entries, key) <= entries.len(),
        forall|i: int|
            0 <= i < place(entries, key) ==> key_lt((#[trigger] entries[i]).key(), key),
        place(entries, key) < entries.len() ==> !key_lt(entries[place(entries, key)].key(), key),
    decreases entries.len(),
{
    if entries.len() > 0 && key_lt(entries[0].key(), key) {
        let rest = entries.skip(1);
        lemma_place(rest, key);
        assert forall|i: int| 0 <= i < place(entries, key) implies key_lt(
            (#[trigger] entries[i]).key(),
            key,
        ) by {
            if i > 0 {
                assert(rest[i - 1] == entries[i]);
            }
        }
        if place(entries, key) < entries.len() {
            assert(rest[place(rest, key)] == entries[place(entries, key)]);
        }
    }
}

/// Where the place of the key of `entry` is `at`, the entries with `entry`
/// in its place are the entries with `entry` at `at`.
proof fn lemma_upserted_at(entries: Seq<EntryModel>, at: int, found: bool, entry: EntryModel)
    requires
        0 <= at <= entries.len(),
        forall|i: int| 0 <= i < at ==> key_lt((#[trigger] entries[i]).key(), entry.key()),
        found ==> at < entries.len() && entries[at].key() == entry.key(),
        !found && at < entries.len() ==> key_lt(entry.key(), entries[at].key()),
    ensures
        upserted(entries, entry) == if found {
            entries.update(at, entry)
        } else {
            entries.insert(at, entry)
        },
    decreases at,
{
    if entries.len() == 0 {
        assert(entries.insert(0, entry) =~= seq![entry]);
    } else if at == 0 {
        lemma_key_lt_total(entries[0].key(), entry.key());
        if found {
            assert(entries.update(0, entry) =~= seq![entry] + entries.skip(1));
        } else {
            assert(entries.insert(0, entry) =~= seq![entry] + entries);
        }
    } else {
        lemma_key_lt_total(entries[0].key(), entry.key());
        let rest = entries.skip(1);
        assert forall|i: int| 0 <= i < at - 1 implies key_lt(
            (#[trigger] rest[i]).key(),
            entry.key(),
        ) by {
            assert(rest[i] == entries[i + 1]);
        }
        if at < entries.len() {
            assert(rest[at - 1] == entries[at]);
        }
        lemma_upserted_at(rest, at - 1, found, entry);
        if found {
            assert(entries.update(at, entry) =~= seq![entries[0]] + rest.update(at - 1, entry));
        } else {
            assert(entries.insert(at, entry) =~= seq![entries[0]] + rest.insert(at - 1, entry));
        }
    }
}

/// Replacing the entry at `at` by one with the same key.
proof fn lemma_upsert_replaced(before: Seq<EntryModel>, after: Seq<EntryModel>, at: int, entry: EntryModel)
    requires
        ascending(before),
        0 <= at < before.len(),
        before[at].key() == entry.key(),
        after == before.update(at, entry),
    ensures
        ascending(after),
        has_key(before, entry.key()),
        forall|key: Seq<u8>|
            #[trigger] find(after, key) == if key == entry.key() {
                Some(entry)
            } else {
                find(before, key)
            },
        came_from(after, before, entry),
{
    assert forall|i: int, j: int| 0 <= i < j < after.len() implies key_lt(
        (#[trigger] after[i]).key(),
        (#[trigger] after[j]).key(),
    ) by {
        assert(key_lt(before[i].key(), before[j].key()));
    }
    assert forall|key: Seq<u8>|
        #[trigger] find(after, key) == if key == entry.key() {
            Some(entry)
        } else {
            find(before, key)
        } by {
        if key == entry.key() {
            lemma_find_at(after, at);
        } else {
            assert forall|i: int|
                0 <= i < before.len() && (#[trigger] before[i]).key() == key implies exists|
                j: int,
            | 0 <= j < after.len() && #[trigger] after[j] == before[i] by {
                assert(after[i] == before[i]);
            }
            assert forall|j: int|
                0 <= j < after.len() && (#[trigger] after[j]).key() == key implies exists|
                i: int,
            | 0 <= i < before.len() && #[trigger] before[i] == after[j] by {
                assert(before[j] == after[j]);
            }
            lemma_find_same(before, after, key);
        }
    }
    assert forall|i: int| 0 <= i < after.len() implies #[trigger] after[i] == entry || exists|
        j: int,
    |
        0 <= j < before.len() && #[trigger] before[j] == after[i] by {
        if i != at {
            assert(before[i] == after[i]);
        }
    }
}

/// Two runs of rising keys that hold the same entries under `key` find the
/// same under it.
proof fn lemma_find_same(a: Seq<EntryModel>, b: Seq<EntryModel>, key: Seq<u8>)
    requires
        ascending(a),
        ascending(b),
        forall|i: int|
            0 <= i < a.len() && (#[trigger] a[i]).key() == key ==> exists|j: int|
                0 <= j < b.len() && #[trigger] b[j] == a[i],
        forall|j: int|
            0 <= j < b.len() && (#[trigger] b[j]).key() == key ==> exists|i: int|
                0 <= i < a.len() && #[trigger] a[i] == b[j],
    ensures
        find(a, key) == find(b, key),
{
    if has_key(a, key) {
        let i = choose|i: int| 0 <= i < a.len() && (#[trigger] a[i]).key() == key;
        let j = choose|j: int| 0 <= j < b.len() && #[trigger] b[j] == a[i];
        lemma_find_at(a, i);
        lemma_find_at(b, j);
    } else {
        lemma_find_absent(a, key);
        if has_key(b, key) {
            let j = choose|j: int| 0 <= j < b.len() && (#[trigger] b[j]).key() == key;
            let i = choose|i: int| 0 <= i < a.len() && #[trigger] a[i] == b[j];
            assert(a[i].key() == key);
        }
        lemma_find_absent(b, key);
    }
}

/// Inserting an entry between the keys below its own and those above
/// keeps the keys rising.
proof fn lemma_insert_ascending(before: Seq<EntryModel>, at: int, entry: EntryModel)
    requires
        ascending(before),
        0 <= at <= before.len(),
        forall|i: int| 0 <= i < at ==> key_lt((#[trigger] before[i]).key(), entry.key()),
        at < before.len() ==> key_lt(entry.key(), before[at].key()),
    ensures
        ascending(before.insert(at, entry)),
        !has_key(before, entry.key()),
{
    let after = before.insert(at, entry);
    assert forall|i: int| at <= i < before.len() implies key_lt(
        entry.key(),
        (#[trigger] before[i]).key(),
    ) by {
        if i > at {
            assert(key_lt(before[at].key(), before[i].key()));
            lemma_key_lt_transitive(entry.key(), before[at].key(), before[i].key());
        }
    }
    assert forall|i: int, j: int| 0 <= i < j < after.len() implies key_lt(
        (#[trigger] after[i]).key(),
        (#[trigger] after[j]).key(),
    ) by {
        if i < at && j < at {
            assert(key_lt(before[i].key(), before[j].key()));
        } else if i < at && j == at {
            assert(key_lt(before[i].key(), entry.key()));
        } else if i < at && j > at {
            assert(key_lt(before[i].key(), before[j - 1].key()));
        } else if i == at {
            assert(key_lt(entry.key(), before[j - 1].key()));
        } else {
            assert(key_lt(before[i - 1].key(), before[j - 1].key()));
        }
    }
    if has_key(before, entry.key()) {
        let i = choose|i: int| 0 <= i < before.len() && (#[trigger] before[i]).key() == entry.key();
        lemma_key_lt_irreflexive(entry.key());
        if i < at {
            assert(key_lt(before[i].key(), entry.key()));
        } else {
            assert(key_lt(entry.key(), before[i].key()));
        }
    }
}

/// Inserting an entry between the keys below its own and those above.
proof fn lemma_upsert_inserted(before: Seq<EntryModel>, after: Seq<EntryModel>, at: int, entry: EntryModel)
    requires
        ascending(before),
        0 <= at <= before.len(),
        forall|i: int| 0 <= i < at ==> key_lt((#[trigger] before[i]).key(), entry.key()),
        at < before.len() ==> key_lt(entry.key(), before[at].key()),
        after == before.insert(at, entry),
    ensures
        ascending(after),
        !has_key(before, entry.key()),
        forall|key: Seq<u8>|
            #[trigger] find(after, key) == if key == entry.key() {
                Some(entry)
            } else {
                find(before, key)
            },
        came_from(after, before, entry),
{
    lemma_insert_ascending(before, at, entry);
    assert(came_from(after, before, entry)) by {
        assert forall|i: int| 0 <= i < after.len() implies #[trigger] after[i] == entry
            || exists|j: int| 0 <= j < before.len() && #[trigger] before[j] == after[i] by {
            if i < at {
                assert(before[i] == after[i]);
            } else if i > at {
                assert(before[i - 1] == after[i]);
            }
        }
    }
    assert forall|key: Seq<u8>|
        #[trigger] find(after, key) == if key == entry.key() {
            Some(entry)
        } else {
            find(before, key)
        } by {
        lemma_find_inserted(before, at, entry, key);
    }
}

/// What is found after an insertion that keeps the keys rising.
proof fn lemma_find_inserted(before: Seq<EntryModel>, at: int, entry: EntryModel, key: Seq<u8>)
    requires
        ascending(before),
        ascending(before.insert(at, entry)),
        0 <= at <= before.len(),
    ensures
        find(before.insert(at, entry), key) == if key == entry.key() {
            Some(entry)
        } else {
            find(before, key)
        },
{
    let after = before.insert(at, entry);
    if key == entry.key() {
        assert(after[at] == entry);
        lemma_find_at(after, at);
    } else {
        assert forall|i: int|
            0 <= i < before.len() && (#[trigger] before[i]).key() == key implies exists|j: int|
            0 <= j < after.len() && #[trigger] after[j] == before[i] by {
            if i < at {
                assert(after[i] == before[i]);
            } else {
                assert(after[i + 1] == before[i]);
            }
        }
        assert forall|j: int|
            0 <= j < after.len() && (#[trigger] after[j]).key() == key implies exists|i: int|
            0 <= i < before.len() && #[trigger] before[i] == after[j] by {
            if j < at {
                assert(before[j] == after[j]);
            } else {
                assert(before[j - 1] == after[j]);
            }
        }
        lemma_find_same(before, after, key);
    }
}

} // verus!
