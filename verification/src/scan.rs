//! A walk over a whole level: the entries of its files in key order, each
//! key once, from the newest file that holds it.
use vstd::prelude::*;
use crate::entry::{Entry, EntryModel};
use crate::error::Error;
use crate::key::{compare, key_lt, KeyOrder, lemma_key_lt_irreflexive, lemma_key_lt_total, lemma_key_lt_transitive};
use crate::memtable::{ascending, has_key, lemma_find_absent};
use crate::tree::find;
use crate::level::{newest_entries, Level};
use crate::merger::Source;

verus! {

/// A walk over the entries of the files of one level.
pub struct LevelScanner {
    trees: Vec<Source>,
}

/// The number of entries in all of `rests`.
pub open spec fn total(rests: Seq<Seq<EntryModel>>) -> nat
    decreases rests.len(),
{
    if rests.len() == 0 {
        0
    } else {
        total(rests.drop_last()) + rests.last().len()
    }
}

/// The file to take the next entry from, having looked at the files before
/// `at`, of which `best` has the smallest head so far: the first file whose
/// head has the smallest key. A file that is exhausted is passed over.
pub open spec fn smallest_from(rests: Seq<Seq<EntryModel>>, at: int, best: Option<int>) -> Option<
    int,
>
    decreases rests.len() - at,
{
    if at < 0 || at >= rests.len() {
        best
    } else if rests[at].len() == 0 {
        smallest_from(rests, at + 1, best)
    } else {
        match best {
            Some(b) if 0 <= b < rests.len() && rests[b].len() > 0 && !key_lt(
                rests[at][0].key(),
                rests[b][0].key(),
            ) => smallest_from(rests, at + 1, best),
            _ => smallest_from(rests, at + 1, Some(at)),
        }
    }
}

/// The file to take the next entry from, or none where all are exhausted.
pub open spec fn smallest(rests: Seq<Seq<EntryModel>>) -> Option<int> {
    smallest_from(rests, 0, None)
}

/// What is left of the files once the head of the file `at` is taken: that
/// head is gone, and so is the head of every file behind it that has the
/// same key, which an older file holds in vain.
pub open spec fn advance(rests: Seq<Seq<EntryModel>>, at: int, key: Seq<u8>) -> Seq<
    Seq<EntryModel>,
> {
    Seq::new(
        rests.len(),
        |j: int|
            if j == at || (j > at && rests[j].len() > 0 && rests[j][0].key() == key) {
                rests[j].skip(1)
            } else {
                rests[j]
            },
    )
}

/// The file that is chosen has an entry to give.
pub proof fn lemma_smallest(rests: Seq<Seq<EntryModel>>, at: int, best: Option<int>)
    requires
        0 <= at,
        best matches Some(b) ==> 0 <= b < rests.len() && rests[b].len() > 0,
    ensures
        smallest_from(rests, at, best) matches Some(i) ==> 0 <= i < rests.len() && rests[i].len()
            > 0,
        smallest_from(rests, at, best) is None ==> best is None && forall|j: int|
            at <= j < rests.len() ==> (#[trigger] rests[j]).len() == 0,
    decreases rests.len() - at,
{
    if at < rests.len() {
        if rests[at].len() == 0 {
            lemma_smallest(rests, at + 1, best);
        } else {
            match best {
                Some(b) if 0 <= b < rests.len() && rests[b].len() > 0 && !key_lt(
                    rests[at][0].key(),
                    rests[b][0].key(),
                ) => {
                    lemma_smallest(rests, at + 1, best);
                },
                _ => {
                    lemma_smallest(rests, at + 1, Some(at));
                },
            }
        }
    }
}

/// Taking a head leaves fewer entries.
pub proof fn lemma_advance_total(rests: Seq<Seq<EntryModel>>, at: int, key: Seq<u8>)
    requires
        0 <= at < rests.len(),
        rests[at].len() > 0,
    ensures
        total(advance(rests, at, key)) < total(rests),
{
    lemma_advance_prefix(rests, at, key, rests.len() as int);
    assert(rests.take(rests.len() as int) =~= rests);
    assert(advance(rests, at, key).take(rests.len() as int) =~= advance(rests, at, key));
}

/// Taking a head leaves no more entries in the files up to `upto`, and
/// fewer where the file `at` is among them.
proof fn lemma_advance_prefix(rests: Seq<Seq<EntryModel>>, at: int, key: Seq<u8>, upto: int)
    requires
        0 <= at < rests.len(),
        rests[at].len() > 0,
        0 <= upto <= rests.len(),
    ensures
        total(advance(rests, at, key).take(upto)) <= total(rests.take(upto)),
        upto > at ==> total(advance(rests, at, key).take(upto)) < total(rests.take(upto)),
    decreases upto,
{
    let after = advance(rests, at, key);
    if upto > 0 {
        lemma_advance_prefix(rests, at, key, upto - 1);
        assert(after.take(upto).drop_last() =~= after.take(upto - 1));
        assert(rests.take(upto).drop_last() =~= rests.take(upto - 1));
        assert(after.take(upto).last() == after[upto - 1]);
        assert(rests.take(upto).last() == rests[upto - 1]);
    }
}

/// The entries that a walk over the files yields: each time the head with
/// the smallest key, from the first file that has it.
pub open spec fn scan(rests: Seq<Seq<EntryModel>>) -> Seq<EntryModel>
    decreases total(rests),
{
    match smallest(rests) {
        None => Seq::empty(),
        Some(at) => if 0 <= at < rests.len() && rests[at].len() > 0 {
            proof {
                lemma_advance_total(rests, at, rests[at][0].key());
            }
            seq![rests[at][0]] + scan(advance(rests, at, rests[at][0].key()))
        } else {
            Seq::empty()
        },
    }
}

/// What is found under `key` in the first of the files that holds it.
pub open spec fn first_found(rests: Seq<Seq<EntryModel>>, key: Seq<u8>) -> Option<EntryModel>
    decreases rests.len(),
{
    if rests.len() == 0 {
        None
    } else {
        match find(rests[0], key) {
            Some(e) => Some(e),
            None => first_found(rests.skip(1), key),
        }
    }
}

/// The keys of every file rise.
pub open spec fn all_ascending(rests: Seq<Seq<EntryModel>>) -> bool {
    forall|i: int| 0 <= i < rests.len() ==> ascending(#[trigger] rests[i])
}

/// Whether the head of the file `best` is the smallest of the heads of
/// the files before `at`, and the first of them that is.
pub open spec fn least_before(rests: Seq<Seq<EntryModel>>, at: int, best: Option<int>) -> bool {
    match best {
        None => forall|j: int| 0 <= j < at && j < rests.len() ==> (#[trigger] rests[j]).len() == 0,
        Some(b) => {
            &&& 0 <= b < at
            &&& b < rests.len()
            &&& rests[b].len() > 0
            &&& forall|j: int|
                0 <= j < b && (#[trigger] rests[j]).len() > 0 ==> key_lt(
                    rests[b][0].key(),
                    rests[j][0].key(),
                )
            &&& forall|j: int|
                b < j < at && j < rests.len() && (#[trigger] rests[j]).len() > 0 ==> !key_lt(
                    rests[j][0].key(),
                    rests[b][0].key(),
                )
        },
    }
}

/// The file that is chosen is the first whose head has the smallest key.
pub proof fn lemma_smallest_least(rests: Seq<Seq<EntryModel>>, at: int, best: Option<int>)
    requires
        0 <= at <= rests.len(),
        least_before(rests, at, best),
    ensures
        least_before(rests, rests.len() as int, smallest_from(rests, at, best)),
    decreases rests.len() - at,
{
    if at < rests.len() {
        if rests[at].len() == 0 {
            lemma_smallest_least(rests, at + 1, best);
        } else {
            match best {
                Some(b) if 0 <= b < rests.len() && rests[b].len() > 0 && !key_lt(
                    rests[at][0].key(),
                    rests[b][0].key(),
                ) => {
                    lemma_smallest_least(rests, at + 1, best);
                },
                _ => {
                    if best is Some {
                        let b = best->Some_0;
                        assert forall|j: int| 0 <= j < at && (#[trigger] rests[j]).len() > 0 implies key_lt(
                            rests[at][0].key(),
                            rests[j][0].key(),
                        ) by {
                            if j < b {
                                lemma_key_lt_transitive(
                                    rests[at][0].key(),
                                    rests[b][0].key(),
                                    rests[j][0].key(),
                                );
                            } else if j > b {
                                lemma_key_lt_total(rests[j][0].key(), rests[b][0].key());
                                if rests[j][0].key() != rests[b][0].key() {
                                    lemma_key_lt_transitive(
                                        rests[at][0].key(),
                                        rests[b][0].key(),
                                        rests[j][0].key(),
                                    );
                                }
                            }
                        }
                    }
                    lemma_smallest_least(rests, at + 1, Some(at));
                },
            }
        }
    }
}

/// Under a key that no file before `at` holds, the first file that holds
/// it is found among the files from `at` on.
proof fn lemma_first_found_from(rests: Seq<Seq<EntryModel>>, at: int, key: Seq<u8>)
    requires
        0 <= at <= rests.len(),
        forall|j: int| 0 <= j < at ==> find(#[trigger] rests[j], key) is None,
    ensures
        first_found(rests, key) == first_found(rests.skip(at), key),
    decreases at,
{
    if at == 0 {
        assert(rests.skip(0) =~= rests);
    } else {
        lemma_first_found_from(rests, at - 1, key);
        let tail = rests.skip(at - 1);
        assert(tail[0] == rests[at - 1]);
        assert(tail.skip(1) =~= rests.skip(at));
    }
}

/// Files that hold the same under a key have the same first file that
/// holds it.
proof fn lemma_first_found_same(a: Seq<Seq<EntryModel>>, b: Seq<Seq<EntryModel>>, key: Seq<u8>)
    requires
        a.len() == b.len(),
        forall|j: int| 0 <= j < a.len() ==> find(#[trigger] a[j], key) == find(b[j], key),
    ensures
        first_found(a, key) == first_found(b, key),
    decreases a.len(),
{
    if a.len() > 0 {
        assert(find(a[0], key) == find(b[0], key));
        assert forall|j: int| 0 <= j < a.skip(1).len() implies find(#[trigger] a.skip(1)[j], key)
            == find(b.skip(1)[j], key) by {
            assert(a.skip(1)[j] == a[j + 1]);
            assert(b.skip(1)[j] == b[j + 1]);
        }
        lemma_first_found_same(a.skip(1), b.skip(1), key);
    }
}

/// Among entries whose keys rise, nothing is found under a key below the
/// first key; and behind the first entry the keys rise and are above its
/// key.
proof fn lemma_ascending_head(entries: Seq<EntryModel>, key: Seq<u8>)
    requires
        ascending(entries),
        entries.len() > 0,
    ensures
        ascending(entries.skip(1)),
        entries.len() > 1 ==> key_lt(entries[0].key(), entries.skip(1)[0].key()),
        key_lt(key, entries[0].key()) ==> find(entries, key) is None,
        key != entries[0].key() ==> find(entries.skip(1), key) == find(entries, key),
        find(entries, entries[0].key()) == Some(entries[0]),
{
    let rest = entries.skip(1);
    assert forall|i: int, j: int| 0 <= i < j < rest.len() implies key_lt(
        (#[trigger] rest[i]).key(),
        (#[trigger] rest[j]).key(),
    ) by {
        assert(rest[i] == entries[i + 1]);
        assert(rest[j] == entries[j + 1]);
    }
    if entries.len() > 1 {
        assert(rest[0] == entries[1]);
    }
    if key_lt(key, entries[0].key()) {
        lemma_key_lt_irreflexive(key);
        if has_key(entries, key) {
            let i = choose|i: int| 0 <= i < entries.len() && (#[trigger] entries[i]).key() == key;
            if i > 0 {
                assert(key_lt(entries[0].key(), entries[i].key()));
                lemma_key_lt_transitive(key, entries[0].key(), key);
            }
        }
        lemma_find_absent(entries, key);
    }
}

/// A walk over a level yields each key once, from the newest file that
/// holds it. Where the keys of every file rise, the keys of what the walk
/// yields rise, and what it yields under a key is what the first of the
/// files that holds the key holds under it.
pub proof fn lemma_scan_newest_first(rests: Seq<Seq<EntryModel>>, key: Seq<u8>)
    requires
        all_ascending(rests),
    ensures
        ascending(scan(rests)),
        find(scan(rests), key) == first_found(rests, key),
        scan(rests).len() > 0 ==> ({
            &&& smallest(rests) matches Some(at)
            &&& 0 <= at < rests.len()
            &&& rests[at].len() > 0
            &&& scan(rests)[0] == rests[at][0]
        }),
        scan(rests).len() == 0 ==> first_found(rests, key) is None,
    decreases total(rests),
{
    lemma_smallest(rests, 0, None);
    lemma_smallest_least(rests, 0, None);
    match smallest(rests) {
        None => {
            assert forall|j: int| 0 <= j < rests.len() implies find(#[trigger] rests[j], key) is None by {
                assert(rests[j].len() == 0);
            }
            lemma_first_found_from(rests, rests.len() as int, key);
            assert(rests.skip(rests.len() as int) =~= Seq::<Seq<EntryModel>>::empty());
        },
        Some(at) => {
            let head = rests[at][0];
            let h = head.key();
            let after = advance(rests, at, h);
            lemma_advance_total(rests, at, h);
            assert forall|j: int| 0 <= j < after.len() implies ascending(#[trigger] after[j]) by {
                assert(ascending(rests[j]));
                if rests[j].len() > 0 {
                    lemma_ascending_head(rests[j], key);
                }
            }
            lemma_scan_newest_first(after, key);
            let rest = scan(after);
            let all = seq![head] + rest;
            assert(all.skip(1) =~= rest);
            assert(all[0] == head);
            // Every head that is left is above the head that was taken.
            assert forall|j: int| 0 <= j < after.len() && (#[trigger] after[j]).len() > 0 implies key_lt(
                h,
                after[j][0].key(),
            ) by {
                assert(ascending(rests[j]));
                if j == at || (j > at && rests[j][0].key() == h) {
                    lemma_ascending_head(rests[j], key);
                } else if j > at {
                    lemma_key_lt_total(rests[j][0].key(), h);
                }
            }
            if rest.len() > 0 {
                assert forall|i: int, j: int| 0 <= i < j < all.len() implies key_lt(
                    (#[trigger] all[i]).key(),
                    (#[trigger] all[j]).key(),
                ) by {
                    if i == 0 {
                        if j > 1 {
                            assert(key_lt(rest[0].key(), rest[j - 1].key()));
                            lemma_key_lt_transitive(h, rest[0].key(), rest[j - 1].key());
                        }
                    } else {
                        assert(key_lt(rest[i - 1].key(), rest[j - 1].key()));
                    }
                }
            } else {
                assert(all =~= seq![head]);
            }
            if key == h {
                assert forall|j: int| 0 <= j < at implies find(#[trigger] rests[j], key) is None by {
                    assert(ascending(rests[j]));
                    if rests[j].len() > 0 {
                        lemma_ascending_head(rests[j], key);
                    }
                }
                lemma_first_found_from(rests, at, key);
                assert(rests.skip(at)[0] == rests[at]);
                assert(ascending(rests[at]));
                lemma_ascending_head(rests[at], key);
            } else {
                assert forall|j: int| 0 <= j < rests.len() implies find(#[trigger] after[j], key) == find(
                    rests[j],
                    key,
                ) by {
                    assert(ascending(rests[j]));
                    if rests[j].len() > 0 {
                        lemma_ascending_head(rests[j], key);
                    }
                }
                lemma_first_found_same(after, rests, key);
            }
        },
    }
}

impl LevelScanner {
    /// What is left of each file, the newest file first.
    pub closed spec fn rests(&self) -> Seq<Seq<EntryModel>> {
        self.trees@.map_values(|s: Source| s.rest())
    }

    /// Every file that is walked holds together.
    pub closed spec fn wf(&self) -> bool {
        forall|i: int| 0 <= i < self.trees@.len() ==> (#[trigger] self.trees@[i]).wf()
    }

    /// The entries still to come.
    pub open spec fn remaining(&self) -> Seq<EntryModel> {
        scan(self.rests())
    }

    /// A walk over the files of `level` from their start.
    pub fn new(level: &Level) -> (r: Result<LevelScanner, Error>)
        ensures
            match r {
                Ok(scanner) => scanner.wf() && newest_entries(level@) == Ok::<
                    Seq<Seq<EntryModel>>,
                    Error,
                >(scanner.rests()),
                Err(e) => newest_entries(level@) == Err::<Seq<Seq<EntryModel>>, Error>(e),
            },
    {
        let trees = level.sources()?;
        Ok(LevelScanner { trees })
    }

    /// The file to take the next entry from: the first whose head has the
    /// smallest key.
    fn smallest_key_index(&self) -> (r: Option<usize>)
        requires
            self.wf(),
        ensures
            match r {
                Some(i) => smallest(self.rests()) == Some(i as int) && i < self.trees@.len()
                    && self.rests()[i as int].len() > 0,
                None => smallest(self.rests()) is None,
            },
    {
        let ghost rests = self.rests();
        let mut best: Option<usize> = None;
        let mut at: usize = 0;
        while at < self.trees.len()
            invariant
                at <= self.trees@.len(),
                self.wf(),
                rests == self.rests(),
                best matches Some(b) ==> b < at && rests[b as int].len() > 0,
                smallest_from(
                    rests,
                    at as int,
                    match best {
                        Some(b) => Some(b as int),
                        None => None,
                    },
                ) == smallest(rests),
            decreases self.trees@.len() - at,
        {
            proof {
                assert(rests[at as int] == self.trees@[at as int].rest());
            }
            match self.trees[at].peek() {
                None => {},
                Some(head) => {
                    match best {
                        None => {
                            best = Some(at);
                        },
                        Some(b) => {
                            proof {
                                assert(rests[b as int] == self.trees@[b as int].rest());
                            }
                            match self.trees[b].peek() {
                                None => {
                                    best = Some(at);
                                },
                                Some(least) => {
                                    match compare(head.key(), least.key()) {
                                        KeyOrder::Less => {
                                            best = Some(at);
                                        },
                                        _ => {
                                            proof {
                                                lemma_key_lt_total(head@.key(), least@.key());
                                            }
                                        },
                                    }
                                },
                            }
                        },
                    }
                },
            }
            at = at + 1;
        }
        proof {
            lemma_smallest(
                rests,
                0,
                None,
            );
        }
        best
    }

    /// Takes the head of the file `at`.
    fn take_head(&mut self, at: usize) -> (r: Option<Entry>)
        requires
            old(self).wf(),
            at < old(self).rests().len(),
        ensures
            final(self).wf(),
            final(self).rests().len() == old(self).rests().len(),
            forall|j: int|
                0 <= j < old(self).rests().len() && j != at ==> final(self).rests()[j] == old(self).rests()[j],
            match r {
                Some(e) => old(self).rests()[at as int].len() > 0 && e@ == old(self).rests()[at as int][0] && final(self).rests()[at as int] == old(self).rests()[at as int].skip(1),
                None => old(self).rests()[at as int].len() == 0 && final(self).rests()[at as int]
                    == old(self).rests()[at as int],
            },
    {
        let ghost before = self.trees@;
        let mut source = self.trees.remove(at);
        proof {
            assert(source == before[at as int]);
        }
        let ghost rest = source.rest();
        let entry = source.next();
        proof {
            if entry is None {
                assert(source.rest() =~= rest);
            }
        }
        self.trees.insert(at, source);
        proof {
            assert forall|i: int| 0 <= i < self.trees@.len() implies (#[trigger] self.trees@[i]).wf() by {
                if i != at {
                    assert(self.trees@[i] == before[i]);
                }
            }
            assert forall|j: int| 0 <= j < before.len() && j != at implies self.rests()[j]
                == old(self).rests()[j] by {
                assert(self.trees@[j] == before[j]);
            }
        }
        entry
    }

    /// The next entry of the level: the head with the smallest key, from
    /// the newest file that has it. The heads of the older files that have
    /// the same key are dropped.
    pub fn next(&mut self) -> (r: Option<Entry>)
        requires
            old(self).wf(),
        ensures
            final(self).wf(),
            match r {
                Some(e) => old(self).remaining().len() > 0 && e@ == old(self).remaining()[0]
                    && final(self).remaining() == old(self).remaining().skip(1),
                None => old(self).remaining() == Seq::<EntryModel>::empty() && final(self).remaining() == Seq::<EntryModel>::empty(),
            },
    {
        let ghost before = self.rests();
        let count: usize = self.trees.len();
        let smallest_key_index = match self.smallest_key_index() {
            Some(index) => index,
            None => {
                return None;
            },
        };
        let entry = match self.take_head(smallest_key_index) {
            Some(entry) => entry,
            None => {
                return None;
            },
        };
        let ghost key = entry@.key();
        let ghost target = advance(before, smallest_key_index as int, key);
        let mut index: usize = smallest_key_index + 1;
        while index < self.trees.len()
            invariant
                smallest_key_index < index <= self.trees@.len(),
                self.wf(),
                self.rests().len() == before.len(),
                key == entry@.key(),
                target == advance(before, smallest_key_index as int, key),
                forall|j: int| 0 <= j < index ==> self.rests()[j] == #[trigger] target[j],
                forall|j: int| index <= j < before.len() ==> #[trigger] self.rests()[j] == before[j],
            decreases self.trees@.len() - index,
        {
            let ghost rests = self.rests();
            proof {
                assert(rests[index as int] == self.trees@[index as int].rest());
            }
            let same = match self.trees[index].peek() {
                Some(head) => match compare(head.key(), entry.key()) {
                    KeyOrder::Equal => true,
                    _ => false,
                },
                None => false,
            };
            if same {
                let _ = self.take_head(index);
            }
            proof {
                assert forall|j: int| 0 <= j < index + 1 implies self.rests()[j] == #[trigger] target[j] by {
                    if j < index {
                        assert(self.rests()[j] == rests[j]);
                    }
                }
                assert forall|j: int| index + 1 <= j < before.len() implies #[trigger] self.rests()[j]
                    == before[j] by {
                    assert(self.rests()[j] == rests[j]);
                }
            }
            index = index + 1;
        }
        proof {
            assert(self.rests() =~= target);
            let rest = scan(target);
            assert((seq![entry@] + rest).skip(1) =~= rest);
        }
        Some(entry)
    }
}

} // verus!
