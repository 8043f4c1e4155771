//! The two-way merge of the two files of a level into one.
//!
//! Each step compares the heads of the older file `A` and the newer file
//! `B` and hands the smaller to the writer of the output. Where the keys
//! are equal the entry of `A` is dropped: `B` holds the later write.
use vstd::prelude::*;
use crate::tree::opens;
use crate::compression::Compression;
use crate::entry::{Entry, EntryModel};
use crate::error::Error;
use crate::key::{compare, key_order, KeyOrder};
use crate::level::level_size;
use crate::tree::{all_leaves, find, opens_as, Tree, TreeEntryIterator, TreeModel, tree_entries};
use crate::search::lemma_tree_gets;
use crate::memtable::{ascending, lemma_find_absent, has_key};
use crate::key::{key_lt, lemma_key_lt_total, lemma_key_lt_transitive, lemma_key_lt_irreflexive};
use crate::writer::{lemma_append_all_input, append, append_all, capped, closes_as, closes_whole, drain, holds_entries, steady, key_vals, tombstones, Writer, WriterModel};

verus! {

/// The leaf entries of one file, with the next one held ready.
pub struct Source {
    entries: TreeEntryIterator,
    head: Option<Entry>,
}

/// A merge of two files that is under way.
pub struct Merger {
    a: Source,
    b: Source,
    x: Writer,
}

/// The state of a merge, as mathematical values.
pub struct MergerModel {
    /// What is left of the older file.
    pub a: Seq<EntryModel>,
    /// What is left of the newer file.
    pub b: Seq<EntryModel>,
    /// The writer of the output.
    pub x: WriterModel,
}

/// How a run of merge steps ended.
pub enum MergeOutcome {
    /// The work ran out first; the merge goes on from here.
    Continue(Merger),
    /// Both files are exhausted after this many steps; the output holds this
    /// many keys with a value and tombstones, and these are its bytes.
    Complete { count: usize, steps: usize, file: Vec<u8> },
}

/// How a run of merge steps ends, as mathematical values.
pub enum RunModel {
    Continue(MergerModel),
    Complete { x: WriterModel, steps: nat },
    Failed(Error),
}

/// The entry that the next step hands to the writer, what is then left of
/// the two files, and what the step costs; `None` where both are exhausted.
pub open spec fn next_pick(a: Seq<EntryModel>, b: Seq<EntryModel>) -> Option<
    (EntryModel, Seq<EntryModel>, Seq<EntryModel>, nat),
> {
    if a.len() == 0 && b.len() == 0 {
        None
    } else if b.len() == 0 {
        Some((a[0], a.skip(1), b, 1))
    } else if a.len() == 0 {
        Some((b[0], a, b.skip(1), 1))
    } else {
        match key_order(a[0].key(), b[0].key()) {
            KeyOrder::Less => Some((a[0], a.skip(1), b, 1)),
            KeyOrder::Equal => Some((b[0], a.skip(1), b.skip(1), 2)),
            KeyOrder::Greater => Some((b[0], a, b.skip(1), 1)),
        }
    }
}

/// The entries that a merge of the older `a` and the newer `b` hands on,
/// in order: the smaller of the two heads each time, and the head of `b`
/// alone where the keys are equal.
pub open spec fn merged(a: Seq<EntryModel>, b: Seq<EntryModel>) -> Seq<EntryModel>
    decreases a.len() + b.len(),
{
    match next_pick(a, b) {
        None => Seq::empty(),
        Some((entry, a, b, _)) => seq![entry] + merged(a, b),
    }
}

/// The merge after one step, and what the step cost: nothing where both
/// files are exhausted. An entry that is too large for a block of the
/// output shows that its file is corrupt.
pub open spec fn step(m: MergerModel) -> (MergerModel, Result<nat, Error>) {
    match next_pick(m.a, m.b) {
        None => (m, Ok(0)),
        Some((entry, a, b, cost)) => if !entry.storable() {
            (
                MergerModel { a, b, x: m.x },
                Err(Error::CorruptedFile("entry too large for a block")),
            )
        } else {
            let taken = append(m.x, 0, entry);
            (
                MergerModel { a, b, x: taken.0 },
                match taken.1 {
                    Ok(_) => Ok(cost),
                    Err(e) => Err(e),
                },
            )
        },
    }
}

/// How a run of at most `work` steps ends, `done` steps having been made.
#[verifier::opaque]
pub open spec fn run(m: MergerModel, work: nat, done: nat) -> RunModel
    decreases work,
{
    if work == 0 {
        RunModel::Continue(m)
    } else {
        let next = step(m);
        match next.1 {
            Err(e) => RunModel::Failed(e),
            Ok(cost) => if cost == 0 {
                RunModel::Complete { x: next.0.x, steps: done + 1 }
            } else {
                run(next.0, (work - 1) as nat, done + 1)
            },
        }
    }
}

/// A run that completes has made at least one step and no more than the
/// work allows.
pub proof fn lemma_run_steps(m: MergerModel, work: nat, done: nat)
    ensures
        run(m, work, done) matches RunModel::Complete { steps, .. } ==> done < steps <= done + work,
    decreases work,
{
    reveal(run);
    if work > 0 {
        let next = step(m);
        if next.1 matches Ok(cost) && cost != 0 {
            lemma_run_steps(next.0, (work - 1) as nat, done + 1);
        }
    }
}

/// How a run goes on from its first step.
pub proof fn lemma_run_unfold(m: MergerModel, work: nat, done: nat)
    ensures
        run(m, work, done) == if work == 0 {
            RunModel::Continue(m)
        } else {
            match step(m).1 {
                Err(e) => RunModel::Failed(e),
                Ok(cost) => if cost == 0 {
                    RunModel::Complete { x: step(m).0.x, steps: done + 1 }
                } else {
                    run(step(m).0, (work - 1) as nat, done + 1)
                },
            }
        },
{
    reveal(run);
}

/// A run that completes has handed the writer the merged entries, one
/// after another, and the writer has taken each of them.
pub proof fn lemma_run_merges(m: MergerModel, work: nat, done: nat)
    requires
        run(m, work, done) is Complete,
    ensures
        append_all(m.x, merged(m.a, m.b)) == (run(m, work, done)->x, Ok::<(), Error>(())),
    decreases work,
{
    reveal(run);
    let next = step(m);
    match next_pick(m.a, m.b) {
        None => {},
        Some((entry, a, b, cost)) => {
            let rest = merged(a, b);
            assert((seq![entry] + rest).skip(1) =~= rest);
            lemma_run_merges(next.0, (work - 1) as nat, done + 1);
        },
    }
}

/// What a completed merge has handed to its writer is what went into the
/// writer before and then the merged entries.
pub proof fn lemma_merge_output(m: MergerModel, work: nat)
    requires
        run(m, work, 0) is Complete,
    ensures
        (run(m, work, 0)->x).input == m.x.input + merged(m.a, m.b),
{
    lemma_run_merges(m, work, 0);
    lemma_append_all_input(m.x, merged(m.a, m.b));
}

/// The file of a merge gives back the newer of two entries with the same
/// key. Where a file holds what a merge of the older `a` and the newer `b`
/// hands on, and the keys of each of them rise, a lookup in it finds under
/// a key what `b` holds under it, or what `a` holds where `b` holds nothing.
pub proof fn lemma_merge_gets(
    file: Seq<u8>,
    t: TreeModel,
    a: Seq<EntryModel>,
    b: Seq<EntryModel>,
    key: Seq<u8>,
)
    requires
        holds_entries(file, merged(a, b)),
        opens_as(file, t),
        ascending(a),
        ascending(b),
    ensures
        t.get(key) == Ok::<Option<EntryModel>, Error>(
            match find(b, key) {
                Some(e) => Some(e),
                None => find(a, key),
            },
        ),
        t.entries() == Ok::<Seq<EntryModel>, Error>(merged(a, b)),
{
    lemma_merged_newer_wins(a, b, key);
    lemma_tree_gets(file, t, merged(a, b), key);
}

/// Of two entries with the same key a merge keeps the newer. Where the
/// keys of the older `a` rise and the keys of the newer `b` rise, the keys
/// of what a merge hands on rise, and under each key it holds what `b` holds
/// under it, or what `a` holds where `b` holds nothing.
pub proof fn lemma_merged_newer_wins(a: Seq<EntryModel>, b: Seq<EntryModel>, key: Seq<u8>)
    requires
        ascending(a),
        ascending(b),
    ensures
        ascending(merged(a, b)),
        merged(a, b).len() > 0 ==> (a.len() > 0 && merged(a, b)[0].key() == a[0].key()) || (b.len()
            > 0 && merged(a, b)[0].key() == b[0].key()),
        find(merged(a, b), key) == match find(b, key) {
            Some(e) => Some(e),
            None => find(a, key),
        },
    decreases a.len() + b.len(),
{
    match next_pick(a, b) {
        None => {},
        Some((entry, a2, b2, cost)) => {
            lemma_ascending_skip(a);
            lemma_ascending_skip(b);
            lemma_merged_newer_wins(a2, b2, key);
            let rest = merged(a2, b2);
            let all = seq![entry] + rest;
            assert(all.skip(1) =~= rest);
            assert(all[0] == entry);
            if rest.len() > 0 {
                // The entry handed on is below the head of what follows,
                // which is the head of what is left of `a` or of `b`.
                if a.len() > 0 && b.len() > 0 {
                    lemma_key_lt_total(a[0].key(), b[0].key());
                }
                if a2.len() > 0 && rest[0].key() == a2[0].key() {
                    if a2.len() < a.len() {
                        assert(a2[0] == a[1]);
                        assert(key_lt(a[0].key(), a[1].key()));
                    }
                } else {
                    if b2.len() < b.len() {
                        assert(b2[0] == b[1]);
                        assert(key_lt(b[0].key(), b[1].key()));
                    }
                }
                assert(key_lt(entry.key(), rest[0].key()));
                assert forall|i: int, j: int| 0 <= i < j < all.len() implies key_lt(
                    (#[trigger] all[i]).key(),
                    (#[trigger] all[j]).key(),
                ) by {
                    if i == 0 {
                        if j > 1 {
                            assert(key_lt(rest[0].key(), rest[j - 1].key()));
                            lemma_key_lt_transitive(entry.key(), rest[0].key(), rest[j - 1].key());
                        }
                    } else {
                        assert(key_lt(rest[i - 1].key(), rest[j - 1].key()));
                    }
                }
            } else {
                assert(all =~= seq![entry]);
            }
            lemma_find_head(a, key);
            lemma_find_head(b, key);
            lemma_key_lt_irreflexive(key);
            if a.len() > 0 && b.len() > 0 {
                lemma_key_lt_total(a[0].key(), b[0].key());
            }
            if a.len() > 0 {
                lemma_find_below_head(a, key);
            }
            if b.len() > 0 {
                lemma_find_below_head(b, key);
            }
        },
    }
}

/// What is left of entries whose keys rise has rising keys.
proof fn lemma_ascending_skip(entries: Seq<EntryModel>)
    requires
        ascending(entries),
    ensures
        entries.len() > 0 ==> ascending(entries.skip(1)),
{
    if entries.len() > 0 {
        let rest = entries.skip(1);
        assert forall|i: int, j: int| 0 <= i < j < rest.len() implies key_lt(
            (#[trigger] rest[i]).key(),
            (#[trigger] rest[j]).key(),
        ) by {
            assert(rest[i] == entries[i + 1]);
            assert(rest[j] == entries[j + 1]);
        }
    }
}

/// What is found among entries is their head where it has the key, and
/// what is found behind it where it has not.
proof fn lemma_find_head(entries: Seq<EntryModel>, key: Seq<u8>)
    ensures
        entries.len() > 0 ==> find(entries, key) == if entries[0].key() == key {
            Some(entries[0])
        } else {
            find(entries.skip(1), key)
        },
        entries.len() == 0 ==> find(entries, key) is None,
{
}

/// Among entries whose keys rise nothing is found under a key below the
/// key of the head, nor behind the head under its key.
proof fn lemma_find_below_head(entries: Seq<EntryModel>, key: Seq<u8>)
    requires
        ascending(entries),
        entries.len() > 0,
    ensures
        key_lt(key, entries[0].key()) ==> find(entries, key) is None,
        key == entries[0].key() ==> find(entries.skip(1), key) is None,
        key_lt(key, entries[0].key()) ==> find(entries.skip(1), key) is None,
{
    let rest = entries.skip(1);
    lemma_key_lt_irreflexive(key);
    if key_lt(key, entries[0].key()) || key == entries[0].key() {
        if has_key(rest, key) {
            let i = choose|i: int| 0 <= i < rest.len() && (#[trigger] rest[i]).key() == key;
            assert(rest[i] == entries[i + 1]);
            assert(key_lt(entries[0].key(), entries[i + 1].key()));
            if key != entries[0].key() {
                lemma_key_lt_transitive(key, entries[0].key(), key);
            }
        }
        lemma_find_absent(rest, key);
    }
}

impl Source {
    /// The entries still to come, the one held ready first.
    pub closed spec fn rest(&self) -> Seq<EntryModel> {
        match self.head {
            Some(e) => seq![e@] + self.entries.remaining(),
            None => Seq::empty(),
        }
    }

    /// Where nothing is held ready, nothing is to come; and what is to
    /// come are leaf entries.
    pub closed spec fn wf(&self) -> bool {
        &&& self.entries.wf()
        &&& self.head is None ==> self.entries.remaining() == Seq::<EntryModel>::empty()
        &&& all_leaves(self.rest())
    }

    /// Starts on the entries of `entries`.
    pub fn new(entries: TreeEntryIterator) -> (r: Self)
        requires
            entries.wf(),
        ensures
            r.wf(),
            r.rest() == entries.remaining(),
    {
        let mut entries = entries;
        let ghost all = entries.remaining();
        proof {
            entries.lemma_remaining_leaves();
        }
        let head = entries.next();
        let r = Source { entries, head };
        proof {
            if head is Some {
                assert(seq![all[0]] + all.skip(1) =~= all);
            }
        }
        r
    }

    /// The entry that comes next, without taking it.
    pub fn peek(&self) -> (r: Option<&Entry>)
        requires
            self.wf(),
        ensures
            match r {
                Some(e) => self.rest().len() > 0 && e@ == self.rest()[0] && !e@.is_pos_len(),
                None => self.rest().len() == 0,
            },
    {
        self.head.as_ref()
    }

    /// Takes the entry that comes next.
    pub fn next(&mut self) -> (r: Option<Entry>)
        requires
            old(self).wf(),
        ensures
            final(self).wf(),
            match r {
                Some(e) => old(self).rest().len() > 0 && e@ == old(self).rest()[0]
                    && final(self).rest() == old(self).rest().skip(1) && !e@.is_pos_len(),
                None => old(self).rest().len() == 0 && final(self).rest().len() == 0,
            },
    {
        let ghost before = self.rest();
        let taken = self.head.take();
        if taken.is_some() {
            let ghost all = self.entries.remaining();
            self.head = self.entries.next();
            proof {
                if self.head is Some {
                    assert(seq![all[0]] + all.skip(1) =~= all);
                }
                assert((seq![taken.unwrap()@] + all).skip(1) =~= all);
                assert(before[0] == taken.unwrap()@);
                assert forall|i: int| 0 <= i < self.rest().len() implies !(
                #[trigger] self.rest()[i]).is_pos_len() by {
                    assert(self.rest()[i] == before[i + 1]);
                }
            }
        }
        taken
    }
}

impl View for Merger {
    type V = MergerModel;

    closed spec fn view(&self) -> MergerModel {
        MergerModel { a: self.a.rest(), b: self.b.rest(), x: self.x@ }
    }
}

impl Merger {
    /// The two sources and the writer hold together.
    pub closed spec fn wf(&self) -> bool {
        self.a.wf() && self.b.wf() && self.x.wf()
    }

    /// The keys that the bloom filter of the output will say yes to.
    pub closed spec fn keys(&self) -> Set<Seq<u8>> {
        self.x.keys()
    }

    /// Whether no step of the merge has failed. Only then is the output
    /// known to read back as what it was handed.
    pub closed spec fn intact(&self) -> bool {
        self.x.intact()
    }

    /// The serialized bloom filter of the output, where it can be
    /// serialized.
    pub closed spec fn image(&self) -> Option<Seq<u8>> {
        self.x.image()
    }

    /// A merge of the older file `a_tree` and the newer file `b_tree` of
    /// `level` into a file sized for the next level.
    pub fn new(level: u32, a_tree: &Tree, b_tree: &Tree, compression: Compression) -> (r: Result<
        Merger,
        Error,
    >)
        requires
            level + 1 < usize::BITS,
        ensures
            match r {
                Ok(m) => {
                    &&& m.wf()
                    &&& m.intact()
                    &&& tree_entries(a_tree.bytes(), a_tree.root_pos()) == Ok::<
                        Seq<EntryModel>,
                        Error,
                    >(m@.a)
                    &&& tree_entries(b_tree.bytes(), b_tree.root_pos()) == Ok::<
                        Seq<EntryModel>,
                        Error,
                    >(m@.b)
                    &&& m@.x == Writer::fresh(compression)
                    &&& m.keys() == Set::<Seq<u8>>::empty()
                },
                Err(e) => match tree_entries(a_tree.bytes(), a_tree.root_pos()) {
                    Err(a) => e == a,
                    Ok(_) => tree_entries(b_tree.bytes(), b_tree.root_pos()) == Err::<
                        Seq<EntryModel>,
                        Error,
                    >(e),
                },
            },
    {
        let a = Source::new(a_tree.entries()?);
        let b = Source::new(b_tree.entries()?);
        let x = Writer::with_expected_num_items(level_size(level + 1), compression);
        Ok(Merger { a, b, x })
    }

    /// Makes up to `work` steps. Where both files are exhausted before the
    /// work runs out, the output is closed. What is told of an error is
    /// told for every error but the refusal of a codec that may refuse
    /// whatever it is handed.
    pub fn incremental_merge(self, work: usize) -> (r: Result<MergeOutcome, Error>)
        requires
            self.wf(),
        ensures
            match r {
                Ok(MergeOutcome::Continue(m)) => m.wf() && m.intact() == self.intact() && run(
                    self@,
                    work as nat,
                    0,
                ) == RunModel::Continue(m@),
                Ok(MergeOutcome::Complete { count, steps, file }) => {
                    &&& run(self@, work as nat, 0) matches RunModel::Complete { x, steps: made }
                    &&& steps == made
                    &&& count == capped((key_vals(x.input) + tombstones(x.input)) as int)
                    &&& drain(x, 0).1 is Ok
                    &&& exists|image: Option<Seq<u8>>| #[trigger] closes_as(x, image, file@)
                    &&& self.intact() ==> (closes_whole(x) <==> holds_entries(file@, x.input))
                    &&& self.intact() ==> opens(file@)
                },
                Err(e) => self@.x.compress.gives_up(e) || match run(self@, work as nat, 0) {
                    RunModel::Failed(f) => e == f,
                    RunModel::Complete { x, .. } => drain(x, 0).1 == Err::<(), Error>(e),
                    RunModel::Continue(_) => false,
                },
            },
    {
        let mut merger = self;
        let mut i: usize = 0;
        proof {
            lemma_run_unfold(self@, 0, 0);
        }
        while i < work
            invariant
                i <= work,
                merger.wf(),
                merger.intact() == self.intact(),
                merger@.x.compress == self@.x.compress,
                run(merger@, (work - i) as nat, i as nat) == run(self@, work as nat, 0),
            decreases work - i,
        {
            proof {
                lemma_run_unfold(merger@, (work - i) as nat, i as nat);
            }
            let cost = merger.merge_step()?;
            if cost == 0 {
                let count = merger.x.count();
                let ghost x = merger.x@;
                let ghost image = merger.x.image();
                proof {
                    assert(run(self@, work as nat, 0) == RunModel::Complete {
                        x,
                        steps: (i + 1) as nat,
                    });
                }
                let closed = merger.x.close();
                match closed {
                    Ok(file) => {
                        proof {
                            assert(closes_as(x, image, file@));
                        }
                        let outcome = MergeOutcome::Complete { count, steps: i + 1, file };
                        proof {
                            let ran = run(self@, work as nat, 0);
                            assert(ran is Complete);
                            assert(ran->x == x);
                            assert(ran->steps == i + 1);
                            assert(count == capped((key_vals(x.input) + tombstones(x.input)) as int));
                            assert(exists|image: Option<Seq<u8>>| #[trigger] closes_as(x, image, file@));
                            assert(self.intact() ==> (closes_whole(x) <==> holds_entries(
                                file@,
                                x.input,
                            )));
                            assert(outcome matches MergeOutcome::Complete { count: c, steps: s, file: f } && f@ == file@ && s == i + 1 && c == count);
                        }
                        return Ok(outcome);
                    },
                    Err(e) => {
                        proof {
                            assert(x.compress.gives_up(e) || drain(x, 0).1 == Err::<(), Error>(e));
                        }
                        return Err(e);
                    },
                }
            }
            i = i + 1;
        }
        proof {
            lemma_run_unfold(merger@, 0, i as nat);
        }
        Ok(MergeOutcome::Continue(merger))
    }

    /// Makes one step: hands the smaller of the two heads to the writer,
    /// the head of the newer file where the keys are equal. Returns what the
    /// step cost, and nothing where both files are exhausted.
    fn merge_step(&mut self) -> (r: Result<usize, Error>)
        requires
            old(self).wf(),
        ensures
            final(self).wf(),
            final(self)@.x.compress == old(self)@.x.compress,
            steady(old(self)@.x.compress, r) ==> final(self)@ == step(old(self)@).0,
            match r {
                Ok(cost) => step(old(self)@).1 == Ok::<nat, Error>(cost as nat),
                Err(e) => old(self)@.x.compress.gives_up(e) || step(old(self)@).1 == Err::<
                    nat,
                    Error,
                >(e),
            },
            r is Ok ==> final(self).intact() == old(self).intact(),
            old(self).keys().subset_of(final(self).keys()),
    {
        let order = match (self.a.peek(), self.b.peek()) {
            (None, None) => {
                return Ok(0);
            },
            (Some(_), None) => KeyOrder::Less,
            (None, Some(_)) => KeyOrder::Greater,
            (Some(a), Some(b)) => compare(a.key(), b.key()),
        };
        let (entry, cost): (Option<Entry>, usize) = match order {
            KeyOrder::Less => (self.a.next(), 1),
            KeyOrder::Equal => {
                let _ = self.a.next();
                (self.b.next(), 2)
            },
            KeyOrder::Greater => (self.b.next(), 1),
        };
        match entry {
            None => Ok(0),
            Some(entry) => {
                if !entry.is_storable() {
                    return Err(Error::CorruptedFile("entry too large for a block"));
                }
                match self.x.add(entry) {
                    Ok(_) => Ok(cost),
                    Err(e) => Err(e),
                }
            },
        }
    }
}

} // verus!
