//! One level of the hierarchy: up to three files and the merge of the first
//! two.
use vstd::prelude::*;
use vstd::arithmetic::power2::{pow2, lemma_pow2_unfold, lemma_pow2_strictly_increases, lemma2_to64};
use crate::compression::Compression;
use crate::db::{Command, CommandModel};
use crate::entry::{Entry, EntryModel};
use crate::error::Error;
use crate::files::{record, FileName, FileOp, FileOpModel, Prefix};
use crate::merger::{lemma_run_steps, run, MergeOutcome, Merger, MergerModel, RunModel, Source};
use crate::tree::{fails_to_open, find, opens, opens_as, view_of, Tree, TreeModel};
use crate::memtable::ascending;
use crate::search::lemma_tree_gets;
use crate::writer::{capped, closes_as, closes_whole, holds_entries, key_vals, tombstones, Writer};

verus! {

/// Two to the power `exponent`, which must fit.
pub fn pow2_usize(exponent: u32) -> (r: usize)
    requires
        exponent < usize::BITS,
    ensures
        r == pow2(exponent as nat),
{
    let mut r: usize = 1;
    let mut i: u32 = 0;
    proof {
        lemma2_to64();
    }
    while i < exponent
        invariant
            i <= exponent,
            exponent < usize::BITS,
            r == pow2(i as nat),
        decreases exponent - i,
    {
        proof {
            lemma_pow2_unfold((i + 1) as nat);
            lemma2_to64();
            lemma_pow2_strictly_increases((i + 1) as nat, usize::BITS as nat);
            assert(usize::BITS == 32 || usize::BITS == 64);
            assert(pow2(usize::BITS as nat) == usize::MAX + 1);
        }
        r = r * 2;
        i = i + 1;
    }
    r
}

/// The number of entries that a level is meant to hold: two to the power of
/// its number.
pub fn level_size(level: u32) -> (r: usize)
    requires
        level < usize::BITS,
    ensures
        r == pow2(level as nat),
{
    pow2_usize(level)
}

/// One level of the hierarchy. Its files are `A`, the oldest, `B` and `C`,
/// the newest. While `A` and `B` are both there, they are being merged.
pub struct Level {
    level: u32,
    a: Option<Tree>,
    b: Option<Tree>,
    c: Option<Tree>,
    merger: Option<Merger>,
    compression: Compression,
}

/// The state of a level, as mathematical values.
pub struct LevelModel {
    pub level: u32,
    pub a: Option<TreeModel>,
    pub b: Option<TreeModel>,
    pub c: Option<TreeModel>,
    pub merger: Option<MergerModel>,
    pub compression: Compression,
}

/// The view of a tree that may be absent.
pub open spec fn slot_view(slot: Option<Tree>) -> Option<TreeModel> {
    match slot {
        Some(t) => Some(t@),
        None => None,
    }
}

/// What a lookup that comes to `slot` finds: what the file finds, and
/// `older` where there is no file or the file finds nothing.
pub open spec fn slot_get(
    slot: Option<TreeModel>,
    key: Seq<u8>,
    older: Result<Option<EntryModel>, Error>,
) -> Result<Option<EntryModel>, Error> {
    match slot {
        None => older,
        Some(t) => match t.get(key) {
            Err(e) => Err(e),
            Ok(Some(e)) => Ok(Some(e)),
            Ok(None) => older,
        },
    }
}

/// The units of work that a merge at `level` may do now: what is left of
/// the budget of the whole hierarchy, but no more than twice the size of
/// the level.
pub open spec fn merge_budget(
    level: u32,
    work_completed: usize,
    work_unit: usize,
    min_level: u32,
    max_level: u32,
) -> int {
    let here = 2 * pow2(level as nat);
    let all = (max_level - min_level + 1) * work_unit;
    let left = if all > work_completed {
        all - work_completed
    } else {
        0
    };
    if left < here {
        left
    } else {
        here as int
    }
}

impl LevelModel {
    /// What a lookup of `key` finds in the level: what the newest file
    /// finds that finds anything.
    pub open spec fn get(self, key: Seq<u8>) -> Result<Option<EntryModel>, Error> {
        slot_get(self.c, key, slot_get(self.b, key, slot_get(self.a, key, Ok(None))))
    }

    /// The role that the next file taken in gets, if one is free.
    pub open spec fn free_slot(self) -> Option<Prefix> {
        if self.a is None {
            Some(Prefix::A)
        } else if self.b is None {
            Some(Prefix::B)
        } else if self.c is None {
            Some(Prefix::C)
        } else {
            None
        }
    }

    /// The level with `tree` in the role `prefix`.
    pub open spec fn with_slot(self, prefix: Prefix, tree: TreeModel) -> LevelModel {
        match prefix {
            Prefix::A => LevelModel { a: Some(tree), ..self },
            Prefix::B => LevelModel { b: Some(tree), ..self },
            _ => LevelModel { c: Some(tree), ..self },
        }
    }

    /// The name of the file of this level with `prefix`.
    pub open spec fn file(self, prefix: Prefix) -> FileName {
        FileName::Data { prefix, level: self.level }
    }
}

impl View for Level {
    type V = LevelModel;

    closed spec fn view(&self) -> LevelModel {
        LevelModel {
            level: self.level,
            a: slot_view(self.a),
            b: slot_view(self.b),
            c: slot_view(self.c),
            merger: match self.merger {
                Some(m) => Some(m@),
                None => None,
            },
            compression: self.compression,
        }
    }
}

/// Whether taking the file `path` with the bytes `data` into the level
/// `m` gave `after` with this result, and took the journal from `ops` to
/// `journal`. The file gets the first free role and is renamed to it before
/// it is opened; a level without a free role takes no file.
pub open spec fn promoted(
    m: LevelModel,
    path: FileName,
    data: Seq<u8>,
    after: LevelModel,
    r: Result<Vec<Command>, Error>,
    ops: Seq<FileOpModel>,
    journal: Seq<FileOpModel>,
) -> bool {
    match m.free_slot() {
        None => r == Err::<Vec<Command>, Error>(Error::LevelFull(m.level)) && after == m
            && journal == ops,
        Some(prefix) => {
            &&& journal == ops.push(FileOpModel::Rename { from: path, to: m.file(prefix) })
            &&& match r {
                Ok(commands) => {
                    &&& commands@.len() == 0
                    &&& exists|t: TreeModel| #[trigger]
                        opens_as(data, t) && after == m.with_slot(prefix, t)
                },
                Err(e) => after == m && (forall|t: TreeModel| !opens_as(data, t)),
            }
        },
    }
}

impl Level {
    /// The level holds together: it has a size and a next level, and a
    /// merge that is under way holds together.
    pub closed spec fn wf(&self) -> bool {
        &&& self.level + 1 < usize::BITS
        &&& match self.merger {
            Some(m) => m.wf() && m.intact(),
            None => true,
        }
    }

    /// Opens the level `level` of a directory. `a`, `b` and `c` are the
    /// bytes of the files that the directory holds in these roles. Where
    /// `A` and `B` are both there, their merge starts.
    pub fn new(
        level: u32,
        a: Option<Vec<u8>>,
        b: Option<Vec<u8>>,
        c: Option<Vec<u8>>,
        compression: Compression,
    ) -> (r: Result<Level, Error>)
        requires
            level + 1 < usize::BITS,
        ensures
            match r {
                Ok(l) => {
                    &&& l.wf()
                    &&& l@.level == level
                    &&& l@.compression == compression
                    &&& slot_opened(a, l@.a)
                    &&& slot_opened(b, l@.b)
                    &&& slot_opened(c, l@.c)
                    &&& merge_started(l@)
                },
                Err(e) => level_fails(a, b, c, e),
            },
    {
        let ghost files = (a, b, c);
        let a = Self::open_slot(a)?;
        let b = Self::open_slot(b)?;
        let c = Self::open_slot(c)?;
        let mut level = Level { level, a, b, c, merger: None, compression };
        match level.maybe_create_merger() {
            Ok(_) => Ok(level),
            Err(e) => {
                proof {
                    let older = level@.a->Some_0;
                    let newer = level@.b->Some_0;
                    assert(opens_as(files.0->Some_0@, older) && opens_as(files.1->Some_0@, newer));
                }
                Err(e)
            },
        }
    }

    /// Opens the file with these bytes, if there is one.
    fn open_slot(file: Option<Vec<u8>>) -> (r: Result<Option<Tree>, Error>)
        ensures
            match r {
                Ok(t) => slot_opened(file, slot_view(t)) && slot_opens(file),
                Err(e) => !slot_opens(file) && file is Some && fails_to_open(file->Some_0@, e),
            },
    {
        match file {
            None => Ok(None),
            Some(bytes) => Ok(Some(Tree::from_file(bytes)?)),
        }
    }

    /// What a lookup of `key` finds in the level: the newest file is asked
    /// first, and the first file that finds anything settles it.
    pub fn get_entry(&self, key: &[u8]) -> (r: Result<Option<Entry>, Error>)
        ensures
            match r {
                Ok(found) => self@.get(key@) == Ok::<Option<EntryModel>, Error>(view_of(found)),
                Err(e) => self@.get(key@) == Err::<Option<EntryModel>, Error>(e),
            },
    {
        match &self.c {
            Some(tree) => {
                let entry = tree.get_entry(key)?;
                if entry.is_some() {
                    return Ok(entry);
                }
            },
            None => {},
        }
        match &self.b {
            Some(tree) => {
                let entry = tree.get_entry(key)?;
                if entry.is_some() {
                    return Ok(entry);
                }
            },
            None => {},
        }
        match &self.a {
            Some(tree) => {
                let entry = tree.get_entry(key)?;
                if entry.is_some() {
                    return Ok(entry);
                }
            },
            None => {},
        }
        Ok(None)
    }

    /// The names of the files that the level holds, the oldest first.
    /// There are never more than three.
    pub fn tree_files(&self) -> (r: Vec<FileName>)
        ensures
            r@.len() <= 3,
            r@ == (if self@.a is Some {
                seq![self@.file(Prefix::A)]
            } else {
                Seq::empty()
            }) + (if self@.b is Some {
                seq![self@.file(Prefix::B)]
            } else {
                Seq::empty()
            }) + (if self@.c is Some {
                seq![self@.file(Prefix::C)]
            } else {
                Seq::empty()
            }),
    {
        let mut files: Vec<FileName> = Vec::new();
        if self.a.is_some() {
            files.push(self.data_file_name(Prefix::A));
        }
        if self.b.is_some() {
            files.push(self.data_file_name(Prefix::B));
        }
        if self.c.is_some() {
            files.push(self.data_file_name(Prefix::C));
        }
        proof {
            assert(files@ =~= (if self@.a is Some {
                seq![self@.file(Prefix::A)]
            } else {
                Seq::empty()
            }) + (if self@.b is Some {
                seq![self@.file(Prefix::B)]
            } else {
                Seq::empty()
            }) + (if self@.c is Some {
                seq![self@.file(Prefix::C)]
            } else {
                Seq::empty()
            }));
        }
        files
    }

    /// The entries of the files that the level holds, each file from its
    /// start, the newest file first.
    pub fn sources(&self) -> (r: Result<Vec<Source>, Error>)
        ensures
            match r {
                Ok(sources) => {
                    &&& forall|i: int| 0 <= i < sources@.len() ==> (#[trigger] sources@[i]).wf()
                    &&& newest_entries(self@) == Ok::<Seq<Seq<EntryModel>>, Error>(
                        sources@.map_values(|s: Source| s.rest()),
                    )
                },
                Err(e) => newest_entries(self@) == Err::<Seq<Seq<EntryModel>>, Error>(e),
            },
    {
        let mut sources: Vec<Source> = Vec::new();
        let ghost none = Seq::<Seq<EntryModel>>::empty();
        proof {
            assert(sources@.map_values(|s: Source| s.rest()) =~= none);
        }
        match &self.c {
            Some(tree) => {
                let source = Source::new(tree.entries()?);
                sources.push(source);
                proof {
                    assert(sources@.map_values(|s: Source| s.rest()) =~= none.push(source.rest()));
                }
            },
            None => {},
        }
        let ghost newest = sources@.map_values(|s: Source| s.rest());
        match &self.b {
            Some(tree) => {
                let source = Source::new(tree.entries()?);
                sources.push(source);
                proof {
                    assert(sources@.map_values(|s: Source| s.rest()) =~= newest.push(
                        source.rest(),
                    ));
                }
            },
            None => {},
        }
        let ghost newer = sources@.map_values(|s: Source| s.rest());
        match &self.a {
            Some(tree) => {
                let source = Source::new(tree.entries()?);
                sources.push(source);
                proof {
                    assert(sources@.map_values(|s: Source| s.rest()) =~= newer.push(source.rest()));
                }
            },
            None => {},
        }
        Ok(sources)
    }

    /// Takes the file `path` with the bytes `data` into the first free
    /// role.
    pub fn promote_file(&mut self, path: FileName, data: Vec<u8>, journal: &mut Vec<FileOp>) -> (r:
        Result<Vec<Command>, Error>)
        requires
            old(self).wf(),
        ensures
            final(self).wf(),
            promoted(
                old(self)@,
                path,
                data@,
                final(self)@,
                r,
                old(journal).deep_view(),
                final(journal).deep_view(),
            ),
    {
        let ghost ops = journal.deep_view();
        let prefix = if self.a.is_none() {
            Prefix::A
        } else if self.b.is_none() {
            Prefix::B
        } else if self.c.is_none() {
            Prefix::C
        } else {
            return Err(Error::LevelFull(self.level));
        };
        record(journal, FileOp::Rename { from: path, to: self.data_file_name(prefix) });
        proof {
            assert(journal.deep_view() =~= ops.push(
                FileOpModel::Rename { from: path, to: self@.file(prefix) },
            ));
        }
        let tree = match Tree::from_file(data) {
            Ok(tree) => tree,
            Err(e) => {
                return Err(e);
            },
        };
        proof {
            assert(opens_as(data@, tree@));
        }
        match prefix {
            Prefix::A => {
                self.a = Some(tree);
            },
            Prefix::B => {
                self.b = Some(tree);
            },
            _ => {
                self.c = Some(tree);
            },
        }
        Ok(Vec::new())
    }

    /// Lets the merge of the level do its share of work. Where no merge is
    /// under way the work passes to the next level. A merge that completes
    /// replaces `A` and `B` by its output: the output becomes `A` where it
    /// fits the level, and is handed to the next level where it does not.
    #[verifier::rlimit(40)]
    pub fn merge(
        &mut self,
        work_completed: usize,
        work_unit: usize,
        min_level: u32,
        max_level: u32,
        journal: &mut Vec<FileOp>,
    ) -> (r: Result<Vec<Command>, Error>)
        requires
            old(self).wf(),
            min_level <= max_level,
            (max_level - min_level + 1) * work_unit <= usize::MAX,
        ensures
            final(self).wf(),
            merged(
                old(self)@,
                work_completed,
                work_unit,
                min_level,
                max_level,
                final(self)@,
                r,
                old(journal).deep_view(),
                final(journal).deep_view(),
            ),
    {
        let ghost m = self@;
        let merger = match self.source() {
            Err(e) => {
                return Err(e);
            },
            Ok(None) => {
                let mut commands: Vec<Command> = Vec::new();
                if self.level < max_level {
                    commands.push(
                        Command::Merge { steps: work_completed, target_level: self.level + 1 },
                    );
                }
                proof {
                    if m.level < max_level {
                        assert(commands.deep_view() =~= seq![
                            CommandModel::Merge {
                                steps: work_completed,
                                target_level: (m.level + 1) as u32,
                            },
                        ]);
                    } else {
                        assert(commands.deep_view() =~= Seq::<CommandModel>::empty());
                    }
                }
                return Ok(commands);
            },
            Ok(Some(merger)) => merger,
        };
        let ghost mm = merger@;
        let steps: usize = self.budget(work_completed, work_unit, min_level, max_level);
        if steps == 0 {
            self.merger = Some(merger);
            return Ok(Vec::new());
        }
        let work_including_here: usize = steps + work_completed;
        proof {
            lemma_run_steps(mm, steps as nat, 0);
        }
        match merger.incremental_merge(steps) {
            Err(e) => Err(e),
            Ok(MergeOutcome::Continue(new_merger)) => {
                let mut commands: Vec<Command> = Vec::new();
                commands.push(
                    Command::Merge { steps: work_including_here, target_level: self.level + 1 },
                );
                self.merger = Some(new_merger);
                proof {
                    assert(commands.deep_view() =~= seq![
                        CommandModel::Merge {
                            steps: (work_completed + steps) as usize,
                            target_level: (m.level + 1) as u32,
                        },
                    ]);
                }
                Ok(commands)
            },
            Ok(MergeOutcome::Complete { count, steps: completed, file }) => {
                let ghost x = run(mm, steps as nat, 0)->x;
                self.finish(count, file, work_including_here - completed, journal, Ghost(x))
            },
        }
    }

    /// Takes the merge that does the work of a call: the merge under way,
    /// or the merge of `A` and `B` that starts now where both are there.
    fn source(&mut self) -> (r: Result<Option<Merger>, Error>)
        requires
            old(self).wf(),
        ensures
            final(self).wf(),
            match r {
                Ok(Some(merger)) => merger.wf() && merger.intact() && merge_source(old(self)@) == Ok::<
                    Option<MergerModel>,
                    Error,
                >(Some(merger@)) && final(self)@ == (LevelModel { merger: None, ..old(self)@ }),
                Ok(None) => merge_source(old(self)@) == Ok::<Option<MergerModel>, Error>(None)
                    && final(self)@ == old(self)@,
                Err(e) => merge_source(old(self)@) == Err::<Option<MergerModel>, Error>(e)
                    && final(self)@ == old(self)@,
            },
    {
        self.maybe_create_merger()?;
        Ok(self.merger.take())
    }

    /// Puts the output of a completed merge in its place: it becomes `A`
    /// where it fits the level, and goes to the next level where it does
    /// not.
    #[verifier::rlimit(40)]
    fn finish(
        &mut self,
        count: usize,
        file: Vec<u8>,
        rest: usize,
        journal: &mut Vec<FileOp>,
        Ghost(x): Ghost<crate::writer::WriterModel>,
    ) -> (r: Result<Vec<Command>, Error>)
        requires
            old(self).wf(),
            old(self)@.merger is None,
            count == capped((key_vals(x.input) + tombstones(x.input)) as int),
            exists|image: Option<Seq<u8>>| #[trigger] closes_as(x, image, file@),
            closes_whole(x) <==> holds_entries(file@, x.input),
            opens(file@),
        ensures
            final(self).wf(),
            match r {
                Ok(commands) => completed(
                    old(self)@,
                    x,
                    rest,
                    final(self)@,
                    commands.deep_view(),
                    old(journal).deep_view(),
                    final(journal).deep_view(),
                ),
                Err(_) => false,
            },
    {
        let ghost m = self@;
        let ghost ops = journal.deep_view();
        let ghost merged = file@;
        let ghost image = choose|image: Option<Seq<u8>>| #[trigger] closes_as(x, image, merged);
        let next = Command::Merge { steps: rest, target_level: self.level + 1 };
        let mut commands: Vec<Command> = Vec::new();
        if count == 0 {
            let c = self.c.take();
            let ghost had_c = c is Some;
            self.close_and_delete_a_and_b(journal);
            if c.is_some() {
                record(journal, 
                    FileOp::Rename {
                        from: self.data_file_name(Prefix::C),
                        to: self.data_file_name(Prefix::A),
                    },
                );
                self.a = c;
            }
            commands.push(next);
            proof {
                assert(journal.deep_view() =~= ops + cleared(m, had_c));
                assert(commands.deep_view() =~= seq![next@]);
                assert(closes_as(x, image, merged));
            }
        } else if count <= level_size(self.level) {
            let copy = file.clone();
            let tree = Tree::from_file(file)?;
            let c = self.c.take();
            let ghost had_c = c is Some;
            record(journal, FileOp::Write { path: self.data_file_name(Prefix::X), data: copy });
            record(journal, 
                FileOp::Rename {
                    from: self.data_file_name(Prefix::X),
                    to: self.data_file_name(Prefix::M),
                },
            );
            self.close_and_delete_a_and_b(journal);
            record(journal, 
                FileOp::Rename {
                    from: self.data_file_name(Prefix::M),
                    to: self.data_file_name(Prefix::A),
                },
            );
            self.a = Some(tree);
            if c.is_some() {
                record(journal, 
                    FileOp::Rename {
                        from: self.data_file_name(Prefix::C),
                        to: self.data_file_name(Prefix::B),
                    },
                );
                self.b = c;
            }
            commands.push(next);
            proof {
                assert(journal.deep_view() =~= ops + kept(m, merged, had_c));
                assert(commands.deep_view() =~= seq![next@]);
                assert(closes_as(x, image, merged));
            }
        } else {
            let copy = file.clone();
            record(journal, FileOp::Write { path: self.data_file_name(Prefix::X), data: copy });
            self.close_and_delete_a_and_b(journal);
            let promote = Command::PromoteFile {
                path: self.data_file_name(Prefix::X),
                data: file,
                target_level: self.level + 1,
            };
            commands.push(promote);
            commands.push(next);
            proof {
                assert(journal.deep_view() =~= ops + handed_on(m, merged));
                assert(commands.deep_view() =~= seq![promote@, next@]);
                assert(closes_as(x, image, merged));
            }
        }
        Ok(commands)
    }

    /// The units of work that a merge at this level may do now.
    fn budget(&self, work_completed: usize, work_unit: usize, min_level: u32, max_level: u32) -> (r:
        usize)
        requires
            self.wf(),
            min_level <= max_level,
            (max_level - min_level + 1) * work_unit <= usize::MAX,
        ensures
            r == merge_budget(self@.level, work_completed, work_unit, min_level, max_level),
            r + work_completed <= usize::MAX || r == 0,
    {
        let here: usize = level_size(self.level + 1);
        proof {
            lemma_pow2_unfold((self.level + 1) as nat);
        }
        let depth: u64 = (max_level - min_level) as u64 + 1;
        proof {
            assert(depth * (work_unit as u64) == (max_level - min_level + 1) * work_unit)
                by (nonlinear_arith)
                requires
                    depth == max_level - min_level + 1,
            ;
        }
        let all: u64 = depth * (work_unit as u64);
        let left: u64 = if all > work_completed as u64 {
            all - work_completed as u64
        } else {
            0
        };
        if left < here as u64 {
            left as usize
        } else {
            here
        }
    }

    /// Lets go of `A` and `B` and has their files removed.
    fn close_and_delete_a_and_b(&mut self, journal: &mut Vec<FileOp>)
        requires
            old(self).wf(),
        ensures
            final(self).wf(),
            final(self)@ == (LevelModel { a: None, b: None, ..old(self)@ }),
            final(journal).deep_view() == old(journal).deep_view().push(
                FileOpModel::Remove { path: old(self)@.file(Prefix::A) },
            ).push(FileOpModel::Remove { path: old(self)@.file(Prefix::B) }),
    {
        self.a = None;
        self.b = None;
        record(journal, FileOp::Remove { path: self.data_file_name(Prefix::A) });
        record(journal, FileOp::Remove { path: self.data_file_name(Prefix::B) });
    }

    /// Starts the merge of `A` and `B` where both are there and none is
    /// under way.
    fn maybe_create_merger(&mut self) -> (r: Result<(), Error>)
        requires
            old(self).wf(),
        ensures
            final(self).wf(),
            match r {
                Ok(_) => merge_source(old(self)@) == Ok::<Option<MergerModel>, Error>(
                    final(self)@.merger,
                ) && final(self)@ == (LevelModel { merger: final(self)@.merger, ..old(self)@ }),
                Err(e) => merge_source(old(self)@) == Err::<Option<MergerModel>, Error>(e)
                    && final(self)@ == old(self)@,
            },
    {
        if self.merger.is_some() {
            return Ok(());
        }
        match (&self.a, &self.b) {
            (Some(a_tree), Some(b_tree)) => {
                let merger = Merger::new(self.level, a_tree, b_tree, self.compression)?;
                self.merger = Some(merger);
            },
            _ => {},
        }
        Ok(())
    }

    /// The name of the file of this level with `prefix`.
    fn data_file_name(&self, prefix: Prefix) -> (r: FileName)
        ensures
            r == self@.file(prefix),
    {
        FileName::Data { prefix, level: self.level }
    }
}

/// The merge that does the work of a call: the merge under way, or the
/// merge of `A` and `B` that starts now where both are there.
pub open spec fn merge_source(m: LevelModel) -> Result<Option<MergerModel>, Error> {
    match m.merger {
        Some(merger) => Ok(Some(merger)),
        None => match (m.a, m.b) {
            (Some(a), Some(b)) => match a.entries() {
                Err(e) => Err(e),
                Ok(older) => match b.entries() {
                    Err(e) => Err(e),
                    Ok(newer) => Ok(
                        Some(MergerModel { a: older, b: newer, x: Writer::fresh(m.compression) }),
                    ),
                },
            },
            _ => Ok(None),
        },
    }
}

/// What is done to the directory where the merged output is empty: `A` and
/// `B` are removed, and `C` becomes `A`.
pub open spec fn cleared(m: LevelModel, had_c: bool) -> Seq<FileOpModel> {
    seq![
        FileOpModel::Remove { path: m.file(Prefix::A) },
        FileOpModel::Remove { path: m.file(Prefix::B) },
    ] + if had_c {
        seq![FileOpModel::Rename { from: m.file(Prefix::C), to: m.file(Prefix::A) }]
    } else {
        Seq::empty()
    }
}

/// What is done to the directory where the merged output fits the level:
/// it is written as `X` and renamed to `M`, `A` and `B` are removed, `M`
/// becomes `A`, and `C` becomes `B`.
pub open spec fn kept(m: LevelModel, file: Seq<u8>, had_c: bool) -> Seq<FileOpModel> {
    seq![
        FileOpModel::Write { path: m.file(Prefix::X), data: file },
        FileOpModel::Rename { from: m.file(Prefix::X), to: m.file(Prefix::M) },
        FileOpModel::Remove { path: m.file(Prefix::A) },
        FileOpModel::Remove { path: m.file(Prefix::B) },
        FileOpModel::Rename { from: m.file(Prefix::M), to: m.file(Prefix::A) },
    ] + if had_c {
        seq![FileOpModel::Rename { from: m.file(Prefix::C), to: m.file(Prefix::B) }]
    } else {
        Seq::empty()
    }
}

/// What is done to the directory where the merged output is too large for
/// the level: it is written as `X`, and `A` and `B` are removed.
pub open spec fn handed_on(m: LevelModel, file: Seq<u8>) -> Seq<FileOpModel> {
    seq![
        FileOpModel::Write { path: m.file(Prefix::X), data: file },
        FileOpModel::Remove { path: m.file(Prefix::A) },
        FileOpModel::Remove { path: m.file(Prefix::B) },
    ]
}

/// Whether a completed merge with the output writer `x` left the level
/// `m` as `after`, with these commands and this journal. `rest` is the work
/// that passes to the next level. The file of the merge holds what the
/// writer took, filter and all, if closing the writer leaves no block
/// beneath the root, and only then.
pub open spec fn completed(
    m: LevelModel,
    x: crate::writer::WriterModel,
    rest: usize,
    after: LevelModel,
    commands: Seq<CommandModel>,
    ops: Seq<FileOpModel>,
    journal: Seq<FileOpModel>,
) -> bool {
    let count = capped((key_vals(x.input) + tombstones(x.input)) as int);
    let next = CommandModel::Merge { steps: rest, target_level: (m.level + 1) as u32 };
    exists|file: Seq<u8>, image: Option<Seq<u8>>|
        {
            &&& #[trigger] closes_as(x, image, file)
            &&& closes_whole(x) <==> holds_entries(file, x.input)
            &&& if count == 0 {
                &&& after == (LevelModel { a: m.c, b: None, c: None, merger: None, ..m })
                &&& journal == ops + cleared(m, m.c is Some)
                &&& commands == seq![next]
            } else if count <= pow2(m.level as nat) {
                &&& after.a matches Some(t)
                &&& opens_as(file, t)
                &&& after == (LevelModel { a: after.a, b: m.c, c: None, merger: None, ..m })
                &&& journal == ops + kept(m, file, m.c is Some)
                &&& commands == seq![next]
            } else {
                &&& after == (LevelModel { a: None, b: None, merger: None, ..m })
                &&& journal == ops + handed_on(m, file)
                &&& commands == seq![
                    CommandModel::PromoteFile {
                        path: m.file(Prefix::X),
                        data: file,
                        target_level: (m.level + 1) as u32,
                    },
                    next,
                ]
            }
        }
}

/// Whether `e` is why a completed merge with the output writer `x` came to
/// nothing: `e` is the error of the first pending block of the output that
/// could not be written out, or the refusal of a codec that may refuse
/// whatever it is handed.
pub open spec fn ends_badly(m: LevelModel, x: crate::writer::WriterModel, e: Error) -> bool {
    x.compress.gives_up(e) || crate::writer::drain(x, 0).1 == Err::<(), Error>(e)
}

/// Whether a call of `merge` took the level from `m` to `after` with this
/// result, and the journal from `ops` to `journal`. Where the codec of the
/// output refuses, as one that may refuse whatever it is handed can at any
/// step, the merge is dropped and nothing else has changed.
pub open spec fn merged(
    m: LevelModel,
    work_completed: usize,
    work_unit: usize,
    min_level: u32,
    max_level: u32,
    after: LevelModel,
    r: Result<Vec<Command>, Error>,
    ops: Seq<FileOpModel>,
    journal: Seq<FileOpModel>,
) -> bool {
    let steps = merge_budget(m.level, work_completed, work_unit, min_level, max_level);
    match merge_source(m) {
        Err(e) => r == Err::<Vec<Command>, Error>(e) && after == m && journal == ops,
        Ok(None) => {
            &&& after == m
            &&& journal == ops
            &&& r matches Ok(commands)
            &&& commands.deep_view() == if m.level < max_level {
                seq![
                    CommandModel::Merge {
                        steps: work_completed,
                        target_level: (m.level + 1) as u32,
                    },
                ]
            } else {
                Seq::empty()
            }
        },
        Ok(Some(merger)) => if steps == 0 {
            &&& after == (LevelModel { merger: Some(merger), ..m })
            &&& journal == ops
            &&& r matches Ok(commands)
            &&& commands@.len() == 0
        } else if r matches Err(e) && merger.x.compress.gives_up(e) {
            &&& after == (LevelModel { merger: None, ..m })
            &&& journal == ops
        } else {
            match run(merger, steps as nat, 0) {
                RunModel::Failed(e) => {
                    &&& r == Err::<Vec<Command>, Error>(e)
                    &&& after == (LevelModel { merger: None, ..m })
                    &&& journal == ops
                },
                RunModel::Continue(rest) => {
                    &&& after == (LevelModel { merger: Some(rest), ..m })
                    &&& journal == ops
                    &&& r matches Ok(commands)
                    &&& commands.deep_view() == seq![
                        CommandModel::Merge {
                            steps: (work_completed + steps) as usize,
                            target_level: (m.level + 1) as u32,
                        },
                    ]
                },
                RunModel::Complete { x, steps: made } => match r {
                    Ok(commands) => completed(
                        LevelModel { merger: None, ..m },
                        x,
                        (work_completed + steps - made) as usize,
                        after,
                        commands.deep_view(),
                        ops,
                        journal,
                    ),
                    Err(e) => {
                        &&& after == (LevelModel { merger: None, ..m })
                        &&& journal == ops
                        &&& ends_badly(m, x, e)
                    },
                },
            }
        },
    }
}

/// A merge hands on at most two commands, all of them for the next level,
/// and only the first of two is a file.
pub proof fn lemma_merged_commands(
    m: LevelModel,
    work_completed: usize,
    work_unit: usize,
    min_level: u32,
    max_level: u32,
    after: LevelModel,
    r: Result<Vec<Command>, Error>,
    ops: Seq<FileOpModel>,
    journal: Seq<FileOpModel>,
)
    requires
        merged(m, work_completed, work_unit, min_level, max_level, after, r, ops, journal),
        m.level + 1 < usize::BITS,
    ensures
        after.level == m.level,
        after.compression == m.compression,
        r matches Ok(commands) ==> {
            &&& commands@.len() <= 2
            &&& forall|i: int|
                0 <= i < commands@.len() ==> command_level((#[trigger] commands@[i])@) == m.level
                    + 1
            &&& commands@.len() > 0 ==> commands@.last()@ is Merge
            &&& commands@.len() == 2 ==> commands@[0]@ is PromoteFile
        },
{
    if r is Ok {
        let commands = r->Ok_0;
        let views = commands.deep_view();
        assert(views.len() == commands@.len());
        assert forall|i: int| 0 <= i < commands@.len() implies views[i] == (
        #[trigger] commands@[i])@ by {}
        if commands@.len() > 0 {
            assert(views.last() == commands@.last()@);
            assert(views[0] == commands@[0]@);
        }
    }
}

/// The level that a command is for.
pub open spec fn command_level(c: CommandModel) -> u32 {
    match c {
        CommandModel::PromoteFile { target_level, .. } => target_level,
        CommandModel::Merge { target_level, .. } => target_level,
    }
}

/// The entries of `slot` behind `newer`, or why they cannot be read;
/// `newer` where there is no file.
pub open spec fn with_entries(
    newer: Result<Seq<Seq<EntryModel>>, Error>,
    slot: Option<TreeModel>,
) -> Result<Seq<Seq<EntryModel>>, Error> {
    match newer {
        Err(e) => Err(e),
        Ok(found) => match slot {
            None => Ok(found),
            Some(t) => match t.entries() {
                Err(e) => Err(e),
                Ok(entries) => Ok(found.push(entries)),
            },
        },
    }
}

/// The entries of each file of the level, the newest file first, or why
/// the first of them that cannot be read cannot.
pub open spec fn newest_entries(m: LevelModel) -> Result<Seq<Seq<EntryModel>>, Error> {
    with_entries(with_entries(with_entries(Ok(Seq::empty()), m.c), m.b), m.a)
}

/// Whether `slot` is empty and `entries` are none, or `slot` is a tree file
/// that holds `entries`, whose keys rise.
pub open spec fn slot_holds(slot: Option<TreeModel>, entries: Seq<EntryModel>) -> bool {
    match slot {
        None => entries.len() == 0,
        Some(t) => opens_as(t.file, t) && holds_entries(t.file, entries) && ascending(entries),
    }
}

/// What is found under `key` among the entries of the newest file that
/// holds the key: those of `C`, then those of `B`, then those of `A`.
pub open spec fn newest_first(
    a: Seq<EntryModel>,
    b: Seq<EntryModel>,
    c: Seq<EntryModel>,
    key: Seq<u8>,
) -> Option<EntryModel> {
    match find(c, key) {
        Some(e) => Some(e),
        None => match find(b, key) {
            Some(e) => Some(e),
            None => find(a, key),
        },
    }
}

/// A level gives back the newest entry under a key. Where the files of a
/// level hold the entries `a`, `b` and `c`, a lookup finds under a key the
/// entry of the newest file that holds the key.
pub proof fn lemma_level_gets(
    m: LevelModel,
    a: Seq<EntryModel>,
    b: Seq<EntryModel>,
    c: Seq<EntryModel>,
    key: Seq<u8>,
)
    requires
        slot_holds(m.a, a),
        slot_holds(m.b, b),
        slot_holds(m.c, c),
    ensures
        m.get(key) == Ok::<Option<EntryModel>, Error>(newest_first(a, b, c, key)),
{
    if m.a is Some {
        lemma_tree_gets(m.a->Some_0.file, m.a->Some_0, a, key);
    }
    if m.b is Some {
        lemma_tree_gets(m.b->Some_0.file, m.b->Some_0, b, key);
    }
    if m.c is Some {
        lemma_tree_gets(m.c->Some_0.file, m.c->Some_0, c, key);
    }
}

/// Whether `e` is why no level opens on these files: the first of them
/// that does not open, in the order `A`, `B`, `C`; or, where all open, the
/// first of `A` and `B` whose entries cannot be read for their merge.
pub open spec fn level_fails(
    a: Option<Vec<u8>>,
    b: Option<Vec<u8>>,
    c: Option<Vec<u8>>,
    e: Error,
) -> bool {
    if !slot_opens(a) {
        fails_to_open(a->Some_0@, e)
    } else if !slot_opens(b) {
        fails_to_open(b->Some_0@, e)
    } else if !slot_opens(c) {
        fails_to_open(c->Some_0@, e)
    } else {
        exists|older: TreeModel, newer: TreeModel|
            #![trigger opens_as(a->Some_0@, older), opens_as(b->Some_0@, newer)]
            a is Some && b is Some && opens_as(a->Some_0@, older) && opens_as(b->Some_0@, newer)
                && match older.entries() {
                Err(first) => e == first,
                Ok(_) => newer.entries() == Err::<Seq<EntryModel>, Error>(e),
            }
    }
}

/// Whether the file with the bytes `file` opens, where there is a file.
pub open spec fn slot_opens(file: Option<Vec<u8>>) -> bool {
    match file {
        None => true,
        Some(bytes) => opens(bytes@),
    }
}

/// Whether `slot` is what the file with the bytes `file` opens as, where
/// there is a file, and empty where there is none.
pub open spec fn slot_opened(file: Option<Vec<u8>>, slot: Option<TreeModel>) -> bool {
    match file {
        None => slot is None,
        Some(bytes) => slot matches Some(t) && opens_as(bytes@, t),
    }
}

/// Whether the merge of the level is what it has to be where none was
/// under way: a merge of the entries of `A` and `B` into a fresh file where
/// both are there, and none where they are not.
pub open spec fn merge_started(m: LevelModel) -> bool {
    match (m.a, m.b) {
        (Some(a), Some(b)) => {
            &&& m.merger matches Some(merger)
            &&& a.entries() == Ok::<Seq<EntryModel>, Error>(merger.a)
            &&& b.entries() == Ok::<Seq<EntryModel>, Error>(merger.b)
            &&& merger.x == Writer::fresh(m.compression)
        },
        _ => m.merger is None,
    }
}

} // verus!
