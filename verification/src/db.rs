//! The database: a nursery, a stack of levels, and the queue of work that
//! passes between them.
use vstd::prelude::*;
use std::collections::VecDeque;
use vstd::arithmetic::power2::pow2;
use crate::compression::Compression;
use crate::entry::{Entry, EntryModel};
use crate::error::Error;
use crate::files::{FileName, FileOp, FileOpModel};
use crate::level::{promoted, command_level, lemma_level_gets, lemma_merged_commands, level_size, merged, newest_first, slot_holds, Level, LevelModel};
use crate::tree::lemma_walk_leaves;
use crate::writer::holds_entries;
use crate::block::{entries_at, header_at};
use crate::memtable::lemma_find_some;
use crate::nursery::{after_write, flushes, lemma_written_is_held, merges, value_of, Nursery, NurseryModel, Value, ValueModel};
use crate::tree::find;

verus! {

/// A unit of work that the nursery or a level hands to the database.
#[derive(Debug, PartialEq, Eq)]
pub enum Command {
    /// Take the file with this name and these bytes into `target_level`.
    PromoteFile { path: FileName, data: Vec<u8>, target_level: u32 },
    /// Let `target_level` merge, `steps` units of work having been done on
    /// the way.
    Merge { steps: usize, target_level: u32 },
}

/// What a command holds, as mathematical values.
pub enum CommandModel {
    PromoteFile { path: FileName, data: Seq<u8>, target_level: u32 },
    Merge { steps: usize, target_level: u32 },
}

impl View for Command {
    type V = CommandModel;

    open spec fn view(&self) -> CommandModel {
        match *self {
            Command::PromoteFile { path, data, target_level } => CommandModel::PromoteFile {
                path,
                data: data@,
                target_level,
            },
            Command::Merge { steps, target_level } => CommandModel::Merge { steps, target_level },
        }
    }
}

impl DeepView for Command {
    type V = CommandModel;

    open spec fn deep_view(&self) -> CommandModel {
        self@
    }
}

/// The options with which a database is opened.
#[derive(Debug)]
pub struct OpenOptions {
    pub path: String,
    pub min_level: u32,
    pub max_level: u32,
    pub compression: Compression,
}

/// The files of one level as a directory holds them.
#[derive(Debug)]
pub struct LevelFiles {
    pub a: Option<Vec<u8>>,
    pub b: Option<Vec<u8>>,
    pub c: Option<Vec<u8>>,
}

/// What a directory holds when a database is opened on it: the bytes of
/// the log of the nursery, if there is one, and the files of the levels,
/// the lowest level first. Levels beyond those given hold no files.
#[derive(Debug)]
pub struct Snapshot {
    pub log: Option<Vec<u8>>,
    pub levels: Vec<LevelFiles>,
}

/// A database: the nursery, the levels from `min_level` to `max_level`, and
/// the file operations that its caller has yet to carry out.
pub struct HanoiDB {
    path: String,
    nursery: Nursery,
    min_level: u32,
    max_level: u32,
    levels: Vec<Level>,
    journal: Vec<FileOp>,
}

/// The state of a database, as mathematical values.
pub struct DbModel {
    pub nursery: NurseryModel,
    pub levels: Seq<LevelModel>,
    pub min_level: u32,
    pub max_level: u32,
    pub journal: Seq<FileOpModel>,
}

/// What a lookup finds that has come to `levels`, the lowest first: the
/// value of the first level that finds an entry, and nothing where that
/// entry is a tombstone. A pointer to a block shows that a file is corrupt.
pub open spec fn levels_get(levels: Seq<LevelModel>, key: Seq<u8>) -> Result<
    Option<Seq<u8>>,
    Error,
>
    decreases levels.len(),
{
    if levels.len() == 0 {
        Ok(None)
    } else {
        match levels[0].get(key) {
            Err(e) => Err(e),
            Ok(Some(EntryModel::KeyVal { value, .. })) => Ok(Some(value)),
            Ok(Some(EntryModel::Deleted { .. })) => Ok(None),
            Ok(Some(EntryModel::PosLen { .. })) => Err(
                Error::CorruptedFile("get entry returned a poslen entry"),
            ),
            Ok(None) => levels_get(levels.skip(1), key),
        }
    }
}

impl DbModel {
    /// What a lookup of `key` finds: what the nursery holds under it, else
    /// what the levels find.
    pub open spec fn get(self, key: Seq<u8>) -> Result<Option<Seq<u8>>, Error> {
        match value_of(find(self.nursery.data, key)) {
            Some(ValueModel::Plain(value)) => Ok(Some(value)),
            Some(ValueModel::Deleted) => Ok(None),
            None => levels_get(self.levels, key),
        }
    }
}

/// The units of work that one write pays for at each level: half the size
/// of the first level.
pub open spec fn work_unit(min_level: u32) -> int {
    pow2(min_level as nat) as int / 2
}

/// Whether a database can have the levels from `min_level` to `max_level`:
/// there is at least one, each has a size, and the budget of a merge fits.
pub open spec fn levels_fit(min_level: u32, max_level: u32) -> bool {
    &&& min_level <= max_level
    &&& max_level + 1 < usize::BITS
    &&& (max_level - min_level + 1) * work_unit(min_level) <= usize::MAX
}

/// A bound on the commands that a command can lead to.
pub open spec fn command_weight(c: CommandModel, max_level: u32) -> nat {
    match c {
        CommandModel::PromoteFile { .. } => 1,
        CommandModel::Merge { target_level, .. } => if target_level > max_level {
            1
        } else {
            (2 * (max_level - target_level) + 4) as nat
        },
    }
}

/// A bound on the commands that a queue of commands can lead to.
pub open spec fn queue_weight(queue: Seq<Command>, max_level: u32) -> nat
    decreases queue.len(),
{
    if queue.len() == 0 {
        0
    } else {
        command_weight(queue[0]@, max_level) + queue_weight(queue.skip(1), max_level)
    }
}

proof fn lemma_queue_weight_add(a: Seq<Command>, b: Seq<Command>, max_level: u32)
    ensures
        queue_weight(a + b, max_level) == queue_weight(a, max_level) + queue_weight(b, max_level),
    decreases a.len(),
{
    if a.len() == 0 {
        assert(a + b =~= b);
    } else {
        assert((a + b).skip(1) =~= a.skip(1) + b);
        lemma_queue_weight_add(a.skip(1), b, max_level);
    }
}

impl OpenOptions {
    /// Options for the database in `path`: levels 10 to 25, no compression.
    pub fn new(path: String) -> (r: Self)
        ensures
            r.path == path,
            r.min_level == 10,
            r.max_level == 25,
            r.compression == Compression::Uncompressed,
    {
        OpenOptions { path, min_level: 10, max_level: 25, compression: Compression::Uncompressed }
    }

    /// The same options with this lowest level.
    pub fn with_min_level(self, min_level: u32) -> (r: Self)
        ensures
            r.path == self.path,
            r.min_level == min_level,
            r.max_level == self.max_level,
            r.compression == self.compression,
    {
        OpenOptions { min_level, ..self }
    }

    /// The same options with this highest level.
    pub fn with_max_level(self, max_level: u32) -> (r: Self)
        ensures
            r.path == self.path,
            r.min_level == self.min_level,
            r.max_level == max_level,
            r.compression == self.compression,
    {
        OpenOptions { max_level, ..self }
    }

    /// The same options with this codec.
    pub fn with_compression(self, compression: Compression) -> (r: Self)
        ensures
            r.path == self.path,
            r.min_level == self.min_level,
            r.max_level == self.max_level,
            r.compression == compression,
    {
        OpenOptions { compression, ..self }
    }

    /// Opens the database on what the directory holds.
    pub fn open(self, files: Snapshot) -> (r: Result<HanoiDB, Error>)
        requires
            levels_fit(self.min_level, self.max_level),
        ensures
            r matches Ok(db) ==> opened(db@, self.min_level, self.max_level, self.compression)
                && db.wf() && db.path_spec() == self.path@,
            r is Ok && files.log is None ==> r->Ok_0@.journal == seq![
                FileOpModel::Write { path: FileName::NurseryLog, data: Seq::empty() },
            ] && levels_opened(r->Ok_0@.levels, files.levels@, self.compression),
            r is Ok && files.log is Some ==> exists|start: DbModel, command: Option<Command>|
                #[trigger] recovers(
                    start,
                    command,
                    files.log->Some_0@,
                    files.levels@,
                    self.min_level,
                    self.compression,
                    r->Ok_0@,
                ),
            r is Err ==> opening_fails(files, self.min_level, self.compression, r->Err_0),
    {
        HanoiDB::with_options(self, files)
    }
}

impl View for HanoiDB {
    type V = DbModel;

    closed spec fn view(&self) -> DbModel {
        DbModel {
            nursery: self.nursery@,
            levels: self.levels@.map_values(|l: Level| l@),
            min_level: self.min_level,
            max_level: self.max_level,
            journal: self.journal.deep_view(),
        }
    }
}

impl HanoiDB {
    /// The database holds together: it has a level for each number from
    /// `min_level` to `max_level`, in order, and all its parts hold
    /// together.
    pub closed spec fn wf(&self) -> bool {
        &&& levels_fit(self.min_level, self.max_level)
        &&& self.nursery.wf()
        &&& self.nursery@.min_level == self.min_level
        &&& self.levels@.len() == self.max_level - self.min_level + 1
        &&& forall|i: int|
            0 <= i < self.levels@.len() ==> (#[trigger] self.levels@[i]).wf() && self.levels@[i]@.level
                == self.min_level + i
    }

    /// Opens the database in `path` with levels 10 to 25 and no
    /// compression.
    pub fn open(path: String, files: Snapshot) -> (r: Result<HanoiDB, Error>)
        ensures
            r matches Ok(db) ==> opened(db@, 10, 25, Compression::Uncompressed) && db.wf()
                && db.path_spec() == path@,
            r is Ok && files.log is None ==> r->Ok_0@.journal == seq![
                FileOpModel::Write { path: FileName::NurseryLog, data: Seq::empty() },
            ] && levels_opened(r->Ok_0@.levels, files.levels@, Compression::Uncompressed),
            r is Ok && files.log is Some ==> exists|start: DbModel, command: Option<Command>|
                #[trigger] recovers(
                    start,
                    command,
                    files.log->Some_0@,
                    files.levels@,
                    10,
                    Compression::Uncompressed,
                    r->Ok_0@,
                ),
            r is Err ==> opening_fails(files, 10, Compression::Uncompressed, r->Err_0),
    {
        proof {
            vstd::arithmetic::power2::lemma2_to64();
            assert(pow2(10) == 1024);
            assert(work_unit(10) == 512);
            assert(usize::BITS == 32 || usize::BITS == 64);
            assert((25 - 10 + 1) * work_unit(10) == 8192);
            assert(levels_fit(10, 25));
        }
        OpenOptions::new(path).open(files)
    }

    /// Opens the database with these options on what the directory holds.
    /// What a log of the nursery leaves behind goes into the first level.
    pub fn with_options(options: OpenOptions, files: Snapshot) -> (r: Result<HanoiDB, Error>)
        requires
            levels_fit(options.min_level, options.max_level),
        ensures
            r matches Ok(db) ==> opened(
                db@,
                options.min_level,
                options.max_level,
                options.compression,
            ) && db.wf() && db.path_spec() == options.path@,
            r is Ok && files.log is None ==> r->Ok_0@.journal == seq![
                FileOpModel::Write { path: FileName::NurseryLog, data: Seq::empty() },
            ] && levels_opened(r->Ok_0@.levels, files.levels@, options.compression),
            r is Ok && files.log is Some ==> exists|start: DbModel, command: Option<Command>|
                #[trigger] recovers(
                    start,
                    command,
                    files.log->Some_0@,
                    files.levels@,
                    options.min_level,
                    options.compression,
                    r->Ok_0@,
                ),
            r is Err ==> opening_fails(files, options.min_level, options.compression, r->Err_0),
    {
        let OpenOptions { path, min_level, max_level, compression } = options;
        let Snapshot { log, levels: mut given } = files;
        let mut journal: Vec<FileOp> = Vec::new();
        proof {
            assert(journal.deep_view() =~= Seq::<FileOpModel>::empty());
        }
        let (nursery, recovery) = match Nursery::new(log, min_level, compression, &mut journal) {
            Ok(opened) => opened,
            Err(e) => {
                return Err(e);
            },
        };
        let ghost fresh = nursery@;
        let ghost ops = journal.deep_view();
        let mut levels: Vec<Level> = Vec::new();
        let mut level: u32 = min_level;
        let ghost all = given@;
        while level <= max_level
            invariant
                min_level <= level <= max_level + 1,
                max_level + 1 < usize::BITS,
                nursery.wf(),
                nursery@ == fresh,
                journal.deep_view() == ops,
                all == files.levels@,
                given@ == rest_of(all, level - min_level),
                levels_opened(levels@.map_values(|l: Level| l@), all, compression),
                levels@.len() == level - min_level,
                forall|i: int|
                    0 <= i < levels@.len() ==> (#[trigger] levels@[i]).wf() && levels@[i]@.level
                        == min_level + i,
            decreases max_level + 1 - level,
        {
            let ghost before = levels@.map_values(|l: Level| l@);
            let files = if given.len() > 0 {
                given.remove(0)
            } else {
                LevelFiles { a: None, b: None, c: None }
            };
            proof {
                assert(given@ =~= rest_of(all, level - min_level + 1));
                assert(files == files_of(all, level - min_level));
            }
            let opened = match Level::new(level, files.a, files.b, files.c, compression) {
                Ok(opened) => opened,
                Err(e) => {
                    proof {
                        assert(fails_at(all, level - min_level, e));
                    }
                    return Err(e);
                },
            };
            levels.push(opened);
            proof {
                let after = levels@.map_values(|l: Level| l@);
                assert(after =~= before.push(opened@));
                assert forall|i: int| 0 <= i < after.len() implies level_opened(
                    #[trigger] after[i],
                    files_of(all, i),
                    compression,
                ) by {
                    if i < before.len() {
                        assert(after[i] == before[i]);
                    }
                }
            }
            level = level + 1;
        }
        let mut db = HanoiDB { path, nursery, min_level, max_level, levels, journal };
        let ghost start = db@;
        let ghost recovered_with = recovery;
        match recovery {
            Some(command) => {
                let mut commands: Vec<Command> = Vec::new();
                commands.push(command);
                proof {
                    assert(commands@ =~= seq![command]);
                }
                let answer = db.handle_commands(commands);
                if let Err(e) = answer {
                    proof {
                        assert(recovery_stops(
                            start,
                            command,
                            db@,
                            files.log->Some_0@,
                            files.levels@,
                            min_level,
                            compression,
                            e,
                        ));
                    }
                    return Err(e);
                }
                proof {
                    assert(answer->Ok_0 == ());
                }
            },
            None => {
                proof {
                    assert(drains(start, Seq::<Command>::empty(), start, Ok::<(), Error>(()), 0));
                }
            },
        }
        proof {
            if files.log is Some {
                assert(recovers(
                    start,
                    recovered_with,
                    files.log->Some_0@,
                    files.levels@,
                    options.min_level,
                    options.compression,
                    db@,
                ));
            }
        }
        Ok(db)
    }

    /// Looks `key` up: in the nursery first, then in the levels, the lowest
    /// first. A tombstone says that the key is not there.
    pub fn get(&self, key: &[u8]) -> (r: Result<Option<Vec<u8>>, Error>)
        requires
            self.wf(),
        ensures
            match r {
                Ok(Some(value)) => self@.get(key@) == Ok::<Option<Seq<u8>>, Error>(Some(value@)),
                Ok(None) => self@.get(key@) == Ok::<Option<Seq<u8>>, Error>(None),
                Err(e) => self@.get(key@) == Err::<Option<Seq<u8>>, Error>(e),
            },
    {
        match self.nursery.get_value(key) {
            Some(Value::Deleted) => {
                return Ok(None);
            },
            Some(Value::Plain(value)) => {
                return Ok(Some(value));
            },
            None => {},
        }
        let ghost all = self@.levels;
        let mut i: usize = 0;
        proof {
            assert(all.skip(0) =~= all);
        }
        while i < self.levels.len()
            invariant
                i <= self.levels@.len(),
                all == self@.levels,
                self@.get(key@) == levels_get(all, key@),
                levels_get(all.skip(i as int), key@) == levels_get(all, key@),
            decreases self.levels@.len() - i,
        {
            proof {
                assert(all.skip(i as int)[0] == self.levels@[i as int]@);
                assert(all.skip(i as int).skip(1) =~= all.skip(i + 1));
            }
            match self.levels[i].get_entry(key)? {
                Some(Entry::Deleted { .. }) => {
                    return Ok(None);
                },
                Some(Entry::KeyVal { value, .. }) => {
                    return Ok(Some(value));
                },
                Some(Entry::PosLen { .. }) => {
                    return Err(Error::CorruptedFile("get entry returned a poslen entry"));
                },
                None => {},
            }
            i = i + 1;
        }
        Ok(None)
    }

    /// The operation that logs a write of `value` under `key`. The caller
    /// carries it out, and hands its outcome to `insert`.
    pub fn log_insert(key: &[u8], value: &[u8]) -> (r: FileOp)
        requires
            (EntryModel::KeyVal { key: key@, value: value@, timestamp: None }).storable(),
        ensures
            r@ == crate::nursery::log_record(
                EntryModel::KeyVal { key: key@, value: value@, timestamp: None },
            ),
    {
        Nursery::log_add(key, value)
    }

    /// The operation that logs a tombstone under `key`. The caller carries
    /// it out, and hands its outcome to `delete`.
    pub fn log_delete(key: &[u8]) -> (r: FileOp)
        requires
            (EntryModel::Deleted { key: key@, timestamp: None }).storable(),
        ensures
            r@ == crate::nursery::log_record(EntryModel::Deleted { key: key@, timestamp: None }),
    {
        Nursery::log_delete(key)
    }

    /// Writes `value` under `key`, and does the work that the write sets
    /// off. `logged` says whether the record of the write reached the log;
    /// where it did not, the write fails and the database is as it was. A
    /// write that does not fill the nursery is read back by `get`.
    pub fn insert(&mut self, key: Vec<u8>, value: Vec<u8>, logged: bool) -> (r: Result<(), Error>)
        requires
            old(self).wf(),
            (EntryModel::KeyVal { key: key@, value: value@, timestamp: None }).storable(),
        ensures
            final(self).wf(),
            final(self).path_spec() == old(self).path_spec(),
            wrote(
                old(self)@,
                EntryModel::KeyVal { key: key@, value: value@, timestamp: None },
                logged,
                final(self)@,
                r,
            ),
            r is Ok && !flushes(
                old(self)@.nursery,
                EntryModel::KeyVal { key: key@, value: value@, timestamp: None },
            ) ==> final(self)@.get(key@) == Ok::<Option<Seq<u8>>, Error>(Some(value@)),
    {
        let ghost entry = EntryModel::KeyVal { key: key@, value: value@, timestamp: None };
        let ghost m = self@;
        proof {
            self.nursery.lemma_data_in_order();
            if !flushes(self.nursery@, entry) {
                lemma_written_is_held(self.nursery@, entry, key@);
            }
        }
        let answer = self.nursery.add(key, value, logged, &mut self.journal);
        self.work(answer, Ghost(m), Ghost(entry), Ghost(logged))
    }

    /// Writes a tombstone under `key`, and does the work that the write
    /// sets off. `logged` says whether the record of the write reached the
    /// log; where it did not, the write fails and the database is as it
    /// was. After a write that does not fill the nursery `get` finds nothing
    /// under the key.
    pub fn delete(&mut self, key: Vec<u8>, logged: bool) -> (r: Result<(), Error>)
        requires
            old(self).wf(),
            (EntryModel::Deleted { key: key@, timestamp: None }).storable(),
        ensures
            final(self).wf(),
            final(self).path_spec() == old(self).path_spec(),
            wrote(
                old(self)@,
                EntryModel::Deleted { key: key@, timestamp: None },
                logged,
                final(self)@,
                r,
            ),
            r is Ok && !flushes(
                old(self)@.nursery,
                EntryModel::Deleted { key: key@, timestamp: None },
            ) ==> final(self)@.get(key@) == Ok::<Option<Seq<u8>>, Error>(None),
    {
        let ghost entry = EntryModel::Deleted { key: key@, timestamp: None };
        let ghost m = self@;
        proof {
            self.nursery.lemma_data_in_order();
            if !flushes(self.nursery@, entry) {
                lemma_written_is_held(self.nursery@, entry, key@);
            }
        }
        let answer = self.nursery.delete(key, logged, &mut self.journal);
        self.work(answer, Ghost(m), Ghost(entry), Ghost(logged))
    }

    /// Works through the commands that the nursery answered a write of
    /// `entry` with, which took the database from `m` to where it is.
    fn work(
        &mut self,
        answer: Result<Vec<Command>, Error>,
        Ghost(m): Ghost<DbModel>,
        Ghost(entry): Ghost<EntryModel>,
        Ghost(logged): Ghost<bool>,
    ) -> (r: Result<(), Error>)
        requires
            old(self).wf(),
            crate::nursery::written(
                m.nursery,
                entry,
                logged,
                old(self)@.nursery,
                answer,
                m.journal,
                old(self)@.journal,
            ),
            old(self)@ == (DbModel {
                nursery: old(self)@.nursery,
                journal: old(self)@.journal,
                ..m
            }),
        ensures
            final(self).wf(),
            final(self).path_spec() == old(self).path_spec(),
            wrote(m, entry, logged, final(self)@, r),
            r is Ok ==> final(self)@.nursery == old(self)@.nursery,
    {
        let ghost mid = self@;
        match answer {
            Err(e) => {
                proof {
                    assert(worked(m, entry, logged, self@, Err::<(), Error>(e), mid.nursery, answer, mid.journal));
                }
                Err(e)
            },
            Ok(commands) => {
                let r = self.handle_commands(commands);
                proof {
                    assert(worked(m, entry, logged, self@, r, mid.nursery, answer, mid.journal));
                }
                r
            },
        }
    }

    /// The directory of the database.
    pub fn path(&self) -> (r: &str)
        ensures
            r@ == self.path_spec(),
    {
        self.path.as_str()
    }

    /// The directory of the database, as text.
    pub closed spec fn path_spec(&self) -> Seq<char> {
        self.path@
    }

    /// Hands over the file operations that have gathered, in order, for the
    /// caller to carry out.
    pub fn take_journal(&mut self) -> (r: Vec<FileOp>)
        requires
            old(self).wf(),
        ensures
            final(self).wf(),
            r.deep_view() == old(self)@.journal,
            final(self)@ == (DbModel { journal: Seq::empty(), ..old(self)@ }),
    {
        let mut taken: Vec<FileOp> = Vec::new();
        std::mem::swap(&mut taken, &mut self.journal);
        proof {
            assert(self.journal.deep_view() =~= Seq::<FileOpModel>::empty());
        }
        taken
    }

    /// Puts `commands` at the end of `queue`, in their order.
    fn enqueue(queue: &mut VecDeque<Command>, commands: Vec<Command>)
        ensures
            final(queue)@ == old(queue)@ + commands@,
    {
        let ghost start = queue@;
        let mut rest = commands;
        proof {
            assert(queue@ + rest@ =~= start + commands@);
        }
        while rest.len() > 0
            invariant
                queue@ + rest@ == start + commands@,
            decreases rest@.len(),
        {
            let ghost waiting = queue@;
            let ghost left = rest@;
            let command = rest.remove(0);
            queue.push_back(command);
            proof {
                assert(queue@ + rest@ =~= waiting + left);
            }
        }
        proof {
            assert(queue@ + rest@ =~= queue@);
        }
    }

    /// Works through `commands` and through the commands that they lead
    /// to, in the order in which they arise.
    fn handle_commands(&mut self, commands: Vec<Command>) -> (r: Result<(), Error>)
        requires
            old(self).wf(),
        ensures
            final(self).wf(),
            final(self)@.min_level == old(self)@.min_level,
            final(self)@.max_level == old(self)@.max_level,
            final(self)@.nursery == old(self)@.nursery,
            final(self).path_spec() == old(self).path_spec(),
            old(self)@.journal.is_prefix_of(final(self)@.journal),
            commands@.len() == 0 ==> r is Ok && final(self)@ == old(self)@,
            drained(old(self)@, commands@, final(self)@, r),
    {
        let mut queue: VecDeque<Command> = VecDeque::new();
        Self::enqueue(&mut queue, commands);
        let ghost mut done: nat = 0;
        while queue.len() > 0
            invariant
                self.wf(),
                self@.min_level == old(self)@.min_level,
                self@.max_level == old(self)@.max_level,
                self@.nursery == old(self)@.nursery,
                self.path_spec() == old(self).path_spec(),
                old(self)@.journal.is_prefix_of(self@.journal),
                commands@.len() == 0 ==> queue@.len() == 0 && self@ == old(self)@,
                leads_on(self@, queue@, old(self)@, commands@, done),
            decreases queue_weight(queue@, self@.max_level),
        {
            let ghost before = queue@;
            let ghost m = self@;
            let command = match queue.pop_front() {
                Some(command) => command,
                None => {
                    return Ok(());
                },
            };
            let answer = self.handle_command(command);
            let extra = match answer {
                Ok(extra) => extra,
                Err(e) => {
                    proof {
                        assert(handled(m, before[0]@, self@, answer));
                        assert(drains(m, before, self@, Err::<(), Error>(e), 1));
                    }
                    return Err(e);
                },
            };
            proof {
                assert(queue@ =~= before.skip(1));
                lemma_queue_weight_add(queue@, extra@, self@.max_level);
                let next = self@;
                let rest = before.skip(1) + extra@;
                assert forall|after: DbModel, r: Result<(), Error>, steps: nat| #[trigger]
                    drains(next, rest, after, r, steps) implies drains(
                    old(self)@,
                    commands@,
                    after,
                    r,
                    steps + done + 1,
                ) by {
                    assert(handled(m, before[0]@, next, answer));
                    assert(drains(m, before, after, r, steps + 1));
                }
                done = done + 1;
            }
            Self::enqueue(&mut queue, extra);
        }
        proof {
            assert(drains(self@, queue@, self@, Ok::<(), Error>(()), 0));
        }
        Ok(())
    }

    /// Hands `command` to the level that it is for and returns the
    /// commands that the level answers with. A merge beyond the highest
    /// level is dropped.
    fn handle_command(&mut self, command: Command) -> (r: Result<Vec<Command>, Error>)
        requires
            old(self).wf(),
        ensures
            final(self).wf(),
            final(self)@.min_level == old(self)@.min_level,
            final(self)@.max_level == old(self)@.max_level,
            final(self)@.nursery == old(self)@.nursery,
            final(self).path_spec() == old(self).path_spec(),
            old(self)@.journal.is_prefix_of(final(self)@.journal),
            r matches Ok(commands) ==> queue_weight(commands@, old(self)@.max_level)
                < command_weight(command@, old(self)@.max_level),
            handled(old(self)@, command@, final(self)@, r),
    {
        let step_size: usize = level_size(self.min_level) / 2;
        let min_level = self.min_level;
        let max_level = self.max_level;
        let target: u32 = match &command {
            Command::PromoteFile { target_level, .. } => *target_level,
            Command::Merge { target_level, .. } => *target_level,
        };
        if target > max_level {
            match command {
                Command::Merge { .. } => {
                    return Ok(Vec::new());
                },
                _ => {
                    return Err(Error::InvalidLevel(target));
                },
            }
        }
        if target < min_level {
            return Err(Error::InvalidLevel(target));
        }
        let index: usize = (target - min_level) as usize;
        let ghost before = self.levels@;
        let ghost ops = self.journal.deep_view();
        let mut level = self.levels.remove(index);
        proof {
            assert(level == before[index as int]);
            assert(level.wf());
        }
        let ghost m = level@;
        let r = match command {
            Command::PromoteFile { path, data, .. } => level.promote_file(
                path,
                data,
                &mut self.journal,
            ),
            Command::Merge { steps, .. } => {
                let r = level.merge(steps, step_size, min_level, max_level, &mut self.journal);
                proof {
                    lemma_merged_commands(
                        m,
                        steps,
                        step_size,
                        min_level,
                        max_level,
                        level@,
                        r,
                        ops,
                        self.journal.deep_view(),
                    );
                    lemma_merged_journal(
                        m,
                        steps,
                        step_size,
                        min_level,
                        max_level,
                        level@,
                        r,
                        ops,
                        self.journal.deep_view(),
                    );
                    if r is Ok {
                        lemma_weight_of_merge(r->Ok_0@, target, max_level);
                    }
                }
                r
            },
        };
        proof {
            assert(level@.level == m.level);
        }
        self.levels.insert(index, level);
        proof {
            assert(self.levels@.len() == before.len());
            assert forall|i: int| 0 <= i < self.levels@.len() implies (
            #[trigger] self.levels@[i]).wf() && self.levels@[i]@.level == self.min_level + i by {
                if i != index {
                    assert(self.levels@[i] == before[i]);
                }
            }
            if r is Ok && command@ is PromoteFile {
                assert(r->Ok_0@.len() == 0);
            }
        }
        r
    }
}

/// The entries that the files of one level hold: those of `A`, of `B` and
/// of `C`.
pub struct Held {
    pub a: Seq<EntryModel>,
    pub b: Seq<EntryModel>,
    pub c: Seq<EntryModel>,
}

/// Whether the files of each level hold the entries that `held` gives for
/// it.
pub open spec fn levels_hold(levels: Seq<LevelModel>, held: Seq<Held>) -> bool {
    &&& held.len() == levels.len()
    &&& forall|i: int|
        0 <= i < levels.len() ==> slot_holds((#[trigger] levels[i]).a, held[i].a) && slot_holds(
            levels[i].b,
            held[i].b,
        ) && slot_holds(levels[i].c, held[i].c)
}

/// The newest entry under `key` in the levels: that of the lowest level
/// that holds the key, from its newest file that holds it.
pub open spec fn newest_held(held: Seq<Held>, key: Seq<u8>) -> Option<EntryModel>
    decreases held.len(),
{
    if held.len() == 0 {
        None
    } else {
        match newest_first(held[0].a, held[0].b, held[0].c, key) {
            Some(e) => Some(e),
            None => newest_held(held.skip(1), key),
        }
    }
}

/// The value that the newest entry under a key stands for: none where
/// there is no entry or the entry is a tombstone.
pub open spec fn value_in(entry: Option<EntryModel>) -> Option<Seq<u8>> {
    match entry {
        Some(EntryModel::KeyVal { value, .. }) => Some(value),
        _ => None,
    }
}

/// What the entries of a tree file hold are leaf entries.
proof fn lemma_held_leaf(file: Seq<u8>, entries: Seq<EntryModel>, key: Seq<u8>)
    requires
        holds_entries(file, entries),
    ensures
        find(entries, key) matches Some(e) ==> !e.is_pos_len(),
{
    if find(entries, key) is Some {
        lemma_find_some(entries, key);
        let root_pos = crate::tree::trailer_at(file)->Ok_0.1;
        let h = header_at(file, root_pos as int)->Ok_0;
        let root = entries_at(file, root_pos as int, h)->Ok_0;
        lemma_walk_leaves(file, root, h.level);
    }
}

/// The levels give back the newest entry under a key. Where the files of
/// the levels hold the entries that `held` gives, a lookup that comes to
/// the levels finds the value of the newest entry under the key, and
/// nothing where that entry is a tombstone or there is none.
pub proof fn lemma_levels_get(levels: Seq<LevelModel>, held: Seq<Held>, key: Seq<u8>)
    requires
        levels_hold(levels, held),
    ensures
        levels_get(levels, key) == Ok::<Option<Seq<u8>>, Error>(
            value_in(newest_held(held, key)),
        ),
    decreases levels.len(),
{
    if levels.len() > 0 {
        let m = levels[0];
        let h = held[0];
        lemma_level_gets(m, h.a, h.b, h.c, key);
        if m.a is Some {
            lemma_held_leaf(m.a->Some_0.file, h.a, key);
        }
        if m.b is Some {
            lemma_held_leaf(m.b->Some_0.file, h.b, key);
        }
        if m.c is Some {
            lemma_held_leaf(m.c->Some_0.file, h.c, key);
        }
        assert forall|i: int| 0 <= i < levels.skip(1).len() implies slot_holds(
            (#[trigger] levels.skip(1)[i]).a,
            held.skip(1)[i].a,
        ) && slot_holds(levels.skip(1)[i].b, held.skip(1)[i].b) && slot_holds(
            levels.skip(1)[i].c,
            held.skip(1)[i].c,
        ) by {
            assert(levels.skip(1)[i] == levels[i + 1]);
            assert(held.skip(1)[i] == held[i + 1]);
        }
        lemma_levels_get(levels.skip(1), held.skip(1), key);
    }
}

/// A database gives back the newest write under a key. Where the files of
/// its levels hold the entries that `held` gives, a lookup finds what the
/// nursery holds under the key, and where the nursery holds nothing the
/// value of the newest entry in the levels; a tombstone stands for nothing.
pub proof fn lemma_db_gets(m: DbModel, held: Seq<Held>, key: Seq<u8>)
    requires
        levels_hold(m.levels, held),
        crate::tree::all_leaves(m.nursery.data),
    ensures
        m.get(key) == Ok::<Option<Seq<u8>>, Error>(
            value_in(
                match find(m.nursery.data, key) {
                    Some(e) => Some(e),
                    None => newest_held(held, key),
                },
            ),
        ),
{
    lemma_levels_get(m.levels, held, key);
    if find(m.nursery.data, key) is Some {
        lemma_find_some(m.nursery.data, key);
    }
}

/// Levels whose files hold nothing hold nothing under any key.
proof fn lemma_nothing_held(held: Seq<Held>, key: Seq<u8>)
    requires
        forall|i: int|
            0 <= i < held.len() ==> (#[trigger] held[i]).a.len() == 0 && held[i].b.len() == 0
                && held[i].c.len() == 0,
    ensures
        newest_held(held, key) is None,
    decreases held.len(),
{
    if held.len() > 0 {
        assert forall|i: int| 0 <= i < held.skip(1).len() implies (#[trigger] held.skip(1)[i]).a.len()
            == 0 && held.skip(1)[i].b.len() == 0 && held.skip(1)[i].c.len() == 0 by {
            assert(held.skip(1)[i] == held[i + 1]);
        }
        lemma_nothing_held(held.skip(1), key);
    }
}

/// What was logged is found when the directory is opened again. Where a
/// database was opened on a directory that holds a log and no file of a
/// level, and the entries that the log leaves behind fit one block, a lookup
/// finds under each key the value that was logged last, and nothing where
/// that was a tombstone or the log has no entry with the key.
pub proof fn lemma_recovered_found(
    start: DbModel,
    command: Command,
    log: Seq<u8>,
    given: Seq<LevelFiles>,
    min_level: u32,
    max_level: u32,
    compression: Compression,
    after: DbModel,
    key: Seq<u8>,
)
    requires
        recovers(start, Some(command), log, given, min_level, compression, after),
        opened(after, min_level, max_level, compression),
        forall|i: int|
            (#[trigger] files_of(given, i)).a is None && files_of(given, i).b is None && files_of(
                given,
                i,
            ).c is None,
        crate::nursery::replayed(crate::block::entries_of(log), Seq::empty()) matches Ok(data)
            && crate::writer::encoded_total(data) < crate::writer::BLOCK_SIZE && (data.len() > 0
            ==> (EntryModel::PosLen { blockpos: 0, blocklen: 0, key: data[0].key() }).encoded_len()
            < crate::writer::BLOCK_SIZE),
    ensures
        after.get(key) == Ok::<Option<Seq<u8>>, Error>(
            value_in(crate::nursery::last_with_key(crate::block::entries_of(log), key)),
        ),
{
    let none = Seq::<EntryModel>::empty();
    let entries = crate::block::entries_of(log);
    let data = crate::nursery::replayed(entries, none)->Ok_0;
    crate::nursery::lemma_replayed_shape(entries, none, data);
    crate::nursery::lemma_replay_last_wins(entries, none, data, key);
    assert(find(none, key) is None);
    assert(data.len() > 0);
    let file = command@->data;
    crate::writer::lemma_small_closes_whole(data, compression);
    assert(holds_entries(file, data));
    let queue = seq![command];
    let steps = choose|steps: nat| drains(start, queue, after, Ok::<(), Error>(()), steps);
    assert(drains(start, queue, after, Ok::<(), Error>(()), steps));
    let (next, answer) = choose|next: DbModel, answer: Result<Vec<Command>, Error>| #[trigger]
        handled(start, queue[0]@, next, answer) && match answer {
            Err(e) => after == next && Ok::<(), Error>(()) == Err::<(), Error>(e),
            Ok(more) => drains(
                next,
                queue.skip(1) + more@,
                after,
                Ok::<(), Error>(()),
                (steps - 1) as nat,
            ),
        };
    assert(answer is Ok);
    let more = answer->Ok_0;
    assert(start.levels.len() > 0) by {
        assert(after.levels.len() == max_level - min_level + 1);
    }
    let first = start.levels[0];
    assert(level_opened(first, files_of(given, 0), compression));
    assert(first.free_slot() == Some(crate::files::Prefix::A));
    assert(more@.len() == 0);
    assert(queue.skip(1) + more@ =~= Seq::<Command>::empty());
    assert(after == next);
    let t = choose|t: crate::tree::TreeModel| #[trigger]
        crate::tree::opens_as(file, t) && after.levels[0] == first.with_slot(
            crate::files::Prefix::A,
            t,
        );
    let held = Seq::new(
        after.levels.len(),
        |i: int|
            Held {
                a: if i == 0 {
                    data
                } else {
                    none
                },
                b: none,
                c: none,
            },
    );
    assert forall|i: int| 0 <= i < after.levels.len() implies slot_holds(
        (#[trigger] after.levels[i]).a,
        held[i].a,
    ) && slot_holds(after.levels[i].b, held[i].b) && slot_holds(after.levels[i].c, held[i].c) by {
        assert(level_opened(start.levels[i], files_of(given, i), compression));
        if i > 0 {
            assert(after.levels[i] == start.levels[i]);
        }
    }
    lemma_db_gets(after, held, key);
    assert forall|i: int| 0 <= i < held.skip(1).len() implies (#[trigger] held.skip(1)[i]).a.len()
        == 0 && held.skip(1)[i].b.len() == 0 && held.skip(1)[i].c.len() == 0 by {
        assert(held.skip(1)[i] == held[i + 1]);
    }
    lemma_nothing_held(held.skip(1), key);
}

/// The files that a directory holds for the level at the place `at`: none
/// where the directory gives no files for it.
pub open spec fn files_of(given: Seq<LevelFiles>, at: int) -> LevelFiles {
    if 0 <= at < given.len() {
        given[at]
    } else {
        LevelFiles { a: None, b: None, c: None }
    }
}

/// The files of a directory from the place `at` on.
pub open spec fn rest_of(given: Seq<LevelFiles>, at: int) -> Seq<LevelFiles> {
    if 0 <= at <= given.len() {
        given.skip(at)
    } else {
        Seq::empty()
    }
}

/// Whether `m` is a level as it is when it was opened on `files`: each
/// file is open in its role, and the merge of `A` and `B` has started where
/// both are there.
pub open spec fn level_opened(m: LevelModel, files: LevelFiles, compression: Compression)
    -> bool {
    &&& m.compression == compression
    &&& crate::level::slot_opened(files.a, m.a)
    &&& crate::level::slot_opened(files.b, m.b)
    &&& crate::level::slot_opened(files.c, m.c)
    &&& crate::level::merge_started(m)
}

/// Whether each of `levels` is as it is when it was opened on the files
/// that the directory holds for it.
pub open spec fn levels_opened(
    levels: Seq<LevelModel>,
    given: Seq<LevelFiles>,
    compression: Compression,
) -> bool {
    forall|i: int|
        0 <= i < levels.len() ==> level_opened(#[trigger] levels[i], files_of(given, i), compression)
}

/// Whether the level at the place `at` fails to open on its files with
/// `e`.
pub open spec fn fails_at(given: Seq<LevelFiles>, at: int, e: Error) -> bool {
    crate::level::level_fails(files_of(given, at).a, files_of(given, at).b, files_of(given, at).c, e)
}

/// Whether working through the command that recovery gave stopped with
/// `e`, the database having come from `start` to `after`.
pub open spec fn recovery_stops(
    start: DbModel,
    command: Command,
    after: DbModel,
    log: Seq<u8>,
    given: Seq<LevelFiles>,
    min_level: u32,
    compression: Compression,
    e: Error,
) -> bool {
    &&& levels_opened(start.levels, given, compression)
    &&& crate::nursery::recovered(
        log,
        min_level,
        compression,
        Some(command),
        Seq::empty(),
        start.journal.drop_last(),
    )
    &&& drained(start, seq![command], after, Err(e))
}

/// Whether `e` is why no database opens on what the directory holds: the
/// log cannot be recovered from, or a level does not open on its files, or
/// the command that recovery gave cannot be worked through.
pub open spec fn opening_fails(files: Snapshot, min_level: u32, compression: Compression, e: Error)
    -> bool {
    ||| files.log is Some && crate::nursery::recovery_fails(files.log->Some_0@, compression, e)
    ||| exists|at: int| 0 <= at && #[trigger] fails_at(files.levels@, at, e)
    ||| files.log is Some && exists|start: DbModel, command: Command, after: DbModel|
        #[trigger] recovery_stops(
            start,
            command,
            after,
            files.log->Some_0@,
            files.levels@,
            min_level,
            compression,
            e,
        )
}

/// Whether opening a database on a directory with the log `log` came by
/// way of the state `start` and the command `command` to `after`: the
/// levels were opened on their files, recovery from the log gave the
/// command, and the command was worked through from there.
pub open spec fn recovers(
    start: DbModel,
    command: Option<Command>,
    log: Seq<u8>,
    given: Seq<LevelFiles>,
    min_level: u32,
    compression: Compression,
    after: DbModel,
) -> bool {
    &&& levels_opened(start.levels, given, compression)
    &&& start.journal.len() > 0
    &&& start.journal.last() == (FileOpModel::Write {
        path: FileName::NurseryLog,
        data: Seq::empty(),
    })
    &&& crate::nursery::recovered(
        log,
        min_level,
        compression,
        command,
        Seq::empty(),
        start.journal.drop_last(),
    )
    &&& drained(
        start,
        match command {
            Some(c) => seq![c],
            None => Seq::empty(),
        },
        after,
        Ok(()),
    )
}

/// Whether `m` is a database as it is when it was just opened: it has these
/// levels, and its nursery holds nothing.
pub open spec fn opened(m: DbModel, min_level: u32, max_level: u32, compression: Compression)
    -> bool {
    &&& m.min_level == min_level
    &&& m.max_level == max_level
    &&& m.levels.len() == max_level - min_level + 1
    &&& m.nursery == (NurseryModel {
        data: Seq::empty(),
        min_level,
        step: 0,
        total_size: 0,
        compression,
    })
}

/// Whether `command` took the database from `m` to `after` with this
/// answer. A command goes to the level that it is for, which takes the file
/// or merges, and nothing else changes. A merge beyond the highest level is
/// dropped; any other command for a level that the database does not have
/// is refused.
pub open spec fn handled(
    m: DbModel,
    command: CommandModel,
    after: DbModel,
    r: Result<Vec<Command>, Error>,
) -> bool {
    let target = command_level(command);
    if target > m.max_level && command is Merge {
        r matches Ok(commands) && commands@.len() == 0 && after == m
    } else if target > m.max_level || target < m.min_level {
        r == Err::<Vec<Command>, Error>(Error::InvalidLevel(target)) && after == m
    } else {
        let at = target - m.min_level;
        &&& after.nursery == m.nursery
        &&& after.min_level == m.min_level
        &&& after.max_level == m.max_level
        &&& after.levels.len() == m.levels.len()
        &&& forall|j: int|
            0 <= j < m.levels.len() && j != at ==> #[trigger] after.levels[j] == m.levels[j]
        &&& match command {
            CommandModel::PromoteFile { path, data, .. } => promoted(
                m.levels[at],
                path,
                data,
                after.levels[at],
                r,
                m.journal,
                after.journal,
            ),
            CommandModel::Merge { steps, .. } => merged(
                m.levels[at],
                steps,
                work_unit(m.min_level) as usize,
                m.min_level,
                m.max_level,
                after.levels[at],
                r,
                m.journal,
                after.journal,
            ),
        }
    }
}

/// Whether working through `queue` in at most `steps` steps took the
/// database from `m` to `after` with this result. The first command of the
/// queue is handled, the commands that it leads to go to the end of the
/// queue, and so on until the queue is empty or a command fails.
pub open spec fn drains(
    m: DbModel,
    queue: Seq<Command>,
    after: DbModel,
    r: Result<(), Error>,
    steps: nat,
) -> bool
    decreases steps,
{
    if queue.len() == 0 {
        after == m && r is Ok
    } else if steps == 0 {
        false
    } else {
        exists|next: DbModel, answer: Result<Vec<Command>, Error>| #[trigger]
            handled(m, queue[0]@, next, answer) && match answer {
                Err(e) => after == next && r == Err::<(), Error>(e),
                Ok(more) => drains(next, queue.skip(1) + more@, after, r, (steps - 1) as nat),
            }
    }
}

/// Whether working through `queue` took the database from `m` to `after`
/// with this result.
pub open spec fn drained(m: DbModel, queue: Seq<Command>, after: DbModel, r: Result<(), Error>)
    -> bool {
    exists|steps: nat| drains(m, queue, after, r, steps)
}

/// Whatever follows from the rest of the work follows from all of it.
pub open spec fn leads_on(
    m: DbModel,
    queue: Seq<Command>,
    start: DbModel,
    commands: Seq<Command>,
    done: nat,
) -> bool {
    forall|after: DbModel, r: Result<(), Error>, steps: nat| #[trigger]
        drains(m, queue, after, r, steps) ==> drains(start, commands, after, r, steps + done)
}

/// Whether a write of `entry` took the database from `m` to `after` with
/// this result. `logged` says whether the record of the entry reached the
/// log: where it did not, the write fails and the database is as it was.
/// Where it did, the nursery takes the entry; then the commands that the
/// nursery answers with are worked through. Where the nursery fails,
/// nothing else is done.
pub open spec fn wrote(
    m: DbModel,
    entry: EntryModel,
    logged: bool,
    after: DbModel,
    r: Result<(), Error>,
) -> bool {
    &&& after.min_level == m.min_level
    &&& after.max_level == m.max_level
    &&& m.journal.is_prefix_of(after.journal)
    &&& !logged ==> r == Err::<(), Error>(Error::LogNotWritten) && after == m
    &&& r is Ok ==> logged && after.nursery == after_write(
        m.nursery,
        entry,
        entry.encoded().len(),
    )
    &&& logged && !flushes(m.nursery, entry) && !merges(m.nursery) ==> r is Ok && after.levels
        == m.levels && after.journal == m.journal
    &&& exists|nursery: NurseryModel, answer: Result<Vec<Command>, Error>, journal: Seq<FileOpModel>|
        #[trigger] worked(m, entry, logged, after, r, nursery, answer, journal)
}

/// Whether a write of `entry` went by way of this state of the nursery,
/// this answer of the nursery and this journal: the nursery took the entry
/// so, and the commands of its answer were worked through from there.
pub open spec fn worked(
    m: DbModel,
    entry: EntryModel,
    logged: bool,
    after: DbModel,
    r: Result<(), Error>,
    nursery: NurseryModel,
    answer: Result<Vec<Command>, Error>,
    journal: Seq<FileOpModel>,
) -> bool {
    &&& crate::nursery::written(m.nursery, entry, logged, nursery, answer, m.journal, journal)
    &&& match answer {
        Err(e) => r == Err::<(), Error>(e) && after == (DbModel { nursery, journal, ..m }),
        Ok(commands) => drained(DbModel { nursery, journal, ..m }, commands@, after, r),
    }
}

/// The journal of a merge only grows.
proof fn lemma_merged_journal(
    m: LevelModel,
    work_completed: usize,
    work_unit: usize,
    min_level: u32,
    max_level: u32,
    after: LevelModel,
    r: Result<Vec<Command>, Error>,
    ops: Seq<FileOpModel>,
    journal: Seq<FileOpModel>,
)
    requires
        merged(m, work_completed, work_unit, min_level, max_level, after, r, ops, journal),
    ensures
        ops.is_prefix_of(journal),
{
}

/// The commands that a merge hands on weigh less than the merge.
proof fn lemma_weight_of_merge(commands: Seq<Command>, target: u32, max_level: u32)
    requires
        target <= max_level,
        commands.len() <= 2,
        forall|i: int| 0 <= i < commands.len() ==> command_level((#[trigger] commands[i])@) == target + 1,
        commands.len() > 0 ==> commands.last()@ is Merge,
        commands.len() == 2 ==> commands[0]@ is PromoteFile,
    ensures
        queue_weight(commands, max_level) < (2 * (max_level - target) + 4) as nat,
{
    if commands.len() == 1 {
        assert(commands.skip(1) =~= Seq::<Command>::empty());
        assert(commands.last() == commands[0]);
        assert(queue_weight(commands.skip(1), max_level) == 0);
        assert(queue_weight(commands, max_level) == command_weight(commands[0]@, max_level));
    } else if commands.len() == 2 {
        let rest = commands.skip(1);
        assert(rest.skip(1) =~= Seq::<Command>::empty());
        assert(rest[0] == commands[1]);
        assert(commands.last() == commands[1]);
        assert(queue_weight(rest.skip(1), max_level) == 0);
        assert(queue_weight(rest, max_level) == command_weight(commands[1]@, max_level));
        assert(queue_weight(commands, max_level) == command_weight(commands[0]@, max_level)
            + command_weight(commands[1]@, max_level));
    }
}

} // verus!
