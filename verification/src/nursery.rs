//! The nursery: what was written last, kept in memory in key order and
//! backed by a write-ahead log, until it is full and becomes a file of the
//! first level.
use vstd::prelude::*;
use crate::bytes::copy_range;
use vstd::arithmetic::power2::pow2;
use crate::block::{entries_of, lemma_entries_of_step, lemma_entries_of_stop};
use crate::compression::Compression;
use crate::db::{Command, CommandModel};
use crate::entry::{tail, Entry, EntryModel};
use crate::error::Error;
use crate::files::{FileName, FileOp, FileOpModel};
use crate::level::level_size;
use crate::memtable::{ascending, lookup, upsert, upserted, lemma_upserted};
use crate::tree::{all_leaves, find};
use crate::writer::{all_storable, append_all, closes_whole, holds_entries, is_file_error, is_file_of, write_file, Writer};

verus! {

/// What the nursery holds under a key.
#[derive(Debug, PartialEq, Eq)]
pub enum Value {
    Plain(Vec<u8>),
    Deleted,
}

/// What the nursery holds under a key, as mathematical values.
pub enum ValueModel {
    Plain(Seq<u8>),
    Deleted,
}

impl View for Value {
    type V = ValueModel;

    open spec fn view(&self) -> ValueModel {
        match *self {
            Value::Plain(v) => ValueModel::Plain(v@),
            Value::Deleted => ValueModel::Deleted,
        }
    }
}

/// The nursery of a database.
#[derive(Debug)]
pub struct Nursery {
    data: Vec<Entry>,
    min_level: u32,
    total_size: usize,
    step: usize,
    compression: Compression,
}

/// The state of a nursery, as mathematical values.
pub struct NurseryModel {
    /// The entries held, in key order, one for each key.
    pub data: Seq<EntryModel>,
    /// The level that a full nursery goes to.
    pub min_level: u32,
    /// The writes since the last merge was asked for.
    pub step: usize,
    /// The bytes logged so far; the largest `usize` where there are more.
    pub total_size: usize,
    /// The codec of the files that the nursery writes.
    pub compression: Compression,
}

/// What a leaf entry holds under its key.
pub open spec fn value_of(entry: Option<EntryModel>) -> Option<ValueModel> {
    match entry {
        Some(EntryModel::KeyVal { value, .. }) => Some(ValueModel::Plain(value)),
        Some(EntryModel::Deleted { .. }) => Some(ValueModel::Deleted),
        _ => None,
    }
}

/// Whether the nursery is full once it holds `entry`.
pub open spec fn flushes(m: NurseryModel, entry: EntryModel) -> bool {
    upserted(m.data, entry).len() >= pow2(m.min_level as nat)
}

/// Whether the write that follows `m` asks for a merge: one is asked for
/// every half level of writes.
pub open spec fn merges(m: NurseryModel) -> bool {
    m.step + 1 >= pow2(m.min_level as nat) / 2
}

/// The nursery after it took `entry`, whose record in the log has
/// `record` bytes.
pub open spec fn after_write(m: NurseryModel, entry: EntryModel, record: nat) -> NurseryModel {
    NurseryModel {
        data: if flushes(m, entry) {
            Seq::empty()
        } else {
            upserted(m.data, entry)
        },
        step: if merges(m) {
            0
        } else {
            (m.step + 1) as usize
        },
        total_size: if m.total_size + record > usize::MAX {
            usize::MAX
        } else {
            (m.total_size + record) as usize
        },
        ..m
    }
}

/// The entries that a log leaves behind, `data` having been there before:
/// each entry of the log takes the place of the entry with its key. A
/// pointer to a block or an entry too large for a block shows that the log
/// is corrupt.
pub open spec fn replayed(log: Seq<EntryModel>, data: Seq<EntryModel>) -> Result<
    Seq<EntryModel>,
    Error,
>
    decreases log.len(),
{
    if log.len() == 0 {
        Ok(data)
    } else if log[0].is_pos_len() {
        Err(Error::CorruptedFile("nursery log contained b-tree internal entries"))
    } else if !log[0].storable() {
        Err(Error::CorruptedFile("entry too large for a block"))
    } else {
        replayed(log.skip(1), upserted(data, log[0]))
    }
}

/// The last entry of `log` with `key`.
pub open spec fn last_with_key(log: Seq<EntryModel>, key: Seq<u8>) -> Option<EntryModel>
    decreases log.len(),
{
    if log.len() == 0 {
        None
    } else {
        match last_with_key(log.skip(1), key) {
            Some(e) => Some(e),
            None => if log[0].key() == key {
                Some(log[0])
            } else {
                None
            },
        }
    }
}

/// Replaying a log keeps, for each key, the entry written last: what is
/// found under a key afterwards is the last entry of the log with that key,
/// or what was there before where the log has none. The keys stay rising,
/// so that no key is held twice.
pub proof fn lemma_replay_last_wins(
    log: Seq<EntryModel>,
    before: Seq<EntryModel>,
    after: Seq<EntryModel>,
    key: Seq<u8>,
)
    requires
        ascending(before),
        replayed(log, before) == Ok::<Seq<EntryModel>, Error>(after),
    ensures
        ascending(after),
        find(after, key) == match last_with_key(log, key) {
            Some(e) => Some(e),
            None => find(before, key),
        },
    decreases log.len(),
{
    if log.len() > 0 {
        lemma_upserted(before, log[0]);
        lemma_replay_last_wins(log.skip(1), upserted(before, log[0]), after, key);
    }
}

/// What a log leaves behind are leaf entries that fit a block, with rising
/// keys, where what was there before was so.
pub proof fn lemma_replayed_shape(
    log: Seq<EntryModel>,
    before: Seq<EntryModel>,
    after: Seq<EntryModel>,
)
    requires
        ascending(before),
        all_storable(before),
        all_leaves(before),
        replayed(log, before) == Ok::<Seq<EntryModel>, Error>(after),
    ensures
        ascending(after),
        all_storable(after),
        all_leaves(after),
    decreases log.len(),
{
    if log.len() > 0 {
        lemma_upserted_shape(before, log[0]);
        lemma_replayed_shape(log.skip(1), upserted(before, log[0]), after);
    }
}

/// The file that recovery writes is made of what the log leaves behind:
/// under each key the entry of the log that was written last, the keys
/// rising. The file holds these entries, bloom filter and all, wherever
/// closing the writer that took them leaves no block beneath the root, and
/// only there.
pub proof fn lemma_recovered_file(
    log: Seq<u8>,
    target_level: u32,
    compression: Compression,
    command: Command,
    ops: Seq<FileOpModel>,
    journal: Seq<FileOpModel>,
    key: Seq<u8>,
)
    requires
        recovered(log, target_level, compression, Some(command), ops, journal),
    ensures
        replayed(entries_of(log), Seq::empty()) matches Ok(data) && ascending(data) && find(
            data,
            key,
        ) == last_with_key(entries_of(log), key) && (command@ matches CommandModel::PromoteFile {
            data: file,
            ..
        } && (closes_whole(append_all(Writer::fresh(compression), data).0) <==> holds_entries(
            file,
            data,
        ))),
{
    let none = Seq::<EntryModel>::empty();
    let data = replayed(entries_of(log), none)->Ok_0;
    lemma_replayed_shape(entries_of(log), none, data);
    lemma_replay_last_wins(entries_of(log), none, data, key);
    assert(find(none, key) is None);
}

/// Putting a leaf entry that fits a block among such entries leaves such
/// entries.
pub proof fn lemma_upserted_shape(entries: Seq<EntryModel>, entry: EntryModel)
    requires
        ascending(entries),
        all_storable(entries),
        all_leaves(entries),
        entry.storable(),
        !entry.is_pos_len(),
    ensures
        ascending(upserted(entries, entry)),
        all_storable(upserted(entries, entry)),
        all_leaves(upserted(entries, entry)),
{
    lemma_upserted(entries, entry);
    let after = upserted(entries, entry);
    assert forall|i: int| 0 <= i < after.len() implies (#[trigger] after[i]).storable() && !after[i].is_pos_len() by {
        if after[i] != entry {
            let j = choose|j: int| 0 <= j < entries.len() && #[trigger] entries[j] == after[i];
            assert(entries[j].storable());
        }
    }
}

impl View for Nursery {
    type V = NurseryModel;

    closed spec fn view(&self) -> NurseryModel {
        NurseryModel {
            data: self.data.deep_view(),
            min_level: self.min_level,
            step: self.step,
            total_size: self.total_size,
            compression: self.compression,
        }
    }
}

impl Nursery {
    /// The nursery holds together: its entries are leaf entries in rising
    /// key order that fit a block, and its level is one that has a size.
    pub closed spec fn wf(&self) -> bool {
        &&& ascending(self.data.deep_view())
        &&& all_storable(self.data.deep_view())
        &&& all_leaves(self.data.deep_view())
        &&& self.min_level < usize::BITS
        &&& self.step < usize::MAX
    }

    /// The entries of a nursery that holds together are leaf entries whose
    /// keys rise strictly and that fit a block.
    pub proof fn lemma_data_in_order(&self)
        requires
            self.wf(),
        ensures
            ascending(self@.data),
            all_storable(self@.data),
            all_leaves(self@.data),
            self@.min_level < usize::BITS,
    {
    }

    /// An empty nursery that goes to `min_level` when it is full.
    pub fn empty(min_level: u32, compression: Compression) -> (r: Self)
        requires
            min_level < usize::BITS,
        ensures
            r.wf(),
            r@ == (NurseryModel {
                data: Seq::empty(),
                min_level,
                step: 0,
                total_size: 0,
                compression,
            }),
    {
        let r = Nursery { data: Vec::new(), min_level, total_size: 0, step: 0, compression };
        proof {
            assert(r.data.deep_view() =~= Seq::<EntryModel>::empty());
        }
        r
    }

    /// Opens the nursery of a directory. Where the directory holds a log,
    /// `log` is its bytes: what it leaves behind becomes a file for
    /// `min_level`, the log is removed, and the command to take the file in
    /// is returned. A fresh log is started.
    pub fn new(
        log: Option<Vec<u8>>,
        min_level: u32,
        compression: Compression,
        journal: &mut Vec<FileOp>,
    ) -> (r: Result<(Nursery, Option<Command>), Error>)
        requires
            min_level < usize::BITS,
        ensures
            match r {
                Ok((nursery, command)) => {
                    &&& nursery.wf()
                    &&& nursery@ == (NurseryModel {
                        data: Seq::empty(),
                        min_level,
                        step: 0,
                        total_size: 0,
                        compression,
                    })
                    &&& match log {
                        None => command is None && final(journal).deep_view() == old(journal).deep_view().push(
                            FileOpModel::Write { path: FileName::NurseryLog, data: Seq::empty() },
                        ),
                        Some(bytes) => recovered(
                            bytes@,
                            min_level,
                            compression,
                            command,
                            old(journal).deep_view(),
                            final(journal).deep_view().drop_last(),
                        ) && final(journal).deep_view().len() > 0 && final(journal).deep_view().last() == (FileOpModel::Write {
                            path: FileName::NurseryLog,
                            data: Seq::empty(),
                        }),
                    }
                },
                Err(e) => log matches Some(bytes) && recovery_fails(
                    bytes@,
                    compression,
                    e,
                ) && final(journal).deep_view() == old(journal).deep_view(),
            },
    {
        let command = match log {
            None => None,
            Some(bytes) => Self::recover(bytes.as_slice(), min_level, compression, journal)?,
        };
        let ghost before = journal.deep_view();
        journal.push(FileOp::Write { path: FileName::NurseryLog, data: Vec::new() });
        proof {
            assert(journal.deep_view() =~= before.push(
                FileOpModel::Write { path: FileName::NurseryLog, data: Seq::empty() },
            ));
            assert(journal.deep_view().drop_last() =~= before);
        }
        Ok((Self::empty(min_level, compression), command))
    }

    /// The number of keys that the nursery holds.
    pub fn len(&self) -> (r: usize)
        ensures
            r == self@.data.len(),
    {
        self.data.len()
    }

    /// Whether the nursery holds nothing.
    pub fn is_empty(&self) -> (r: bool)
        ensures
            r == (self@.data.len() == 0),
    {
        self.data.len() == 0
    }

    /// The bytes logged since the nursery was opened; the largest `usize`
    /// where there are more.
    pub fn total_size(&self) -> (r: usize)
        ensures
            r == self@.total_size,
    {
        self.total_size
    }

    /// What the nursery holds under `key`.
    pub fn get_value(&self, key: &[u8]) -> (r: Option<Value>)
        requires
            self.wf(),
        ensures
            match r {
                Some(v) => value_of(find(self@.data, key@)) == Some(v@),
                None => value_of(find(self@.data, key@)) is None,
            },
    {
        match lookup(&self.data, key) {
            Some(Entry::KeyVal { value, .. }) => Some(Value::Plain(value.clone())),
            Some(Entry::Deleted { .. }) => Some(Value::Deleted),
            _ => None,
        }
    }

    /// The operation that logs a write of `value` under `key`. It is to
    /// be carried out, and its outcome known, before `add` is called.
    pub fn log_add(key: &[u8], value: &[u8]) -> (r: FileOp)
        requires
            (EntryModel::KeyVal { key: key@, value: value@, timestamp: None }).storable(),
        ensures
            r@ == log_record(EntryModel::KeyVal { key: key@, value: value@, timestamp: None }),
    {
        let entry = Entry::KeyVal {
            key: copy_range(key, 0, key.len()),
            value: copy_range(value, 0, value.len()),
            timestamp: None,
        };
        proof {
            assert(key@.subrange(0, key@.len() as int) =~= key@);
            assert(value@.subrange(0, value@.len() as int) =~= value@);
        }
        FileOp::Append { path: FileName::NurseryLog, data: entry.encode() }
    }

    /// The operation that logs a tombstone under `key`. It is to be carried
    /// out, and its outcome known, before `delete` is called.
    pub fn log_delete(key: &[u8]) -> (r: FileOp)
        requires
            (EntryModel::Deleted { key: key@, timestamp: None }).storable(),
        ensures
            r@ == log_record(EntryModel::Deleted { key: key@, timestamp: None }),
    {
        let entry = Entry::Deleted { key: copy_range(key, 0, key.len()), timestamp: None };
        proof {
            assert(key@.subrange(0, key@.len() as int) =~= key@);
        }
        FileOp::Append { path: FileName::NurseryLog, data: entry.encode() }
    }

    /// Writes `value` under `key`. `logged` says whether the record of the
    /// write reached the log; where it did not, nothing is taken.
    pub fn add(
        &mut self,
        key: Vec<u8>,
        value: Vec<u8>,
        logged: bool,
        journal: &mut Vec<FileOp>,
    ) -> (r: Result<Vec<Command>, Error>)
        requires
            old(self).wf(),
            (EntryModel::KeyVal { key: key@, value: value@, timestamp: None }).storable(),
        ensures
            final(self).wf(),
            written(
                old(self)@,
                EntryModel::KeyVal { key: key@, value: value@, timestamp: None },
                logged,
                final(self)@,
                r,
                old(journal).deep_view(),
                final(journal).deep_view(),
            ),
    {
        let entry = Entry::KeyVal { key, value, timestamp: None };
        let record: usize = entry.encode().len();
        self.write_internal(entry, record, logged, journal)
    }

    /// Writes a tombstone under `key`. `logged` says whether the record of
    /// the write reached the log; where it did not, nothing is taken.
    pub fn delete(&mut self, key: Vec<u8>, logged: bool, journal: &mut Vec<FileOp>) -> (r: Result<
        Vec<Command>,
        Error,
    >)
        requires
            old(self).wf(),
            (EntryModel::Deleted { key: key@, timestamp: None }).storable(),
        ensures
            final(self).wf(),
            written(
                old(self)@,
                EntryModel::Deleted { key: key@, timestamp: None },
                logged,
                final(self)@,
                r,
                old(journal).deep_view(),
                final(journal).deep_view(),
            ),
    {
        let entry = Entry::Deleted { key, timestamp: None };
        let record: usize = entry.encode().len();
        self.write_internal(entry, record, logged, journal)
    }

    /// Takes `entry`, whose record for the log has `record` bytes, once the
    /// record is in the log: keeps it in memory, turns a full nursery into a
    /// file for the first level, and asks for a merge every half level of
    /// writes. Where the record did not reach the log, nothing is taken.
    fn write_internal(
        &mut self,
        entry: Entry,
        record: usize,
        logged: bool,
        journal: &mut Vec<FileOp>,
    ) -> (r: Result<Vec<Command>, Error>)
        requires
            old(self).wf(),
            entry@.storable(),
            !entry@.is_pos_len(),
            record == entry@.encoded().len(),
        ensures
            final(self).wf(),
            written(
                old(self)@,
                entry@,
                logged,
                final(self)@,
                r,
                old(journal).deep_view(),
                final(journal).deep_view(),
            ),
    {
        if !logged {
            return Err(Error::LogNotWritten);
        }
        let ghost m = self@;
        let ghost ops = journal.deep_view();
        let ghost data1 = upserted(m.data, entry@);
        proof {
            lemma_upserted_shape(m.data, entry@);
        }
        upsert(&mut self.data, entry);
        self.total_size = if record > usize::MAX - self.total_size {
            usize::MAX
        } else {
            self.total_size + record
        };
        let mut commands: Vec<Command> = Vec::new();
        let min_level_size: usize = level_size(self.min_level);
        if self.data.len() >= min_level_size {
            let file = write_file(&self.data, min_level_size, self.compression)?;
            let copy = file.clone();
            commands.push(
                Command::PromoteFile {
                    path: FileName::NurseryData,
                    data: file,
                    target_level: self.min_level,
                },
            );
            journal.push(FileOp::Write { path: FileName::NurseryData, data: copy });
            journal.push(FileOp::Truncate { path: FileName::NurseryLog });
            self.data = Vec::new();
            proof {
                assert(self.data.deep_view() =~= Seq::<EntryModel>::empty());
                assert(journal.deep_view() =~= ops.push(
                    FileOpModel::Write { path: FileName::NurseryData, data: file@ },
                ).push(FileOpModel::Truncate { path: FileName::NurseryLog }));
            }
        }
        let min_steps_to_merge: usize = min_level_size / 2;
        if self.step + 1 >= min_steps_to_merge {
            commands.push(Command::Merge { steps: self.step + 1, target_level: self.min_level });
            self.step = 0;
        } else {
            self.step = self.step + 1;
        }
        Ok(commands)
    }

    /// Reads a log to its end or to the first record that cannot be read,
    /// and returns what it leaves behind: for each key the entry written
    /// last, in key order.
    pub fn replay(log: &[u8]) -> (r: Result<Vec<Entry>, Error>)
        ensures
            match r {
                Ok(data) => replayed(entries_of(log@), Seq::empty()) == Ok::<
                    Seq<EntryModel>,
                    Error,
                >(data.deep_view()) && ascending(data.deep_view()) && all_storable(
                    data.deep_view(),
                ) && all_leaves(data.deep_view()),
                Err(e) => replayed(entries_of(log@), Seq::empty()) == Err::<
                    Seq<EntryModel>,
                    Error,
                >(e),
            },
    {
        let mut data: Vec<Entry> = Vec::new();
        let mut pos: usize = 0;
        let len: usize = log.len();
        proof {
            assert(data.deep_view() =~= Seq::<EntryModel>::empty());
            assert(tail(log@, 0) =~= log@);
        }
        loop
            invariant
                pos <= log@.len(),
                len == log@.len(),
                ascending(data.deep_view()),
                all_storable(data.deep_view()),
                all_leaves(data.deep_view()),
                replayed(entries_of(tail(log@, pos as int)), data.deep_view()) == replayed(
                    entries_of(log@),
                    Seq::empty(),
                ),
            decreases log@.len() - pos,
        {
            let ghost rest = tail(log@, pos as int);
            match Entry::read(log, pos) {
                Err(_) => {
                    proof {
                        lemma_entries_of_stop(rest);
                    }
                    return Ok(data);
                },
                Ok((entry, taken)) => {
                    proof {
                        lemma_entries_of_step(rest, entry@, taken as int);
                        assert(rest.skip(taken as int) =~= tail(log@, pos + taken));
                    }
                    if entry.is_pos_len() {
                        return Err(
                            Error::CorruptedFile("nursery log contained b-tree internal entries"),
                        );
                    }
                    if !entry.is_storable() {
                        return Err(Error::CorruptedFile("entry too large for a block"));
                    }
                    proof {
                        lemma_upserted_shape(data.deep_view(), entry@);
                    }
                    upsert(&mut data, entry);
                    pos = pos + taken;
                },
            }
        }
    }

    /// Turns what a log leaves behind into a file for `target_level` and
    /// removes the log. Returns the command to take the file in, or nothing
    /// where the log leaves nothing behind.
    pub fn recover(
        log: &[u8],
        target_level: u32,
        compression: Compression,
        journal: &mut Vec<FileOp>,
    ) -> (r: Result<Option<Command>, Error>)
        requires
            target_level < usize::BITS,
        ensures
            match r {
                Ok(command) => recovered(
                    log@,
                    target_level,
                    compression,
                    command,
                    old(journal).deep_view(),
                    final(journal).deep_view(),
                ),
                Err(e) => recovery_fails(log@, compression, e) && final(journal).deep_view()
                    == old(journal).deep_view(),
            },
    {
        let data = Self::replay(log)?;
        let ghost ops = journal.deep_view();
        if data.len() == 0 {
            journal.push(FileOp::Remove { path: FileName::NurseryLog });
            proof {
                assert(journal.deep_view() =~= ops.push(
                    FileOpModel::Remove { path: FileName::NurseryLog },
                ));
            }
            return Ok(None);
        }
        let file = write_file(&data, level_size(target_level), compression)?;
        let copy = file.clone();
        journal.push(FileOp::Write { path: FileName::NurseryData, data: copy });
        journal.push(FileOp::Remove { path: FileName::NurseryLog });
        proof {
            assert(journal.deep_view() =~= ops.push(
                FileOpModel::Write { path: FileName::NurseryData, data: file@ },
            ).push(FileOpModel::Remove { path: FileName::NurseryLog }));
        }
        Ok(Some(Command::PromoteFile { path: FileName::NurseryData, data: file, target_level }))
    }
}

/// Whether a write of `entry` took the nursery from `m` to `after` with
/// this result, and the journal from `ops` to `journal`.
///
/// `logged` says whether the record of the entry reached the log. Where it
/// did not, the write fails and nothing has changed. Where it did, the
/// nursery takes the entry. Where that fills the
/// nursery, its entries become a file, the file is written as
/// `nursery.data`, the log is cut down, and the first command is to take the
/// file into the first level; where no file can be written, the write fails
/// with the entries still held. Every half level of writes the last command
/// asks the first level to merge.
pub open spec fn written(
    m: NurseryModel,
    entry: EntryModel,
    logged: bool,
    after: NurseryModel,
    r: Result<Vec<Command>, Error>,
    ops: Seq<FileOpModel>,
    journal: Seq<FileOpModel>,
) -> bool {
    if logged {
        taken(m, entry, after, r, ops, journal)
    } else {
        r == Err::<Vec<Command>, Error>(Error::LogNotWritten) && after == m && journal == ops
    }
}

/// The operation that appends the record of `entry` to the log.
pub open spec fn log_record(entry: EntryModel) -> FileOpModel {
    FileOpModel::Append { path: FileName::NurseryLog, data: entry.encoded() }
}

/// Whether the nursery, with the record of `entry` in the log, took the
/// entry and came from `m` to `after` with this result, and the journal
/// from `ops` to `journal`.
pub open spec fn taken(
    m: NurseryModel,
    entry: EntryModel,
    after: NurseryModel,
    r: Result<Vec<Command>, Error>,
    ops: Seq<FileOpModel>,
    journal: Seq<FileOpModel>,
) -> bool {
    let data = upserted(m.data, entry);
    match r {
        Ok(commands) => {
            &&& after == after_write(m, entry, entry.encoded().len())
            &&& commands@.len() == if flushes(m, entry) {
                1int
            } else {
                0int
            } + if merges(m) {
                1int
            } else {
                0int
            }
            &&& merges(m) ==> commands@.last()@ == (CommandModel::Merge {
                steps: (m.step + 1) as usize,
                target_level: m.min_level,
            })
            &&& if flushes(m, entry) {
                &&& commands@[0]@ matches CommandModel::PromoteFile { path, data: file, target_level }
                &&& path == FileName::NurseryData
                &&& target_level == m.min_level
                &&& is_file_of(file, data, m.compression)
                &&& journal == ops.push(
                    FileOpModel::Write { path: FileName::NurseryData, data: file },
                ).push(FileOpModel::Truncate { path: FileName::NurseryLog })
            } else {
                journal == ops
            }
        },
        Err(e) => {
            &&& flushes(m, entry)
            &&& is_file_error(e, data, m.compression)
            &&& journal == ops
            &&& after == (NurseryModel {
                data,
                total_size: after_write(m, entry, entry.encoded().len()).total_size,
                ..m
            })
        },
    }
}

/// What is written is read back. After a write of `entry` that leaves the
/// entries in the nursery, `entry` is what the nursery holds under its key,
/// and what it holds under every other key is what it held.
pub proof fn lemma_written_is_held(m: NurseryModel, entry: EntryModel, key: Seq<u8>)
    requires
        ascending(m.data),
        !flushes(m, entry),
    ensures
        find(after_write(m, entry, entry.encoded().len()).data, key) == if key == entry.key() {
            Some(entry)
        } else {
            find(m.data, key)
        },
{
    lemma_upserted(m.data, entry);
}

/// Whether recovery from `log` gave `command` and took the journal from
/// `ops` to `journal`: where the log leaves entries behind, they become a
/// file that is written as `nursery.data`, and the command is to take it
/// into `target_level`; the log is removed either way.
pub open spec fn recovered(
    log: Seq<u8>,
    target_level: u32,
    compression: Compression,
    command: Option<Command>,
    ops: Seq<FileOpModel>,
    journal: Seq<FileOpModel>,
) -> bool {
    &&& replayed(entries_of(log), Seq::empty()) matches Ok(data)
    &&& if data.len() == 0 {
        command is None && journal == ops.push(FileOpModel::Remove { path: FileName::NurseryLog })
    } else {
        &&& command matches Some(c)
        &&& c@ matches CommandModel::PromoteFile { path, data: file, target_level: level }
        &&& path == FileName::NurseryData
        &&& level == target_level
        &&& is_file_of(file, data, compression)
        &&& journal == ops.push(
            FileOpModel::Write { path: FileName::NurseryData, data: file },
        ).push(FileOpModel::Remove { path: FileName::NurseryLog })
    }
}

/// Whether `e` is why recovery from `log` fails: the log is corrupt, or no
/// file can be written from what it leaves behind.
pub open spec fn recovery_fails(log: Seq<u8>, compression: Compression, e: Error) -> bool {
    match replayed(entries_of(log), Seq::empty()) {
        Err(r) => e == r,
        Ok(data) => data.len() > 0 && is_file_error(e, data, compression),
    }
}

} // verus!
