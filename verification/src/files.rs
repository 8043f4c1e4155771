//! The names of the files of a database directory, and the operations on
//! them that the engine asks its caller to carry out.
use vstd::prelude::*;
use vstd::string::StringExecFns;

verus! {

/// The role of a file of a level: the first, second and third input of the
/// level, the merged output while it moves into place, and the merged output
/// while it is written.
#[derive(Debug, Clone, Copy, PartialEq, Eq, Structural)]
pub enum Prefix {
    A,
    B,
    C,
    M,
    X,
}

/// The name of a file of the database directory.
#[derive(Debug, Clone, Copy, PartialEq, Eq, Structural)]
pub enum FileName {
    /// The write-ahead log of the nursery, `nursery.log`.
    NurseryLog,
    /// The flushed nursery on its way into the first level, `nursery.data`.
    NurseryData,
    /// A file of a level, `{prefix}-{level}.data`.
    Data { prefix: Prefix, level: u32 },
}

/// What the caller is asked to do to the directory. The operations of one
/// call are to be carried out in the order in which they are reported.
#[derive(Debug, PartialEq, Eq)]
pub enum FileOp {
    /// Append the bytes to the file and sync it.
    Append { path: FileName, data: Vec<u8> },
    /// Create the file with these bytes and sync it.
    Write { path: FileName, data: Vec<u8> },
    /// Cut the file down to no bytes.
    Truncate { path: FileName },
    /// Give the file another name, replacing what has that name.
    Rename { from: FileName, to: FileName },
    /// Delete the file.
    Remove { path: FileName },
}

/// What a file operation holds, as mathematical values.
pub enum FileOpModel {
    Append { path: FileName, data: Seq<u8> },
    Write { path: FileName, data: Seq<u8> },
    Truncate { path: FileName },
    Rename { from: FileName, to: FileName },
    Remove { path: FileName },
}

impl View for FileOp {
    type V = FileOpModel;

    open spec fn view(&self) -> FileOpModel {
        match *self {
            FileOp::Append { path, data } => FileOpModel::Append { path, data: data@ },
            FileOp::Write { path, data } => FileOpModel::Write { path, data: data@ },
            FileOp::Truncate { path } => FileOpModel::Truncate { path },
            FileOp::Rename { from, to } => FileOpModel::Rename { from, to },
            FileOp::Remove { path } => FileOpModel::Remove { path },
        }
    }
}

impl DeepView for FileOp {
    type V = FileOpModel;

    open spec fn deep_view(&self) -> FileOpModel {
        self@
    }
}

/// Puts `op` at the end of the journal.
pub fn record(journal: &mut Vec<FileOp>, op: FileOp)
    ensures
        final(journal).deep_view() == old(journal).deep_view().push(op@),
{
    let ghost before = journal.deep_view();
    journal.push(op);
    proof {
        assert(journal.deep_view() =~= before.push(op@));
    }
}

/// The decimal digit `d` as a character.
pub open spec fn digit(d: nat) -> char {
    if d == 0 {
        '0'
    } else if d == 1 {
        '1'
    } else if d == 2 {
        '2'
    } else if d == 3 {
        '3'
    } else if d == 4 {
        '4'
    } else if d == 5 {
        '5'
    } else if d == 6 {
        '6'
    } else if d == 7 {
        '7'
    } else if d == 8 {
        '8'
    } else {
        '9'
    }
}

/// The decimal numeral of `n`, without leading zeros.
pub open spec fn decimal(n: nat) -> Seq<char>
    decreases n,
{
    if n < 10 {
        seq![digit(n)]
    } else {
        decimal(n / 10).push(digit(n % 10))
    }
}

/// The letter of a prefix.
pub open spec fn prefix_letter(prefix: Prefix) -> char {
    match prefix {
        Prefix::A => 'A',
        Prefix::B => 'B',
        Prefix::C => 'C',
        Prefix::M => 'M',
        Prefix::X => 'X',
    }
}

/// The name of the file of `level` with `prefix`: the prefix, a hyphen, the
/// level in decimal, and `.data`.
pub open spec fn data_file_name_spec(level: u32, prefix: Seq<char>) -> Seq<char> {
    prefix + seq!['-'] + decimal(level as nat) + seq!['.', 'd', 'a', 't', 'a']
}

/// The decimal digit `d` as text.
fn digit_str(d: u64) -> (r: &'static str)
    requires
        d < 10,
    ensures
        r@ == seq![digit(d as nat)],
{
    proof {
        reveal_strlit("0");
        reveal_strlit("1");
        reveal_strlit("2");
        reveal_strlit("3");
        reveal_strlit("4");
        reveal_strlit("5");
        reveal_strlit("6");
        reveal_strlit("7");
        reveal_strlit("8");
        reveal_strlit("9");
    }
    let r = if d == 0 {
        "0"
    } else if d == 1 {
        "1"
    } else if d == 2 {
        "2"
    } else if d == 3 {
        "3"
    } else if d == 4 {
        "4"
    } else if d == 5 {
        "5"
    } else if d == 6 {
        "6"
    } else if d == 7 {
        "7"
    } else if d == 8 {
        "8"
    } else {
        "9"
    };
    proof {
        assert(r@ =~= seq![digit(d as nat)]);
    }
    r
}

/// Appends the decimal numeral of `n`.
pub fn push_decimal(out: &mut String, n: u64)
    ensures
        final(out)@ == old(out)@ + decimal(n as nat),
    decreases n,
{
    if n >= 10 {
        push_decimal(out, n / 10);
    }
    out.append(digit_str(n % 10));
    proof {
        assert(out@ =~= old(out)@ + decimal(n as nat));
    }
}

/// The name of the file of `level` with `prefix`.
pub fn data_file_name(level: u32, prefix: &str) -> (r: String)
    ensures
        r@ == data_file_name_spec(level, prefix@),
{
    proof {
        reveal_strlit("-");
        reveal_strlit(".data");
    }
    let mut name = String::from_str(prefix);
    name.append("-");
    push_decimal(&mut name, level as u64);
    name.append(".data");
    proof {
        assert(name@ =~= data_file_name_spec(level, prefix@));
    }
    name
}

impl Prefix {
    /// The letter of the prefix, as text.
    pub fn as_str(&self) -> (r: &'static str)
        ensures
            r@ == seq![prefix_letter(*self)],
    {
        proof {
            reveal_strlit("A");
            reveal_strlit("B");
            reveal_strlit("C");
            reveal_strlit("M");
            reveal_strlit("X");
        }
        let r = match self {
            Prefix::A => "A",
            Prefix::B => "B",
            Prefix::C => "C",
            Prefix::M => "M",
            Prefix::X => "X",
        };
        proof {
            assert(r@ =~= seq![prefix_letter(*self)]);
        }
        r
    }
}

impl FileName {
    /// The name as it stands in the directory.
    pub open spec fn text(self) -> Seq<char> {
        match self {
            FileName::NurseryLog => "nursery.log"@,
            FileName::NurseryData => "nursery.data"@,
            FileName::Data { prefix, level } => data_file_name_spec(
                level,
                seq![prefix_letter(prefix)],
            ),
        }
    }

    /// The name as it stands in the directory.
    pub fn to_string(&self) -> (r: String)
        ensures
            r@ == self.text(),
    {
        match self {
            FileName::NurseryLog => String::from_str("nursery.log"),
            FileName::NurseryData => String::from_str("nursery.data"),
            FileName::Data { prefix, level } => data_file_name(*level, prefix.as_str()),
        }
    }
}

} // verus!
