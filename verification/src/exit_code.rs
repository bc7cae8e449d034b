//! Exit codes of the commands, after the convention of `sysexits`.

use crate::encode::EncodeError;
use crate::index::IndexError;
use crate::repair::RepairError;
use crate::verify::VerifyError;
use vstd::prelude::*;

verus! {

/// How a command ended.
#[derive(Clone, Copy, Debug, PartialEq, Eq, Structural)]
pub enum Ending {
    /// The command did what it was asked.
    Success,
    /// The command line was wrong, or a parameter out of range.
    Usage,
    /// Input data was malformed or failed a check.
    DataError,
    /// An input file was missing or could not be read.
    NoInput,
    /// An output file could not be created.
    CannotCreate,
    /// Reading or writing failed.
    Io,
    /// The operation was not permitted, or a lock was held by another.
    Permission,
    /// Anything else.
    Software,
}

/// The exit code for each ending.
pub open spec fn code_of(e: Ending) -> u8 {
    match e {
        Ending::Success => 0,
        Ending::Usage => 64,
        Ending::DataError => 65,
        Ending::NoInput => 66,
        Ending::Software => 70,
        Ending::CannotCreate => 73,
        Ending::Io => 74,
        Ending::Permission => 77,
    }
}

/// The exit code for an ending.
pub fn exit_code(e: Ending) -> (code: u8)
    ensures
        code == code_of(e),
{
    match e {
        Ending::Success => 0,
        Ending::Usage => 64,
        Ending::DataError => 65,
        Ending::NoInput => 66,
        Ending::Software => 70,
        Ending::CannotCreate => 73,
        Ending::Io => 74,
        Ending::Permission => 77,
    }
}

/// How a command ends when encoding fails: a parameter out of range is a
/// usage error, an unsafe path or files too large are a data error.
pub fn ending_of_encode(e: EncodeError) -> (r: Ending)
    ensures
        r == (match e {
            EncodeError::BadConfig(_) => Ending::Usage,
            _ => Ending::DataError,
        }),
{
    match e {
        EncodeError::BadConfig(_) => Ending::Usage,
        _ => Ending::DataError,
    }
}

/// How a command ends when verifying fails: every such failure lies in the
/// data that was given.
pub fn ending_of_verify(e: VerifyError) -> (r: Ending)
    ensures
        r == Ending::DataError,
{
    Ending::DataError
}

/// How a command ends when repairing fails: parameters that allow no repair
/// are a usage error, anything else a data error.
pub fn ending_of_repair(e: RepairError) -> (r: Ending)
    ensures
        r == (match e {
            RepairError::BadConfig => Ending::Usage,
            _ => Ending::DataError,
        }),
{
    match e {
        RepairError::BadConfig => Ending::Usage,
        _ => Ending::DataError,
    }
}

/// How a command ends when an index cannot be written or read: a failure of
/// the compressor on writing counts as a software error, anything else as a
/// data error.
pub fn ending_of_index(e: IndexError, writing: bool) -> (r: Ending)
    ensures
        r == (if writing && e == IndexError::Compression {
            Ending::Software
        } else {
            Ending::DataError
        }),
{
    if writing && e == IndexError::Compression {
        Ending::Software
    } else {
        Ending::DataError
    }
}

} // verus!
