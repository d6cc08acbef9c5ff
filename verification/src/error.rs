//! The errors that the table, the merger and the engine report.
use vstd::prelude::*;

verus! {

/// Why a request was refused. Nothing is computed once one of these is found.
#[derive(Clone, Copy, Debug, PartialEq, Eq, Structural)]
pub enum RollupError {
    /// The list of group keys is empty.
    EmptyKeys,
    /// The key at this position of the key list names no column.
    KeyNotFound(usize),
    /// The value column's name names no column.
    ValueNotFound,
    /// The value column holds text.
    ValueNotNumeric,
    /// The value column holds reals, which have no exact moments.
    ValueNotExact,
    /// The window size is zero.
    InvalidWindow,
    /// The threshold is a ratio over zero.
    InvalidThreshold,
    /// There is no source to merge.
    NoSources,
    /// The source at this position failed to load.
    SourceFailed(usize),
    /// The source at this position has another schema than the first one.
    SchemaMismatch(usize),
    /// A column of that name is already in the table.
    DuplicateColumn,
    /// The column has another length than the table's columns.
    LengthMismatch,
}

} // verus!
