use vstd::prelude::*;

verus! {

/// What can stop a count or a search.
#[derive(Debug, Clone, PartialEq, Eq)]
pub enum EngineError {
    /// The input could not be opened or read.
    SourceIo { message: String },
    /// Under strict field counts, record `record` (0-based, header included) has `found`
    /// fields where the first record has `expected`.
    Parse { record: usize, expected: usize, found: usize },
    /// Entry `entry` (0-based) of a column selection names no column of the header.
    ColumnNotFound { entry: usize },
    /// The filter expression does not compile.
    PatternCompile { message: String },
    /// The alternate counting backend rejected the input.
    BackendParse { message: String },
    /// The output could not be written.
    SinkIo { message: String },
}

} // verus!
