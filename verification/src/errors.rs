use vstd::prelude::*;

verus! {

/// Failures reported by graph construction and by queries.
///
/// All of these are returned to the caller as values; no library operation
/// aborts the process.
#[derive(Clone, Copy, Debug, PartialEq, Eq, Structural)]
pub enum GraphError {
    /// The input does not yield the expected integer pairs, or an edge
    /// endpoint lies outside the declared vertex range.
    MalformedInput,
    /// The input ends before all required data has been read.
    ExhaustedInput,
    /// A query references a vertex outside the graph's vertex set.
    UnknownVertex,
}

} // verus!
