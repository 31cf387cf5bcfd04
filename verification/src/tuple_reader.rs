use vstd::prelude::*;

use crate::errors::GraphError;

verus! {

/// Supplies sequential pairs of unsigned integers, typically decoded from a
/// textual input stream.
///
/// The library depends on this collaborator through exactly one operation:
/// `next_tuple`.  An implementation reports `GraphError::ExhaustedInput` when
/// the stream ends before a pair can be produced, and
/// `GraphError::MalformedInput` when the data at hand cannot be parsed as two
/// unsigned integers.  Nothing is assumed about the values an implementation
/// yields: every consumer of this trait states what holds of its own result
/// whatever pair (or error) comes back.
pub trait TupleReader {
    /// Produces the next pair of unsigned integers from the source.
    fn next_tuple(&mut self) -> Result<(u32, u32), GraphError>;
}

} // verus!
