use vstd::prelude::*;

verus! {

/// Address of one build-side row: the chunk it lives in and its row inside
/// that chunk.
#[derive(Clone, Copy, Debug, PartialEq, Eq, Structural)]
pub struct RowPtr {
    pub chunk_index: u32,
    pub row_index: u32,
}

/// One row of a merged (build ++ probe) block: a build row paired with the
/// probe row that matched it.
#[derive(Clone, Copy, Debug, PartialEq, Eq, Structural)]
pub struct JoinedRow {
    pub build: RowPtr,
    pub probe_row: u32,
}

/// The right-side join variants driven by this crate.
#[derive(Clone, Copy, Debug, PartialEq, Eq, Structural)]
pub enum JoinType {
    Right,
    RightSingle,
    RightAnti,
}

/// Errors that stop a probe.
#[derive(Clone, Copy, Debug, PartialEq, Eq, Structural)]
pub enum ProbeError {
    /// The cancellation flag was seen set at a batch boundary.
    AbortedQuery,
    /// A right-single probe claimed one build row more than once: the scalar
    /// subquery returned more than one row for some outer row.
    ScalarSubqueryMultipleRows,
}

impl ProbeError {
    /// The message reported to the user.
    pub fn message(&self) -> (r: String)
        ensures
            *self == ProbeError::AbortedQuery ==> r@
                == "Aborted query, because the server is shutting down or the query was killed."@,
            *self == ProbeError::ScalarSubqueryMultipleRows ==> r@ == "Scalar subquery can't return more than one row"@,
    {
        match self {
            ProbeError::AbortedQuery => String::from_str(
                "Aborted query, because the server is shutting down or the query was killed.",
            ),
            ProbeError::ScalarSubqueryMultipleRows => String::from_str(
                "Scalar subquery can't return more than one row",
            ),
        }
    }
}

} // verus!
