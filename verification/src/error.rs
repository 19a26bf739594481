//! The error taxonomy of the search library.

use vstd::prelude::*;

verus! {

/// What can go wrong while resolving titles, searching, or formatting.
///
/// `NotFound`: a title or id is absent from the graph (a user input error).
/// `Unreachable`: the search exhausted every node reachable from the source
/// without meeting the destination (a legitimate negative result).
/// `InternalInconsistency`: a parent chain failed to lead back to its root
/// within the visited-node bound (corrupted search state; never produced by
/// the verified engine).
#[derive(Clone, Copy, Debug, PartialEq, Eq, Structural)]
pub enum SearchError {
    NotFound,
    Unreachable,
    InternalInconsistency,
}

} // verus!
