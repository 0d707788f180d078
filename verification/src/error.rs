use vstd::prelude::*;

verus! {

/// The error kinds the store can report.
///
/// `IoError` stands for a failure of the backing page store, `KeyNotFound`
/// for a search that reached a leaf without an exact match, and
/// `UnexpectedError` for a malformed page, an encode overflow, a split of a
/// non-full node, an empty log, or any other invariant violation.
#[derive(Clone, Copy, Debug, PartialEq, Eq, Structural)]
pub enum Error {
    IoError,
    KeyNotFound,
    UnexpectedError,
}

} // verus!
