use crate::position::Point;
use vstd::prelude::*;

verus! {

/// What a point-addressed operation, or `save_data`, can fail with.
///
/// I/O failures are the caller's to handle: the store itself never
/// touches the file system, it only prepares and accepts file text.
#[derive(Debug, Clone, Copy, PartialEq, Eq, Structural)]
pub enum Error {
    /// A point addressed a row that does not exist, or a column or
    /// span that does not fit the addressed line.  Carries the
    /// offending point.
    OutOfBounds(Point),
    /// The buffer has no backing file to save to.
    FileNotSet,
}

} // verus!
