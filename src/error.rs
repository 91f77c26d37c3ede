use vstd::prelude::*;

verus! {

/// Why a run of the sorter stops.
#[derive(Debug, Clone, Copy, PartialEq, Eq, Structural)]
pub enum SortError {
    /// Zero workers, an empty input, or arguments that do not fit together.
    InvalidInput,
    /// A record index at or past the declared record count.
    OutOfRange,
    /// The bytes end before the header or a record does.
    IoError,
    /// A record is NaN and has no place in the order.
    NumericOrder,
}

} // verus!
