use vstd::prelude::*;

verus! {

/// Why a search could not produce a result.
#[derive(Debug, Clone, Copy, PartialEq, Eq, Structural)]
pub enum SearchError {
    /// The palette is empty, or no combination was asked for.
    InvalidInput,
    /// A combination names a position outside the palette.
    MissingKey,
    /// A worker of a parallel search ended abnormally.
    WorkerFailure,
}

} // verus!
