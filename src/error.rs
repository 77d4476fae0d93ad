use vstd::prelude::*;

verus! {

/// The kinds of failure that the operations of this library report.
#[derive(Debug, Clone, Copy, PartialEq, Eq, Structural)]
pub enum AnnError {
    /// A write would change a dimension that is already set, or stacked
    /// partitions disagree on a shared dimension.
    DimensionMismatch,
    /// The shape of the data does not fit the axis kind of a collection.
    AxisViolation,
    /// An expected entry or attribute is absent.
    MissingKey,
    /// Two entries that must be told apart by name share a name.
    DuplicateKey,
    /// The stored encoding differs from the one expected, or stacked
    /// partitions disagree on their encoding.
    EncodingMismatch,
    /// The operation is not available on a stacked dataset.
    UnsupportedOnDataset,
    /// The storage refused an operation.
    BackendFailure,
    /// A selection has the wrong dimensionality or is out of bounds.
    SelectionError,
}

} // verus!
