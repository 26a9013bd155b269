use vstd::prelude::*;

verus! {

/// Why an operation on a database was refused. A refused operation leaves
/// the database as it was.
#[derive(Clone, Copy, Debug, PartialEq, Eq, Structural)]
pub enum Error {
    /// A collection of that name already exists.
    UniqueViolation,
    /// No collection of that name exists.
    NotFound,
    /// The number of vectors differs from the number of values, or a vector's
    /// length differs from the collection's dimension.
    DimensionMismatch,
    /// The collection has never had its index built.
    IndexNotBuilt,
    /// A collection cannot have dimension zero.
    InvalidDimension,
    /// A neighbor names a point that the collection's index does not cover.
    UnknownPoint,
}

} // verus!
