use vstd::prelude::*;
use crate::key::NodeKey;

verus! {

/// Why an operation on the index failed.
#[derive(Debug, Clone, Copy, PartialEq, Eq)]
pub enum HnswError {
    /// The distance between a probe and this node could not be computed.
    DistanceUnavailable(NodeKey),
    /// The search filter could not be evaluated on this node.
    FilterFailed(NodeKey),
    /// The result filter could not be evaluated on this node.
    ResultFailed(NodeKey),
    /// The set of nearest neighbours found so far was empty during a search.
    SearchHeapEmpty,
    /// A node that the graph links to has no row of its own at that level.
    IndexedVectorNotFound(NodeKey),
    /// A row that must hold a node's degree holds something else.
    InvalidDegree(NodeKey),
    /// A vector field lies beyond the end of the base row.
    RowTooShort,
    /// Only single-precision vectors can be quantized.
    NotF32,
    /// The vector's elements are not laid out contiguously.
    NotContiguous,
    /// The vector's length is not the codebook's dimension.
    DimensionMismatch { len: usize, dim: usize },
    /// Training needs at least one subspace.
    NoSubspaces,
    /// The vector dimension is not a multiple of the number of subspaces.
    NotDivisible { dim: usize, num_subspaces: usize },
    /// Training needs at least one centroid.
    NoCentroids,
    /// There is no vector to train on.
    NoSamples,
    /// There are fewer vectors than centroids.
    TooFewSamples { needed: usize, got: usize },
}

} // verus!
