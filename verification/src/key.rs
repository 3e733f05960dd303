use vstd::prelude::*;
use crate::table::KeyEq;

verus! {

/// A vector in the index: the base relation's key (as an id whose order is the
/// order of the keys), the position of the vector field, and the position in
/// a list field (`-1` when the field holds the vector itself).
pub type NodeKey = (u64, usize, i32);

/// A row of the index relation: the level, the node the row belongs to and the
/// node it points at (the node itself for the node's own row).
pub type RowKey = (i64, NodeKey, NodeKey);

/// What a distance is measured from: a query vector (by its position among the
/// vectors of the operation) or the vector of a node in the index.
#[derive(Clone, Copy, Debug, PartialEq, Eq)]
pub enum Probe {
    Query(usize),
    Node(NodeKey),
}

/// The order key of a distance: an order-preserving image of the distance, in
/// which every NaN is `NAN_KEY`, the greatest key.
pub const NAN_KEY: u64 = 0xffff_ffff_ffff_ffffu64;

/// The order key of the largest finite double.
pub const F64_MAX_KEY: u64 = 0xffef_ffff_ffff_ffffu64;

/// The order key of the largest finite single-precision float.
pub const F32_MAX_KEY: u64 = 0xc7ef_ffff_e000_0000u64;

/// `a < b` on the distances the keys stand for: false when either is NaN.
pub open spec fn spec_float_lt(a: u64, b: u64) -> bool {
    a != NAN_KEY && b != NAN_KEY && a < b
}

/// `a > b` on the distances the keys stand for: false when either is NaN.
pub open spec fn spec_float_gt(a: u64, b: u64) -> bool {
    a != NAN_KEY && b != NAN_KEY && a > b
}

pub fn float_lt(a: u64, b: u64) -> (r: bool)
    ensures
        r == spec_float_lt(a, b),
{
    a != NAN_KEY && b != NAN_KEY && a < b
}

pub fn float_gt(a: u64, b: u64) -> (r: bool)
    ensures
        r == spec_float_gt(a, b),
{
    a != NAN_KEY && b != NAN_KEY && a > b
}

/// The lexicographic order of node keys.
pub open spec fn node_lt(a: NodeKey, b: NodeKey) -> bool {
    a.0 < b.0 || (a.0 == b.0 && (a.1 < b.1 || (a.1 == b.1 && a.2 < b.2)))
}

/// The order of the rows of the index relation: level, then owner, then target.
pub open spec fn row_lt(a: RowKey, b: RowKey) -> bool {
    a.0 < b.0 || (a.0 == b.0 && (node_lt(a.1, b.1) || (a.1 == b.1 && node_lt(a.2, b.2))))
}

pub fn node_less(a: &NodeKey, b: &NodeKey) -> (r: bool)
    ensures
        r == node_lt(*a, *b),
{
    a.0 < b.0 || (a.0 == b.0 && (a.1 < b.1 || (a.1 == b.1 && a.2 < b.2)))
}

pub fn node_eq(a: &NodeKey, b: &NodeKey) -> (r: bool)
    ensures
        r == (*a == *b),
{
    a.0 == b.0 && a.1 == b.1 && a.2 == b.2
}

pub fn row_less(a: &RowKey, b: &RowKey) -> (r: bool)
    ensures
        r == row_lt(*a, *b),
{
    a.0 < b.0 || (a.0 == b.0 && (node_less(&a.1, &b.1) || (node_eq(&a.1, &b.1) && node_less(
        &a.2,
        &b.2,
    ))))
}

/// Whether a vector of node keys holds `k`.
pub fn holds_key(v: &Vec<NodeKey>, k: &NodeKey) -> (r: bool)
    ensures
        r == v@.contains(*k),
{
    let n: usize = v.len();
    let mut i: usize = 0;
    while i < n
        invariant
            n == v.len(),
            i <= n,
            forall|j: int| 0 <= j < i ==> v@[j] != *k,
        decreases n - i,
    {
        if node_eq(&v[i], k) {
            assert(v@[i as int] == *k);
            return true;
        }
        i = i + 1;
    }
    false
}

impl KeyEq for (u64, usize, i32) {
    fn same(&self, other: &Self) -> (r: bool) {
        node_eq(self, other)
    }
}

impl KeyEq for (i64, (u64, usize, i32), (u64, usize, i32)) {
    fn same(&self, other: &Self) -> (r: bool) {
        self.0 == other.0 && node_eq(&self.1, &other.1) && node_eq(&self.2, &other.2)
    }
}

} // verus!
