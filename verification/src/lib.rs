use vstd::prelude::*;

pub mod graph;
pub mod tree;

verus! {

/// The error kinds of this library: an out-of-range vertex index handed to a
/// graph operation, or a request for a traversal order that the tree does not
/// implement.
#[derive(Clone, Copy, PartialEq, Eq, Debug)]
pub enum DsaError {
    OutOfRange,
    NotImplemented,
}

} // verus!
