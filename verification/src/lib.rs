//! Verified streaming for content-addressed blobs over the BLAKE3 binary
//! Merkle tree: tree geometry, traversal orders, the slice codec and the
//! stack-discipline verifier.
use vstd::prelude::*;

pub mod accept;
pub mod buffer;
pub mod codec;
pub mod coverage;
pub mod hash;
pub mod io;
pub mod iter;
pub mod laws;
pub mod offsets;
pub mod ranges;
pub mod rec;
pub mod select;
pub mod sound;
pub mod response;
pub mod shape;
pub mod stack;
pub mod tree;

verus! {

/// A blob that is kept together with its outboard in a store `S`.
pub struct BlakeFile<S>(pub S);

/// A blob that is kept together with its outboard in an asynchronous store `S`.
pub struct AsyncBlakeFile<S>(pub S);

} // verus!
