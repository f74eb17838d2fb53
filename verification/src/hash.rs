//! Hash primitives: the BLAKE3 chunk hash, the parent combiner and the hash
//! of a subtree of chunks.
//!
//! The compression function is that of the `blake3` crate. What it returns is
//! named by [`chunk_hash_of`] and [`parent_cv_of`]; the hash of a subtree is
//! defined over these two.
use vstd::prelude::*;
use vstd::slice::slice_subrange;

verus! {

/// A BLAKE3 hash or chaining value of 32 bytes.
#[derive(Clone, Copy, Debug, PartialEq, Eq)]
pub struct Hash(pub [u8; 32]);

impl View for Hash {
    type V = Seq<u8>;

    open spec fn view(&self) -> Seq<u8> {
        self.0@
    }
}

/// The 32 bytes that `ChunkState` of the `blake3` crate returns for the
/// chunk counter `chunk_counter`, the input `data` and the root flag
/// `is_root`.
pub uninterp spec fn blake3_chunk_hash(chunk_counter: u64, data: Seq<u8>, is_root: bool) -> [u8; 32];

/// The 32 bytes that `parent_cv` of the `blake3` crate returns for the
/// hashes `left` and `right` of the children and the root flag `is_root`.
pub uninterp spec fn blake3_parent_cv(left: Seq<u8>, right: Seq<u8>, is_root: bool) -> [u8; 32];

/// The BLAKE3 hash of a chunk with the given chunk counter.
pub open spec fn chunk_hash_of(chunk_counter: u64, data: Seq<u8>, is_root: bool) -> Seq<u8> {
    blake3_chunk_hash(chunk_counter, data, is_root)@
}

/// The BLAKE3 hash of a parent node with the given hashes of its children.
pub open spec fn parent_cv_of(left: Seq<u8>, right: Seq<u8>, is_root: bool) -> Seq<u8> {
    blake3_parent_cv(left, right, is_root)@
}

/// Calls `blake3::guts::ChunkState`: a new state for the chunk counter, one
/// `update` with the whole input and `finalize` with the root flag. The
/// result is a function of these three alone. The input is at most one
/// chunk, beyond which `update` is not defined, and only the chunk with the
/// counter 0 is finalized as a root, which `finalize` asks for.
#[verifier::external_body]
#[allow(deprecated)]
pub(crate) fn chunk_state_hash(chunk_counter: u64, data: &[u8], is_root: bool) -> (h: Hash)
    requires
        data@.len() <= 1024,
        is_root ==> chunk_counter == 0,
    ensures
        h.0 == blake3_chunk_hash(chunk_counter, data@, is_root),
{
    let mut state = blake3::guts::ChunkState::new(chunk_counter);
    state.update(data);
    Hash(*state.finalize(is_root).as_bytes())
}

/// Calls `blake3::guts::parent_cv`: the hash of a parent node from the hashes
/// of its children and the root flag, a function of these three alone.
#[verifier::external_body]
#[allow(deprecated)]
pub(crate) fn guts_parent_cv(left: &Hash, right: &Hash, is_root: bool) -> (h: Hash)
    ensures
        h.0 == blake3_parent_cv(left@, right@, is_root),
{
    let l = blake3::Hash::from_bytes(left.0);
    let r = blake3::Hash::from_bytes(right.0);
    Hash(*blake3::guts::parent_cv(&l, &r, is_root).as_bytes())
}

impl Hash {
    /// The hash with the given bytes.
    pub fn from_bytes(bytes: [u8; 32]) -> (h: Self)
        ensures
            h@ == bytes@,
    {
        Hash(bytes)
    }

    /// The bytes of the hash.
    pub fn as_bytes(&self) -> (b: &[u8; 32])
        ensures
            b@ == self@,
    {
        &self.0
    }

    /// True if the two hashes have the same bytes.
    pub fn same(&self, other: &Hash) -> (b: bool)
        ensures
            b == (self@ == other@),
    {
        let mut i: usize = 0;
        while i < 32
            invariant
                i <= 32,
                forall|j: int| 0 <= j < i ==> self@[j] == other@[j],
            decreases 32 - i,
        {
            if self.0[i] != other.0[i] {
                return false;
            }
            i = i + 1;
        }
        assert(self@ =~= other@);
        true
    }
}

/// The number of bytes in the left subtree of a subtree of `n > 1024` bytes:
/// the largest power of two of chunks that is less than `n` bytes, reached
/// from `p` by doubling.
pub open spec fn left_len_from(p: nat, n: nat) -> nat
    decreases n - p,
{
    if p == 0 || 2 * p >= n {
        p
    } else {
        left_len_from(2 * p, n)
    }
}

/// The number of bytes in the left subtree of a subtree of `n > 1024` bytes.
pub open spec fn left_len_spec(n: nat) -> nat {
    left_len_from(1024, n)
}

/// The left subtree of a subtree of more than one chunk holds at least one
/// chunk and less than the whole, and at least half of it.
pub proof fn lemma_left_len(p: nat, n: nat)
    requires
        1024 <= p < n,
    ensures
        p <= left_len_from(p, n) < n,
        2 * left_len_from(p, n) >= n,
        left_len_from(p, n) % 1024 == 0 <== p % 1024 == 0,
    decreases n - p,
{
    if 2 * p < n {
        lemma_left_len(2 * p, n);
    }
}

/// The hash of the subtree over `data` whose first chunk has the counter
/// `start_chunk`: the chunk hash for up to one chunk, and else the parent
/// hash of the hashes of the left and the right subtree.
pub open spec fn subtree_hash(start_chunk: u64, data: Seq<u8>, is_root: bool) -> Seq<u8>
    decreases data.len(),
{
    if data.len() <= 1024 {
        chunk_hash_of(start_chunk, data, is_root)
    } else {
        let mid = left_len_spec(data.len()) as int;
        if 1024 <= mid < data.len() {
            parent_cv_of(
                subtree_hash(start_chunk, data.subrange(0, mid), false),
                subtree_hash(
                    (start_chunk + mid / 1024) as u64,
                    data.subrange(mid, data.len() as int),
                    false,
                ),
                is_root,
            )
        } else {
            chunk_hash_of(start_chunk, data, is_root)
        }
    }
}

/// The number of bytes in the left subtree of a subtree of `n` bytes.
pub fn left_len(n: usize) -> (p: usize)
    requires
        n > 1024,
    ensures
        p == left_len_spec(n as nat),
        1024 <= p < n,
        p % 1024 == 0,
{
    let mut p: usize = 1024;
    proof {
        lemma_left_len(1024, n as nat);
    }
    while p < n - p
        invariant
            1024 <= p < n,
            p % 1024 == 0,
            left_len_from(p as nat, n as nat) == left_len_spec(n as nat),
        decreases n - p,
    {
        p = 2 * p;
    }
    p
}

/// The BLAKE3 hash of a chunk of at most 1024 bytes with the given chunk
/// counter. Only the chunk with the counter 0 can be hashed as a root.
pub fn hash_chunk(chunk_counter: u64, data: &[u8], is_root: bool) -> (h: Hash)
    requires
        data@.len() <= 1024,
        is_root ==> chunk_counter == 0,
    ensures
        h@ == chunk_hash_of(chunk_counter, data@, is_root),
{
    chunk_state_hash(chunk_counter, data, is_root)
}

/// The BLAKE3 hash of a parent node with the given hashes of its children.
pub fn parent_cv(left: &Hash, right: &Hash, is_root: bool) -> (h: Hash)
    ensures
        h@ == parent_cv_of(left@, right@, is_root),
{
    guts_parent_cv(left, right, is_root)
}

/// The hash of the subtree over `data` whose first chunk has the counter
/// `start_chunk`. Only a subtree that starts at chunk 0 can be hashed as a
/// root.
pub fn hash_subtree(start_chunk: u64, data: &[u8], is_root: bool) -> (h: Hash)
    requires
        start_chunk + data@.len() / 1024 <= u64::MAX,
        is_root ==> start_chunk == 0,
    ensures
        h@ == subtree_hash(start_chunk, data@, is_root),
    decreases data@.len(),
{
    if data.len() <= 1024 {
        hash_chunk(start_chunk, data, is_root)
    } else {
        let mid: usize = left_len(data.len());
        let left = hash_subtree(start_chunk, slice_subrange(data, 0, mid), false);
        let right = hash_subtree(
            start_chunk + (mid / 1024) as u64,
            slice_subrange(data, mid, data.len()),
            false,
        );
        parent_cv(&left, &right, is_root)
    }
}


/// The hash of the block over `data` whose first chunk is `start_chunk`.
pub fn hash_block(start_chunk: crate::tree::ChunkNum, data: &[u8], is_root: bool) -> (h: Hash)
    requires
        start_chunk.0 + data@.len() / 1024 <= u64::MAX,
        is_root ==> start_chunk.0 == 0,
    ensures
        h@ == subtree_hash(start_chunk.0, data@, is_root),
{
    hash_subtree(start_chunk.0, data, is_root)
}

/// A hash of a subtree has 32 bytes.
pub proof fn lemma_subtree_hash_len(start_chunk: u64, data: Seq<u8>, is_root: bool)
    ensures
        subtree_hash(start_chunk, data, is_root).len() == 32,
{
}

} // verus!
