//! The selection of chunks within the data of a block.
//!
//! Where a query has only a part of a block, the chunks it asks for go on
//! the wire together with the hash pairs that tie them to the hash of the
//! block. One pass over the data gives both the hash of the block and these
//! bytes.
use vstd::prelude::*;
use vstd::slice::slice_subrange;
use range_collections::RangeSetRef;
use crate::hash::{hash_chunk, hash_subtree, left_len, left_len_spec, parent_cv, subtree_hash};
use crate::io::{append_bytes, combine_hash_pair};
use crate::ranges::{boundaries, is_empty, range_boundaries, split, split_left, split_right};
use crate::tree::ChunkNum;

verus! {

/// True if the query with the boundaries `query` has the chunk
/// `start_chunk` and all that follows it.
pub open spec fn full_from(query: Seq<u64>, start_chunk: u64) -> bool {
    query.len() == 1 && query[0] <= start_chunk
}

/// The bytes that the selection of `query` within `data` puts on the wire,
/// where the first chunk of `data` has the number `start_chunk`.
///
/// Up to one chunk of data goes on the wire as it is if the query reaches
/// it. More than two chunks that the query has with all that follows them
/// go on the wire as they are. In every other case that the query reaches
/// the data, the hashes of the left and of the right subtree go on the
/// wire, followed by the selection within the left part of the data and by
/// that within the right part.
pub open spec fn selected_wire(start_chunk: u64, data: Seq<u8>, query: Seq<u64>, emit_data: bool) -> Seq<
    u8,
>
    decreases data.len(),
{
    if data.len() <= 1024 {
        if emit_data && query.len() > 0 {
            data
        } else {
            Seq::empty()
        }
    } else {
        let mid = left_len_spec(data.len()) as int;
        if 1024 <= mid < data.len() {
            let mid_chunk = (start_chunk + mid / 1024) as u64;
            let left = data.subrange(0, mid);
            let right = data.subrange(mid, data.len() as int);
            if query.len() == 0 {
                Seq::empty()
            } else if data.len() > 2048 && full_from(query, start_chunk) {
                if emit_data {
                    data
                } else {
                    Seq::empty()
                }
            } else {
                subtree_hash(start_chunk, left, false) + subtree_hash(mid_chunk, right, false)
                    + selected_wire(start_chunk, left, split_left(query, mid_chunk), emit_data)
                    + selected_wire(mid_chunk, right, split_right(query, mid_chunk), emit_data)
            }
        } else {
            Seq::empty()
        }
    }
}

/// Writes the hash pair `pair` over the 64 bytes of `res` from `o` on.
fn backfill(res: &mut Vec<u8>, o: usize, pair: &[u8; 64])
    requires
        o + 64 <= old(res)@.len(),
    ensures
        final(res)@ == old(res)@.take(o as int) + pair@ + old(res)@.skip(o + 64),
{
    let n: usize = res.len();
    let mut i: usize = 0;
    while i < 64
        invariant
            i <= 64,
            o + 64 <= res@.len(),
            res@.len() == old(res)@.len(),
            res@.len() == n,
            forall|j: int| 0 <= j < res@.len() && !(o <= j < o + i) ==> res@[j] == old(res)@[j],
            forall|j: int| 0 <= j < i ==> res@[o + j] == pair@[j],
        decreases 64 - i,
    {
        res.set(o + i, pair[i]);
        i = i + 1;
    }
    assert(res@ =~= old(res)@.take(o as int) + pair@ + old(res)@.skip(o + 64));
}

/// Hashes `data` as the subtree whose first chunk has the number
/// `start_chunk`, and appends to `res` what the selection of `query` within
/// `data` puts on the wire.
#[verifier::rlimit(50)]
pub fn encode_selected_rec(
    start_chunk: ChunkNum,
    data: &[u8],
    is_root: bool,
    query: &RangeSetRef<u64>,
    emit_data: bool,
    res: &mut Vec<u8>,
) -> (h: crate::hash::Hash)
    requires
        start_chunk.0 + data@.len() / 1024 <= u64::MAX,
        is_root ==> start_chunk.0 == 0,
    ensures
        h@ == subtree_hash(start_chunk.0, data@, is_root),
        final(res)@ == old(res)@ + selected_wire(
            start_chunk.0,
            data@,
            range_boundaries(query),
            emit_data,
        ),
    decreases data@.len(),
{
    if data.len() <= 1024 {
        if emit_data && !is_empty(query) {
            append_bytes(res, data);
        } else {
            assert(res@ + Seq::<u8>::empty() =~= res@);
        }
        return hash_chunk(start_chunk.0, data, is_root);
    }
    let mid: usize = left_len(data.len());
    let b = boundaries(query);
    let full = b.len() == 1 && b[0] <= start_chunk.0;
    if is_empty(query) || (data.len() > 2048 && full) {
        // for empty ranges, we don't want to emit anything.
        // for full ranges above a pair of chunks, we want to emit just the data.
        if emit_data && !is_empty(query) {
            append_bytes(res, data);
        } else {
            assert(res@ + Seq::<u8>::empty() =~= res@);
        }
        return hash_subtree(start_chunk.0, data, is_root);
    }
    let mid_chunk = ChunkNum(start_chunk.0 + (mid / 1024) as u64);
    let (l_ranges, r_ranges) = split(query, mid_chunk.0);
    let ghost before_pair = res@;
    // make some room for the hashes
    let room: [u8; 64] = [0xFFu8; 64];
    append_bytes(res, room.as_slice());
    let o: usize = res.len() - 64;
    let ghost with_room = res@;
    let left_data = slice_subrange(data, 0, mid);
    let right_data = slice_subrange(data, mid, data.len());
    // recurse to the left and right to compute the hashes and emit data
    let left = encode_selected_rec(start_chunk, left_data, false, l_ranges, emit_data, res);
    let right = encode_selected_rec(mid_chunk, right_data, false, r_ranges, emit_data, res);
    let ghost with_data = res@;
    // backfill the hashes
    let pair = combine_hash_pair(&left, &right);
    backfill(res, o, &pair);
    proof {
        let lw = selected_wire(start_chunk.0, left_data@, range_boundaries(l_ranges), emit_data);
        let rw = selected_wire(mid_chunk.0, right_data@, range_boundaries(r_ranges), emit_data);
        assert(with_data == with_room + lw + rw);
        assert(res@ =~= before_pair + (left@ + right@ + lw + rw));
    }
    parent_cv(&left, &right, is_root)
}

} // verus!
