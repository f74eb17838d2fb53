use bao_tree::io::outboard::{PostOrderMemOutboard, PreOrderMemOutboard};
use bao_tree::io::sync::{
    encode_ranges, encode_ranges_validated, outboard_post_order, write_outboard_from_mem,
    DecodeResponseItem, DecodeResponseIter,
};
use bao_tree::io::DecodeError;
use bao_tree::tree::{BaoTree, BlockSize, ByteNum};
use range_collections::RangeSet2;

fn test_data(len: usize) -> Vec<u8> {
    let mut data = Vec::with_capacity(len);
    for i in 0..len {
        data.push((i % 251) as u8);
    }
    data
}

fn post_order_outboard(data: &[u8], log: u8) -> PostOrderMemOutboard {
    let mut bytes = Vec::new();
    let root =
        outboard_post_order(data, data.len() as u64, BlockSize::from_chunk_log(log), &mut bytes)
            .unwrap();
    PostOrderMemOutboard::load(root, &bytes, BlockSize::from_chunk_log(log)).unwrap()
}

fn pre_order_outboard(data: &[u8], log: u8) -> PreOrderMemOutboard {
    let tree = BaoTree::new(ByteNum(data.len() as u64), BlockSize::from_chunk_log(log));
    let pairs = tree.outboard_hash_pairs() as usize;
    let mut ob = PreOrderMemOutboard::new(bao_tree::hash::Hash([0; 32]), tree, vec![0; pairs * 64]);
    let root = write_outboard_from_mem(data, &mut ob).unwrap();
    ob.root = root;
    ob
}

fn decode_all(
    root: bao_tree::hash::Hash,
    log: u8,
    encoded: &[u8],
    ranges: &RangeSet2<u64>,
) -> Result<Vec<(u64, Vec<u8>)>, DecodeError> {
    let mut iter = DecodeResponseIter::new(root, BlockSize::from_chunk_log(log), encoded, ranges);
    let mut leaves = Vec::new();
    while let Some(item) = iter.next() {
        match item? {
            DecodeResponseItem::Leaf(leaf) => leaves.push((leaf.offset.0, leaf.data.to_vec())),
            _ => {}
        }
    }
    Ok(leaves)
}

#[test]
fn round_trip_all_sizes() {
    let sizes = [0usize, 1, 1024, 1025, 2048, 2049, 4096, 4097, 10000, 16385, 50000];
    for log in 0u8..4 {
        for size in sizes {
            let data = test_data(size);
            let post = post_order_outboard(&data, log);
            let pre = pre_order_outboard(&data, log);
            assert_eq!(post.root, pre.root);
            let all = RangeSet2::from(0u64..);
            let mut enc_post = Vec::new();
            encode_ranges(&data, &post, &all, &mut enc_post).unwrap();
            let mut enc_pre = Vec::new();
            encode_ranges(&data, &pre, &all, &mut enc_pre).unwrap();
            assert_eq!(enc_post, enc_pre, "size {} log {}", size, log);
            let mut enc_val = Vec::new();
            encode_ranges_validated(&data, &post, &all, &mut enc_val).unwrap();
            assert_eq!(enc_post, enc_val, "size {} log {}", size, log);
            let leaves = decode_all(post.root, log, &enc_post, &all).unwrap();
            let mut decoded = vec![0u8; size];
            let mut total = 0;
            for (offset, bytes) in leaves {
                decoded[offset as usize..offset as usize + bytes.len()].copy_from_slice(&bytes);
                total += bytes.len();
            }
            assert_eq!(total, size);
            assert_eq!(decoded, data, "size {} log {}", size, log);
        }
    }
}

#[test]
fn empty_blob() {
    let data: Vec<u8> = Vec::new();
    let ob = post_order_outboard(&data, 0);
    assert_eq!(ob.root.0, *blake3::hash(&[]).as_bytes());
    let all = RangeSet2::from(0u64..);
    let mut encoded = Vec::new();
    encode_ranges(&data, &ob, &all, &mut encoded).unwrap();
    assert_eq!(encoded, vec![0u8; 8]);
    let leaves = decode_all(ob.root, 0, &encoded, &all).unwrap();
    assert!(leaves.is_empty());
}

#[test]
fn one_chunk_of_zeros() {
    let data = vec![0u8; 1024];
    let ob = post_order_outboard(&data, 0);
    assert_eq!(ob.root, bao_tree::hash::hash_chunk(0, &data, true));
    let all = RangeSet2::from(0u64..);
    let mut encoded = Vec::new();
    encode_ranges(&data, &ob, &all, &mut encoded).unwrap();
    let mut expected = vec![0u8, 4, 0, 0, 0, 0, 0, 0];
    expected.extend_from_slice(&data);
    assert_eq!(encoded, expected);
}

fn two_chunks() -> Vec<u8> {
    let mut data = vec![0xAAu8; 1024];
    data.extend_from_slice(&[0xBBu8; 1024]);
    data
}

#[test]
fn two_chunks_all_and_second() {
    let data = two_chunks();
    let ob = post_order_outboard(&data, 0);
    let l_hash = bao_tree::hash::hash_chunk(0, &data[..1024], false);
    let r_hash = bao_tree::hash::hash_chunk(1, &data[1024..], false);
    assert_eq!(ob.root, bao_tree::hash::parent_cv(&l_hash, &r_hash, true));
    let mut header = vec![0u8, 8, 0, 0, 0, 0, 0, 0];
    header.extend_from_slice(&l_hash.0);
    header.extend_from_slice(&r_hash.0);
    let all = RangeSet2::from(0u64..);
    let mut encoded = Vec::new();
    encode_ranges(&data, &ob, &all, &mut encoded).unwrap();
    let mut expected = header.clone();
    expected.extend_from_slice(&data);
    assert_eq!(encoded, expected);
    let second = RangeSet2::from(1u64..2);
    let mut encoded = Vec::new();
    encode_ranges(&data, &ob, &second, &mut encoded).unwrap();
    let mut expected = header.clone();
    expected.extend_from_slice(&data[1024..]);
    assert_eq!(encoded, expected);
    let leaves = decode_all(ob.root, 0, &encoded, &second).unwrap();
    assert_eq!(leaves, vec![(1024u64, vec![0xBBu8; 1024])]);
}

#[test]
fn tampered_parent_is_rejected() {
    let data = two_chunks();
    let ob = post_order_outboard(&data, 0);
    let all = RangeSet2::from(0u64..);
    let mut encoded = Vec::new();
    encode_ranges(&data, &ob, &all, &mut encoded).unwrap();
    encoded[8] ^= 1;
    let tree = BaoTree::new(ByteNum(2048), BlockSize::zero());
    let r = decode_all(ob.root, 0, &encoded, &all);
    assert_eq!(r, Err(DecodeError::ParentHashMismatch(tree.root())));
}
