use bao_tree::hash::{hash_chunk, hash_subtree, left_len, parent_cv};
use bao_tree::io::error::{EncodeError, IoErrorKind, StartDecodeError};
use bao_tree::io::outboard::{PostOrderMemOutboard, PreOrderMemOutboard};
use bao_tree::io::sync::{
    decode_response_into, encode_ranges, encode_ranges_validated, outboard_post_order,
    read_len, read_parent, read_range, valid_file_ranges, valid_outboard_ranges,
    write_outboard_from_mem, write_ranges, DecodeResponseItem, DecodeResponseIter, Outboard,
    OutboardMut,
};
use bao_tree::io::{
    blake3_hash_inner, combine_hash_pair, decode_ranges_into, decode_ranges_into_chunks,
    encode_validated, outboard_post_order_io, parse_hash_pair, write_all_at, DecodeError,
    DecodeSliceIter, Header, Leaf, Parent, SliceReader,
};
use bao_tree::ranges::{range_ok, truncate_ranges};
use bao_tree::rec::encode_selected_rec;
use bao_tree::tree::{BaoTree, BlockSize, ByteNum, ChunkNum, TreeNode};
use range_collections::RangeSet2;

fn test_data(len: usize) -> Vec<u8> {
    let mut data = Vec::with_capacity(len);
    for i in 0..len {
        data.push(((i * 7 + i / 1024) % 251) as u8);
    }
    data
}

fn post_order(data: &[u8], log: u8) -> PostOrderMemOutboard {
    let mut bytes = Vec::new();
    let bs = BlockSize::from_chunk_log(log);
    let root = outboard_post_order(data, data.len() as u64, bs, &mut bytes).unwrap();
    PostOrderMemOutboard::load(root, &bytes, bs).unwrap()
}

fn pre_order(data: &[u8], log: u8) -> PreOrderMemOutboard {
    let tree = BaoTree::new(ByteNum(data.len() as u64), BlockSize::from_chunk_log(log));
    let pairs = tree.outboard_hash_pairs() as usize;
    let zero = bao_tree::hash::Hash([0; 32]);
    let mut ob = PreOrderMemOutboard::new(zero, tree, vec![0; pairs * 64]);
    ob.root = write_outboard_from_mem(data, &mut ob).unwrap();
    ob
}

fn all() -> RangeSet2<u64> {
    RangeSet2::from(0u64..)
}

fn decode(
    root: bao_tree::hash::Hash,
    log: u8,
    encoded: &[u8],
    ranges: &RangeSet2<u64>,
) -> Vec<Result<DecodeResponseItem, DecodeError>> {
    let mut iter = DecodeResponseIter::new(root, BlockSize::from_chunk_log(log), encoded, ranges);
    let mut res = Vec::new();
    while let Some(item) = iter.next() {
        res.push(item);
    }
    assert!(iter.next().is_none());
    res
}

#[test]
fn hash_of_a_subtree_is_built_from_chunks() {
    let data = test_data(3000);
    let c0 = hash_chunk(5, &data[..1024], false);
    let c1 = hash_chunk(6, &data[1024..2048], false);
    let c2 = hash_chunk(7, &data[2048..], false);
    let left = parent_cv(&c0, &c1, false);
    assert_eq!(hash_subtree(5, &data, false), parent_cv(&left, &c2, false));
    assert_ne!(hash_subtree(0, &data, true), hash_subtree(0, &data, false));
    assert_eq!(hash_subtree(9, &data[..700], false), hash_chunk(9, &data[..700], false));
    assert_ne!(hash_chunk(0, &data[..700], false), hash_chunk(1, &data[..700], false));
    assert_ne!(hash_chunk(0, &data[..700], false), hash_chunk(0, &data[..700], true));
    assert_eq!(hash_subtree(0, &data, true).0, *blake3::hash(&data).as_bytes());
    assert!(c0.same(&hash_chunk(5, &data[..1024], false)));
    assert!(!c0.same(&c1));
    assert_eq!(bao_tree::hash::Hash::from_bytes([7; 32]).as_bytes(), &[7u8; 32]);
}

#[test]
fn left_subtree_lengths() {
    assert_eq!(left_len(1025), 1024);
    assert_eq!(left_len(2048), 1024);
    assert_eq!(left_len(2049), 2048);
    assert_eq!(left_len(4096), 2048);
    assert_eq!(left_len(4097), 4096);
    assert_eq!(left_len(5 * 1024), 4096);
}

#[test]
fn hash_of_a_part_of_a_blob() {
    let data = test_data(7000);
    assert_eq!(blake3_hash_inner(&data, ChunkNum(0), true).0, *blake3::hash(&data).as_bytes());
    assert_eq!(blake3_hash_inner(&data, ChunkNum(16), false), hash_subtree(16, &data, false));
    assert_eq!(blake3_hash_inner(&data[..1], ChunkNum(3), false), hash_chunk(3, &data[..1], false));
}

#[test]
fn hash_pairs_on_the_wire() {
    let l = bao_tree::hash::Hash([1; 32]);
    let r = bao_tree::hash::Hash([2; 32]);
    let bytes = combine_hash_pair(&l, &r);
    assert_eq!(&bytes[..32], &[1u8; 32]);
    assert_eq!(&bytes[32..], &[2u8; 32]);
    assert_eq!(parse_hash_pair(&bytes), (l, r));
}

#[test]
fn reading_from_memory() {
    let mut data = vec![5u8, 0, 0, 0, 0, 0, 0, 1];
    data.extend_from_slice(&[9u8; 64]);
    data.push(3);
    let mut reader = SliceReader::new(&data);
    assert_eq!(read_len(&mut reader), Ok(ByteNum(5 + (1 << 56))));
    assert_eq!(reader.position(), 8);
    let (l, r) = read_parent(&mut reader).unwrap();
    assert_eq!((l.0, r.0), ([9u8; 32], [9u8; 32]));
    assert_eq!(read_parent(&mut reader), Err(IoErrorKind::UnexpectedEof));
    assert_eq!(read_len(&mut reader), Err(IoErrorKind::UnexpectedEof));
    assert_eq!(reader.read_exact(1), Ok(&[3u8][..]));
    assert_eq!(reader.read_exact(1), Err(IoErrorKind::UnexpectedEof));
    assert_eq!(reader.read_exact(0), Ok(&[][..]));
    assert_eq!(read_range(&data, ByteNum(1), ByteNum(3)), Ok(&[0u8, 0][..]));
    assert_eq!(read_range(&data, ByteNum(70), ByteNum(74)), Err(IoErrorKind::UnexpectedEof));
}

#[test]
fn writing_at_an_offset() {
    let mut target = vec![1u8, 2, 3];
    write_all_at(&mut target, 1, &[9]).unwrap();
    assert_eq!(target, vec![1, 9, 3]);
    write_all_at(&mut target, 2, &[7, 8]).unwrap();
    assert_eq!(target, vec![1, 9, 7, 8]);
    write_all_at(&mut target, 6, &[5]).unwrap();
    assert_eq!(target, vec![1, 9, 7, 8, 0, 0, 5]);
    write_all_at(&mut target, 7, &[]).unwrap();
    assert_eq!(target.len(), 7);
    assert_eq!(write_all_at(&mut target, u64::MAX, &[1, 2]), Err(IoErrorKind::InvalidInput));
    assert_eq!(target.len(), 7);
}

#[test]
fn write_ranges_copies_each_range() {
    let from: Vec<u8> = (0u8..20).collect();
    let mut to = vec![0xFFu8; 4];
    let mut ranges = RangeSet2::from(2u64..5);
    ranges |= RangeSet2::from(8u64..10);
    write_ranges(&from, &mut to, &ranges).unwrap();
    assert_eq!(to, vec![0xFF, 0xFF, 2, 3, 4, 0, 0, 0, 8, 9]);
    let mut to = Vec::new();
    write_ranges(&from, &mut to, &RangeSet2::from(18u64..)).unwrap();
    let mut expected = vec![0u8; 18];
    expected.extend_from_slice(&[18, 19]);
    assert_eq!(to, expected);
    // the ranges that are written, one after the other
    assert_eq!(bao_tree::io::sync::byte_ranges(&ranges, 20), vec![(2, 5), (8, 10)]);
    assert_eq!(bao_tree::io::sync::byte_ranges(&RangeSet2::from(18u64..), 20), vec![(18, 20)]);
    assert_eq!(bao_tree::io::sync::byte_ranges(&RangeSet2::empty(), 20), vec![]);
}

#[test]
fn query_ranges_against_a_blob() {
    assert!(range_ok(&all(), ChunkNum(0)));
    assert!(range_ok(&RangeSet2::from(1u64..3), ChunkNum(3)));
    assert!(!range_ok(&RangeSet2::from(1u64..4), ChunkNum(3)));
    assert!(!range_ok(&RangeSet2::from(4u64..), ChunkNum(3)));
    assert!(range_ok(&RangeSet2::empty(), ChunkNum(0)));
    let ranges = RangeSet2::from(2u64..9);
    assert_eq!(truncate_ranges(&ranges, ByteNum(4097)).boundaries(), &[2]);
    assert_eq!(truncate_ranges(&ranges, ByteNum(10 * 1024)).boundaries(), &[2, 9]);
    assert_eq!(truncate_ranges(&ranges, ByteNum(2048)).boundaries(), &[] as &[u64]);
    assert_eq!(truncate_ranges(&all(), ByteNum(0)).boundaries(), &[] as &[u64]);
    assert_eq!(truncate_ranges(&all(), ByteNum(1)).boundaries(), &[0]);
}

#[test]
fn outboards_load_what_was_built() {
    let data = test_data(4097);
    let post = post_order(&data, 0);
    let pre = pre_order(&data, 0);
    assert_eq!(post.root, pre.root);
    assert_eq!(post.root.0, *blake3::hash(&data).as_bytes());
    let l = hash_chunk(0, &data[..1024], false);
    let r = hash_chunk(1, &data[1024..2048], false);
    assert_eq!(post.load(TreeNode::new(0, 0)), Ok(Some((l, r))));
    assert_eq!(pre.load(TreeNode::new(0, 0)), Ok(Some((l, r))));
    assert_eq!(post.load(TreeNode::new(0, 2)), Ok(None));
    assert_eq!(pre.load(TreeNode::new(0, 2)), Ok(None));
    assert_eq!(pre.load(TreeNode::new(3, 3)), Ok(None));
    let (rl, rr) = post.load(post.tree.root()).unwrap().unwrap();
    assert_eq!(parent_cv(&rl, &rr, true), post.root);
    assert_eq!(pre.load(pre.tree.root()), Ok(Some((rl, rr))));
    assert_eq!(post.tree(), BaoTree::new(ByteNum(4097), BlockSize::zero()));
    assert_eq!(Outboard::root(&post), post.root);
    // the same pairs, in the two orders
    assert_eq!(&post.data[..64], &pre.data[128..192]);
    assert_eq!(&post.data[192..], &pre.data[..64]);
}

#[test]
fn outboard_with_missing_pairs_fails_to_load() {
    let data = test_data(4097);
    let mut post = post_order(&data, 0);
    post.data.truncate(128);
    assert_eq!(post.load(TreeNode::new(0, 1)).map(|x| x.is_some()), Ok(true));
    assert_eq!(post.load(TreeNode::new(1, 0)), Err(IoErrorKind::UnexpectedEof));
    let pair = (bao_tree::hash::Hash([1; 32]), bao_tree::hash::Hash([2; 32]));
    assert_eq!(post.save(TreeNode::new(1, 0), &pair), Err(IoErrorKind::UnexpectedEof));
    assert_eq!(post.save(TreeNode::new(0, 2), &pair), Ok(()));
    assert_eq!(post.save(TreeNode::new(0, 1), &pair), Ok(()));
    assert_eq!(post.load(TreeNode::new(0, 1)), Ok(Some(pair)));
    assert_eq!(post.load(TreeNode::new(0, 0)).map(|x| x == Some(pair)), Ok(false));
}

#[test]
fn loading_an_outboard_checks_its_length() {
    let data = test_data(4097);
    let bs = BlockSize::zero();
    let mut bytes = Vec::new();
    let root = outboard_post_order_io(&data, 4097, bs, &mut bytes).unwrap();
    assert_eq!(bytes.len(), 8 + 4 * 64);
    assert_eq!(&bytes[256..], &4097u64.to_le_bytes());
    assert!(PostOrderMemOutboard::load(root, &bytes, bs).is_ok());
    assert_eq!(
        PostOrderMemOutboard::load(root, &bytes[1..], bs),
        Err(IoErrorKind::InvalidInput)
    );
    assert_eq!(PostOrderMemOutboard::load(root, &bytes[..7], bs), Err(IoErrorKind::InvalidInput));
    assert_eq!(
        PostOrderMemOutboard::load(root, &bytes, BlockSize::from_chunk_log(1)),
        Err(IoErrorKind::InvalidInput)
    );
    let mut pre = 4097u64.to_le_bytes().to_vec();
    pre.extend_from_slice(&bytes[..256]);
    let ob = PreOrderMemOutboard::load(root, &pre, bs).unwrap();
    assert_eq!(ob.data, &bytes[..256]);
    assert_eq!(ob.tree.size(), ByteNum(4097));
    assert_eq!(PreOrderMemOutboard::load(root, &pre[..100], bs), Err(IoErrorKind::InvalidInput));
    assert_eq!(
        outboard_post_order(&data, 5000, bs, &mut bytes),
        Err(IoErrorKind::UnexpectedEof)
    );
    assert_eq!(
        write_outboard_from_mem(&data[..100], &mut PreOrderMemOutboard::new(root, ob.tree, vec![])),
        Err(IoErrorKind::InvalidInput)
    );
}

#[test]
fn four_thousand_ninety_seven_bytes() {
    let data = test_data(4097);
    let ob = post_order(&data, 0);
    let items = {
        let mut encoded = Vec::new();
        encode_ranges(&data, &ob, &all(), &mut encoded).unwrap();
        assert_eq!(encoded.len(), 8 + 4 * 64 + 4097);
        decode(ob.root, 0, &encoded, &all())
    };
    let mut parents = Vec::new();
    let mut leaves = Vec::new();
    for item in items {
        match item.unwrap() {
            DecodeResponseItem::Header(h) => assert_eq!(h, Header { size: ByteNum(4097) }),
            DecodeResponseItem::Parent(p) => parents.push(p),
            DecodeResponseItem::Leaf(l) => leaves.push(l),
        }
    }
    assert_eq!(parents.len(), 4);
    assert_eq!(leaves.len(), 5);
    assert_eq!(leaves[4], Leaf { offset: ByteNum(4096), data: data[4096..].to_vec().into() });
    // the last leaf has no hash pair of its own: its hash is the right hash of the root
    let root: &Parent = &parents[0];
    assert_eq!(root.node, TreeNode::new(2, 0));
    assert_eq!(root.pair.1, hash_chunk(4, &data[4096..], false));
    assert_eq!(parent_cv(&root.pair.0, &root.pair.1, true), ob.root);
    assert!(parents.iter().all(|p| p.node != TreeNode::new(0, 2)));
}

#[test]
fn decoder_failures_name_the_place() {
    let data = test_data(3000);
    let ob = post_order(&data, 0);
    let mut encoded = Vec::new();
    encode_ranges(&data, &ob, &all(), &mut encoded).unwrap();
    let root = ob.tree.root();
    let cut = |n: usize| decode(ob.root, 0, &encoded[..n], &all());
    assert_eq!(cut(7), vec![Err(DecodeError::NotFound)]);
    assert_eq!(cut(8).last(), Some(&Err(DecodeError::ParentNotFound(root))));
    assert_eq!(cut(8 + 63).last(), Some(&Err(DecodeError::ParentNotFound(root))));
    assert_eq!(cut(8 + 64).last(), Some(&Err(DecodeError::ParentNotFound(TreeNode::new(0, 0)))));
    assert_eq!(cut(8 + 128 + 1023).last(), Some(&Err(DecodeError::LeafNotFound(ChunkNum(0)))));
    assert_eq!(cut(encoded.len() - 1).last(), Some(&Err(DecodeError::LeafNotFound(ChunkNum(2)))));
    assert!(cut(encoded.len()).iter().all(|x| x.is_ok()));
    let mut bad = encoded.clone();
    bad[8 + 64] ^= 0x80;
    assert_eq!(
        decode(ob.root, 0, &bad, &all()).last(),
        Some(&Err(DecodeError::ParentHashMismatch(TreeNode::new(0, 0))))
    );
    let mut bad = encoded.clone();
    bad[8 + 128 + 1024 + 5] ^= 1;
    assert_eq!(
        decode(ob.root, 0, &bad, &all()).last(),
        Some(&Err(DecodeError::LeafHashMismatch(ChunkNum(1))))
    );
    let mut bad = encoded.clone();
    let n = bad.len();
    bad[n - 1] ^= 1;
    assert_eq!(
        decode(ob.root, 0, &bad, &all()).last(),
        Some(&Err(DecodeError::LeafHashMismatch(ChunkNum(2))))
    );
    // a wrong size in the header is trusted until the data of the last chunk is read
    let mut bad = encoded.clone();
    bad[0] ^= 1;
    let items = decode(ob.root, 0, &bad, &all());
    assert_eq!(items[0], Ok(DecodeResponseItem::Header(Header { size: ByteNum(3001) })));
    assert_eq!(items.last(), Some(&Err(DecodeError::LeafNotFound(ChunkNum(2)))));
    // a size with a higher tree shows where the trees part: the hash pairs of the root
    // and of the first leaf pass for those of the two nodes on top of the higher tree
    let mut bad = encoded.clone();
    bad[1] ^= 0x80;
    assert_eq!(
        decode(ob.root, 0, &bad, &all()).last(),
        Some(&Err(DecodeError::ParentHashMismatch(TreeNode::new(3, 0))))
    );
}

#[test]
fn every_flipped_bit_is_detected() {
    let data = test_data(2500);
    let ob = post_order(&data, 1);
    let mut encoded = Vec::new();
    encode_ranges(&data, &ob, &all(), &mut encoded).unwrap();
    for i in 8..encoded.len() {
        let mut bad = encoded.clone();
        bad[i] ^= 1 << (i % 8);
        let last = decode(ob.root, 1, &bad, &all()).pop().unwrap();
        assert!(matches!(
            last,
            Err(DecodeError::ParentHashMismatch(_)) | Err(DecodeError::LeafHashMismatch(_))
        ));
    }
}

#[test]
fn encoder_failures() {
    let data = test_data(4097);
    let ob = post_order(&data, 0);
    let mut out = Vec::new();
    // the blob is shorter than the outboard says: nothing is written
    assert_eq!(
        encode_ranges(&data[..4000], &ob, &all(), &mut out),
        Err(EncodeError::Io(IoErrorKind::InvalidInput))
    );
    assert_eq!(
        encode_ranges_validated(&data[..4000], &ob, &all(), &mut out),
        Err(EncodeError::Io(IoErrorKind::InvalidInput))
    );
    // the query goes beyond the blob
    assert_eq!(
        encode_ranges(&data, &ob, &RangeSet2::from(2u64..9), &mut out),
        Err(EncodeError::InvalidQueryRange)
    );
    assert_eq!(
        encode_ranges_validated(&data, &ob, &RangeSet2::from(6u64..), &mut out),
        Err(EncodeError::InvalidQueryRange)
    );
    assert!(out.is_empty());
    // the outboard lacks a pair
    let mut short = ob.clone();
    short.data.truncate(64);
    let mut out = Vec::new();
    assert_eq!(
        encode_ranges(&data, &short, &all(), &mut out),
        Err(EncodeError::Io(IoErrorKind::UnexpectedEof))
    );
    assert_eq!(out, 4097u64.to_le_bytes());
    // a wrong pair
    let mut bad = ob.clone();
    bad.data[64] ^= 1;
    let mut out = Vec::new();
    assert_eq!(
        encode_ranges_validated(&data, &bad, &all(), &mut out),
        Err(EncodeError::ParentHashMismatch(TreeNode::new(0, 1)))
    );
    assert_eq!(out.len(), 8 + 3 * 64 + 2048);
    // wrong data
    let mut wrong = data.clone();
    wrong[1500] ^= 1;
    let mut out = Vec::new();
    assert_eq!(
        encode_ranges_validated(&wrong, &ob, &all(), &mut out),
        Err(EncodeError::LeafHashMismatch(ChunkNum(1)))
    );
    assert_eq!(out.len(), 8 + 3 * 64 + 1024);
    let mut out = Vec::new();
    assert_eq!(
        encode_ranges_validated(&data[..10], &ob, &all(), &mut out),
        Err(EncodeError::Io(IoErrorKind::InvalidInput))
    );
    // a wrong root
    let mut bad = ob.clone();
    bad.root.0[0] ^= 1;
    assert_eq!(
        encode_ranges_validated(&data, &bad, &all(), &mut Vec::new()),
        Err(EncodeError::ParentHashMismatch(TreeNode::new(2, 0)))
    );
}

#[test]
fn encoders_in_memory_check_size_and_query() {
    let data = test_data(3000);
    let ob = pre_order(&data, 0);
    let mut out = Vec::new();
    assert_eq!(
        bao_tree::io::encode_ranges(&data[..2999], &ob, &all(), &mut out),
        Err(DecodeError::Io(IoErrorKind::InvalidInput))
    );
    assert_eq!(
        bao_tree::io::encode_ranges(&data, &ob, &RangeSet2::from(1u64..4), &mut out),
        Err(DecodeError::InvalidQueryRange)
    );
    assert_eq!(
        bao_tree::io::encode_ranges_validated(&data, &ob, &RangeSet2::from(9u64..), &mut out),
        Err(DecodeError::InvalidQueryRange)
    );
    assert!(out.is_empty());
    bao_tree::io::encode_ranges(&data, &ob, &RangeSet2::from(1u64..3), &mut out).unwrap();
    let mut validated = Vec::new();
    bao_tree::io::encode_ranges_validated(&data, &ob, &RangeSet2::from(1u64..3), &mut validated)
        .unwrap();
    assert_eq!(out, validated);
    let mut newer = Vec::new();
    encode_ranges(&data, &ob, &RangeSet2::from(1u64..3), &mut newer).unwrap();
    assert_eq!(out, newer);
    let mut whole = Vec::new();
    encode_validated(&data, &ob, &mut whole).unwrap();
    assert_eq!(whole.len(), 8 + 2 * 64 + 3000);
    let mut wrong = data.clone();
    wrong[0] ^= 1;
    assert_eq!(encode_validated(&wrong, &ob, &mut Vec::new()), Err(IoErrorKind::InvalidData));
    assert_eq!(encode_validated(&data[..5], &ob, &mut Vec::new()), Err(IoErrorKind::InvalidInput));
}

#[test]
fn slice_decoder_hands_out_ranges() {
    let data = test_data(5000);
    let ob = post_order(&data, 0);
    let ranges = RangeSet2::from(1u64..3);
    let mut encoded = Vec::new();
    bao_tree::io::encode_ranges(&data, &ob, &ranges, &mut encoded).unwrap();
    let mut scratch = vec![0u8; 1024];
    let mut iter = DecodeSliceIter::new(ob.root, BlockSize::zero(), &encoded, &ranges, &mut scratch);
    assert_eq!(iter.tree(), None);
    let r = iter.next().unwrap().unwrap();
    assert_eq!((r.start, r.end), (ByteNum(1024), ByteNum(2048)));
    assert_eq!(iter.buffer(), &data[1024..2048]);
    assert_eq!(iter.buffer().len(), 1024);
    assert_eq!(iter.tree(), Some(ob.tree));
    let r = iter.next().unwrap().unwrap();
    assert_eq!((r.start, r.end), (ByteNum(2048), ByteNum(3072)));
    assert_eq!(iter.buffer(), &data[2048..3072]);
    assert!(iter.next().is_none());
    assert!(iter.next().is_none());
    // a query beyond the blob is cut off at its end once the size is known
    let two = test_data(2048);
    let tob = post_order(&two, 0);
    let mut slice = Vec::new();
    bao_tree::io::encode_ranges(&two, &tob, &RangeSet2::from(1u64..2), &mut slice).unwrap();
    let beyond = RangeSet2::from(1u64..5);
    let mut scratch = vec![0u8; 2000];
    let mut iter = DecodeSliceIter::new(tob.root, BlockSize::zero(), &slice, &beyond, &mut scratch);
    let r = iter.next().unwrap().unwrap();
    assert_eq!((r.start, r.end), (ByteNum(1024), ByteNum(2048)));
    assert_eq!(&iter.buffer()[..1024], &two[1024..]);
    assert_eq!(iter.buffer().len(), 2000);
    assert_eq!(iter.next(), None);
    let mut target = vec![0u8; 2048];
    let mut scratch = vec![0u8; 1024];
    let written =
        decode_ranges_into(tob.root, BlockSize::zero(), &slice, &beyond, &mut scratch, &mut target);
    assert_eq!(written, vec![Ok(ByteNum(1024)..ByteNum(2048))]);
    assert_eq!(&target[1024..], &two[1024..]);
    let mut scratch = vec![0u8; 1024];
    let mut iter =
        DecodeSliceIter::new(ob.root, BlockSize::zero(), &encoded[..3], &ranges, &mut scratch);
    assert_eq!(iter.next(), Some(Err(DecodeError::NotFound)));
}

#[test]
fn decoding_into_a_target() {
    let data = test_data(5000);
    let ob = post_order(&data, 0);
    let ranges = RangeSet2::from(1u64..3);
    let mut encoded = Vec::new();
    bao_tree::io::encode_ranges(&data, &ob, &ranges, &mut encoded).unwrap();
    let chunks = decode_ranges_into_chunks(
        ob.root,
        BlockSize::zero(),
        &encoded,
        &ranges,
        &mut [0u8; 1024],
    );
    assert_eq!(
        chunks,
        vec![
            Ok((ByteNum(1024), data[1024..2048].to_vec())),
            Ok((ByteNum(2048), data[2048..3072].to_vec()))
        ]
    );
    let mut target = vec![0u8; 5000];
    let written = decode_ranges_into(
        ob.root,
        BlockSize::zero(),
        &encoded,
        &ranges,
        &mut [0u8; 1024],
        &mut target,
    );
    assert_eq!(written, vec![Ok(ByteNum(1024)..ByteNum(2048)), Ok(ByteNum(2048)..ByteNum(3072))]);
    assert_eq!(&target[1024..3072], &data[1024..3072]);
    assert!(target[..1024].iter().all(|x| *x == 0));
    assert!(target[3072..].iter().all(|x| *x == 0));
    let mut small = vec![0u8; 4999];
    assert_eq!(
        decode_ranges_into(
            ob.root,
            BlockSize::zero(),
            &encoded,
            &ranges,
            &mut [0u8; 1024],
            &mut small,
        ),
        vec![Err(IoErrorKind::InvalidInput)]
    );
    let mut bad = encoded.clone();
    bad[100] ^= 1;
    assert_eq!(
        decode_ranges_into_chunks(ob.root, BlockSize::zero(), &bad, &ranges, &mut [0u8; 1024]),
        vec![Err(IoErrorKind::InvalidData)]
    );
    assert_eq!(
        decode_ranges_into_chunks(
            ob.root,
            BlockSize::zero(),
            &encoded[..500],
            &ranges,
            &mut [0u8; 1024],
        ),
        vec![Err(IoErrorKind::UnexpectedEof)]
    );
    // the data that was verified before a failure is handed out
    let mut late = encoded.clone();
    let last = late.len() - 1;
    late[last] ^= 1;
    assert_eq!(
        decode_ranges_into_chunks(ob.root, BlockSize::zero(), &late, &ranges, &mut [0u8; 1024]),
        vec![Ok((ByteNum(1024), data[1024..2048].to_vec())), Err(IoErrorKind::InvalidData)]
    );
}

#[test]
fn decoding_a_response_into_an_outboard() {
    let data = test_data(9000);
    let ob = post_order(&data, 1);
    let ranges = RangeSet2::from(2u64..5);
    let mut encoded = Vec::new();
    encode_ranges_validated(&data, &ob, &ranges, &mut encoded).unwrap();
    let mut target = Vec::new();
    let create = |tree: BaoTree, root: bao_tree::hash::Hash| {
        let pairs = tree.outboard_hash_pairs() as usize;
        Ok(PreOrderMemOutboard::new(root, tree, vec![0; pairs * 64]))
    };
    let bs = BlockSize::from_chunk_log(1);
    let received = decode_response_into(ob.root, bs, &ranges, &encoded, create, &mut target)
        .unwrap()
        .unwrap();
    assert_eq!(received.tree, ob.tree);
    assert_eq!(received.root, ob.root);
    // chunks 2 to 4 were sent, and nothing of chunk 5
    assert_eq!(&target[2048..5120], &data[2048..5120]);
    assert_eq!(target.len(), 5120);
    assert_eq!(&target[..2048], &[0u8; 2048]);
    for node in [TreeNode::new(2, 0), TreeNode::new(1, 0), TreeNode::new(0, 0), TreeNode::new(0, 1)] {
        assert_eq!(received.load(node), ob.load(node));
    }
    // a response without hash pairs makes no outboard
    let tiny = test_data(10);
    let tob = post_order(&tiny, 0);
    let mut encoded = Vec::new();
    encode_ranges(&tiny, &tob, &all(), &mut encoded).unwrap();
    let mut target = Vec::new();
    let none = decode_response_into(tob.root, BlockSize::zero(), &all(), &encoded, create, &mut target)
        .unwrap();
    assert!(none.is_none());
    assert_eq!(target, tiny);
    let failing = |_: BaoTree, _: bao_tree::hash::Hash| -> Result<PreOrderMemOutboard, IoErrorKind> {
        Err(IoErrorKind::Other)
    };
    let mut encoded = Vec::new();
    encode_ranges_validated(&data, &ob, &ranges, &mut encoded).unwrap();
    assert_eq!(
        decode_response_into(ob.root, bs, &ranges, &encoded, failing, &mut Vec::new()).err(),
        Some(DecodeError::Io(IoErrorKind::Other))
    );
    // a failure of the decoder ends the work; what was written before stays
    let mut bad = encoded.clone();
    let last = bad.len() - 1;
    bad[last] ^= 1;
    let mut target = Vec::new();
    assert_eq!(
        decode_response_into(ob.root, bs, &ranges, &bad, create, &mut target).err(),
        Some(DecodeError::LeafHashMismatch(ChunkNum(4)))
    );
    assert_eq!(&target[2048..4096], &data[2048..4096]);
    assert_eq!(target.len(), 4096);
}

#[test]
fn validators_find_what_agrees() {
    let data = test_data(10 * 1024 + 7);
    for log in 0u8..3 {
        let ob = post_order(&data, log);
        assert_eq!(valid_outboard_ranges(&ob).unwrap().to_boundaries(), vec![0, 11]);
        assert_eq!(valid_file_ranges(&ob, &data).unwrap().to_boundaries(), vec![0, 11]);
    }
    let ob = post_order(&data, 0);
    // chunk 5 of the blob is wrong
    let mut wrong = data.clone();
    wrong[5 * 1024 + 3] ^= 1;
    assert_eq!(valid_file_ranges(&ob, &wrong).unwrap().to_boundaries(), vec![0, 5, 6, 11]);
    assert_eq!(valid_outboard_ranges(&ob).unwrap().to_boundaries(), vec![0, 11]);
    // the pair of the leaf of chunks 2 and 3 is wrong
    let mut bad = ob.clone();
    let o = ob.tree.post_order_offset(TreeNode::new(0, 1)).unwrap() as usize;
    bad.data[o * 64 + 40] ^= 1;
    assert_eq!(valid_outboard_ranges(&bad).unwrap().to_boundaries(), vec![0, 2, 4, 11]);
    assert_eq!(valid_file_ranges(&bad, &data).unwrap().to_boundaries(), vec![0, 2, 4, 11]);
    // a wrong root hash vouches for nothing
    let mut bad = ob.clone();
    bad.root.0[31] ^= 1;
    assert_eq!(valid_outboard_ranges(&bad).unwrap().to_boundaries(), Vec::<u64>::new());
    assert_eq!(valid_file_ranges(&bad, &data).unwrap().to_boundaries(), Vec::<u64>::new());
    // a short blob cannot be read
    assert_eq!(valid_file_ranges(&ob, &data[..100]).err(), Some(IoErrorKind::UnexpectedEof));
    let mut short = ob.clone();
    short.data.truncate(64);
    assert_eq!(valid_outboard_ranges(&short).err(), Some(IoErrorKind::UnexpectedEof));
    let empty = post_order(&[], 0);
    assert_eq!(valid_file_ranges(&empty, &[]).unwrap().to_boundaries(), Vec::<u64>::new());
}

// the data that a decoder hands out, each piece with its first chunk
fn decoded_leaves(
    root: bao_tree::hash::Hash,
    log: u8,
    ranges: &RangeSet2<u64>,
    encoded: &[u8],
) -> Vec<(u64, Vec<u8>)> {
    let mut leaves = Vec::new();
    let items = decode(root, log, encoded, ranges);
    assert!(matches!(items[0], Ok(DecodeResponseItem::Header(_))));
    for item in items {
        if let DecodeResponseItem::Leaf(leaf) = item.unwrap() {
            assert_eq!(leaf.offset.0 % 1024, 0);
            leaves.push((leaf.offset.0 / 1024, leaf.data.to_vec()));
        }
    }
    leaves
}

#[test]
fn selection_within_a_block() {
    // 80 KiB in blocks of 16 KiB, of which chunks 3 and 4 are asked for
    let data = test_data(80 * 1024);
    let ob = post_order(&data, 4);
    let ranges = RangeSet2::from(3u64..5);
    let mut encoded = Vec::new();
    encode_ranges_validated(&data, &ob, &ranges, &mut encoded).unwrap();
    // three hash pairs of the tree of blocks, six within the block, and two chunks
    assert_eq!(encoded.len(), 8 + 3 * 64 + 6 * 64 + 2 * 1024);
    let leaves = decoded_leaves(ob.root, 4, &ranges, &encoded);
    assert_eq!(
        leaves,
        vec![(3, data[3 * 1024..4 * 1024].to_vec()), (4, data[4 * 1024..5 * 1024].to_vec())]
    );
    // the hash pairs within the block are told by the node of no tree
    let items = decode(ob.root, 4, &encoded, &ranges);
    let inner = items
        .iter()
        .filter(|item| match item {
            Ok(DecodeResponseItem::Parent(p)) => p.node == bao_tree::iter::inner_node(),
            _ => false,
        })
        .count();
    assert_eq!(inner, 6);
    assert_eq!(items.len(), 1 + 3 + 6 + 2);
    assert!(!ob.tree.is_persisted(bao_tree::iter::inner_node()));
    // a wrong hash pair within the block is found
    let mut bad = encoded.clone();
    bad[8 + 3 * 64] ^= 1;
    assert_eq!(
        decode(ob.root, 4, &bad, &ranges).pop().unwrap(),
        Err(DecodeError::ParentHashMismatch(bao_tree::iter::inner_node()))
    );
    // without validation the whole block goes on the wire
    let mut plain = Vec::new();
    encode_ranges(&data, &ob, &ranges, &mut plain).unwrap();
    assert_eq!(plain.len(), 8 + 3 * 64 + 16 * 1024);
}

#[test]
fn selections_match_the_response_directives() {
    let data = test_data(70 * 1024 + 100);
    for log in 1u8..5 {
        let ob = post_order(&data, log);
        for (a, b) in [(0u64, 1u64), (3, 5), (7, 8), (15, 17), (30, 64), (69, 71), (0, 71), (5, 200)] {
            let ranges = RangeSet2::from(a..b);
            let mut encoded = Vec::new();
            encode_ranges_validated(&data, &ob, &RangeSet2::from(a..b.min(71)), &mut encoded).unwrap();
            // the decoder cuts the query off at the end of the blob
            assert_eq!(truncate_ranges(&ranges, ob.tree.size()).boundaries()[0], a);
            let leaves = decoded_leaves(ob.root, log, &ranges, &encoded);
            let mut got = Vec::new();
            for (start, bytes) in &leaves {
                assert_eq!(bytes.as_slice(), &data[*start as usize * 1024..][..bytes.len()]);
                for i in 0..((bytes.len() + 1023) / 1024) as u64 {
                    got.push(start + i);
                }
            }
            let expected: Vec<u64> = (a..b.min(71)).collect();
            assert_eq!(got, expected, "log {} range {}..{}", log, a, b);
        }
    }
}

#[test]
fn selected_wire_of_one_block() {
    let data = test_data(4096);
    let mut res = Vec::new();
    let query = RangeSet2::from(1u64..2);
    let h = encode_selected_rec(ChunkNum(0), &data, false, &query, true, &mut res);
    assert_eq!(h, hash_subtree(0, &data, false));
    let c: Vec<_> = (0..4).map(|i| hash_chunk(i as u64, &data[i * 1024..(i + 1) * 1024], false)).collect();
    let mut expected = Vec::new();
    expected.extend_from_slice(&parent_cv(&c[0], &c[1], false).0);
    expected.extend_from_slice(&parent_cv(&c[2], &c[3], false).0);
    expected.extend_from_slice(&c[0].0);
    expected.extend_from_slice(&c[1].0);
    expected.extend_from_slice(&data[1024..2048]);
    assert_eq!(res, expected);
    // nothing is written for a query that does not reach the data
    let mut res = Vec::new();
    let h = encode_selected_rec(ChunkNum(0), &data, true, &RangeSet2::empty(), true, &mut res);
    assert_eq!(h, hash_subtree(0, &data, true));
    assert_eq!(h.0, *blake3::hash(&data).as_bytes());
    assert!(res.is_empty());
    // all of it: the data as it is
    let mut res = Vec::new();
    encode_selected_rec(ChunkNum(8), &data, false, &RangeSet2::from(2u64..), true, &mut res);
    assert_eq!(res, data);
    // hashes only
    let mut res = Vec::new();
    encode_selected_rec(ChunkNum(0), &data, false, &query, false, &mut res);
    assert_eq!(res, &expected[..128]);
}

#[test]
fn error_kinds() {
    assert_eq!(StartDecodeError::maybe_not_found(IoErrorKind::UnexpectedEof), StartDecodeError::NotFound);
    assert_eq!(
        StartDecodeError::maybe_not_found(IoErrorKind::Other),
        StartDecodeError::Io(IoErrorKind::Other)
    );
    let node = TreeNode::new(1, 0);
    assert_eq!(
        DecodeError::maybe_parent_not_found(IoErrorKind::UnexpectedEof, node),
        DecodeError::ParentNotFound(node)
    );
    assert_eq!(
        DecodeError::maybe_parent_not_found(IoErrorKind::InvalidData, node),
        DecodeError::Io(IoErrorKind::InvalidData)
    );
    assert_eq!(
        DecodeError::maybe_leaf_not_found(IoErrorKind::UnexpectedEof, ChunkNum(4)),
        DecodeError::LeafNotFound(ChunkNum(4))
    );
    assert_eq!(DecodeError::from_start(StartDecodeError::NotFound), DecodeError::NotFound);
    assert_eq!(DecodeError::from(IoErrorKind::Other), DecodeError::Io(IoErrorKind::Other));
    assert_eq!(IoErrorKind::from(DecodeError::InvalidQueryRange), IoErrorKind::InvalidInput);
    assert_eq!(DecodeError::LeafHashMismatch(ChunkNum(1)).io_kind(), IoErrorKind::InvalidData);
    assert_eq!(DecodeError::ParentNotFound(node).io_kind(), IoErrorKind::UnexpectedEof);
    assert_eq!(
        DecodeError::from_encode(EncodeError::ParentHashMismatch(node)),
        DecodeError::ParentHashMismatch(node)
    );
    assert_eq!(
        DecodeResponseItem::from(Header { size: ByteNum(3) }),
        DecodeResponseItem::Header(Header { size: ByteNum(3) })
    );
}

#[test]
fn decoded_data_covers_the_blocks_of_the_query() {
    let data = test_data(23 * 1024 + 5);
    for log in 0u8..4 {
        let post = post_order(&data, log);
        let pre = pre_order(&data, log);
        for (a, b) in [(0u64, 1u64), (1, 2), (3, 9), (8, 16), (22, 23), (23, 24), (20, 90), (24, 30)] {
            let ranges = RangeSet2::from(a..b);
            let within = RangeSet2::from(a..b.min(24));
            let mut encoded = Vec::new();
            encode_ranges_validated(&data, &post, &within, &mut encoded).unwrap();
            // the same slice from an outboard in the other order
            let mut other = Vec::new();
            encode_ranges_validated(&data, &pre, &within, &mut other).unwrap();
            assert_eq!(encoded, other);
            let mut plain = Vec::new();
            encode_ranges(&data, &post, &within, &mut plain).unwrap();
            let mut plain_other = Vec::new();
            encode_ranges(&data, &pre, &within, &mut plain_other).unwrap();
            assert_eq!(plain, plain_other);
            // the decoder hands out the chunks of the query, in order, and no others
            let mut got = Vec::new();
            for (start, bytes) in decoded_leaves(post.root, log, &ranges, &encoded) {
                assert_eq!(&bytes[..], &data[start as usize * 1024..][..bytes.len()]);
                assert!(bytes.len() <= 1024 << log);
                for i in 0..((bytes.len() as u64 + 1023) / 1024) {
                    got.push(start + i);
                }
            }
            let expected: Vec<u64> = (a..b.min(24)).collect();
            assert_eq!(got, expected, "log {} range {}..{}", log, a, b);
        }
    }
}

#[test]
fn part_of_a_block_is_decoded() {
    // 80 KiB in blocks of 16 KiB, every chunk filled with its number
    let blob: Vec<u8> = (0..81920usize).map(|i| (i / 1024) as u8).collect();
    let ob = post_order(&blob, 4);
    assert_eq!(ob.root.0, *blake3::hash(&blob).as_bytes());
    let ranges = RangeSet2::from(3u64..5);
    let mut encoded = Vec::new();
    encode_ranges_validated(&blob, &ob, &ranges, &mut encoded).unwrap();
    assert_eq!(encoded.len(), 2632);
    let items = decode(ob.root, 4, &encoded, &ranges);
    assert_eq!(items[0], Ok(DecodeResponseItem::Header(Header { size: ByteNum(81920) })));
    let leaves: Vec<Leaf> = items
        .into_iter()
        .filter_map(|item| match item.unwrap() {
            DecodeResponseItem::Leaf(leaf) => Some(leaf),
            _ => None,
        })
        .collect();
    assert_eq!(
        leaves,
        vec![
            Leaf { offset: ByteNum(3072), data: vec![3u8; 1024].into() },
            Leaf { offset: ByteNum(4096), data: vec![4u8; 1024].into() },
        ]
    );
    // one block of two chunks, of which the second is asked for
    let two = test_data(2048);
    let tob = post_order(&two, 1);
    let second = RangeSet2::from(1u64..2);
    let mut encoded = Vec::new();
    encode_ranges_validated(&two, &tob, &second, &mut encoded).unwrap();
    assert_eq!(encoded.len(), 8 + 64 + 1024);
    assert_eq!(decoded_leaves(tob.root, 1, &second, &encoded), vec![(1, two[1024..].to_vec())]);
}

#[test]
fn a_changed_size_is_found() {
    let data = test_data(5000);
    for log in 0u8..3 {
        let ob = post_order(&data, log);
        let mut encoded = Vec::new();
        encode_ranges(&data, &ob, &all(), &mut encoded).unwrap();
        for bit in 0..64 {
            let mut bad = encoded.clone();
            bad[bit / 8] ^= 1 << (bit % 8);
            let items = decode(ob.root, log, &bad, &all());
            // the size is handed out as it was read, and a failure follows
            let size = u64::from_le_bytes(bad[..8].try_into().unwrap());
            assert_eq!(items[0], Ok(DecodeResponseItem::Header(Header { size: ByteNum(size) })));
            assert!(items.last().unwrap().is_err(), "log {} bit {}", log, bit);
        }
    }
}

#[test]
fn outboard_of_one_block_needs_no_pair() {
    let data = test_data(700);
    let tree = BaoTree::new(ByteNum(700), BlockSize::zero());
    let zero = bao_tree::hash::Hash([0; 32]);
    // an outboard without room for any pair
    let mut ob = PreOrderMemOutboard::new(zero, tree, Vec::new());
    let root = write_outboard_from_mem(&data, &mut ob).unwrap();
    assert_eq!(root.0, *blake3::hash(&data).as_bytes());
    assert_eq!(write_outboard_from_mem(&data[..5], &mut ob), Err(IoErrorKind::InvalidInput));
    // a failure to save ends the work with the pairs that were saved
    let more = test_data(3000);
    let tree = BaoTree::new(ByteNum(3000), BlockSize::zero());
    let mut short = PostOrderMemOutboard::new(zero, tree, vec![0u8; 64]);
    assert_eq!(write_outboard_from_mem(&more, &mut short), Err(IoErrorKind::UnexpectedEof));
    let l = hash_chunk(0, &more[..1024], false);
    let r = hash_chunk(1, &more[1024..2048], false);
    assert_eq!(short.load(TreeNode::new(0, 0)), Ok(Some((l, r))));
}

#[test]
fn target_must_hold_the_blob() {
    let data = test_data(5000);
    let ob = post_order(&data, 0);
    let ranges = RangeSet2::from(1u64..3);
    let mut encoded = Vec::new();
    encode_ranges(&data, &ob, &ranges, &mut encoded).unwrap();
    let mut small = vec![7u8; 4999];
    assert_eq!(
        decode_ranges_into(
            ob.root,
            BlockSize::zero(),
            &encoded,
            &ranges,
            &mut [0u8; 1024],
            &mut small,
        ),
        vec![Err(IoErrorKind::InvalidInput)]
    );
    assert_eq!(small, vec![7u8; 4999]);
    let mut full = vec![7u8; 5000];
    let written = decode_ranges_into(
        ob.root,
        BlockSize::zero(),
        &encoded,
        &ranges,
        &mut [0u8; 1024],
        &mut full,
    );
    assert_eq!(written, vec![Ok(ByteNum(1024)..ByteNum(2048)), Ok(ByteNum(2048)..ByteNum(3072))]);
    assert_eq!(&full[1024..3072], &data[1024..3072]);
    assert_eq!(&full[..1024], &[7u8; 1024]);
    // a failure of the decoder after data was written
    let mut bad = encoded.clone();
    let last = bad.len() - 1;
    bad[last] ^= 1;
    let mut full = vec![7u8; 5000];
    assert_eq!(
        decode_ranges_into(ob.root, BlockSize::zero(), &bad, &ranges, &mut [0u8; 1024], &mut full),
        vec![Ok(ByteNum(1024)..ByteNum(2048)), Err(IoErrorKind::InvalidData)]
    );
    assert_eq!(&full[1024..2048], &data[1024..2048]);
    assert_eq!(&full[2048..3072], &[7u8; 1024]);
    // a slice without data asks nothing of the target
    let none = RangeSet2::<u64>::empty();
    let mut encoded = Vec::new();
    encode_ranges(&data, &ob, &none, &mut encoded).unwrap();
    let mut empty = Vec::new();
    assert_eq!(
        decode_ranges_into(
            ob.root,
            BlockSize::zero(),
            &encoded,
            &none,
            &mut [0u8; 1024],
            &mut empty,
        ),
        Vec::new()
    );
}

#[test]
fn saving_writes_the_pair_in_its_place() {
    let tree = BaoTree::new(ByteNum(4097), BlockSize::zero());
    let root = bao_tree::hash::Hash([0; 32]);
    let pair = (bao_tree::hash::Hash([1; 32]), bao_tree::hash::Hash([2; 32]));
    let mut expected = vec![0u8; 256];
    expected[64..96].copy_from_slice(&[1; 32]);
    expected[96..128].copy_from_slice(&[2; 32]);
    // the node above the first two leaves is the second in pre-order
    let mut pre = PreOrderMemOutboard::new(root, tree, vec![0u8; 256]);
    assert_eq!(pre.save(TreeNode::new(1, 0), &pair), Ok(()));
    assert_eq!(pre.data, expected);
    // the second leaf is the second in post-order
    let mut post = PostOrderMemOutboard::new(root, tree, vec![0u8; 256]);
    assert_eq!(post.save(TreeNode::new(0, 1), &pair), Ok(()));
    assert_eq!(post.data, expected);
    // the last leaf has one chunk: its pair is not kept, and nothing changes
    assert_eq!(pre.save(TreeNode::new(0, 2), &pair), Ok(()));
    assert_eq!(post.save(TreeNode::new(0, 2), &pair), Ok(()));
    assert_eq!(pre.data, expected);
    assert_eq!(post.data, expected);
    // the bytes do not grow
    let mut short = PreOrderMemOutboard::new(root, tree, vec![0u8; 100]);
    assert_eq!(short.save(TreeNode::new(2, 0), &pair), Ok(()));
    assert_eq!(short.save(TreeNode::new(1, 0), &pair), Err(IoErrorKind::UnexpectedEof));
    assert_eq!(short.data.len(), 100);
    assert_eq!(&short.data[64..], &[0u8; 36]);
    assert_eq!(pre.root, root);
    assert_eq!(pre.tree, tree);
}

#[test]
fn decoder_buffer_is_handed_out() {
    let data = test_data(3000);
    let ob = post_order(&data, 0);
    let mut encoded = Vec::new();
    encode_ranges(&data, &ob, &all(), &mut encoded).unwrap();
    // a buffer that holds something already
    let mut buf = bytes::BytesMut::with_capacity(16);
    buf.extend_from_slice(b"left over");
    let ranges = all();
    let mut iter =
        DecodeResponseIter::new_with_buffer(ob.root, BlockSize::zero(), &encoded, &ranges, buf);
    assert_eq!(iter.buffer(), b"left over");
    let mut leaves = Vec::new();
    while let Some(item) = iter.next() {
        if let DecodeResponseItem::Leaf(leaf) = item.unwrap() {
            // the data went out of the buffer with the item
            assert!(iter.buffer().is_empty());
            let copy = leaf.clone();
            assert_eq!(copy, leaf);
            leaves.push(leaf);
        }
    }
    assert_eq!(leaves.len(), 3);
    assert_eq!(&leaves[0].data[..], &data[..1024]);
    assert_eq!(&leaves[1].data[..], &data[1024..2048]);
    assert_eq!(&leaves[2].data[..], &data[2048..]);
}

#[test]
fn slices_of_whole_blocks_are_decoded() {
    // 4096 bytes in blocks of two chunks, of which chunk 1 is asked for
    let data = test_data(4096);
    let ob = post_order(&data, 1);
    let bs = BlockSize::from_chunk_log(1);
    let ranges = RangeSet2::from(1u64..2);
    let mut encoded = Vec::new();
    encode_ranges(&data, &ob, &ranges, &mut encoded).unwrap();
    // the hash pair of the root and the block of chunks 0 and 1
    assert_eq!(encoded.len(), 8 + 64 + 2048);
    let mut scratch = vec![0u8; 2048];
    let mut target = vec![0u8; 4096];
    let written = decode_ranges_into(ob.root, bs, &encoded, &ranges, &mut scratch, &mut target);
    assert_eq!(written, vec![Ok(ByteNum(0)..ByteNum(2048))]);
    assert_eq!(&target[..2048], &data[..2048]);
    assert_eq!(&target[2048..], &[0u8; 2048]);
    // every query, at every block size
    let data = test_data(23 * 1024 + 5);
    for log in 0u8..4 {
        let block = 1024usize << log;
        let per_block = 1u64 << log;
        let ob = post_order(&data, log);
        let bs = BlockSize::from_chunk_log(log);
        assert_eq!(bs.bytes(), block);
        for (a, b) in [(0u64, 1u64), (1, 2), (3, 9), (8, 16), (22, 23), (23, 24), (0, 24), (24, 24)] {
            let ranges = RangeSet2::from(a..b);
            let mut encoded = Vec::new();
            encode_ranges(&data, &ob, &ranges, &mut encoded).unwrap();
            let mut scratch = vec![0u8; block];
            let chunks = decode_ranges_into_chunks(ob.root, bs, &encoded, &ranges, &mut scratch);
            let mut got = Vec::new();
            for piece in chunks {
                let (offset, bytes) = piece.unwrap();
                assert_eq!(offset.0 % block as u64, 0);
                assert_eq!(&bytes[..], &data[offset.0 as usize..][..bytes.len()]);
                got.push(offset.0 / block as u64);
            }
            let expected: Vec<u64> = ((0..24u64).step_by(per_block as usize))
                .map(|x| x / per_block)
                .filter(|k| (a..b).any(|y| y / per_block == *k))
                .collect();
            assert_eq!(got, expected, "log {} range {}..{}", log, a, b);
            // what was validated is read by the decoder of responses
            let mut validated = Vec::new();
            encode_ranges_validated(&data, &ob, &ranges, &mut validated).unwrap();
            let leaves = decoded_leaves(ob.root, log, &ranges, &validated);
            let chunks: Vec<u64> = leaves
                .iter()
                .flat_map(|(start, bytes)| *start..*start + (bytes.len() as u64 + 1023) / 1024)
                .collect();
            assert_eq!(chunks, (a..b).collect::<Vec<u64>>());
        }
    }
    // a query that starts at the end of the blob asks for nothing
    let ob = post_order(&data, 0);
    let mut encoded = Vec::new();
    encode_ranges(&data, &ob, &RangeSet2::from(24u64..), &mut encoded).unwrap();
    assert_eq!(encoded, (23u64 * 1024 + 5).to_le_bytes());
}

#[test]
fn block_sizes_in_bytes() {
    for log in 0u8..40 {
        let bs = BlockSize::from_chunk_log(log);
        let bytes = bs.bytes();
        assert_eq!(bytes, 1024usize << log);
        assert_eq!(BlockSize::from_bytes(bytes as u64), Some(bs));
    }
    assert_eq!(BlockSize::zero().bytes(), 1024);
    assert_eq!(BlockSize::from_bytes(0), None);
    assert_eq!(BlockSize::from_bytes(1000), None);
    assert_eq!(BlockSize::from_bytes(3072), None);
}

#[test]
fn a_changed_size_that_nothing_depends_on() {
    // a size of 0 asks for no data: the decoder reads nothing more
    let data = test_data(1024);
    let ob = post_order(&data, 0);
    let mut encoded = Vec::new();
    encode_ranges(&data, &ob, &all(), &mut encoded).unwrap();
    let mut bad = encoded.clone();
    bad[1] ^= 4;
    assert_eq!(
        decode(ob.root, 0, &bad, &all()),
        vec![Ok(DecodeResponseItem::Header(Header { size: ByteNum(0) }))]
    );
    // a query that does not reach the last chunk does not see its size
    let data = test_data(3072);
    let ob = post_order(&data, 0);
    let first = RangeSet2::from(0u64..1);
    let mut encoded = Vec::new();
    encode_ranges(&data, &ob, &first, &mut encoded).unwrap();
    let mut bad = encoded.clone();
    bad[0] ^= 1;
    let items = decode(ob.root, 0, &bad, &first);
    assert_eq!(items[0], Ok(DecodeResponseItem::Header(Header { size: ByteNum(3073) })));
    assert!(items.iter().all(|item| item.is_ok()));
    assert_eq!(decoded_leaves(ob.root, 0, &first, &bad), vec![(0, data[..1024].to_vec())]);
}
