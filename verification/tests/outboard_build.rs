use bao_tree::io::sync::outboard_post_order;
use bao_tree::tree::{BaoTree, BlockSize, ByteNum};

fn test_data(len: usize) -> Vec<u8> {
    let mut data = Vec::with_capacity(len);
    for i in 0..len {
        data.push((i % 251) as u8);
    }
    data
}

#[test]
fn root_hash_is_the_blake3_hash() {
    let sizes = [
        0usize, 1, 1023, 1024, 1025, 2047, 2048, 2049, 3072, 4096, 4097, 5000, 8192, 10000, 16384,
        16385, 65536, 100000,
    ];
    for log in 0u8..5 {
        for size in sizes {
            let data = test_data(size);
            let mut outboard = Vec::new();
            let block_size = BlockSize::from_chunk_log(log);
            let hash = outboard_post_order(&data, size as u64, block_size, &mut outboard).unwrap();
            assert_eq!(hash.0, *blake3::hash(&data).as_bytes(), "size {} log {}", size, log);
            let expected = BaoTree::outboard_size(ByteNum(size as u64), BlockSize::from_chunk_log(log));
            assert_eq!(outboard.len() as u64, expected, "size {} log {}", size, log);
        }
    }
}
