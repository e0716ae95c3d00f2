use crypto::digest::Digest;
use num_bigint::BigUint;
use num_traits::One;
use powchain::block::{BinaryData, Block, BlockData, Transaction};
use powchain::bytes::{convert_u64_to_u8_array, sha256hash_from_slice};
use powchain::chain::{Blockchain, ChainError, GENESIS_DIFFICULTY};

fn sha256_of(bytes: &[u8]) -> [u8; 32] {
    let mut hasher = crypto::sha2::Sha256::new();
    hasher.input(bytes);
    let mut out = [0u8; 32];
    hasher.result(&mut out);
    out
}

fn below_target(hash: &[u8; 32], difficulty: u8) -> bool {
    BigUint::from_bytes_be(hash) < (BigUint::one() << (256 - difficulty as usize))
}

#[test]
fn u64_bytes_are_little_endian() {
    assert_eq!(convert_u64_to_u8_array(0x0102030405060708), [8, 7, 6, 5, 4, 3, 2, 1]);
    assert_eq!(convert_u64_to_u8_array(0), [0; 8]);
    assert_eq!(convert_u64_to_u8_array(u64::MAX), [255; 8]);
}

#[test]
fn digest_from_slice_takes_first_32_bytes() {
    let bytes: Vec<u8> = (0..40).collect();
    let h = sha256hash_from_slice(&bytes);
    assert_eq!(h.to_vec(), (0..32).collect::<Vec<u8>>());
}

#[test]
fn payload_bytes_have_discriminant_first() {
    let b = BinaryData::new(&vec![9, 8, 7]);
    assert_eq!(b.data(), vec![0, 9, 8, 7]);
    let t = BlockData::Transaction(Transaction { sender: [1; 32], recipient: [2; 32], amount: 258 });
    let bytes = t.data();
    assert_eq!(bytes.len(), 73);
    assert_eq!(bytes[0], 1);
    assert_eq!(&bytes[1..33], &[1u8; 32]);
    assert_eq!(&bytes[33..65], &[2u8; 32]);
    assert_eq!(&bytes[65..73], &[2, 1, 0, 0, 0, 0, 0, 0]);
}

#[test]
fn header_layout_is_id_nonce_timestamp_prev_hash() {
    let b = Block::restore(&vec![BinaryData::new(&vec![5])], [3; 32], 7, -1, 11);
    let h = b.headers(12);
    assert_eq!(h.len(), 56);
    assert_eq!(&h[0..8], &[7, 0, 0, 0, 0, 0, 0, 0]);
    assert_eq!(&h[8..16], &[12, 0, 0, 0, 0, 0, 0, 0]);
    assert_eq!(&h[16..24], &[255; 8]);
    assert_eq!(&h[24..56], &[3u8; 32]);
}

#[test]
fn hash_covers_every_payload() {
    let one = Block::restore(&vec![BinaryData::new(&vec![1])], [0; 32], 1, 100, 0);
    let two = Block::restore(
        &vec![BinaryData::new(&vec![1]), BinaryData::new(&vec![2])],
        [0; 32],
        1,
        100,
        0,
    );
    assert_ne!(one.hash(), two.hash());
    let mut input = two.headers(0);
    input.extend_from_slice(&[0, 1, 0, 2]);
    assert_eq!(two.hash(), sha256_of(&input));
}

#[test]
fn hash_with_nonce_changes_only_the_nonce() {
    let b = Block::restore(&vec![BinaryData::new(&vec![1])], [0; 32], 4, 50, 9);
    assert_eq!(b.hash(), b.hash_with_nonce(9));
    let mut input = b.headers(3);
    input.extend_from_slice(&[0, 1]);
    assert_eq!(b.hash_with_nonce(3), sha256_of(&input));
}

#[test]
fn scenario_a_genesis_mining_meets_target() {
    let t: i64 = 1_500_000_000;
    let g = Block::genesis_at(t, 10).ok().unwrap();
    let mut input = Vec::new();
    input.extend_from_slice(&[0u8; 8]);
    input.extend_from_slice(&g.nonce.to_le_bytes());
    input.extend_from_slice(&(t as u64).to_le_bytes());
    input.extend_from_slice(&[0u8; 32]);
    input.push(0);
    input.extend_from_slice(b"Genesis block");
    let digest = sha256_of(&input);
    assert_eq!(digest, g.hash());
    assert!(BigUint::from_bytes_be(&digest) < (BigUint::one() << 246usize));
    assert!(g.is_valid(10));
}

#[test]
fn genesis_has_fixed_shape() {
    let g = Block::genesis().ok().unwrap();
    assert_eq!(g.id, 0);
    assert_eq!(g.prev_block_hash, [0u8; 32]);
    assert_eq!(g.data.len(), 1);
    match &g.data[0] {
        BlockData::Binary(b) => assert_eq!(b.data, b"Genesis block".to_vec()),
        BlockData::Transaction(_) => panic!("genesis payload is not binary"),
    }
    assert!(g.is_valid(GENESIS_DIFFICULTY));
    assert!(below_target(&g.hash(), GENESIS_DIFFICULTY));
}

#[test]
fn mine_returns_first_valid_nonce() {
    let b = Block::restore(&vec![BinaryData::new(&vec![42])], [0; 32], 3, 77, 0);
    let n = b.mine(8).unwrap();
    assert!(b.nonce_meets(n, 8));
    for m in 0..n {
        assert!(!b.nonce_meets(m, 8));
    }
    assert!(below_target(&b.hash_with_nonce(n), 8));
}

#[test]
fn scenario_c_two_minings_both_valid() {
    let b = Block::restore(&vec![BinaryData::new(&b"Genesis block".to_vec())], [0; 32], 0, 5, 0);
    let first = b.mine(10).unwrap();
    let second = b.mine_range(10, first + 1, u64::MAX).unwrap();
    assert_ne!(first, second);
    assert!(below_target(&b.hash_with_nonce(first), 10));
    assert!(below_target(&b.hash_with_nonce(second), 10));
}

#[test]
fn mine_range_reports_none_on_empty_range() {
    let b = Block::restore(&vec![BinaryData::new(&vec![1])], [0; 32], 0, 0, 0);
    assert_eq!(b.mine_range(10, 5, 5), None);
}

#[test]
fn zero_difficulty_accepts_any_nonce() {
    let b = Block::restore(&vec![BinaryData::new(&vec![1])], [0; 32], 0, 0, 0);
    assert_eq!(b.mine(0), Some(0));
}

#[test]
fn next_block_carries_marker_and_link() {
    let g = Block::genesis_at(10, 4).ok().unwrap();
    let next = g.next_block_at(0, 20);
    assert_eq!(next.id, 1);
    assert_eq!(next.prev_block_hash, g.hash());
    assert_eq!(next.prev_block_index, Some(0));
    assert_eq!(next.nonce, 0);
    match &next.data[0] {
        BlockData::Binary(b) => assert_eq!(b.data, b"Block 1".to_vec()),
        BlockData::Transaction(_) => panic!("marker payload is not binary"),
    }
    let far = Block::restore(&vec![BinaryData::new(&vec![1])], [0; 32], 1233, 0, 0);
    match &far.next_block_at(5, 0).data[0] {
        BlockData::Binary(b) => assert_eq!(b.data, b"Block 1234".to_vec()),
        BlockData::Transaction(_) => panic!("marker payload is not binary"),
    }
}

#[test]
fn block_new_starts_with_zero_nonce() {
    let b = Block::new(&vec![BinaryData::new(&vec![1, 2])], [4; 32], Some(2), 3);
    assert_eq!(b.id, 3);
    assert_eq!(b.nonce, 0);
    assert_eq!(b.prev_block_hash, [4; 32]);
    assert_eq!(b.prev_block_index, Some(2));
}

#[test]
fn scenario_b_block_one_links_to_genesis() {
    let mut chain = Blockchain::with_difficulty(10);
    chain.init_genesis().unwrap();
    chain.add_block().unwrap();
    let genesis = chain.get_block(0).ok().unwrap();
    let block1 = chain.get_block(1).ok().unwrap();
    assert_eq!(block1.id, 1);
    assert_eq!(block1.prev_block_hash, genesis.hash());
    assert_eq!(block1.prev_block_index, Some(0));
    assert!(block1.is_valid(10));
}

#[test]
fn add_block_on_empty_chain_reports_no_parent() {
    let mut chain = Blockchain::new();
    assert_eq!(chain.add_block(), Err(ChainError::NoParent));
    assert_eq!(chain.len(), 0);
}

#[test]
fn add_block_at_max_id_is_refused() {
    let mut chain = Blockchain::with_difficulty(0);
    let top = Block::restore(&vec![BinaryData::new(&vec![1])], [0; 32], u64::MAX, 0, 0);
    chain.load_validated(&vec![top]);
    assert_eq!(chain.add_block_at(5), Err(ChainError::IdExhausted));
    assert_eq!(chain.len(), 1);
}
