use powchain::api::{parse_transaction, publish_transaction, InputError};
use powchain::block::{BinaryData, Block, BlockData, Transaction};
use powchain::chain::{replay, replay_at, Blockchain, ChainError};
use powchain::flush::{FlushAction, FlushEvent, FlushScheduler};
use powchain::record::{decode_block, encode_block, DataType};
use powchain::storage::{flush_records, is_block_file_name, storage_key};

fn same_content(a: &Block, b: &Block) -> bool {
    a.id == b.id
        && a.timestamp == b.timestamp
        && a.nonce == b.nonce
        && a.prev_block_hash == b.prev_block_hash
        && a.data.len() == b.data.len()
        && a.data.iter().zip(b.data.iter()).all(|(x, y)| x.data() == y.data())
}

fn mined_chain(difficulty: u8, blocks: usize) -> Blockchain {
    let mut chain = Blockchain::with_difficulty(difficulty);
    chain.init_genesis_at(1000).unwrap();
    for i in 1..blocks {
        chain.add_block_at(1000 + i as i64).unwrap();
    }
    chain
}

fn records_of(chain: &Blockchain) -> Vec<Vec<u8>> {
    flush_records(chain).into_iter().map(|(_, bytes)| bytes).collect()
}

#[test]
fn record_round_trip_keeps_every_field() {
    let data = vec![
        BinaryData::new(&vec![1, 2, 3]),
        BlockData::Transaction(Transaction { sender: [7; 32], recipient: [9; 32], amount: 500 }),
        BinaryData::new(&vec![]),
    ];
    let b = Block::restore(&data, [5; 32], 42, -77, 123456);
    let bytes = encode_block(&b);
    assert_eq!(bytes.len(), 64 + (8 + 4) + (8 + 73) + (8 + 1));
    let back = decode_block(&bytes).ok().unwrap();
    assert!(same_content(&b, &back));
    assert_eq!(back.prev_block_index, None);
    assert_eq!(back.hash(), b.hash());
}

#[test]
fn record_starts_with_canonical_header() {
    let b = Block::restore(&vec![BinaryData::new(&vec![8])], [6; 32], 3, 4, 5);
    let bytes = encode_block(&b);
    assert_eq!(&bytes[0..56], b.headers(5).as_slice());
    assert_eq!(&bytes[56..64], &[1, 0, 0, 0, 0, 0, 0, 0]);
    assert_eq!(&bytes[64..72], &[2, 0, 0, 0, 0, 0, 0, 0]);
    assert_eq!(&bytes[72..74], &[0, 8]);
}

#[test]
fn malformed_records_are_refused() {
    let b = Block::restore(&vec![BinaryData::new(&vec![8])], [6; 32], 3, 4, 5);
    let bytes = encode_block(&b);
    assert!(decode_block(&bytes[..63]).is_err());
    assert!(decode_block(&bytes[..bytes.len() - 1]).is_err());
    let mut longer = bytes.clone();
    longer.push(0);
    assert!(decode_block(&longer).is_err());
    let mut bad_tag = bytes.clone();
    bad_tag[72] = 2;
    assert!(decode_block(&bad_tag).is_err());
    let mut short_tx = bytes.clone();
    short_tx[72] = 1;
    assert!(decode_block(&short_tx).is_err());
    assert!(decode_block(&[]).is_err());
}

#[test]
fn data_type_from_tag() {
    assert_eq!(DataType::from_tag(0), Some(DataType::BinaryData));
    assert_eq!(DataType::from_tag(1), Some(DataType::Transaction));
    assert_eq!(DataType::from_tag(2), None);
}

#[test]
fn storage_key_is_block_and_lowercase_hex() {
    let mut h = [0u8; 32];
    h[0] = 0xab;
    h[31] = 0x0f;
    let key = storage_key(&h);
    assert_eq!(key, format!("block{}", hex::encode(h)));
    assert!(key.starts_with("blockab00"));
    assert!(key.ends_with("0f"));
    assert_eq!(key.len(), 5 + 64);
    assert!(is_block_file_name(&key));
}

#[test]
fn block_file_names_are_recognised() {
    assert!(is_block_file_name("blockAb09"));
    assert!(is_block_file_name("block0"));
    assert!(!is_block_file_name("block"));
    assert!(!is_block_file_name("blockxyz"));
    assert!(!is_block_file_name("blocc00"));
    assert!(!is_block_file_name("block00.tmp"));
    assert!(!is_block_file_name("Block00"));
    assert!(!is_block_file_name(""));
}

#[test]
fn scenario_d_get_blocks_range() {
    let chain = mined_chain(4, 3);
    assert_eq!(chain.get_blocks(0, 100).err(), Some(ChainError::RangeError));
    let all = chain.get_blocks(0, 3).ok().unwrap();
    assert_eq!(all.len(), 3);
    for (i, b) in all.iter().enumerate() {
        assert_eq!(b.id, i as u64);
        assert!(same_content(b, chain.get_block(i).ok().unwrap()));
    }
    assert_eq!(chain.get_blocks(1, 2).ok().unwrap()[0].id, 1);
    assert_eq!(chain.get_blocks(3, 0).ok().unwrap().len(), 0);
    assert_eq!(chain.get_blocks(4, 0).err(), Some(ChainError::RangeError));
    assert_eq!(chain.get_blocks(1, usize::MAX).err(), Some(ChainError::RangeError));
}

#[test]
fn get_block_past_end_is_not_found() {
    let chain = mined_chain(4, 2);
    assert!(chain.get_block(1).is_ok());
    assert_eq!(chain.get_block(2).err(), Some(ChainError::NotFound));
}

#[test]
fn index_of_hash_finds_each_block() {
    let chain = mined_chain(4, 3);
    for i in 0..3 {
        let h = chain.get_block(i).ok().unwrap().hash();
        assert_eq!(chain.index_of_hash(&h), Some(i));
    }
    assert_eq!(chain.index_of_hash(&[0xee; 32]), None);
}

#[test]
fn scenario_e_corrupted_record_is_skipped() {
    let chain = mined_chain(10, 1);
    let good = records_of(&chain).remove(0);
    let mut corrupted = good.clone();
    corrupted[20] ^= 0xff;
    let (replayed, skipped) = replay_at(&vec![good, corrupted], 10, 0).ok().unwrap();
    assert_eq!(replayed.len(), 1);
    assert_eq!(skipped, 1);
    assert_eq!(
        replayed.get_block(0).ok().unwrap().hash(),
        chain.get_block(0).ok().unwrap().hash()
    );
}

#[test]
fn replay_skips_malformed_records() {
    let chain = mined_chain(6, 2);
    let mut records = records_of(&chain);
    records.push(vec![1, 2, 3]);
    let (replayed, skipped) = replay(&records, 6).ok().unwrap();
    assert_eq!(replayed.len(), 2);
    assert_eq!(skipped, 1);
}

#[test]
fn replay_in_any_order_restores_chain() {
    let chain = mined_chain(6, 4);
    let records = records_of(&chain);
    let mut reversed = records.clone();
    reversed.reverse();
    let mut rotated = records.clone();
    rotated.rotate_left(2);
    for order in [records, reversed, rotated] {
        let (replayed, skipped) = replay_at(&order, 6, 0).ok().unwrap();
        assert_eq!(skipped, 0);
        assert_eq!(replayed.len(), 4);
        for i in 0..4 {
            let a = chain.get_block(i).ok().unwrap();
            let b = replayed.get_block(i).ok().unwrap();
            assert!(same_content(a, b));
            assert_eq!(a.hash(), b.hash());
            assert_eq!(b.prev_block_index, if i == 0 { None } else { Some(i - 1) });
        }
    }
}

#[test]
fn replay_of_nothing_mines_genesis() {
    let (chain, skipped) = replay_at(&vec![], 4, 99).ok().unwrap();
    assert_eq!(skipped, 0);
    assert_eq!(chain.len(), 1);
    let g = chain.get_block(0).ok().unwrap();
    assert_eq!(g.id, 0);
    assert_eq!(g.timestamp, 99);
    assert_eq!(g.prev_block_hash, [0; 32]);
}

#[test]
fn load_validated_drops_blocks_missing_the_target() {
    let mined = mined_chain(8, 2);
    let good = mined.get_blocks(0, 2).ok().unwrap();
    let skeleton = Block::restore(&vec![BinaryData::new(&vec![1])], [0; 32], 2, 0, 0);
    let bad_nonce = (0..).find(|n| !skeleton.nonce_meets(*n, 8)).unwrap();
    let unmined = Block::restore(&vec![BinaryData::new(&vec![1])], [0; 32], 2, 0, bad_nonce);
    assert!(!unmined.is_valid(8));
    let mut input = good;
    input.push(unmined);
    let mut fresh = Blockchain::with_difficulty(8);
    assert_eq!(fresh.load_validated(&input), 1);
    assert_eq!(fresh.len(), 2);
    assert_eq!(fresh.get_block(1).ok().unwrap().prev_block_index, Some(0));
    let mut easy = Blockchain::with_difficulty(0);
    assert_eq!(easy.load_validated(&vec![skeleton]), 0);
    assert_eq!(easy.len(), 1);
}

#[test]
fn load_validated_orders_by_id_and_leaves_unknown_links_absent() {
    let chain = mined_chain(4, 3);
    let mut blocks = chain.get_blocks(1, 2).ok().unwrap();
    blocks.reverse();
    let mut partial = Blockchain::with_difficulty(4);
    assert_eq!(partial.load_validated(&blocks), 0);
    assert_eq!(partial.get_block(0).ok().unwrap().id, 1);
    assert_eq!(partial.get_block(1).ok().unwrap().id, 2);
    assert_eq!(partial.get_block(0).ok().unwrap().prev_block_index, None);
    assert_eq!(partial.get_block(1).ok().unwrap().prev_block_index, Some(0));
}

#[test]
fn add_mined_checks_extension_and_target() {
    let mut chain = mined_chain(6, 1);
    let tip = chain.get_block(0).ok().unwrap();
    let skeleton = tip.next_block_at(0, 50);
    let nonce = skeleton.mine(6).unwrap();
    let mut wrong_parent = Block::restore(&skeleton.data, [1; 32], 1, 50, nonce);
    wrong_parent.prev_block_index = None;
    assert_eq!(chain.add_mined(wrong_parent), Err(ChainError::InvalidBlock));
    let mined = Block::restore(&skeleton.data, skeleton.prev_block_hash, 1, 50, nonce);
    assert_eq!(chain.add_mined(mined), Ok(()));
    assert_eq!(chain.len(), 2);
    assert_eq!(chain.get_block(1).ok().unwrap().prev_block_index, Some(0));
    let mut empty = Blockchain::new();
    let lone = Block::restore(&vec![BinaryData::new(&vec![1])], [0; 32], 1, 0, 0);
    assert_eq!(empty.add_mined(lone), Err(ChainError::NoParent));
}

#[test]
fn flush_records_follow_chain_order() {
    let chain = mined_chain(4, 3);
    let out = flush_records(&chain);
    assert_eq!(out.len(), 3);
    for (i, (key, bytes)) in out.iter().enumerate() {
        let b = chain.get_block(i).ok().unwrap();
        assert_eq!(*key, storage_key(&b.hash()));
        assert_eq!(*bytes, encode_block(b));
    }
}

const FROM: &str = "00112233445566778899aabbccddeeff00112233445566778899AABBCCDDEEFF";
const TO: &str = "ffeeddccbbaa99887766554433221100ffeeddccbbaa99887766554433221100";

#[test]
fn transaction_parses_hex_addresses() {
    let t = parse_transaction(FROM, TO, 12).ok().unwrap();
    assert_eq!(t.sender[0], 0x00);
    assert_eq!(t.sender[1], 0x11);
    assert_eq!(t.sender[31], 0xff);
    assert_eq!(t.recipient[0], 0xff);
    assert_eq!(t.amount, 12);
}

#[test]
fn transaction_errors_in_order() {
    assert_eq!(parse_transaction("zz", TO, 1).err(), Some(InputError::InvalidHexFrom));
    assert_eq!(parse_transaction("abc", TO, 1).err(), Some(InputError::InvalidHexFrom));
    assert_eq!(parse_transaction(FROM, "0g", 1).err(), Some(InputError::InvalidHexTo));
    assert_eq!(parse_transaction("abcd", TO, 1).err(), Some(InputError::InvalidLengthFrom));
    assert_eq!(parse_transaction(FROM, "abcd", 1).err(), Some(InputError::InvalidLengthTo));
    assert_eq!(parse_transaction("ab", "0g", 1).err(), Some(InputError::InvalidHexTo));
}

#[test]
fn published_transaction_is_queued_not_mined() {
    let mut chain = mined_chain(4, 1);
    let t = publish_transaction(&mut chain, FROM, TO, 7).ok().unwrap();
    assert_eq!(chain.pending().len(), 1);
    match &chain.pending()[0] {
        BlockData::Transaction(q) => {
            assert_eq!(q.sender, t.sender);
            assert_eq!(q.amount, 7);
        }
        BlockData::Binary(_) => panic!("queued payload is not a transaction"),
    }
    assert!(publish_transaction(&mut chain, "x", TO, 7).is_err());
    assert_eq!(chain.pending().len(), 1);
    chain.add_block_at(5).unwrap();
    assert_eq!(chain.get_block(1).ok().unwrap().data.len(), 1);
    assert_eq!(chain.pending().len(), 1);
}

#[test]
fn flush_scheduler_exits_after_final_flush() {
    let mut s = FlushScheduler::new();
    assert_eq!(s.step(FlushEvent::Tick), FlushAction::Flush);
    assert_eq!(s.step(FlushEvent::FlushCompleted), FlushAction::Wait);
    assert_eq!(s.step(FlushEvent::Tick), FlushAction::Flush);
    assert_eq!(s.step(FlushEvent::ShutdownRequested), FlushAction::Flush);
    assert_eq!(s.step(FlushEvent::Tick), FlushAction::Wait);
    assert_eq!(s.step(FlushEvent::FlushCompleted), FlushAction::Wait);
    assert_eq!(s.step(FlushEvent::FlushCompleted), FlushAction::Exit);
    assert!(s.exited);
    assert_eq!(s.step(FlushEvent::FlushCompleted), FlushAction::Wait);
    assert_eq!(s.step(FlushEvent::ShutdownRequested), FlushAction::Wait);
}
