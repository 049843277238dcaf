use local_blockchain::block::{DetailedBlock, Header, Receipt, Transaction};
use local_blockchain::hash::{empty_list_hash, B256};
use local_blockchain::local::{LocalBlockchain, SyncState};
use local_blockchain::spec_id::SpecId;
use local_blockchain::u256::U256;
use local_blockchain::validation::BlockchainError;

struct OkState;

impl SyncState<String> for OkState {
    fn checkpoint(&mut self) -> Result<(), String> {
        Ok(())
    }

    fn state_root(&self) -> Result<B256, String> {
        Ok(B256::new(7, 9))
    }
}

fn berlin_chain(timestamp: u64) -> LocalBlockchain {
    let mut state = OkState;
    LocalBlockchain::new(
        &mut state,
        U256::from_u64(1),
        SpecId::Berlin,
        U256::from_u64(30_000_000),
        Some(U256::from_u64(timestamp)),
        None,
        None,
    )
    .expect("genesis construction must succeed")
}

fn next_block(
    chain: &LocalBlockchain,
    difficulty: u64,
    transactions: Vec<Transaction>,
    receipts: Vec<Receipt>,
) -> DetailedBlock {
    let parent = chain.last_block();
    let header = Header {
        number: parent.header.number + 1,
        parent_hash: parent.hash(),
        difficulty: U256::from_u64(difficulty),
        gas_limit: parent.header.gas_limit,
        gas_used: U256::zero(),
        timestamp: U256::from_u64(0),
        state_root: parent.header.state_root,
        receipts_root: empty_list_hash(),
        withdrawals_root: None,
        base_fee_per_gas: None,
        mix_hash: B256::zero(),
        nonce: 0,
        extra_data: Vec::new(),
    };
    DetailedBlock::new(header, transactions, receipts, None)
}

#[test]
fn insert_wrong_number_is_rejected() {
    let mut chain = berlin_chain(0);
    let mut block = next_block(&chain, 1, Vec::new(), Vec::new());
    block.header.number = 5;
    let block = DetailedBlock::new(block.header, Vec::new(), Vec::new(), None);
    let r = chain.insert_block(block);
    match r {
        Err(BlockchainError::InvalidBlockNumber { actual, expected }) => {
            assert_eq!(actual, 5);
            assert_eq!(expected, 1);
        },
        _ => panic!("expected an invalid block number error"),
    }
    assert_eq!(chain.last_block_number(), 0);
}

#[test]
fn insert_post_shanghai_requires_withdrawals() {
    let mut state = OkState;
    let mut chain = LocalBlockchain::new(
        &mut state,
        U256::from_u64(1),
        SpecId::Shanghai,
        U256::from_u64(30_000_000),
        Some(U256::from_u64(0)),
        Some(B256::new(3, 4)),
        Some(U256::from_u64(100)),
    )
    .expect("genesis construction must succeed");
    let block = next_block(&chain, 0, Vec::new(), Vec::new());
    let r = chain.insert_block(block);
    assert!(matches!(r, Err(BlockchainError::MissingWithdrawals)));
}

#[test]
fn total_difficulty_accumulates() {
    let mut chain = berlin_chain(0);
    let b1 = next_block(&chain, 5, Vec::new(), Vec::new());
    let b1 = chain.insert_block(b1).expect("block 1 must insert");
    let b2 = next_block(&chain, 7, Vec::new(), Vec::new());
    let b2 = chain.insert_block(b2).expect("block 2 must insert");
    assert_eq!(chain.total_difficulty_by_hash(&b1.hash()), Some(U256::from_u64(6)));
    assert_eq!(chain.total_difficulty_by_hash(&b2.hash()), Some(U256::from_u64(13)));
    assert_eq!(chain.last_block_number(), 2);
}

#[test]
fn reserve_blocks_advances_tail_and_derives_timestamps() {
    let mut chain = berlin_chain(1000);
    chain.reserve_blocks(5, U256::from_u64(12)).expect("reservation must succeed");
    assert_eq!(chain.last_block_number(), 5);
    let third = chain.block_by_number(3).expect("a reserved number materializes");
    assert_eq!(third.header.number, 3);
    assert_eq!(third.header.timestamp, U256::from_u64(1000 + 3 * 12));
    assert_eq!(third.header.state_root, B256::new(7, 9));
    assert_eq!(third.header.base_fee_per_gas, None);
    assert_eq!(third.header.difficulty, U256::from_u64(1));
    assert!(chain.block_by_number(6).is_none());
}

#[test]
fn reserved_lookup_is_idempotent() {
    let mut chain = berlin_chain(50);
    chain.reserve_blocks(4, U256::from_u64(3)).expect("reservation must succeed");
    let once = chain.block_by_number(2).expect("a reserved number materializes");
    let twice = chain.block_by_number(2).expect("a reserved number materializes");
    assert_eq!(once.header.timestamp, twice.header.timestamp);
    assert_eq!(once.hash(), twice.hash());
}

#[test]
fn revert_truncates_a_reservation() {
    let mut chain = berlin_chain(1000);
    chain.reserve_blocks(5, U256::from_u64(12)).expect("reservation must succeed");
    chain.revert_to_block(2).expect("the revert target was reached");
    assert_eq!(chain.last_block_number(), 2);
    assert!(chain.block_by_number(3).is_none());
    let second = chain.block_by_number(2).expect("a kept number stays");
    assert_eq!(second.header.timestamp, U256::from_u64(1000 + 2 * 12));
}

#[test]
fn revert_to_unknown_number_changes_nothing() {
    let mut chain = berlin_chain(4);
    let b1 = next_block(&chain, 5, Vec::new(), Vec::new());
    let b1 = chain.insert_block(b1).expect("block 1 must insert");
    let r = chain.revert_to_block(99);
    assert!(matches!(r, Err(BlockchainError::UnknownBlockNumber)));
    assert_eq!(chain.last_block_number(), 1);
    assert_eq!(chain.total_difficulty_by_hash(&b1.hash()), Some(U256::from_u64(6)));
    assert_eq!(chain.block_by_number(1).expect("the head stays").hash(), b1.hash());
}

#[test]
fn revert_discards_committed_blocks() {
    let mut chain = berlin_chain(4);
    let b1 = next_block(&chain, 5, Vec::new(), Vec::new());
    let b1 = chain.insert_block(b1).expect("block 1 must insert");
    let b2 = next_block(&chain, 7, Vec::new(), Vec::new());
    let b2 = chain.insert_block(b2).expect("block 2 must insert");
    chain.revert_to_block(1).expect("the revert target was reached");
    assert_eq!(chain.last_block_number(), 1);
    assert!(chain.block_by_number(2).is_none());
    assert!(chain.block_by_hash(&b2.hash()).is_none());
    assert_eq!(chain.block_by_number(1).expect("block 1 stays").hash(), b1.hash());
}

#[test]
fn block_by_transaction_hash_finds_the_containing_block() {
    let mut chain = berlin_chain(0);
    let t1 = Transaction { hash: B256::new(11, 0) };
    let t2 = Transaction { hash: B256::new(22, 0) };
    let b1 = next_block(&chain, 1, vec![t1], Vec::new());
    chain.insert_block(b1).expect("block 1 must insert");
    let b2 = next_block(&chain, 1, vec![t2], Vec::new());
    let b2 = chain.insert_block(b2).expect("block 2 must insert");

    let found = chain.block_by_transaction_hash(&B256::new(22, 0)).expect("the hash is known");
    assert_eq!(found.header.number, 2);
    assert_eq!(found.hash(), b2.hash());
    assert!(chain.block_by_transaction_hash(&B256::new(33, 0)).is_none());
}

#[test]
fn receipt_by_transaction_hash_finds_the_receipt() {
    let mut chain = berlin_chain(0);
    let t1 = Transaction { hash: B256::new(11, 0) };
    let r1 = Receipt { transaction_hash: B256::new(11, 0) };
    let b1 = next_block(&chain, 1, vec![t1], vec![r1]);
    chain.insert_block(b1).expect("block 1 must insert");
    assert_eq!(chain.receipt_by_transaction_hash(&B256::new(11, 0)), Some(r1));
    assert_eq!(chain.receipt_by_transaction_hash(&B256::new(12, 0)), None);
}

#[test]
fn reserve_zero_blocks_is_a_no_op() {
    let mut chain = berlin_chain(10);
    let before_tail = chain.last_block_number();
    let before_hash = chain.last_block().hash();
    let before_td = chain.total_difficulty_by_hash(&before_hash);
    chain.reserve_blocks(0, U256::from_u64(12)).expect("a zero reservation succeeds");
    assert_eq!(chain.last_block_number(), before_tail);
    assert_eq!(chain.last_block().hash(), before_hash);
    assert_eq!(chain.total_difficulty_by_hash(&before_hash), before_td);
}

#[test]
fn block_hash_resolves_numbers() {
    let mut chain = berlin_chain(0);
    let b1 = next_block(&chain, 1, Vec::new(), Vec::new());
    let b1 = chain.insert_block(b1).expect("block 1 must insert");
    assert_eq!(chain.block_hash(1), Ok(b1.hash()));
    assert_eq!(chain.block_hash(0), Ok(chain.block_by_number(0).unwrap().hash()));
    assert_eq!(chain.block_hash(9), Err(BlockchainError::UnknownBlockNumber));
}

#[test]
fn block_by_hash_finds_committed_blocks() {
    let mut chain = berlin_chain(0);
    let b1 = next_block(&chain, 1, Vec::new(), Vec::new());
    let b1 = chain.insert_block(b1).expect("block 1 must insert");
    let found = chain.block_by_hash(&b1.hash()).expect("the hash is known");
    assert_eq!(found.header.number, 1);
    assert!(chain.block_by_hash(&B256::new(123, 456)).is_none());
}

#[test]
fn block_supports_spec_caps_at_the_configured_version() {
    let mut state = OkState;
    let chain = LocalBlockchain::new(
        &mut state,
        U256::from_u64(5),
        SpecId::London,
        U256::from_u64(30_000_000),
        Some(U256::from_u64(0)),
        None,
        Some(U256::from_u64(100)),
    )
    .expect("genesis construction must succeed");
    assert!(chain.block_supports_spec(0, SpecId::Frontier));
    assert!(chain.block_supports_spec(0, SpecId::London));
    assert!(!chain.block_supports_spec(0, SpecId::Merge));
    assert_eq!(chain.chain_id(), U256::from_u64(5));
}

#[test]
fn reserved_difficulty_is_zero_post_merge() {
    let mut state = OkState;
    let mut chain = LocalBlockchain::new(
        &mut state,
        U256::from_u64(1),
        SpecId::Merge,
        U256::from_u64(30_000_000),
        Some(U256::from_u64(100)),
        Some(B256::new(3, 4)),
        Some(U256::from_u64(7)),
    )
    .expect("genesis construction must succeed");
    chain.reserve_blocks(2, U256::from_u64(1)).expect("reservation must succeed");
    let first = chain.block_by_number(1).expect("a reserved number materializes");
    assert_eq!(first.header.difficulty, U256::zero());
    assert_eq!(first.header.base_fee_per_gas, Some(U256::from_u64(7)));
    assert_eq!(chain.total_difficulty_by_hash(&chain.block_by_number(0).unwrap().hash()), Some(U256::zero()));
}

#[test]
fn u256_checked_add_detects_overflow() {
    let max = U256::new(u128::MAX, u128::MAX);
    assert_eq!(max.checked_add(U256::from_u64(1)), None);
    let a = U256::new(u128::MAX, 0);
    let sum = a.checked_add(U256::from_u64(1)).expect("the sum fits");
    assert_eq!(sum, U256::new(0, 1));
    assert_eq!(U256::from_u64(2).checked_add(U256::from_u64(3)), Some(U256::from_u64(5)));
}
