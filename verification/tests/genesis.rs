use local_blockchain::block::{DetailedBlock, Header};
use local_blockchain::hash::{empty_list_hash, B256};
use local_blockchain::local::{CreationError, InsertBlockError, LocalBlockchain, SyncState};
use local_blockchain::spec_id::SpecId;
use local_blockchain::u256::U256;

struct StubState {
    root: B256,
    fail: bool,
}

impl SyncState<String> for StubState {
    fn checkpoint(&mut self) -> Result<(), String> {
        if self.fail {
            Err("state failure".to_string())
        } else {
            Ok(())
        }
    }

    fn state_root(&self) -> Result<B256, String> {
        if self.fail {
            Err("state failure".to_string())
        } else {
            Ok(self.root)
        }
    }
}

fn stub() -> StubState {
    StubState { root: B256::new(7, 9), fail: false }
}

fn build_chain(spec_id: SpecId, timestamp: u64) -> LocalBlockchain {
    let mut state = stub();
    let prevrandao = if spec_id >= SpecId::Merge { Some(B256::new(3, 4)) } else { None };
    let base_fee = if spec_id >= SpecId::London { Some(U256::from_u64(100)) } else { None };
    LocalBlockchain::new(
        &mut state,
        U256::from_u64(1),
        spec_id,
        U256::from_u64(30_000_000),
        Some(U256::from_u64(timestamp)),
        prevrandao,
        base_fee,
    )
    .expect("genesis construction must succeed")
}

fn plain_header(number: u64, timestamp: u64, difficulty: u64) -> Header {
    Header {
        number,
        parent_hash: B256::zero(),
        difficulty: U256::from_u64(difficulty),
        gas_limit: U256::from_u64(30_000_000),
        gas_used: U256::zero(),
        timestamp: U256::from_u64(timestamp),
        state_root: B256::new(7, 9),
        receipts_root: empty_list_hash(),
        withdrawals_root: None,
        base_fee_per_gas: None,
        mix_hash: B256::zero(),
        nonce: 0,
        extra_data: Vec::new(),
    }
}

#[test]
fn genesis_missing_prevrandao_post_merge() {
    for spec_id in [SpecId::Merge, SpecId::Shanghai, SpecId::Cancun] {
        let mut state = stub();
        let r = LocalBlockchain::new(
            &mut state,
            U256::from_u64(1),
            spec_id,
            U256::from_u64(30_000_000),
            Some(U256::from_u64(0)),
            None,
            Some(U256::from_u64(100)),
        );
        assert!(matches!(r, Err(CreationError::MissingPrevrandao)));
    }
}

#[test]
fn genesis_missing_base_fee_post_london() {
    for spec_id in [SpecId::London, SpecId::ArrowGlacier, SpecId::GrayGlacier] {
        let mut state = stub();
        let r = LocalBlockchain::new(
            &mut state,
            U256::from_u64(1),
            spec_id,
            U256::from_u64(30_000_000),
            Some(U256::from_u64(0)),
            None,
            None,
        );
        assert!(matches!(r, Err(CreationError::MissingBaseFee)));
    }
    let mut state = stub();
    let r = LocalBlockchain::new(
        &mut state,
        U256::from_u64(1),
        SpecId::Merge,
        U256::from_u64(30_000_000),
        Some(U256::from_u64(0)),
        Some(B256::new(3, 4)),
        None,
    );
    assert!(matches!(r, Err(CreationError::MissingBaseFee)));
}

#[test]
fn genesis_withdrawals_presence_by_version() {
    let chain = build_chain(SpecId::Shanghai, 0);
    let genesis = chain.last_block();
    assert_eq!(genesis.withdrawals, Some(Vec::new()));
    assert!(genesis.header.withdrawals_root.is_some());

    let chain = build_chain(SpecId::Berlin, 0);
    let genesis = chain.last_block();
    assert_eq!(genesis.withdrawals, None);
    assert!(genesis.header.withdrawals_root.is_none());
}

#[test]
fn genesis_state_error_is_passed_on() {
    let mut state = StubState { root: B256::zero(), fail: true };
    let r = LocalBlockchain::new(
        &mut state,
        U256::from_u64(1),
        SpecId::Berlin,
        U256::from_u64(30_000_000),
        Some(U256::from_u64(0)),
        None,
        None,
    );
    match r {
        Err(CreationError::State(message)) => assert_eq!(message, "state failure"),
        _ => panic!("expected a state error"),
    }
}

#[test]
fn genesis_header_fields_pre_merge() {
    let chain = build_chain(SpecId::Berlin, 123);
    let genesis = chain.last_block();
    assert_eq!(genesis.header.number, 0);
    assert_eq!(genesis.header.difficulty, U256::from_u64(1));
    assert_eq!(genesis.header.gas_used, U256::zero());
    assert_eq!(genesis.header.timestamp, U256::from_u64(123));
    assert_eq!(genesis.header.receipts_root, empty_list_hash());
    assert_eq!(genesis.header.nonce, 66);
    assert_eq!(genesis.header.extra_data, vec![b'1', b'2', b'4']);
    assert_eq!(genesis.header.base_fee_per_gas, None);
    assert_eq!(genesis.header.state_root, B256::new(7, 9));
    assert_eq!(chain.total_difficulty_by_hash(&genesis.hash()), Some(U256::from_u64(1)));
}

#[test]
fn genesis_header_fields_post_merge() {
    let chain = build_chain(SpecId::Merge, 5);
    let genesis = chain.last_block();
    assert_eq!(genesis.header.difficulty, U256::zero());
    assert_eq!(genesis.header.mix_hash, B256::new(3, 4));
    assert_eq!(genesis.header.nonce, 0);
    assert_eq!(genesis.header.base_fee_per_gas, Some(U256::from_u64(100)));
}

#[test]
fn genesis_hash_is_deterministic_and_field_sensitive() {
    let a = build_chain(SpecId::Berlin, 1000);
    let b = build_chain(SpecId::Berlin, 1000);
    let c = build_chain(SpecId::Berlin, 1001);
    assert_eq!(a.last_block().hash(), b.last_block().hash());
    assert_ne!(a.last_block().hash(), c.last_block().hash());
}

#[test]
fn with_genesis_block_rejects_nonzero_number() {
    let block = DetailedBlock::new(plain_header(3, 0, 1), Vec::new(), Vec::new(), None);
    let r = LocalBlockchain::with_genesis_block(U256::from_u64(1), SpecId::Berlin, block);
    match r {
        Err(InsertBlockError::InvalidBlockNumber { actual, expected }) => {
            assert_eq!(actual, 3);
            assert_eq!(expected, 0);
        },
        _ => panic!("expected an invalid block number error"),
    }
}

#[test]
fn with_genesis_block_requires_withdrawals_post_shanghai() {
    let block = DetailedBlock::new(plain_header(0, 0, 1), Vec::new(), Vec::new(), None);
    let r = LocalBlockchain::with_genesis_block(U256::from_u64(1), SpecId::Shanghai, block);
    assert!(matches!(r, Err(InsertBlockError::MissingWithdrawals)));

    let block = DetailedBlock::new(plain_header(0, 0, 1), Vec::new(), Vec::new(), None);
    let chain = LocalBlockchain::with_genesis_block(U256::from_u64(1), SpecId::Berlin, block)
        .expect("a pre-Shanghai genesis without withdrawals is accepted");
    assert_eq!(chain.last_block_number(), 0);
    assert_eq!(chain.last_block().header.number, 0);
}

#[test]
fn with_genesis_block_unchecked_seeds_the_store() {
    let block = DetailedBlock::new(plain_header(0, 77, 4), Vec::new(), Vec::new(), None);
    let hash = block.hash();
    let chain =
        LocalBlockchain::with_genesis_block_unchecked(U256::from_u64(9), SpecId::Berlin, block);
    assert_eq!(chain.chain_id(), U256::from_u64(9));
    assert_eq!(chain.last_block_number(), 0);
    assert_eq!(chain.last_block().hash(), hash);
    assert_eq!(chain.total_difficulty_by_hash(&hash), Some(U256::from_u64(4)));
}
