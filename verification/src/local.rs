//! The chain façade: binds a chain id and a protocol version to the store
//! and exposes the read, write and block-hash capabilities.

use vstd::prelude::*;
use std::sync::Arc;
use crate::block::{BlockView, DetailedBlock, Header, Receipt, Transaction, Withdrawal};
use crate::block::spec_block_hash;
use crate::hash::{empty_list_hash, spec_empty_list_hash, B256};
use crate::spec_id::SpecId;
use crate::storage::ReservableSparseBlockchainStorage;
use crate::time::current_timestamp_seconds;
use crate::u256::{u256_bound, u256_from_int, U256};
use crate::validation::{validate_next_block, BlockchainError};

verus! {

/// The external state collaborator consulted while building a genesis block.
/// Implemented by the surrounding system; nothing is assumed of its answers.
pub trait SyncState<E> {
    /// Establishes a checkpoint on the state.
    fn checkpoint(&mut self) -> Result<(), E>;

    /// Computes the root hash of the current state.
    fn state_root(&self) -> Result<B256, E>;
}

/// An error from genesis construction.
#[derive(Debug)]
pub enum CreationError<SE> {
    /// Missing base fee per gas for a post-London chain.
    MissingBaseFee,
    /// Missing prevrandao for a post-merge chain.
    MissingPrevrandao,
    /// The state collaborator failed.
    State(SE),
}

/// An error from seeding a chain with a caller-built genesis block.
#[derive(Clone, Copy, Debug, PartialEq, Eq, Structural)]
pub enum InsertBlockError {
    /// The genesis block does not carry the expected number.
    InvalidBlockNumber { actual: u64, expected: u64 },
    /// A post-Shanghai genesis block without a withdrawals root.
    MissingWithdrawals,
}

/// A blockchain consisting of locally created blocks.
pub struct LocalBlockchain {
    storage: ReservableSparseBlockchainStorage,
    chain_id: U256,
    spec_id: SpecId,
}

impl LocalBlockchain {
    /// The store behind this chain.
    pub closed spec fn store(self) -> ReservableSparseBlockchainStorage {
        self.storage
    }

    /// The chain id bound at construction.
    pub closed spec fn spec_chain_id(self) -> U256 {
        self.chain_id
    }

    /// The protocol version bound at construction.
    pub closed spec fn spec_spec_id(self) -> SpecId {
        self.spec_id
    }

    /// Well-formedness of the chain.
    pub open spec fn wf(self) -> bool {
        self.store().wf()
    }

    /// The highest block number, committed or reserved.
    pub open spec fn tail(self) -> u64 {
        self.store().tail()
    }

    /// The block at number `n`, if the chain reaches it.
    pub open spec fn block_at(self, n: u64) -> Option<BlockView> {
        self.store().block_at(n)
    }

    /// The cumulative difficulty through block `n`.
    pub open spec fn td_int_at(self, n: u64) -> int {
        self.store().td_int_at(n)
    }

    /// The difficulty of the block at number `n`.
    pub open spec fn diff_int_at(self, n: u64) -> int {
        self.store().diff_int_at(n)
    }

    /// The committed blocks, in block-number order.
    pub open spec fn committed(self) -> Seq<BlockView> {
        self.store().committed()
    }

    /// The header shape the genesis builder owes for its arguments.
    pub open spec fn genesis_shape(
        g: BlockView,
        spec_id: SpecId,
        gas_limit: U256,
        timestamp: Option<U256>,
        prevrandao: Option<B256>,
        base_fee: Option<U256>,
    ) -> bool {
        &&& g.header.number == 0
        &&& g.header.gas_limit == gas_limit
        &&& g.header.gas_used == (U256 { lo: 0, hi: 0 })
        &&& g.header.difficulty == (if spec_id.at_least_spec(SpecId::Merge) {
            (U256 { lo: 0, hi: 0 })
        } else {
            (U256 { lo: 1, hi: 0 })
        })
        &&& (timestamp is Some ==> g.header.timestamp == timestamp.unwrap())
        &&& g.header.receipts_root == spec_empty_list_hash()
        &&& g.header.extra_data == seq![49u8, 50u8, 52u8]
        &&& (spec_id.at_least_spec(SpecId::Merge) ==> prevrandao is Some)
        &&& g.header.mix_hash == (if spec_id.at_least_spec(SpecId::Merge) {
            prevrandao.unwrap()
        } else {
            (B256 { lo: 0, hi: 0 })
        })
        &&& g.header.nonce == (if spec_id.at_least_spec(SpecId::Merge) {
            0u64
        } else {
            66u64
        })
        &&& g.header.base_fee_per_gas == (if spec_id.at_least_spec(SpecId::London) {
            base_fee
        } else {
            None::<U256>
        })
        &&& g.header.withdrawals_root == (if spec_id.at_least_spec(SpecId::Shanghai) {
            Some(spec_empty_list_hash())
        } else {
            None::<B256>
        })
        &&& g.withdrawals == (if spec_id.at_least_spec(SpecId::Shanghai) {
            Some(Seq::<Withdrawal>::empty())
        } else {
            None::<Seq<Withdrawal>>
        })
        &&& g.transactions == Seq::<Transaction>::empty()
        &&& g.receipts == Seq::<Receipt>::empty()
        &&& g.hash == spec_block_hash(g.header)
    }

    /// Builds a protocol-consistent genesis block from the chain parameters
    /// and an initial checkpoint of the external state, and seeds a chain
    /// with it. A missing prevrandao at or past the merge, or a missing base
    /// fee at or past London, is rejected; a state failure is passed on.
    pub fn new<StateT, E>(
        state: &mut StateT,
        chain_id: U256,
        spec_id: SpecId,
        gas_limit: U256,
        timestamp: Option<U256>,
        prevrandao: Option<B256>,
        base_fee: Option<U256>,
    ) -> (r: Result<LocalBlockchain, CreationError<E>>) where StateT: SyncState<E>
        ensures
            match r {
                Ok(chain) => {
                    &&& chain.wf()
                    &&& chain.tail() == 0
                    &&& chain.spec_chain_id() == chain_id
                    &&& chain.spec_spec_id() == spec_id
                    &&& chain.block_at(0) is Some
                    &&& Self::genesis_shape(
                        chain.block_at(0).unwrap(),
                        spec_id,
                        gas_limit,
                        timestamp,
                        prevrandao,
                        base_fee,
                    )
                    &&& chain.td_int_at(0) == chain.block_at(
                        0,
                    ).unwrap().header.difficulty.as_int()
                    &&& !(spec_id.at_least_spec(SpecId::Merge) && prevrandao is None)
                    &&& !(spec_id.at_least_spec(SpecId::London) && base_fee is None)
                },
                Err(e) => {
                    &&& (e is MissingPrevrandao ==> spec_id.at_least_spec(SpecId::Merge)
                        && prevrandao is None)
                    &&& (e is MissingBaseFee ==> spec_id.at_least_spec(SpecId::London)
                        && base_fee is None)
                },
            },
            spec_id.at_least_spec(SpecId::Merge) && prevrandao is None ==> (r matches Err(e) && (
            e is MissingPrevrandao || e is State)),
            spec_id.at_least_spec(SpecId::London) && base_fee is None && !(spec_id.at_least_spec(
                SpecId::Merge,
            ) && prevrandao is None) ==> (r matches Err(e) && (e is MissingBaseFee
                || e is State)),
    {
        let withdrawals: Option<Vec<Withdrawal>> = if spec_id.is_at_least(SpecId::Shanghai) {
            Some(Vec::new())
        } else {
            None
        };
        match state.checkpoint() {
            Ok(_) => {},
            Err(e) => {
                return Err(CreationError::State(e));
            },
        }
        let state_root = match state.state_root() {
            Ok(h) => h,
            Err(e) => {
                return Err(CreationError::State(e));
            },
        };
        let ts: U256 = match timestamp {
            Some(t) => t,
            None => U256::from_u64(current_timestamp_seconds()),
        };
        let mix_hash: B256 = if spec_id.is_at_least(SpecId::Merge) {
            match prevrandao {
                Some(p) => p,
                None => {
                    return Err(CreationError::MissingPrevrandao);
                },
            }
        } else {
            B256::zero()
        };
        let base_fee_per_gas: Option<U256> = if spec_id.is_at_least(SpecId::London) {
            match base_fee {
                Some(b) => Some(b),
                None => {
                    return Err(CreationError::MissingBaseFee);
                },
            }
        } else {
            None
        };
        let difficulty = if spec_id.is_at_least(SpecId::Merge) {
            U256::zero()
        } else {
            U256::from_u64(1)
        };
        let nonce: u64 = if spec_id.is_at_least(SpecId::Merge) {
            0
        } else {
            66
        };
        let withdrawals_root: Option<B256> = if spec_id.is_at_least(SpecId::Shanghai) {
            Some(empty_list_hash())
        } else {
            None
        };
        let mut extra_data: Vec<u8> = Vec::new();
        extra_data.push(49);
        extra_data.push(50);
        extra_data.push(52);
        let header = Header {
            number: 0,
            parent_hash: B256::zero(),
            difficulty,
            gas_limit,
            gas_used: U256::zero(),
            timestamp: ts,
            state_root,
            receipts_root: empty_list_hash(),
            withdrawals_root,
            base_fee_per_gas,
            mix_hash,
            nonce,
            extra_data,
        };
        let genesis = DetailedBlock::new(header, Vec::new(), Vec::new(), withdrawals);
        let chain = Self::with_genesis_block_unchecked(chain_id, spec_id, genesis);
        proof {
            let g = chain.block_at(0).unwrap();
            assert(g.header.extra_data =~= seq![49u8, 50u8, 52u8]);
            assert(g.transactions =~= Seq::<Transaction>::empty());
            assert(g.receipts =~= Seq::<Receipt>::empty());
            if spec_id.at_least_spec(SpecId::Shanghai) {
                assert(g.withdrawals.unwrap() =~= Seq::<Withdrawal>::empty());
            }
        }
        Ok(chain)
    }

    /// Seeds a chain with a caller-built genesis block after checking that
    /// its number is zero and that a post-Shanghai genesis carries a
    /// withdrawals root.
    pub fn with_genesis_block(chain_id: U256, spec_id: SpecId, genesis_block: DetailedBlock) -> (r:
        Result<LocalBlockchain, InsertBlockError>)
        ensures
            genesis_block@.header.number != 0 ==> r == Err::<LocalBlockchain, InsertBlockError>(
                InsertBlockError::InvalidBlockNumber {
                    actual: genesis_block@.header.number,
                    expected: 0,
                },
            ),
            genesis_block@.header.number == 0 && spec_id.at_least_spec(SpecId::Shanghai)
                && genesis_block@.header.withdrawals_root is None ==> r == Err::<
                LocalBlockchain,
                InsertBlockError,
            >(InsertBlockError::MissingWithdrawals),
            genesis_block@.header.number == 0 && !(spec_id.at_least_spec(SpecId::Shanghai)
                && genesis_block@.header.withdrawals_root is None) ==> (r matches Ok(chain)
                && chain.wf() && chain.tail() == 0 && chain.block_at(0) == Some(genesis_block@)
                && chain.spec_chain_id() == chain_id && chain.spec_spec_id() == spec_id
                && chain.td_int_at(0) == genesis_block@.header.difficulty.as_int()),
    {
        if genesis_block.header.number != 0 {
            return Err(
                InsertBlockError::InvalidBlockNumber {
                    actual: genesis_block.header.number,
                    expected: 0,
                },
            );
        }
        if spec_id.is_at_least(SpecId::Shanghai) && genesis_block.header.withdrawals_root.is_none()
        {
            return Err(InsertBlockError::MissingWithdrawals);
        }
        Ok(Self::with_genesis_block_unchecked(chain_id, spec_id, genesis_block))
    }

    /// Seeds a chain with a genesis block whose number the caller has already
    /// established to be zero; the validated entry points lead here.
    pub fn with_genesis_block_unchecked(
        chain_id: U256,
        spec_id: SpecId,
        genesis_block: DetailedBlock,
    ) -> (r: LocalBlockchain)
        requires
            genesis_block@.header.number == 0,
        ensures
            r.wf(),
            r.tail() == 0,
            r.spec_chain_id() == chain_id,
            r.spec_spec_id() == spec_id,
            r.block_at(0) == Some(genesis_block@),
            r.td_int_at(0) == genesis_block@.header.difficulty.as_int(),
    {
        let total_difficulty = genesis_block.header.difficulty;
        let storage = ReservableSparseBlockchainStorage::with_block(
            genesis_block,
            total_difficulty,
        );
        LocalBlockchain { storage, chain_id, spec_id }
    }

    /// The committed block with the given hash.
    pub fn block_by_hash(&self, hash: &B256) -> (r: Option<Arc<DetailedBlock>>)
        ensures
            match r {
                Some(b) => b@.hash == *hash && exists|i: int|
                    0 <= i < self.committed().len() && #[trigger] self.committed()[i] == b@,
                None => forall|i: int|
                    0 <= i < self.committed().len() ==> #[trigger] self.committed()[i].hash
                        != *hash,
            },
    {
        self.storage.block_by_hash(hash)
    }

    /// The block at the given number, committed or synthesized from a
    /// reserved run.
    pub fn block_by_number(&self, number: u64) -> (r: Option<Arc<DetailedBlock>>)
        requires
            self.wf(),
        ensures
            match r {
                Some(b) => number <= self.tail() && Some(b@) == self.block_at(number),
                None => number > self.tail(),
            },
    {
        self.storage.block_by_number(number)
    }

    /// The committed block holding the transaction with the given hash.
    pub fn block_by_transaction_hash(&self, transaction_hash: &B256) -> (r: Option<
        Arc<DetailedBlock>,
    >)
        ensures
            match r {
                Some(b) => (exists|i: int|
                    0 <= i < self.committed().len() && #[trigger] self.committed()[i] == b@) && (
                exists|t: int|
                    0 <= t < b@.transactions.len() && b@.transactions[t].hash
                        == *transaction_hash),
                None => forall|i: int, t: int|
                    0 <= i < self.committed().len() && 0 <= t
                        < self.committed()[i].transactions.len()
                        ==> #[trigger] self.committed()[i].transactions[t].hash
                        != *transaction_hash,
            },
    {
        self.storage.block_by_transaction_hash(transaction_hash)
    }

    /// The receipt of the transaction with the given hash.
    pub fn receipt_by_transaction_hash(&self, transaction_hash: &B256) -> (r: Option<Receipt>)
        ensures
            match r {
                Some(rec) => rec.transaction_hash == *transaction_hash && exists|i: int, t: int|
                    0 <= i < self.committed().len() && 0 <= t < self.committed()[i].receipts.len()
                        && #[trigger] self.committed()[i].receipts[t] == rec,
                None => forall|i: int, t: int|
                    0 <= i < self.committed().len() && 0 <= t < self.committed()[i].receipts.len()
                        ==> #[trigger] self.committed()[i].receipts[t].transaction_hash
                        != *transaction_hash,
            },
    {
        self.storage.receipt_by_transaction_hash(transaction_hash)
    }

    /// The cumulative difficulty recorded for the committed block with the
    /// given hash.
    pub fn total_difficulty_by_hash(&self, hash: &B256) -> (r: Option<U256>)
        requires
            self.wf(),
        ensures
            match r {
                Some(td) => exists|i: int|
                    0 <= i < self.committed().len() && #[trigger] self.committed()[i].hash == *hash
                        && td.as_int() == self.td_int_at(self.committed()[i].header.number),
                None => forall|i: int|
                    0 <= i < self.committed().len() ==> #[trigger] self.committed()[i].hash
                        != *hash,
            },
    {
        self.storage.total_difficulty_by_hash(hash)
    }

    /// The cumulative difficulty through the given block number, committed
    /// or reserved.
    pub fn total_difficulty_by_number(&self, number: u64) -> (r: Option<U256>)
        requires
            self.wf(),
        ensures
            match r {
                Some(td) => number <= self.tail() && td.as_int() == self.td_int_at(number),
                None => number > self.tail(),
            },
    {
        self.storage.total_difficulty_by_number(number)
    }

    /// Whether blocks of this chain support the given protocol version: the
    /// chain runs one version for its whole lifetime, so the queried number
    /// plays no part.
    pub fn block_supports_spec(&self, _number: u64, spec_id: SpecId) -> (r: bool)
        ensures
            r == self.spec_spec_id().at_least_spec(spec_id),
    {
        self.spec_id.is_at_least(spec_id)
    }

    /// The chain id bound at construction.
    pub fn chain_id(&self) -> (r: U256)
        ensures
            r == self.spec_chain_id(),
    {
        self.chain_id
    }

    /// The highest block number, committed or reserved.
    pub fn last_block_number(&self) -> (r: u64)
        ensures
            r == self.tail(),
    {
        self.storage.last_block_number()
    }

    /// The block at the tail of the chain.
    pub fn last_block(&self) -> (r: Arc<DetailedBlock>)
        requires
            self.wf(),
        ensures
            Some(r@) == self.block_at(self.tail()),
    {
        match self.storage.block_by_number(self.storage.last_block_number()) {
            Some(b) => b,
            None => {
                proof {
                    assert(false);
                }
                let header = Header {
                    number: 0,
                    parent_hash: B256::zero(),
                    difficulty: U256::zero(),
                    gas_limit: U256::zero(),
                    gas_used: U256::zero(),
                    timestamp: U256::zero(),
                    state_root: B256::zero(),
                    receipts_root: B256::zero(),
                    withdrawals_root: None,
                    base_fee_per_gas: None,
                    mix_hash: B256::zero(),
                    nonce: 0,
                    extra_data: Vec::new(),
                };
                Arc::new(DetailedBlock::new(header, Vec::new(), Vec::new(), None))
            },
        }
    }

    /// The hash of the block at the given number.
    pub fn block_hash(&self, number: u64) -> (r: Result<B256, BlockchainError>)
        requires
            self.wf(),
        ensures
            number <= self.tail() ==> r == Ok::<B256, BlockchainError>(
                self.block_at(number).unwrap().hash,
            ),
            number > self.tail() ==> r == Err::<B256, BlockchainError>(
                BlockchainError::UnknownBlockNumber,
            ),
    {
        match self.storage.block_by_number(number) {
            Some(b) => Ok(b.hash()),
            None => Err(BlockchainError::UnknownBlockNumber),
        }
    }

    /// Runs the validation contract against the current head and, on
    /// success, appends the block with its cumulative difficulty advanced by
    /// the block's own difficulty.
    pub fn insert_block(&mut self, block: DetailedBlock) -> (r: Result<
        Arc<DetailedBlock>,
        BlockchainError,
    >)
        requires
            old(self).wf(),
            old(self).tail() < u64::MAX,
            old(self).td_int_at(old(self).tail()) + block@.header.difficulty.as_int()
                < u256_bound(),
        ensures
            block@.header.number != old(self).tail() + 1 ==> r == Err::<
                Arc<DetailedBlock>,
                BlockchainError,
            >(
                BlockchainError::InvalidBlockNumber {
                    actual: block@.header.number,
                    expected: (old(self).tail() + 1) as u64,
                },
            ) && *final(self) == *old(self),
            block@.header.number == old(self).tail() + 1 && old(self).spec_spec_id().at_least_spec(
                SpecId::Shanghai,
            ) && block@.header.withdrawals_root is None ==> r == Err::<
                Arc<DetailedBlock>,
                BlockchainError,
            >(BlockchainError::MissingWithdrawals) && *final(self) == *old(self),
            block@.header.number == old(self).tail() + 1 && !(old(self).spec_spec_id().at_least_spec(SpecId::Shanghai)
                && block@.header.withdrawals_root is None) ==> (r matches Ok(b) && b@ == block@
                && final(self).wf() && final(self).tail() == old(self).tail() + 1 && final(self).block_at(final(self).tail()) == Some(block@) && final(self).td_int_at(
                final(self).tail(),
            ) == old(self).td_int_at(old(self).tail()) + block@.header.difficulty.as_int()
                && final(self).spec_chain_id() == old(self).spec_chain_id() && final(self).spec_spec_id() == old(self).spec_spec_id() && forall|n: u64|
                n <= old(self).tail() ==> final(self).block_at(n) == old(self).block_at(n)
                    && final(self).td_int_at(n) == old(self).td_int_at(n)),
    {
        proof {
            self.storage.lemma_block_at_number(self.storage.tail());
        }
        let last = self.last_block();
        match validate_next_block(self.spec_id, &last, &block) {
            Ok(_) => {},
            Err(e) => {
                return Err(e);
            },
        }
        let previous_total_difficulty = match self.storage.total_difficulty_by_number(
            self.storage.last_block_number(),
        ) {
            Some(td) => td,
            None => {
                proof {
                    assert(false);
                }
                U256::zero()
            },
        };
        let total_difficulty = previous_total_difficulty.add_exact(block.header.difficulty);
        let stored = self.storage.insert_block_unchecked(block, total_difficulty);
        Ok(stored)
    }

    /// Reserves `additional` block numbers after the tail, carrying the
    /// head's base fee, state root and difficulty forward and stepping the
    /// timestamp by `interval` per block. Reserving zero blocks changes
    /// nothing at all.
    pub fn reserve_blocks(&mut self, additional: u64, interval: U256) -> (r: Result<
        (),
        BlockchainError,
    >)
        requires
            old(self).wf(),
            old(self).tail() + additional <= u64::MAX,
            ({
                let h = old(self).block_at(old(self).tail()).unwrap().header;
                &&& h.timestamp.as_int() + additional * interval.as_int() < u256_bound()
                &&& old(self).td_int_at(old(self).tail()) + additional * (
                if old(self).spec_spec_id().at_least_spec(SpecId::Merge) {
                    0
                } else {
                    h.difficulty.as_int()
                }) < u256_bound()
            }),
        ensures
            r == Ok::<(), BlockchainError>(()),
            additional == 0 ==> *final(self) == *old(self),
            additional >= 1 ==> final(self).wf() && final(self).tail() == old(self).tail()
                + additional && final(self).spec_chain_id() == old(self).spec_chain_id() && final(self).spec_spec_id() == old(self).spec_spec_id() && (forall|n: u64|
                n <= old(self).tail() ==> final(self).block_at(n) == old(self).block_at(n)
                    && final(self).td_int_at(n) == old(self).td_int_at(n)) && ({
                let h = old(self).block_at(old(self).tail()).unwrap().header;
                let d = if old(self).spec_spec_id().at_least_spec(SpecId::Merge) {
                    (U256 { lo: 0, hi: 0 })
                } else {
                    h.difficulty
                };
                forall|n: u64|
                    old(self).tail() < n <= final(self).tail() ==> (#[trigger] final(self).block_at(n)) is Some && ({
                        let bh = final(self).block_at(n).unwrap().header;
                        &&& bh.number == n
                        &&& bh.timestamp == u256_from_int(
                            h.timestamp.as_int() + (n - old(self).tail()) * interval.as_int(),
                        )
                        &&& bh.base_fee_per_gas == h.base_fee_per_gas
                        &&& bh.state_root == h.state_root
                        &&& bh.difficulty == d
                        &&& final(self).td_int_at(n) == old(self).td_int_at(old(self).tail()) + (n
                            - old(self).tail()) * d.as_int()
                    })
            }),
    {
        if additional == 0 {
            return Ok(());
        }
        proof {
            self.storage.lemma_block_at_number(self.storage.tail());
        }
        let last = self.last_block();
        let previous_total_difficulty = match self.storage.total_difficulty_by_number(
            self.storage.last_block_number(),
        ) {
            Some(td) => td,
            None => {
                proof {
                    assert(false);
                }
                U256::zero()
            },
        };
        self.storage.reserve_blocks(
            additional,
            interval,
            last.header.base_fee_per_gas,
            last.header.state_root,
            last.header.timestamp,
            last.header.difficulty,
            previous_total_difficulty,
            self.spec_id,
        );
        Ok(())
    }

    /// Truncates the chain to `block_number`; a target the chain never
    /// reached is rejected and changes nothing.
    pub fn revert_to_block(&mut self, block_number: u64) -> (r: Result<(), BlockchainError>)
        requires
            old(self).wf(),
        ensures
            block_number > old(self).tail() ==> r == Err::<(), BlockchainError>(
                BlockchainError::UnknownBlockNumber,
            ) && *final(self) == *old(self),
            block_number <= old(self).tail() ==> r == Ok::<(), BlockchainError>(()) && final(self).wf() && final(self).tail() == block_number && final(self).spec_chain_id() == old(self).spec_chain_id() && final(self).spec_spec_id() == old(self).spec_spec_id() && (forall|
                n: u64,
            |
                n <= block_number ==> final(self).block_at(n) == old(self).block_at(n) && final(self).td_int_at(n) == old(self).td_int_at(n)) && (forall|n: u64|
                n > block_number ==> (#[trigger] final(self).block_at(n)) is None),
    {
        let reverted = self.storage.revert_to_block(block_number);
        if reverted {
            proof {
                assert forall|n: u64| n > block_number implies (#[trigger] self.block_at(
                    n,
                )) is None by {
                    self.storage.lemma_none_beyond_tail(n);
                }
            }
            Ok(())
        } else {
            Err(BlockchainError::UnknownBlockNumber)
        }
    }
}

} // verus!
