//! The reservable sparse chain store: sole owner of all block data, indices
//! and difficulty accounting.
//!
//! Committed blocks are stored one by one; a reserved run of future block
//! numbers is kept only as a range descriptor, and a lookup inside the run
//! synthesizes the block from the descriptor. Successive reservations stack
//! as independent trailing ranges rather than coalescing.

use vstd::prelude::*;
use vstd::arithmetic::mul::{lemma_mul_inequality, lemma_mul_is_distributive_add};
use std::sync::Arc;
use crate::block::{BlockView, DetailedBlock, Header, Withdrawal};
use crate::block::spec_block_hash;
use crate::hash::{empty_list_hash, spec_empty_list_hash, B256};
use crate::spec_id::SpecId;
use crate::u256::{u256_bound, u256_from_int, U256};

verus! {

/// Relies on `Arc::clone`: the returned handle refers to the same value.
#[verifier::external_body]
fn clone_arc(v: &Arc<DetailedBlock>) -> (r: Arc<DetailedBlock>)
    ensures
        r == *v,
{
    Arc::clone(v)
}

/// A run of reserved block numbers, described once and never materialized in
/// the store. Block `n` of the run stands `n - first_number + 1` steps after
/// the parent the run was reserved on.
#[derive(Clone, Copy, Debug)]
pub struct Reservation {
    pub first_number: u64,
    pub last_number: u64,
    pub interval: U256,
    pub parent_timestamp: U256,
    pub parent_base_fee: Option<U256>,
    pub parent_state_root: B256,
    pub parent_total_difficulty: U256,
    pub difficulty: U256,
    pub spec_id: SpecId,
}

/// The header synthesized for reserved block `n`: timestamp and cumulative
/// difficulty step forward from the parent of the run, state root and base
/// fee carry over unchanged, and fields outside the descriptor are fixed to
/// empty defaults.
pub open spec fn spec_reserved_header(r: Reservation, n: u64) -> crate::block::HeaderView {
    crate::block::HeaderView {
        number: n,
        parent_hash: (B256 { lo: 0, hi: 0 }),
        difficulty: r.difficulty,
        gas_limit: (U256 { lo: 0, hi: 0 }),
        gas_used: (U256 { lo: 0, hi: 0 }),
        timestamp: u256_from_int(
            r.parent_timestamp.as_int() + (n - r.first_number + 1) * r.interval.as_int(),
        ),
        state_root: r.parent_state_root,
        receipts_root: spec_empty_list_hash(),
        withdrawals_root: if r.spec_id.at_least_spec(SpecId::Shanghai) {
            Some(spec_empty_list_hash())
        } else {
            None
        },
        base_fee_per_gas: r.parent_base_fee,
        mix_hash: (B256 { lo: 0, hi: 0 }),
        nonce: 0,
        extra_data: Seq::empty(),
    }
}

/// The block synthesized for reserved block `n`: the reserved header, no
/// transactions or receipts, and a withdrawals list exactly when the protocol
/// version asks for one.
pub open spec fn spec_reserved_block(r: Reservation, n: u64) -> BlockView {
    BlockView {
        header: spec_reserved_header(r, n),
        transactions: Seq::empty(),
        receipts: Seq::empty(),
        withdrawals: if r.spec_id.at_least_spec(SpecId::Shanghai) {
            Some(Seq::empty())
        } else {
            None
        },
        hash: spec_block_hash(spec_reserved_header(r, n)),
    }
}

/// Builds the block that stands at reserved number `number` of run `r`.
/// Synthesis reads only the descriptor, so repeated lookups agree.
fn materialize_reserved(r: &Reservation, number: u64) -> (b: DetailedBlock)
    requires
        1 <= r.first_number <= number <= r.last_number,
        r.parent_timestamp.as_int() + (r.last_number - r.first_number + 1) * r.interval.as_int()
            < u256_bound(),
    ensures
        b@ == spec_reserved_block(*r, number),
{
    let k = number - r.first_number + 1;
    proof {
        lemma_mul_inequality(
            k as int,
            r.last_number - r.first_number + 1,
            r.interval.as_int(),
        );
    }
    let timestamp = r.parent_timestamp.add_multiple(r.interval, k);
    let withdrawals: Option<Vec<Withdrawal>> = if r.spec_id.is_at_least(SpecId::Shanghai) {
        Some(Vec::new())
    } else {
        None
    };
    let withdrawals_root: Option<B256> = if r.spec_id.is_at_least(SpecId::Shanghai) {
        Some(empty_list_hash())
    } else {
        None
    };
    let header = Header {
        number,
        parent_hash: B256::zero(),
        difficulty: r.difficulty,
        gas_limit: U256::zero(),
        gas_used: U256::zero(),
        timestamp,
        state_root: r.parent_state_root,
        receipts_root: empty_list_hash(),
        withdrawals_root,
        base_fee_per_gas: r.parent_base_fee,
        mix_hash: B256::zero(),
        nonce: 0,
        extra_data: Vec::new(),
    };
    let b = DetailedBlock::new(header, Vec::new(), Vec::new(), withdrawals);
    proof {
        timestamp.lemma_as_int_bounds();
        assert(b@.header =~= spec_reserved_header(*r, number));
        assert(b@ =~~= spec_reserved_block(*r, number));
    }
    b
}

/// The store behind a chain: the committed blocks in block-number order, the
/// cumulative difficulty recorded beside each, the trailing reserved runs,
/// and the highest known block number.
pub struct ReservableSparseBlockchainStorage {
    blocks: Vec<Arc<DetailedBlock>>,
    total_difficulties: Vec<U256>,
    reservations: Vec<Reservation>,
    last_block_number: u64,
}

impl ReservableSparseBlockchainStorage {
    /// The highest block number of the chain, committed or reserved.
    pub closed spec fn tail(self) -> u64 {
        self.last_block_number
    }

    /// The committed blocks, in storage order.
    pub closed spec fn committed(self) -> Seq<BlockView> {
        Seq::new(self.blocks@.len(), |i: int| self.blocks@[i]@)
    }

    /// The cumulative difficulty recorded beside each committed block.
    pub closed spec fn committed_tds(self) -> Seq<U256> {
        self.total_difficulties@
    }

    /// The reserved runs, in block-number order.
    pub closed spec fn ranges(self) -> Seq<Reservation> {
        self.reservations@
    }

    /// Whether block number `n` is committed.
    pub open spec fn has_committed(self, n: u64) -> bool {
        exists|i: int|
            0 <= i < self.committed().len() && self.committed()[i].header.number == n
    }

    /// The storage index of committed block number `n`.
    pub open spec fn committed_idx(self, n: u64) -> int {
        choose|i: int|
            0 <= i < self.committed().len() && self.committed()[i].header.number == n
    }

    /// Whether block number `n` lies in a reserved run.
    pub open spec fn has_reserved(self, n: u64) -> bool {
        exists|j: int|
            0 <= j < self.ranges().len() && (#[trigger] self.ranges()[j]).first_number <= n
                <= self.ranges()[j].last_number
    }

    /// The index of the reserved run holding block number `n`.
    pub open spec fn range_idx(self, n: u64) -> int {
        choose|j: int|
            0 <= j < self.ranges().len() && (#[trigger] self.ranges()[j]).first_number <= n
                <= self.ranges()[j].last_number
    }

    /// The block that stands at number `n`: a committed block as stored, a
    /// reserved number as synthesized from its run, and nothing at all beyond
    /// the tail.
    pub open spec fn block_at(self, n: u64) -> Option<BlockView> {
        if self.has_committed(n) {
            Some(self.committed()[self.committed_idx(n)])
        } else if self.has_reserved(n) {
            Some(spec_reserved_block(self.ranges()[self.range_idx(n)], n))
        } else {
            None
        }
    }

    /// The difficulty of the block at number `n` (zero beyond the tail).
    pub open spec fn diff_int_at(self, n: u64) -> int {
        match self.block_at(n) {
            Some(b) => b.header.difficulty.as_int(),
            None => 0,
        }
    }

    /// The cumulative difficulty through block number `n` (zero beyond the
    /// tail).
    pub open spec fn td_int_at(self, n: u64) -> int {
        if self.has_committed(n) {
            self.committed_tds()[self.committed_idx(n)].as_int()
        } else if self.has_reserved(n) {
            let r = self.ranges()[self.range_idx(n)];
            r.parent_total_difficulty.as_int() + (n - r.first_number + 1) * r.difficulty.as_int()
        } else {
            0
        }
    }

    /// Committed block numbers strictly increase with storage order.
    pub open spec fn committed_sorted(self) -> bool {
        forall|i: int, j: int|
            0 <= i < j < self.committed().len() ==> self.committed()[i].header.number
                < self.committed()[j].header.number
    }

    /// Reserved runs are disjoint and ordered by block number.
    pub open spec fn ranges_ordered(self) -> bool {
        forall|i: int, j: int|
            0 <= i < j < self.ranges().len() ==> self.ranges()[i].last_number
                < self.ranges()[j].first_number
    }

    /// Every reserved run lies after genesis, ends by the tail, and keeps the
    /// quantities its blocks are synthesized from inside 256 bits.
    pub open spec fn ranges_wf(self) -> bool {
        forall|j: int|
            0 <= j < self.ranges().len() ==> {
                let r = #[trigger] self.ranges()[j];
                &&& 1 <= r.first_number <= r.last_number <= self.tail()
                &&& r.parent_timestamp.as_int() + (r.last_number - r.first_number + 1)
                    * r.interval.as_int() < u256_bound()
                &&& r.parent_total_difficulty.as_int() + (r.last_number - r.first_number + 1)
                    * r.difficulty.as_int() < u256_bound()
            }
    }

    /// No block number is both committed and reserved.
    pub open spec fn no_overlap(self) -> bool {
        forall|i: int, j: int|
            0 <= i < self.committed().len() && 0 <= j < self.ranges().len()
                ==> !(#[trigger] self.ranges()[j].first_number
                <= #[trigger] self.committed()[i].header.number
                <= self.ranges()[j].last_number)
    }

    /// Well-formedness: one committed genesis at number zero, contiguous
    /// coverage of `0..=tail`, and cumulative difficulty that steps by each
    /// block's own difficulty.
    pub open spec fn wf(self) -> bool {
        &&& 1 <= self.committed().len()
        &&& self.committed_tds().len() == self.committed().len()
        &&& self.committed()[0].header.number == 0
        &&& self.committed_sorted()
        &&& forall|i: int|
            0 <= i < self.committed().len() ==> #[trigger] self.committed()[i].header.number
                <= self.tail()
        &&& self.ranges_ordered()
        &&& self.ranges_wf()
        &&& self.no_overlap()
        &&& forall|n: u64| n <= self.tail() ==> self.has_committed(n) || self.has_reserved(n)
        &&& forall|n: u64|
            1 <= n <= self.tail() ==> self.td_int_at(n) == self.td_int_at((n - 1) as u64)
                + self.diff_int_at(n)
        &&& self.td_int_at(0) == self.diff_int_at(0)
    }

    /// A committed block found at index `i` is the one the store answers for
    /// its number: strict ordering makes the index unique.
    pub proof fn lemma_committed_at(self, n: u64, i: int)
        requires
            self.committed_sorted(),
            0 <= i < self.committed().len(),
            self.committed()[i].header.number == n,
        ensures
            self.has_committed(n),
            self.committed_idx(n) == i,
    {
        assert(self.has_committed(n));
        let j = self.committed_idx(n);
        if j < i {
            assert(self.committed()[j].header.number < self.committed()[i].header.number);
        } else if i < j {
            assert(self.committed()[i].header.number < self.committed()[j].header.number);
        }
    }

    /// A reserved run found to hold `n` is the run the store answers for it:
    /// ordering makes the run unique.
    pub proof fn lemma_reserved_at(self, n: u64, j: int)
        requires
            self.ranges_ordered(),
            0 <= j < self.ranges().len(),
            self.ranges()[j].first_number <= n <= self.ranges()[j].last_number,
        ensures
            self.has_reserved(n),
            self.range_idx(n) == j,
    {
        assert(self.has_reserved(n));
        let j2 = self.range_idx(n);
        if j2 < j {
            assert(self.ranges()[j2].last_number < self.ranges()[j].first_number);
        } else if j < j2 {
            assert(self.ranges()[j].last_number < self.ranges()[j2].first_number);
        }
    }

    /// Beyond the tail the store holds nothing.
    pub proof fn lemma_none_beyond_tail(self, n: u64)
        requires
            self.wf(),
            n > self.tail(),
        ensures
            self.block_at(n) is None,
    {
        if self.has_committed(n) {
            let i = self.committed_idx(n);
            assert(self.committed()[i].header.number <= self.tail());
        }
        if self.has_reserved(n) {
            let j = self.range_idx(n);
            assert(self.ranges()[j].last_number <= self.tail());
        }
    }

    /// The block the store answers for a reachable number `n` carries the
    /// number `n`.
    pub proof fn lemma_block_at_number(self, n: u64)
        requires
            self.wf(),
            n <= self.tail(),
        ensures
            self.block_at(n) is Some,
            self.block_at(n).unwrap().header.number == n,
    {
        assert(self.has_committed(n) || self.has_reserved(n));
        if self.has_committed(n) {
            let i = self.committed_idx(n);
            assert(0 <= i < self.committed().len() && self.committed()[i].header.number == n);
        } else {
            let j = self.range_idx(n);
            assert(0 <= j < self.ranges().len() && self.ranges()[j].first_number <= n
                <= self.ranges()[j].last_number);
        }
    }

    /// Seeds the store with a single committed genesis block whose cumulative
    /// difficulty is its own difficulty.
    pub fn with_block(genesis: DetailedBlock, total_difficulty: U256) -> (r: Self)
        requires
            genesis@.header.number == 0,
            total_difficulty == genesis@.header.difficulty,
        ensures
            r.wf(),
            r.tail() == 0,
            r.committed() =~= seq![genesis@],
            r.committed_tds() =~= seq![total_difficulty],
            r.ranges() =~= Seq::<Reservation>::empty(),
            r.block_at(0) == Some(genesis@),
            r.td_int_at(0) == total_difficulty.as_int(),
    {
        let mut blocks: Vec<Arc<DetailedBlock>> = Vec::new();
        blocks.push(Arc::new(genesis));
        let mut total_difficulties: Vec<U256> = Vec::new();
        total_difficulties.push(total_difficulty);
        let reservations: Vec<Reservation> = Vec::new();
        let r = ReservableSparseBlockchainStorage {
            blocks,
            total_difficulties,
            reservations,
            last_block_number: 0,
        };
        proof {
            r.lemma_committed_at(0, 0);
            assert forall|n: u64| n <= r.tail() implies r.has_committed(n) || r.has_reserved(
                n,
            ) by {
                r.lemma_committed_at(0, 0);
            }
        }
        r
    }

    /// The current tail.
    pub fn last_block_number(&self) -> (r: u64)
        ensures
            r == self.tail(),
    {
        self.last_block_number
    }

    /// Appends a block whose number the caller has already validated to be
    /// `tail + 1`, recording the cumulative difficulty handed in.
    pub fn insert_block_unchecked(&mut self, block: DetailedBlock, total_difficulty: U256) -> (r:
        Arc<DetailedBlock>)
        requires
            old(self).wf(),
            block@.header.number == old(self).tail() + 1,
            total_difficulty.as_int() == old(self).td_int_at(old(self).tail())
                + block@.header.difficulty.as_int(),
        ensures
            final(self).wf(),
            final(self).tail() == old(self).tail() + 1,
            r@ == block@,
            final(self).committed() =~= old(self).committed().push(block@),
            final(self).committed_tds() =~= old(self).committed_tds().push(total_difficulty),
            final(self).ranges() == old(self).ranges(),
            final(self).block_at((old(self).tail() + 1) as u64) == Some(block@),
            final(self).td_int_at((old(self).tail() + 1) as u64) == total_difficulty.as_int(),
            forall|n: u64|
                n <= old(self).tail() ==> final(self).block_at(n) == old(self).block_at(n)
                    && final(self).td_int_at(n) == old(self).td_int_at(n),
    {
        let ghost old_s = *old(self);
        let arc = Arc::new(block);
        let result = clone_arc(&arc);
        self.blocks.push(arc);
        self.total_difficulties.push(total_difficulty);
        self.last_block_number = self.last_block_number + 1;
        proof {
            let new_s = *self;
            let ghost bn = (old_s.tail() + 1) as u64;
            assert(new_s.committed() =~= old_s.committed().push(block@));
            assert(new_s.committed_tds() =~= old_s.committed_tds().push(total_difficulty));
            let last = old_s.committed().len() as int;
            new_s.lemma_committed_at(bn, last);
            assert(new_s.block_at(bn) == Some(block@));
            assert(new_s.td_int_at(bn) == total_difficulty.as_int());
            assert forall|n: u64| n <= old_s.tail() implies new_s.block_at(n) == old_s.block_at(n)
                && new_s.td_int_at(n) == old_s.td_int_at(n) by {
                Self::lemma_append_frame(old_s, new_s, n);
            }
            assert forall|n: u64| n <= new_s.tail() implies new_s.has_committed(n)
                || new_s.has_reserved(n) by {
                if n <= old_s.tail() {
                    Self::lemma_append_frame(old_s, new_s, n);
                } else {
                    new_s.lemma_committed_at(bn, last);
                }
            }
            assert forall|n: u64| 1 <= n <= new_s.tail() implies new_s.td_int_at(n)
                == new_s.td_int_at((n - 1) as u64) + new_s.diff_int_at(n) by {
                if n <= old_s.tail() {
                    Self::lemma_append_frame(old_s, new_s, n);
                    Self::lemma_append_frame(old_s, new_s, (n - 1) as u64);
                } else {
                    Self::lemma_append_frame(old_s, new_s, (n - 1) as u64);
                    new_s.lemma_committed_at(bn, last);
                }
            }
            assert(new_s.td_int_at(0) == new_s.diff_int_at(0)) by {
                Self::lemma_append_frame(old_s, new_s, 0);
            }
            assert(new_s.wf());
        }
        result
    }

    /// Lookup agrees between a store and the same store with one block pushed
    /// past the old tail (the reserved runs unchanged), at any old number.
    proof fn lemma_append_frame(a: Self, b: Self, n: u64)
        requires
            a.committed_sorted(),
            a.ranges_ordered(),
            forall|i: int|
                0 <= i < a.committed().len() ==> #[trigger] a.committed()[i].header.number
                    <= a.tail(),
            b.committed().len() == a.committed().len() + 1,
            forall|i: int|
                0 <= i < a.committed().len() ==> #[trigger] b.committed()[i] == a.committed()[i],
            forall|i: int|
                0 <= i < a.committed_tds().len() ==> #[trigger] b.committed_tds()[i]
                    == a.committed_tds()[i],
            a.committed_tds().len() == a.committed().len(),
            b.committed_tds().len() == b.committed().len(),
            b.committed()[a.committed().len() as int].header.number == a.tail() + 1,
            b.committed_sorted(),
            b.ranges() == a.ranges(),
            n <= a.tail(),
        ensures
            b.has_committed(n) == a.has_committed(n),
            b.has_reserved(n) == a.has_reserved(n),
            b.block_at(n) == a.block_at(n),
            b.td_int_at(n) == a.td_int_at(n),
            b.diff_int_at(n) == a.diff_int_at(n),
    {
        if a.has_committed(n) {
            let i = a.committed_idx(n);
            a.lemma_committed_at(n, i);
            b.lemma_committed_at(n, i);
        } else if b.has_committed(n) {
            let i = b.committed_idx(n);
            assert(0 <= i < b.committed().len() && b.committed()[i].header.number == n);
            if i < a.committed().len() {
                a.lemma_committed_at(n, i);
            }
        }
        if a.has_reserved(n) {
            let j = a.range_idx(n);
            a.lemma_reserved_at(n, j);
            b.lemma_reserved_at(n, j);
        } else if b.has_reserved(n) {
            let j = b.range_idx(n);
            assert(0 <= j < a.ranges().len() && a.ranges()[j].first_number <= n
                <= a.ranges()[j].last_number);
            a.lemma_reserved_at(n, j);
        }
    }

    /// Records a run of `additional` reserved block numbers after the tail.
    /// The parent quantities handed in describe the block at the old tail.
    pub fn reserve_blocks(
        &mut self,
        additional: u64,
        interval: U256,
        parent_base_fee: Option<U256>,
        parent_state_root: B256,
        parent_timestamp: U256,
        parent_difficulty: U256,
        previous_total_difficulty: U256,
        spec_id: SpecId,
    )
        requires
            old(self).wf(),
            1 <= additional,
            old(self).tail() + additional <= u64::MAX,
            previous_total_difficulty.as_int() == old(self).td_int_at(old(self).tail()),
            parent_timestamp.as_int() + additional * interval.as_int() < u256_bound(),
            previous_total_difficulty.as_int() + additional * (if spec_id.at_least_spec(
                SpecId::Merge,
            ) {
                0
            } else {
                parent_difficulty.as_int()
            }) < u256_bound(),
        ensures
            final(self).wf(),
            final(self).tail() == old(self).tail() + additional,
            final(self).committed() == old(self).committed(),
            final(self).committed_tds() == old(self).committed_tds(),
            forall|n: u64|
                n <= old(self).tail() ==> final(self).block_at(n) == old(self).block_at(n)
                    && final(self).td_int_at(n) == old(self).td_int_at(n),
            ({
                let d = Reservation {
                    first_number: (old(self).tail() + 1) as u64,
                    last_number: (old(self).tail() + additional) as u64,
                    interval,
                    parent_timestamp,
                    parent_base_fee,
                    parent_state_root,
                    parent_total_difficulty: previous_total_difficulty,
                    difficulty: if spec_id.at_least_spec(SpecId::Merge) {
                        (U256 { lo: 0, hi: 0 })
                    } else {
                        parent_difficulty
                    },
                    spec_id,
                };
                &&& final(self).ranges() =~= old(self).ranges().push(d)
                &&& forall|n: u64|
                    old(self).tail() < n <= final(self).tail() ==> final(self).block_at(n)
                        == Some(spec_reserved_block(d, n)) && final(self).td_int_at(n)
                        == previous_total_difficulty.as_int() + (n - old(self).tail())
                        * d.difficulty.as_int()
            }),
    {
        let ghost old_s = *old(self);
        let difficulty = if spec_id.is_at_least(SpecId::Merge) {
            U256::zero()
        } else {
            parent_difficulty
        };
        let first_number = self.last_block_number + 1;
        let last_number = self.last_block_number + additional;
        let descriptor = Reservation {
            first_number,
            last_number,
            interval,
            parent_timestamp,
            parent_base_fee,
            parent_state_root,
            parent_total_difficulty: previous_total_difficulty,
            difficulty,
            spec_id,
        };
        self.reservations.push(descriptor);
        self.last_block_number = last_number;
        proof {
            let new_s = *self;
            let jd = old_s.ranges().len() as int;
            assert(new_s.ranges() =~= old_s.ranges().push(descriptor));
            assert forall|n: u64| n <= old_s.tail() implies new_s.block_at(n) == old_s.block_at(n)
                && new_s.td_int_at(n) == old_s.td_int_at(n) by {
                Self::lemma_range_append_frame(old_s, new_s, n);
            }
            assert forall|n: u64| old_s.tail() < n <= new_s.tail() implies new_s.block_at(n)
                == Some(spec_reserved_block(descriptor, n)) && new_s.td_int_at(n)
                == previous_total_difficulty.as_int() + (n - old_s.tail())
                * descriptor.difficulty.as_int() by {
                if new_s.has_committed(n) {
                    let i = new_s.committed_idx(n);
                    assert(new_s.committed()[i].header.number <= old_s.tail());
                }
                new_s.lemma_reserved_at(n, jd);
            }
            assert forall|n: u64| n <= new_s.tail() implies new_s.has_committed(n)
                || new_s.has_reserved(n) by {
                if n <= old_s.tail() {
                    Self::lemma_range_append_frame(old_s, new_s, n);
                } else {
                    new_s.lemma_reserved_at(n, jd);
                }
            }
            assert forall|n: u64| 1 <= n <= new_s.tail() implies new_s.td_int_at(n)
                == new_s.td_int_at((n - 1) as u64) + new_s.diff_int_at(n) by {
                let m = (n - 1) as u64;
                if n <= old_s.tail() {
                    Self::lemma_range_append_frame(old_s, new_s, n);
                    Self::lemma_range_append_frame(old_s, new_s, m);
                } else {
                    if new_s.has_committed(n) {
                        let i = new_s.committed_idx(n);
                        assert(new_s.committed()[i].header.number <= old_s.tail());
                    }
                    new_s.lemma_reserved_at(n, jd);
                    if n == old_s.tail() + 1 {
                        Self::lemma_range_append_frame(old_s, new_s, m);
                        assert((n - descriptor.first_number + 1) * descriptor.difficulty.as_int()
                            == 1 * descriptor.difficulty.as_int());
                    } else {
                        new_s.lemma_reserved_at(m, jd);
                        lemma_mul_is_distributive_add(
                            descriptor.difficulty.as_int(),
                            m - descriptor.first_number + 1,
                            1,
                        );
                        vstd::arithmetic::mul::lemma_mul_is_commutative(
                            descriptor.difficulty.as_int(),
                            m - descriptor.first_number + 1,
                        );
                        vstd::arithmetic::mul::lemma_mul_is_commutative(
                            descriptor.difficulty.as_int(),
                            n - descriptor.first_number + 1,
                        );
                    }
                }
            }
            assert(new_s.td_int_at(0) == new_s.diff_int_at(0)) by {
                Self::lemma_range_append_frame(old_s, new_s, 0);
            }
            assert(new_s.ranges_wf()) by {
                assert forall|j: int| 0 <= j < new_s.ranges().len() implies {
                    let r = #[trigger] new_s.ranges()[j];
                    &&& 1 <= r.first_number <= r.last_number <= new_s.tail()
                    &&& r.parent_timestamp.as_int() + (r.last_number - r.first_number + 1)
                        * r.interval.as_int() < u256_bound()
                    &&& r.parent_total_difficulty.as_int() + (r.last_number - r.first_number + 1)
                        * r.difficulty.as_int() < u256_bound()
                } by {
                    if j < old_s.ranges().len() {
                        assert(old_s.ranges_wf());
                        assert(old_s.ranges()[j] == new_s.ranges()[j]);
                    }
                }
            }
            assert(new_s.wf());
        }
    }

    /// Lookup agrees between a store and the same store with one reserved run
    /// pushed past the old tail, at any old number.
    proof fn lemma_range_append_frame(a: Self, b: Self, n: u64)
        requires
            a.committed_sorted(),
            a.ranges_ordered(),
            a.ranges_wf(),
            b.committed() == a.committed(),
            b.committed_tds() == a.committed_tds(),
            b.ranges().len() == a.ranges().len() + 1,
            forall|j: int|
                0 <= j < a.ranges().len() ==> #[trigger] b.ranges()[j] == a.ranges()[j],
            b.ranges()[a.ranges().len() as int].first_number > a.tail(),
            b.ranges_ordered(),
            n <= a.tail(),
        ensures
            b.has_committed(n) == a.has_committed(n),
            b.has_reserved(n) == a.has_reserved(n),
            b.block_at(n) == a.block_at(n),
            b.td_int_at(n) == a.td_int_at(n),
            b.diff_int_at(n) == a.diff_int_at(n),
    {
        if a.has_committed(n) {
            let i = a.committed_idx(n);
            a.lemma_committed_at(n, i);
            b.lemma_committed_at(n, i);
        } else if b.has_committed(n) {
            let i = b.committed_idx(n);
            a.lemma_committed_at(n, i);
        }
        if a.has_reserved(n) {
            let j = a.range_idx(n);
            a.lemma_reserved_at(n, j);
            b.lemma_reserved_at(n, j);
        } else if b.has_reserved(n) {
            let j = b.range_idx(n);
            assert(0 <= j < b.ranges().len() && b.ranges()[j].first_number <= n
                <= b.ranges()[j].last_number);
            if j < a.ranges().len() {
                a.lemma_reserved_at(n, j);
            }
        }
    }

    /// The block at number `number`, if the chain reaches it.
    pub fn block_by_number(&self, number: u64) -> (r: Option<Arc<DetailedBlock>>)
        requires
            self.wf(),
        ensures
            match r {
                Some(b) => number <= self.tail() && Some(b@) == self.block_at(number),
                None => number > self.tail(),
            },
    {
        if number > self.last_block_number {
            return None;
        }
        let mut i: usize = 0;
        while i < self.blocks.len()
            invariant
                self.wf(),
                i <= self.committed().len(),
                forall|t: int| 0 <= t < i ==> self.committed()[t].header.number != number,
            decreases self.committed().len() - i,
        {
            if self.blocks[i].header.number == number {
                proof {
                    self.lemma_committed_at(number, i as int);
                }
                return Some(clone_arc(&self.blocks[i]));
            }
            i = i + 1;
        }
        let mut j: usize = 0;
        while j < self.reservations.len()
            invariant
                self.wf(),
                j <= self.ranges().len(),
                forall|t: int|
                    0 <= t < j ==> !((#[trigger] self.ranges()[t]).first_number <= number
                        <= self.ranges()[t].last_number),
                forall|t: int| 0 <= t < self.committed().len() ==> self.committed()[t].header.number
                    != number,
            decreases self.ranges().len() - j,
        {
            let r = self.reservations[j];
            if r.first_number <= number && number <= r.last_number {
                proof {
                    self.lemma_reserved_at(number, j as int);
                }
                let b = materialize_reserved(&r, number);
                return Some(Arc::new(b));
            }
            j = j + 1;
        }
        proof {
            assert(self.has_committed(number) || self.has_reserved(number));
            if self.has_committed(number) {
                let i0 = self.committed_idx(number);
                assert(self.committed()[i0].header.number == number);
            } else {
                let j0 = self.range_idx(number);
                assert(self.ranges()[j0].first_number <= number <= self.ranges()[j0].last_number);
            }
            assert(false);
        }
        None
    }

    /// The cumulative difficulty through block number `number`, if the chain
    /// reaches it.
    pub fn total_difficulty_by_number(&self, number: u64) -> (r: Option<U256>)
        requires
            self.wf(),
        ensures
            match r {
                Some(td) => number <= self.tail() && td.as_int() == self.td_int_at(number),
                None => number > self.tail(),
            },
    {
        if number > self.last_block_number {
            return None;
        }
        let mut i: usize = 0;
        while i < self.blocks.len()
            invariant
                self.wf(),
                i <= self.committed().len(),
                forall|t: int| 0 <= t < i ==> self.committed()[t].header.number != number,
            decreases self.committed().len() - i,
        {
            if self.blocks[i].header.number == number {
                proof {
                    self.lemma_committed_at(number, i as int);
                }
                return Some(self.total_difficulties[i]);
            }
            i = i + 1;
        }
        let mut j: usize = 0;
        while j < self.reservations.len()
            invariant
                self.wf(),
                j <= self.ranges().len(),
                forall|t: int|
                    0 <= t < j ==> !((#[trigger] self.ranges()[t]).first_number <= number
                        <= self.ranges()[t].last_number),
                forall|t: int| 0 <= t < self.committed().len() ==> self.committed()[t].header.number
                    != number,
            decreases self.ranges().len() - j,
        {
            let r = self.reservations[j];
            if r.first_number <= number && number <= r.last_number {
                proof {
                    self.lemma_reserved_at(number, j as int);
                    lemma_mul_inequality(
                        number - r.first_number + 1,
                        r.last_number - r.first_number + 1,
                        r.difficulty.as_int(),
                    );
                }
                let k = number - r.first_number + 1;
                return Some(r.parent_total_difficulty.add_multiple(r.difficulty, k));
            }
            j = j + 1;
        }
        proof {
            assert(self.has_committed(number) || self.has_reserved(number));
            if self.has_committed(number) {
                let i0 = self.committed_idx(number);
                assert(self.committed()[i0].header.number == number);
            } else {
                let j0 = self.range_idx(number);
                assert(self.ranges()[j0].first_number <= number <= self.ranges()[j0].last_number);
            }
            assert(false);
        }
        None
    }

    /// The committed block with the given hash, if one is stored.
    pub fn block_by_hash(&self, hash: &B256) -> (r: Option<Arc<DetailedBlock>>)
        ensures
            match r {
                Some(b) => b@.hash == *hash && exists|i: int|
                    0 <= i < self.committed().len() && #[trigger] self.committed()[i] == b@,
                None => forall|i: int|
                    0 <= i < self.committed().len() ==> #[trigger] self.committed()[i].hash
                        != *hash,
            },
    {
        let mut i: usize = 0;
        while i < self.blocks.len()
            invariant
                i <= self.committed().len(),
                forall|t: int| 0 <= t < i ==> #[trigger] self.committed()[t].hash != *hash,
            decreases self.committed().len() - i,
        {
            if self.blocks[i].hash == *hash {
                let b = clone_arc(&self.blocks[i]);
                proof {
                    assert(self.committed()[i as int] == b@);
                }
                return Some(b);
            }
            i = i + 1;
        }
        None
    }

    /// The cumulative difficulty recorded for the committed block with the
    /// given hash, if one is stored.
    pub fn total_difficulty_by_hash(&self, hash: &B256) -> (r: Option<U256>)
        requires
            self.wf(),
        ensures
            match r {
                Some(td) => exists|i: int|
                    0 <= i < self.committed().len() && #[trigger] self.committed()[i].hash == *hash
                        && td.as_int() == self.td_int_at(self.committed()[i].header.number),
                None => forall|i: int|
                    0 <= i < self.committed().len() ==> #[trigger] self.committed()[i].hash
                        != *hash,
            },
    {
        let mut i: usize = 0;
        while i < self.blocks.len()
            invariant
                self.wf(),
                i <= self.committed().len(),
                forall|t: int| 0 <= t < i ==> #[trigger] self.committed()[t].hash != *hash,
            decreases self.committed().len() - i,
        {
            if self.blocks[i].hash == *hash {
                let td = self.total_difficulties[i];
                proof {
                    self.lemma_committed_at(self.committed()[i as int].header.number, i as int);
                    assert(self.committed()[i as int].hash == *hash);
                    assert(td.as_int() == self.td_int_at(
                        self.committed()[i as int].header.number,
                    ));
                }
                return Some(td);
            }
            i = i + 1;
        }
        None
    }

    /// The committed block holding the transaction with the given hash, if
    /// one is stored.
    pub fn block_by_transaction_hash(&self, transaction_hash: &B256) -> (r: Option<
        Arc<DetailedBlock>,
    >)
        ensures
            match r {
                Some(b) => (exists|i: int|
                    0 <= i < self.committed().len() && #[trigger] self.committed()[i] == b@)
                    && (exists|t: int|
                    0 <= t < b@.transactions.len() && b@.transactions[t].hash
                        == *transaction_hash),
                None => forall|i: int, t: int|
                    0 <= i < self.committed().len() && 0 <= t
                        < self.committed()[i].transactions.len()
                        ==> #[trigger] self.committed()[i].transactions[t].hash
                        != *transaction_hash,
            },
    {
        let mut i: usize = 0;
        while i < self.blocks.len()
            invariant
                i <= self.committed().len(),
                forall|u: int, t: int|
                    0 <= u < i && 0 <= t < self.committed()[u].transactions.len()
                        ==> #[trigger] self.committed()[u].transactions[t].hash
                        != *transaction_hash,
            decreases self.committed().len() - i,
        {
            if self.blocks[i].contains_transaction(transaction_hash) {
                let b = clone_arc(&self.blocks[i]);
                proof {
                    assert(self.committed()[i as int] == b@);
                }
                return Some(b);
            }
            i = i + 1;
        }
        None
    }

    /// The receipt of the transaction with the given hash, if a committed
    /// block holds it.
    pub fn receipt_by_transaction_hash(&self, transaction_hash: &B256) -> (r: Option<
        crate::block::Receipt,
    >)
        ensures
            match r {
                Some(rec) => rec.transaction_hash == *transaction_hash && exists|i: int, t: int|
                    0 <= i < self.committed().len() && 0 <= t < self.committed()[i].receipts.len()
                        && #[trigger] self.committed()[i].receipts[t] == rec,
                None => forall|i: int, t: int|
                    0 <= i < self.committed().len() && 0 <= t < self.committed()[i].receipts.len()
                        ==> #[trigger] self.committed()[i].receipts[t].transaction_hash
                        != *transaction_hash,
            },
    {
        let mut i: usize = 0;
        while i < self.blocks.len()
            invariant
                i <= self.committed().len(),
                forall|u: int, t: int|
                    0 <= u < i && 0 <= t < self.committed()[u].receipts.len()
                        ==> #[trigger] self.committed()[u].receipts[t].transaction_hash
                        != *transaction_hash,
            decreases self.committed().len() - i,
        {
            match self.blocks[i].find_receipt(transaction_hash) {
                Some(rec) => {
                    proof {
                        let bv = self.committed()[i as int];
                        assert(exists|t: int|
                            0 <= t < bv.receipts.len() && bv.receipts[t] == rec
                                && rec.transaction_hash == *transaction_hash);
                        let tt = choose|t: int|
                            0 <= t < bv.receipts.len() && bv.receipts[t] == rec
                                && rec.transaction_hash == *transaction_hash;
                        assert(self.committed()[i as int].receipts[tt] == rec);
                    }
                    return Some(rec);
                },
                None => {},
            }
            i = i + 1;
        }
        None
    }

    /// Truncates the chain to `block_number`: discards every committed block
    /// and reserved number above it, cutting a straddling run in place.
    /// Returns false, changing nothing, when the chain never reached
    /// `block_number`.
    pub fn revert_to_block(&mut self, block_number: u64) -> (r: bool)
        requires
            old(self).wf(),
        ensures
            block_number > old(self).tail() ==> !r && *final(self) == *old(self),
            block_number <= old(self).tail() ==> r && final(self).wf() && final(self).tail()
                == block_number,
            block_number <= old(self).tail() ==> forall|n: u64|
                n <= block_number ==> final(self).block_at(n) == old(self).block_at(n)
                    && final(self).td_int_at(n) == old(self).td_int_at(n),
    {
        if block_number > self.last_block_number {
            return false;
        }
        let ghost old_s = *old(self);
        while self.blocks.len() >= 1 && self.blocks[self.blocks.len() - 1].header.number
            > block_number
            invariant
                old_s.wf(),
                block_number <= old_s.tail(),
                self.blocks@.len() <= old_s.committed().len(),
                self.total_difficulties@.len() == self.blocks@.len(),
                forall|i: int|
                    0 <= i < self.blocks@.len() ==> #[trigger] self.committed()[i]
                        == old_s.committed()[i],
                forall|i: int|
                    0 <= i < self.blocks@.len() ==> #[trigger] self.committed_tds()[i]
                        == old_s.committed_tds()[i],
                forall|i: int|
                    self.blocks@.len() <= i < old_s.committed().len()
                        ==> #[trigger] old_s.committed()[i].header.number > block_number,
                self.reservations@ == old_s.ranges(),
                self.last_block_number == old_s.tail(),
            decreases self.blocks@.len(),
        {
            let ghost prev = *self;
            proof {
                let last = self.blocks@.len() - 1;
                assert(self.committed()[last] == old_s.committed()[last]);
                if last == 0 {
                    assert(old_s.committed()[0].header.number == 0);
                }
            }
            self.blocks.pop();
            self.total_difficulties.pop();
            proof {
                assert forall|i: int| 0 <= i < self.blocks@.len() implies #[trigger] self.committed()[i]
                    == old_s.committed()[i] by {
                    assert(self.blocks@[i] == prev.blocks@[i]);
                    assert(prev.committed()[i] == old_s.committed()[i]);
                }
                assert forall|i: int| 0 <= i < self.blocks@.len()
                    implies #[trigger] self.committed_tds()[i] == old_s.committed_tds()[i] by {
                    assert(self.total_difficulties@[i] == prev.total_difficulties@[i]);
                    assert(prev.committed_tds()[i] == old_s.committed_tds()[i]);
                }
            }
        }
        let ghost mid_s = *self;
        proof {
            assert(mid_s.committed().len() >= 1) by {
                if self.blocks@.len() == 0 {
                    assert(old_s.committed()[0].header.number > block_number);
                }
            }
            assert(mid_s.committed()[mid_s.committed().len() - 1].header.number <= block_number);
        }
        while self.reservations.len() >= 1 && self.reservations[self.reservations.len()
            - 1].first_number > block_number
            invariant
                old_s.wf(),
                self.blocks@ == mid_s.blocks@,
                self.total_difficulties@ == mid_s.total_difficulties@,
                self.last_block_number == old_s.tail(),
                self.reservations@.len() <= old_s.ranges().len(),
                forall|j: int|
                    0 <= j < self.reservations@.len() ==> #[trigger] self.reservations@[j]
                        == old_s.ranges()[j],
                forall|j: int|
                    self.reservations@.len() <= j < old_s.ranges().len()
                        ==> #[trigger] old_s.ranges()[j].first_number > block_number,
            decreases self.reservations@.len(),
        {
            self.reservations.pop();
        }
        let ghost r2 = self.reservations@;
        proof {
            assert(r2.len() == 0 || r2[r2.len() - 1].first_number <= block_number);
        }
        if self.reservations.len() >= 1 {
            let jlast = self.reservations.len() - 1;
            let rsv = self.reservations[jlast];
            if rsv.last_number > block_number {
                self.reservations.pop();
                let truncated = Reservation {
                    first_number: rsv.first_number,
                    last_number: block_number,
                    interval: rsv.interval,
                    parent_timestamp: rsv.parent_timestamp,
                    parent_base_fee: rsv.parent_base_fee,
                    parent_state_root: rsv.parent_state_root,
                    parent_total_difficulty: rsv.parent_total_difficulty,
                    difficulty: rsv.difficulty,
                    spec_id: rsv.spec_id,
                };
                self.reservations.push(truncated);
                proof {
                    assert(self.reservations@ =~= r2.update(r2.len() - 1, truncated));
                }
            }
        }
        self.last_block_number = block_number;
        proof {
            let new_s = *self;
            let blen = new_s.ranges().len() as int;
            assert(new_s.committed() =~= mid_s.committed());
            assert(new_s.committed_tds() =~= mid_s.committed_tds());
            assert forall|i: int| 0 <= i < new_s.committed().len()
                implies #[trigger] new_s.committed()[i].header.number <= block_number by {
                let last = new_s.committed().len() - 1;
                assert(new_s.committed()[last] == mid_s.committed()[last]);
                if i < last {
                    assert(new_s.committed()[i] == old_s.committed()[i]);
                    assert(new_s.committed()[last] == old_s.committed()[last]);
                    assert(old_s.committed()[i].header.number < old_s.committed()[last].header.number);
                }
            }
            assert(blen == r2.len());
            assert forall|j: int| 0 <= j < blen implies Self::range_cut(
                old_s.ranges()[j],
                new_s.ranges()[j],
                block_number,
            ) by {
                let o = old_s.ranges()[j];
                assert(r2[j] == o);
                assert(old_s.ranges()[blen - 1].first_number <= block_number) by {
                    assert(r2[blen - 1] == old_s.ranges()[blen - 1]);
                }
                if j < blen - 1 {
                    assert(new_s.ranges()[j] == r2[j]);
                    assert(o.last_number < old_s.ranges()[blen - 1].first_number);
                    assert(o.first_number <= o.last_number);
                } else {
                    assert(o.first_number <= block_number);
                }
            }
            assert(Self::truncated_to(old_s, new_s, block_number));
            Self::lemma_truncated_wf(old_s, new_s, block_number);
            assert forall|n: u64| n <= block_number implies new_s.block_at(n) == old_s.block_at(n)
                && new_s.td_int_at(n) == old_s.td_int_at(n) by {
                Self::lemma_truncate_frame(old_s, new_s, block_number, n);
            }
        }
        true
    }

    /// `w` is `o` with everything above `cutoff` cut away (and `o` reaches
    /// `cutoff` from below).
    pub open spec fn range_cut(o: Reservation, w: Reservation, cutoff: u64) -> bool {
        &&& w.first_number == o.first_number
        &&& w.interval == o.interval
        &&& w.parent_timestamp == o.parent_timestamp
        &&& w.parent_base_fee == o.parent_base_fee
        &&& w.parent_state_root == o.parent_state_root
        &&& w.parent_total_difficulty == o.parent_total_difficulty
        &&& w.difficulty == o.difficulty
        &&& w.spec_id == o.spec_id
        &&& w.last_number == (if o.last_number > cutoff {
            cutoff
        } else {
            o.last_number
        })
        &&& w.first_number <= cutoff
    }

    /// The relation a revert leaves between the old store and the new one.
    pub open spec fn truncated_to(a: Self, b: Self, cutoff: u64) -> bool {
        &&& cutoff <= a.tail()
        &&& b.tail() == cutoff
        &&& 1 <= b.committed().len() <= a.committed().len()
        &&& b.committed_tds().len() == b.committed().len()
        &&& forall|i: int|
            0 <= i < b.committed().len() ==> #[trigger] b.committed()[i] == a.committed()[i]
        &&& forall|i: int|
            0 <= i < b.committed().len() ==> #[trigger] b.committed_tds()[i]
                == a.committed_tds()[i]
        &&& forall|i: int|
            b.committed().len() <= i < a.committed().len()
                ==> #[trigger] a.committed()[i].header.number > cutoff
        &&& forall|i: int|
            0 <= i < b.committed().len() ==> #[trigger] b.committed()[i].header.number <= cutoff
        &&& b.ranges().len() <= a.ranges().len()
        &&& forall|j: int|
            0 <= j < b.ranges().len() ==> Self::range_cut(
                a.ranges()[j],
                #[trigger] b.ranges()[j],
                cutoff,
            )
        &&& forall|j: int|
            b.ranges().len() <= j < a.ranges().len() ==> #[trigger] a.ranges()[j].first_number
                > cutoff
    }

    /// A revert to `cutoff` leaves a well-formed store.
    proof fn lemma_truncated_wf(a: Self, b: Self, cutoff: u64)
        requires
            a.wf(),
            Self::truncated_to(a, b, cutoff),
        ensures
            b.wf(),
    {
        assert(b.committed_sorted());
        assert(b.ranges_ordered()) by {
            assert forall|i: int, j: int| 0 <= i < j < b.ranges().len() implies b.ranges()[i].last_number < b.ranges()[j].first_number by {
                assert(a.ranges()[i].last_number < a.ranges()[j].first_number);
                assert(b.ranges()[i].last_number <= a.ranges()[i].last_number);
            }
        }
        assert(b.ranges_wf()) by {
            assert forall|j: int| 0 <= j < b.ranges().len() implies {
                let r = #[trigger] b.ranges()[j];
                &&& 1 <= r.first_number <= r.last_number <= b.tail()
                &&& r.parent_timestamp.as_int() + (r.last_number - r.first_number + 1)
                    * r.interval.as_int() < u256_bound()
                &&& r.parent_total_difficulty.as_int() + (r.last_number - r.first_number + 1)
                    * r.difficulty.as_int() < u256_bound()
            } by {
                let o = a.ranges()[j];
                let w = b.ranges()[j];
                lemma_mul_inequality(
                    w.last_number - w.first_number + 1,
                    o.last_number - o.first_number + 1,
                    o.interval.as_int(),
                );
                lemma_mul_inequality(
                    w.last_number - w.first_number + 1,
                    o.last_number - o.first_number + 1,
                    o.difficulty.as_int(),
                );
            }
        }
        assert(b.no_overlap()) by {
            assert forall|i: int, j: int|
                0 <= i < b.committed().len() && 0 <= j < b.ranges().len() implies !(
            (#[trigger] b.ranges()[j]).first_number <= (#[trigger] b.committed()[i]).header.number
                <= b.ranges()[j].last_number) by {
                assert(!(a.ranges()[j].first_number <= a.committed()[i].header.number
                    <= a.ranges()[j].last_number));
                assert(b.ranges()[j].last_number <= a.ranges()[j].last_number);
            }
        }
        assert forall|n: u64| n <= b.tail() implies b.has_committed(n) || b.has_reserved(n) by {
            Self::lemma_truncate_frame(a, b, cutoff, n);
        }
        assert forall|n: u64| 1 <= n <= b.tail() implies b.td_int_at(n) == b.td_int_at(
            (n - 1) as u64,
        ) + b.diff_int_at(n) by {
            Self::lemma_truncate_frame(a, b, cutoff, n);
            Self::lemma_truncate_frame(a, b, cutoff, (n - 1) as u64);
        }
        assert(b.td_int_at(0) == b.diff_int_at(0)) by {
            Self::lemma_truncate_frame(a, b, cutoff, 0);
        }
    }

    /// Lookup agrees between a store and its revert to `cutoff`, at any
    /// number the revert keeps.
    proof fn lemma_truncate_frame(a: Self, b: Self, cutoff: u64, n: u64)
        requires
            a.wf(),
            Self::truncated_to(a, b, cutoff),
            n <= cutoff,
        ensures
            b.has_committed(n) == a.has_committed(n),
            b.has_reserved(n) == a.has_reserved(n),
            b.block_at(n) == a.block_at(n),
            b.td_int_at(n) == a.td_int_at(n),
            b.diff_int_at(n) == a.diff_int_at(n),
    {
        assert(b.committed_sorted());
        assert(b.ranges_ordered()) by {
            assert forall|i: int, j: int| 0 <= i < j < b.ranges().len() implies b.ranges()[i].last_number < b.ranges()[j].first_number by {
                assert(a.ranges()[i].last_number < a.ranges()[j].first_number);
                assert(b.ranges()[i].last_number <= a.ranges()[i].last_number);
            }
        }
        if a.has_committed(n) {
            let i = a.committed_idx(n);
            a.lemma_committed_at(n, i);
            assert(i < b.committed().len()) by {
                if i >= b.committed().len() {
                    assert(a.committed()[i].header.number > cutoff);
                }
            }
            b.lemma_committed_at(n, i);
        } else if b.has_committed(n) {
            let i = b.committed_idx(n);
            assert(0 <= i < b.committed().len() && b.committed()[i].header.number == n);
            a.lemma_committed_at(n, i);
        }
        if a.has_reserved(n) {
            let j = a.range_idx(n);
            a.lemma_reserved_at(n, j);
            assert(j < b.ranges().len()) by {
                if j >= b.ranges().len() {
                    assert(a.ranges()[j].first_number > cutoff);
                }
            }
            b.lemma_reserved_at(n, j);
            assert(spec_reserved_header(b.ranges()[j], n) =~= spec_reserved_header(
                a.ranges()[j],
                n,
            ));
            assert(spec_reserved_block(b.ranges()[j], n) =~~= spec_reserved_block(
                a.ranges()[j],
                n,
            ));
        } else if b.has_reserved(n) {
            let j = b.range_idx(n);
            assert(0 <= j < b.ranges().len() && b.ranges()[j].first_number <= n <= b.ranges()[j].last_number);
            assert(a.ranges()[j].last_number >= b.ranges()[j].last_number);
            a.lemma_reserved_at(n, j);
        }
    }
}

} // verus!
