//! Blocks: headers, transactions, receipts, withdrawals, and the block hash.
//!
//! A block's hash is the Keccak-256 digest of a fixed byte encoding of its
//! header, so equal headers always hash alike and a materialized block keeps
//! the same hash on every lookup. Wire encoding of blocks for transport is
//! out of scope; the encoding here only feeds the digest.

use vstd::prelude::*;
use crate::hash::{keccak_hash, spec_keccak_hash, B256};
use crate::u256::U256;

verus! {

/// A transaction, known to the chain store by its hash alone.
#[derive(Clone, Copy, Debug, PartialEq, Eq, Structural)]
pub struct Transaction {
    pub hash: B256,
}

/// An execution receipt, tied to the transaction that produced it.
#[derive(Clone, Copy, Debug, PartialEq, Eq, Structural)]
pub struct Receipt {
    pub transaction_hash: B256,
}

/// A validator withdrawal listed in a post-Shanghai block.
#[derive(Clone, Copy, Debug, PartialEq, Eq, Structural)]
pub struct Withdrawal {
    pub index: u64,
    pub validator_index: u64,
    pub amount: U256,
}

/// A block header.
#[derive(Clone, Debug)]
pub struct Header {
    pub number: u64,
    pub parent_hash: B256,
    pub difficulty: U256,
    pub gas_limit: U256,
    pub gas_used: U256,
    pub timestamp: U256,
    pub state_root: B256,
    pub receipts_root: B256,
    pub withdrawals_root: Option<B256>,
    pub base_fee_per_gas: Option<U256>,
    pub mix_hash: B256,
    pub nonce: u64,
    pub extra_data: Vec<u8>,
}

/// The mathematical content of a header.
#[verifier::ext_equal]
pub ghost struct HeaderView {
    pub number: u64,
    pub parent_hash: B256,
    pub difficulty: U256,
    pub gas_limit: U256,
    pub gas_used: U256,
    pub timestamp: U256,
    pub state_root: B256,
    pub receipts_root: B256,
    pub withdrawals_root: Option<B256>,
    pub base_fee_per_gas: Option<U256>,
    pub mix_hash: B256,
    pub nonce: u64,
    pub extra_data: Seq<u8>,
}

impl View for Header {
    type V = HeaderView;

    open spec fn view(&self) -> HeaderView {
        HeaderView {
            number: self.number,
            parent_hash: self.parent_hash,
            difficulty: self.difficulty,
            gas_limit: self.gas_limit,
            gas_used: self.gas_used,
            timestamp: self.timestamp,
            state_root: self.state_root,
            receipts_root: self.receipts_root,
            withdrawals_root: self.withdrawals_root,
            base_fee_per_gas: self.base_fee_per_gas,
            mix_hash: self.mix_hash,
            nonce: self.nonce,
            extra_data: self.extra_data@,
        }
    }
}

/// A block together with its receipts and its hash. Handles handed out by
/// the store are immutable shared views; the store remains the sole owner.
#[derive(Clone, Debug)]
pub struct DetailedBlock {
    pub header: Header,
    pub transactions: Vec<Transaction>,
    pub receipts: Vec<Receipt>,
    pub withdrawals: Option<Vec<Withdrawal>>,
    pub hash: B256,
}

/// The mathematical content of a block.
#[verifier::ext_equal]
pub ghost struct BlockView {
    pub header: HeaderView,
    pub transactions: Seq<Transaction>,
    pub receipts: Seq<Receipt>,
    pub withdrawals: Option<Seq<Withdrawal>>,
    pub hash: B256,
}

impl View for DetailedBlock {
    type V = BlockView;

    open spec fn view(&self) -> BlockView {
        BlockView {
            header: self.header@,
            transactions: self.transactions@,
            receipts: self.receipts@,
            withdrawals: match self.withdrawals {
                Some(w) => Some(w@),
                None => None,
            },
            hash: self.hash,
        }
    }
}

/// The eight bytes of `x`, least significant first.
pub open spec fn spec_u64_bytes(x: u64) -> Seq<u8> {
    seq![
        (x & 0xff) as u8,
        ((x >> 8) & 0xff) as u8,
        ((x >> 16) & 0xff) as u8,
        ((x >> 24) & 0xff) as u8,
        ((x >> 32) & 0xff) as u8,
        ((x >> 40) & 0xff) as u8,
        ((x >> 48) & 0xff) as u8,
        ((x >> 56) & 0xff) as u8,
    ]
}

/// The sixteen bytes of `x`, least significant first.
pub open spec fn spec_u128_bytes(x: u128) -> Seq<u8> {
    spec_u64_bytes((x & 0xffffffffffffffff) as u64) + spec_u64_bytes((x >> 64) as u64)
}

/// The 32 bytes of a hash, low half first.
pub open spec fn spec_b256_bytes(h: B256) -> Seq<u8> {
    spec_u128_bytes(h.lo) + spec_u128_bytes(h.hi)
}

/// The 32 bytes of a 256-bit integer, low limb first.
pub open spec fn spec_u256_bytes(v: U256) -> Seq<u8> {
    spec_u128_bytes(v.lo) + spec_u128_bytes(v.hi)
}

/// An optional hash: a presence byte, then the hash if present.
pub open spec fn spec_opt_b256_bytes(o: Option<B256>) -> Seq<u8> {
    match o {
        Some(h) => seq![1u8] + spec_b256_bytes(h),
        None => seq![0u8],
    }
}

/// An optional 256-bit integer: a presence byte, then the value if present.
pub open spec fn spec_opt_u256_bytes(o: Option<U256>) -> Seq<u8> {
    match o {
        Some(v) => seq![1u8] + spec_u256_bytes(v),
        None => seq![0u8],
    }
}

/// The byte encoding of a header that feeds the block hash: every field in
/// declaration order, fixed width, with variable data length-prefixed.
#[verifier::opaque]
pub open spec fn spec_encode_header(h: HeaderView) -> Seq<u8> {
    spec_u64_bytes(h.number) + spec_b256_bytes(h.parent_hash) + spec_u256_bytes(h.difficulty)
        + spec_u256_bytes(h.gas_limit) + spec_u256_bytes(h.gas_used) + spec_u256_bytes(h.timestamp)
        + spec_b256_bytes(h.state_root) + spec_b256_bytes(h.receipts_root) + spec_opt_b256_bytes(
        h.withdrawals_root,
    ) + spec_opt_u256_bytes(h.base_fee_per_gas) + spec_b256_bytes(h.mix_hash) + spec_u64_bytes(
        h.nonce,
    ) + spec_u64_bytes(h.extra_data.len() as u64) + h.extra_data
}

/// The hash of a block: the Keccak-256 digest of its encoded header.
pub open spec fn spec_block_hash(h: HeaderView) -> B256 {
    spec_keccak_hash(spec_encode_header(h))
}

fn push_u64(out: &mut Vec<u8>, x: u64)
    ensures
        final(out)@ == old(out)@ + spec_u64_bytes(x),
{
    out.push((x & 0xff) as u8);
    out.push(((x >> 8) & 0xff) as u8);
    out.push(((x >> 16) & 0xff) as u8);
    out.push(((x >> 24) & 0xff) as u8);
    out.push(((x >> 32) & 0xff) as u8);
    out.push(((x >> 40) & 0xff) as u8);
    out.push(((x >> 48) & 0xff) as u8);
    out.push(((x >> 56) & 0xff) as u8);
    proof {
        assert(out@ =~= old(out)@ + spec_u64_bytes(x));
    }
}

fn push_u128(out: &mut Vec<u8>, x: u128)
    ensures
        final(out)@ == old(out)@ + spec_u128_bytes(x),
{
    proof {
        assert((x & 0xffffffffffffffff) <= 0xffffffffffffffffu128) by (bit_vector);
        assert((x >> 64) <= 0xffffffffffffffffu128) by (bit_vector);
    }
    push_u64(out, (x & 0xffffffffffffffff) as u64);
    push_u64(out, (x >> 64) as u64);
    proof {
        assert(out@ =~= old(out)@ + spec_u128_bytes(x));
    }
}

fn push_b256(out: &mut Vec<u8>, h: &B256)
    ensures
        final(out)@ == old(out)@ + spec_b256_bytes(*h),
{
    push_u128(out, h.lo);
    push_u128(out, h.hi);
    proof {
        assert(out@ =~= old(out)@ + spec_b256_bytes(*h));
    }
}

fn push_u256(out: &mut Vec<u8>, v: &U256)
    ensures
        final(out)@ == old(out)@ + spec_u256_bytes(*v),
{
    push_u128(out, v.lo);
    push_u128(out, v.hi);
    proof {
        assert(out@ =~= old(out)@ + spec_u256_bytes(*v));
    }
}

fn push_opt_b256(out: &mut Vec<u8>, o: &Option<B256>)
    ensures
        final(out)@ == old(out)@ + spec_opt_b256_bytes(*o),
{
    match o {
        Some(h) => {
            out.push(1u8);
            push_b256(out, h);
            proof {
                assert(out@ =~= old(out)@ + spec_opt_b256_bytes(*o));
            }
        },
        None => {
            out.push(0u8);
            proof {
                assert(out@ =~= old(out)@ + spec_opt_b256_bytes(*o));
            }
        },
    }
}

fn push_opt_u256(out: &mut Vec<u8>, o: &Option<U256>)
    ensures
        final(out)@ == old(out)@ + spec_opt_u256_bytes(*o),
{
    match o {
        Some(v) => {
            out.push(1u8);
            push_u256(out, v);
            proof {
                assert(out@ =~= old(out)@ + spec_opt_u256_bytes(*o));
            }
        },
        None => {
            out.push(0u8);
            proof {
                assert(out@ =~= old(out)@ + spec_opt_u256_bytes(*o));
            }
        },
    }
}

fn push_bytes(out: &mut Vec<u8>, data: &Vec<u8>)
    ensures
        final(out)@ == old(out)@ + data@,
{
    let mut i: usize = 0;
    while i < data.len()
        invariant
            i <= data@.len(),
            out@ == old(out)@ + data@.subrange(0, i as int),
        decreases data@.len() - i,
    {
        out.push(data[i]);
        proof {
            assert(out@ =~= old(out)@ + data@.subrange(0, i as int + 1));
        }
        i = i + 1;
    }
    proof {
        assert(data@.subrange(0, data@.len() as int) =~= data@);
    }
}

/// The byte encoding of a header, matching `spec_encode_header`.
pub fn encode_header(h: &Header) -> (r: Vec<u8>)
    ensures
        r@ == spec_encode_header(h@),
{
    let mut out: Vec<u8> = Vec::new();
    push_u64(&mut out, h.number);
    push_b256(&mut out, &h.parent_hash);
    push_u256(&mut out, &h.difficulty);
    push_u256(&mut out, &h.gas_limit);
    push_u256(&mut out, &h.gas_used);
    push_u256(&mut out, &h.timestamp);
    push_b256(&mut out, &h.state_root);
    push_b256(&mut out, &h.receipts_root);
    push_opt_b256(&mut out, &h.withdrawals_root);
    push_opt_u256(&mut out, &h.base_fee_per_gas);
    push_b256(&mut out, &h.mix_hash);
    push_u64(&mut out, h.nonce);
    push_u64(&mut out, h.extra_data.len() as u64);
    push_bytes(&mut out, &h.extra_data);
    proof {
        reveal(spec_encode_header);
        assert(out@ =~= spec_encode_header(h@));
    }
    out
}

/// The hash of a block with this header.
pub fn compute_block_hash(h: &Header) -> (r: B256)
    ensures
        r == spec_block_hash(h@),
{
    let encoded = encode_header(h);
    keccak_hash(&encoded)
}

impl DetailedBlock {
    /// Builds a block from its parts and computes its hash from the header.
    pub fn new(
        header: Header,
        transactions: Vec<Transaction>,
        receipts: Vec<Receipt>,
        withdrawals: Option<Vec<Withdrawal>>,
    ) -> (r: DetailedBlock)
        ensures
            r@.header == header@,
            r@.transactions == transactions@,
            r@.receipts == receipts@,
            r@.withdrawals == (match withdrawals {
                Some(w) => Some(w@),
                None => None::<Seq<Withdrawal>>,
            }),
            r@.hash == spec_block_hash(header@),
    {
        let hash = compute_block_hash(&header);
        DetailedBlock { header, transactions, receipts, withdrawals, hash }
    }

    /// The hash of this block.
    pub fn hash(&self) -> (r: B256)
        ensures
            r == self@.hash,
    {
        self.hash
    }

    /// Whether some transaction of this block has the given hash.
    pub fn contains_transaction(&self, transaction_hash: &B256) -> (r: bool)
        ensures
            r == exists|t: int|
                0 <= t < self@.transactions.len() && self@.transactions[t].hash
                    == *transaction_hash,
    {
        let mut t: usize = 0;
        while t < self.transactions.len()
            invariant
                t <= self@.transactions.len(),
                forall|u: int|
                    0 <= u < t ==> self@.transactions[u].hash != *transaction_hash,
            decreases self@.transactions.len() - t,
        {
            if self.transactions[t].hash == *transaction_hash {
                return true;
            }
            t = t + 1;
        }
        false
    }

    /// The receipt of the transaction with the given hash, if this block
    /// holds one.
    pub fn find_receipt(&self, transaction_hash: &B256) -> (r: Option<Receipt>)
        ensures
            match r {
                Some(rec) => exists|t: int|
                    0 <= t < self@.receipts.len() && self@.receipts[t] == rec
                        && rec.transaction_hash == *transaction_hash,
                None => forall|t: int|
                    0 <= t < self@.receipts.len() ==> self@.receipts[t].transaction_hash
                        != *transaction_hash,
            },
    {
        let mut t: usize = 0;
        while t < self.receipts.len()
            invariant
                t <= self@.receipts.len(),
                forall|u: int|
                    0 <= u < t ==> self@.receipts[u].transaction_hash != *transaction_hash,
            decreases self@.receipts.len() - t,
        {
            if self.receipts[t].transaction_hash == *transaction_hash {
                return Some(self.receipts[t]);
            }
            t = t + 1;
        }
        None
    }
}

} // verus!
