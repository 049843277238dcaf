//! The validation contract consulted before a block joins the chain, and the
//! chain-level error type.

use vstd::prelude::*;
use crate::block::DetailedBlock;
use crate::spec_id::SpecId;

verus! {

/// An error raised by chain operations.
#[derive(Clone, Copy, Debug, PartialEq, Eq, Structural)]
pub enum BlockchainError {
    /// The candidate block does not continue the chain at `expected`.
    InvalidBlockNumber { actual: u64, expected: u64 },
    /// A post-Shanghai block arrived without a withdrawals root.
    MissingWithdrawals,
    /// The queried or targeted block number lies outside the chain.
    UnknownBlockNumber,
}

/// Decides whether `block` may follow `last_block` on a chain at version
/// `spec_id`: the block number must continue the chain by exactly one, and a
/// post-Shanghai block must carry a withdrawals root. A positive answer is
/// the only basis on which the store accepts a block.
pub fn validate_next_block(
    spec_id: SpecId,
    last_block: &DetailedBlock,
    block: &DetailedBlock,
) -> (r: Result<(), BlockchainError>)
    requires
        last_block@.header.number < u64::MAX,
    ensures
        block@.header.number != last_block@.header.number + 1 ==> r == Err::<
            (),
            BlockchainError,
        >(
            BlockchainError::InvalidBlockNumber {
                actual: block@.header.number,
                expected: (last_block@.header.number + 1) as u64,
            },
        ),
        block@.header.number == last_block@.header.number + 1 && spec_id.at_least_spec(
            SpecId::Shanghai,
        ) && block@.header.withdrawals_root is None ==> r == Err::<(), BlockchainError>(
            BlockchainError::MissingWithdrawals,
        ),
        block@.header.number == last_block@.header.number + 1 && !(spec_id.at_least_spec(
            SpecId::Shanghai,
        ) && block@.header.withdrawals_root is None) ==> r == Ok::<(), BlockchainError>(()),
{
    let expected = last_block.header.number + 1;
    if block.header.number != expected {
        return Err(
            BlockchainError::InvalidBlockNumber { actual: block.header.number, expected },
        );
    }
    if spec_id.is_at_least(SpecId::Shanghai) && block.header.withdrawals_root.is_none() {
        return Err(BlockchainError::MissingWithdrawals);
    }
    Ok(())
}

} // verus!
