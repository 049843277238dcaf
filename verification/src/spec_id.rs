//! The protocol version active for the whole lifetime of a chain.

use vstd::prelude::*;

verus! {

/// The set of chain rules (header shape, required fields) a chain runs under.
/// Later versions are supersets of earlier ones; ordering goes by `ordinal`.
#[derive(Clone, Copy, Debug, PartialEq, Eq, PartialOrd, Ord, Structural)]
pub enum SpecId {
    Frontier,
    FrontierThawing,
    Homestead,
    DaoFork,
    Tangerine,
    SpuriousDragon,
    Byzantium,
    Constantinople,
    Petersburg,
    Istanbul,
    MuirGlacier,
    Berlin,
    London,
    ArrowGlacier,
    GrayGlacier,
    Merge,
    Shanghai,
    Cancun,
}

impl SpecId {
    /// The position of this version in the activation order.
    pub open spec fn ordinal_spec(self) -> int {
        match self {
            SpecId::Frontier => 0,
            SpecId::FrontierThawing => 1,
            SpecId::Homestead => 2,
            SpecId::DaoFork => 3,
            SpecId::Tangerine => 4,
            SpecId::SpuriousDragon => 5,
            SpecId::Byzantium => 6,
            SpecId::Constantinople => 7,
            SpecId::Petersburg => 8,
            SpecId::Istanbul => 9,
            SpecId::MuirGlacier => 10,
            SpecId::Berlin => 11,
            SpecId::London => 12,
            SpecId::ArrowGlacier => 13,
            SpecId::GrayGlacier => 14,
            SpecId::Merge => 15,
            SpecId::Shanghai => 16,
            SpecId::Cancun => 17,
        }
    }

    /// Whether this version activates at or after `other`.
    pub open spec fn at_least_spec(self, other: SpecId) -> bool {
        self.ordinal_spec() >= other.ordinal_spec()
    }

    /// The position of this version in the activation order.
    pub fn ordinal(&self) -> (r: u64)
        ensures
            r as int == self.ordinal_spec(),
    {
        match self {
            SpecId::Frontier => 0,
            SpecId::FrontierThawing => 1,
            SpecId::Homestead => 2,
            SpecId::DaoFork => 3,
            SpecId::Tangerine => 4,
            SpecId::SpuriousDragon => 5,
            SpecId::Byzantium => 6,
            SpecId::Constantinople => 7,
            SpecId::Petersburg => 8,
            SpecId::Istanbul => 9,
            SpecId::MuirGlacier => 10,
            SpecId::Berlin => 11,
            SpecId::London => 12,
            SpecId::ArrowGlacier => 13,
            SpecId::GrayGlacier => 14,
            SpecId::Merge => 15,
            SpecId::Shanghai => 16,
            SpecId::Cancun => 17,
        }
    }

    /// Whether this version activates at or after `other`.
    pub fn is_at_least(&self, other: SpecId) -> (r: bool)
        ensures
            r == self.at_least_spec(other),
    {
        self.ordinal() >= other.ordinal()
    }
}

} // verus!
