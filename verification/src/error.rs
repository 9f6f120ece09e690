use vstd::prelude::*;

verus! {

/// The ways in which a call on the dividend ledger is refused.
#[derive(Clone, Copy, Debug, PartialEq, Eq, Structural)]
pub enum DividendError {
    AlreadyInitialized,
    NotInitialized,
    Unauthorized,
    DistributionNotFound,
    InvalidAmount,
    NothingToClaim,
    AlreadyClaimed,
    ZeroSupply,
    ArithmeticOverflow,
    DuplicateHolder,
}

impl DividendError {
    /// The contract error number under which each refusal is reported.
    pub open spec fn spec_code(self) -> u32 {
        match self {
            DividendError::AlreadyInitialized => 1,
            DividendError::NotInitialized => 2,
            DividendError::Unauthorized => 3,
            DividendError::DistributionNotFound => 4,
            DividendError::InvalidAmount => 5,
            DividendError::NothingToClaim => 6,
            DividendError::AlreadyClaimed => 7,
            DividendError::ZeroSupply => 8,
            DividendError::ArithmeticOverflow => 10,
            DividendError::DuplicateHolder => 11,
        }
    }

    /// The contract error number of this refusal.
    pub fn code(&self) -> (r: u32)
        ensures
            r == self.spec_code(),
    {
        match self {
            DividendError::AlreadyInitialized => 1,
            DividendError::NotInitialized => 2,
            DividendError::Unauthorized => 3,
            DividendError::DistributionNotFound => 4,
            DividendError::InvalidAmount => 5,
            DividendError::NothingToClaim => 6,
            DividendError::AlreadyClaimed => 7,
            DividendError::ZeroSupply => 8,
            DividendError::ArithmeticOverflow => 10,
            DividendError::DuplicateHolder => 11,
        }
    }
}

} // verus!
