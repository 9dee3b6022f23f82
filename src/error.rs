use vstd::prelude::*;

verus! {

/// Every failure kind of the program; the boundary carries only `code()`.
#[derive(Debug, Clone, Copy, PartialEq, Eq, Structural)]
pub enum PalletError {
    NoFundAvailable,
    CantDeposit,
    CantWithdraw,
    InvalidInstruction,
    CantUpdate,
    NotValidVault,
    NotValidBank,
    IllegalWithdrawer,
}

impl PalletError {
    /// The stable numeric code of each failure kind.
    pub open spec fn spec_code(self) -> u32 {
        match self {
            PalletError::NoFundAvailable => 0,
            PalletError::CantDeposit => 1,
            PalletError::CantWithdraw => 2,
            PalletError::InvalidInstruction => 3,
            PalletError::CantUpdate => 4,
            PalletError::NotValidVault => 5,
            PalletError::NotValidBank => 6,
            PalletError::IllegalWithdrawer => 7,
        }
    }

    pub fn code(self) -> (r: u32)
        ensures
            r == self.spec_code(),
    {
        match self {
            PalletError::NoFundAvailable => 0,
            PalletError::CantDeposit => 1,
            PalletError::CantWithdraw => 2,
            PalletError::InvalidInstruction => 3,
            PalletError::CantUpdate => 4,
            PalletError::NotValidVault => 5,
            PalletError::NotValidBank => 6,
            PalletError::IllegalWithdrawer => 7,
        }
    }
}

} // verus!
