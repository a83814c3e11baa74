//! The error vocabulary shared by every contract in the library.
use vstd::prelude::*;

verus! {

/// Errors returned by the contracts.
///
/// Each variant has a stable numeric code (see [`ForgeError::code`]); the
/// codes are what a client sees on the wire.
#[derive(Clone, Copy, Debug, PartialEq, Eq, Structural)]
pub enum ForgeError {
    Unauthorized,
    NotFound,
    InvalidInput,
    InsufficientFunds,
    AlreadyInitialized,
    NotInitialized,
    DeadlineReached,
    InsufficientAllowance,
    ArithmeticOverflow,
    Custom,
    /// A token contract rejected a transfer (balance, trustline, missing
    /// contract, ...). The token's own error code is not forwarded.
    TokenTransferFailed,
    /// A cross-contract invocation of a target reverted.
    ContractInvocationFailed,
}

/// The wire code of each error.
pub open spec fn error_code(e: ForgeError) -> u32 {
    match e {
        ForgeError::Unauthorized => 1,
        ForgeError::NotFound => 2,
        ForgeError::InvalidInput => 3,
        ForgeError::InsufficientFunds => 4,
        ForgeError::AlreadyInitialized => 5,
        ForgeError::NotInitialized => 6,
        ForgeError::DeadlineReached => 7,
        ForgeError::InsufficientAllowance => 8,
        ForgeError::ArithmeticOverflow => 9,
        ForgeError::Custom => 10,
        ForgeError::TokenTransferFailed => 11,
        ForgeError::ContractInvocationFailed => 12,
    }
}

impl ForgeError {
    /// The stable numeric code of this error.
    pub fn code(&self) -> (c: u32)
        ensures
            c == error_code(*self),
    {
        match self {
            ForgeError::Unauthorized => 1,
            ForgeError::NotFound => 2,
            ForgeError::InvalidInput => 3,
            ForgeError::InsufficientFunds => 4,
            ForgeError::AlreadyInitialized => 5,
            ForgeError::NotInitialized => 6,
            ForgeError::DeadlineReached => 7,
            ForgeError::InsufficientAllowance => 8,
            ForgeError::ArithmeticOverflow => 9,
            ForgeError::Custom => 10,
            ForgeError::TokenTransferFailed => 11,
            ForgeError::ContractInvocationFailed => 12,
        }
    }
}

/// Distinct errors have distinct codes.
pub proof fn lemma_error_codes_distinct(a: ForgeError, b: ForgeError)
    ensures
        error_code(a) == error_code(b) ==> a == b,
{
}

} // verus!
