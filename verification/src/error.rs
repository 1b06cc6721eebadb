//! The error kinds shared by the three components.

use vstd::prelude::*;

verus! {

/// Why an operation was refused.  Every refusal leaves the component as it was.
#[derive(Clone, Copy, Debug, PartialEq, Eq, Structural)]
pub enum Error {
    /// The principal whose consent the operation needs has not given it.
    Unauthorized,
    /// A transfer asks for more than the sender holds.
    InsufficientBalance,
    /// The operation names a collectible that was never minted.
    NotFound,
    /// The collectible is staked already.
    AlreadyStaked,
    /// The collectible is not staked.
    NotStaked,
    /// The owner holds the maximum number of collectibles.
    CapExceeded,
    /// A reward, a balance or a counter would leave its range.
    ArithmeticOverflow,
    /// The component has no admin or token address yet.
    NotInitialized,
}

impl Error {
    /// A short English sentence for the error kind.
    pub fn message(&self) -> (text: &'static str)
        ensures
            text@ == Self::message_of(*self)@,
    {
        match self {
            Error::Unauthorized => "Unauthorized",
            Error::InsufficientBalance => "Insufficient balance",
            Error::NotFound => "NFT does not exist",
            Error::AlreadyStaked => "NFT is already staked",
            Error::NotStaked => "NFT is not staked",
            Error::CapExceeded => "Max 5 pandas per player",
            Error::ArithmeticOverflow => "Arithmetic overflow",
            Error::NotInitialized => "Not initialized",
        }
    }

    /// The sentence that [`Error::message`] returns for each kind.
    pub open spec fn message_of(kind: Error) -> &'static str {
        match kind {
            Error::Unauthorized => "Unauthorized",
            Error::InsufficientBalance => "Insufficient balance",
            Error::NotFound => "NFT does not exist",
            Error::AlreadyStaked => "NFT is already staked",
            Error::NotStaked => "NFT is not staked",
            Error::CapExceeded => "Max 5 pandas per player",
            Error::ArithmeticOverflow => "Arithmetic overflow",
            Error::NotInitialized => "Not initialized",
        }
    }
}

} // verus!
