use vstd::prelude::*;

verus! {

/// Why a call to the contract failed. A failed call changes nothing and
/// sends nothing.
#[derive(Clone, Copy, PartialEq, Eq, Structural, Debug)]
pub enum ContractError {
    /// "ECITY token id not set"
    EcityTokenIdNotSet,
    /// "Router address not set"
    RouterAddressNotSet,
    /// "Only the router can deposit"
    OnlyRouterCanDeposit,
    /// "incorrect number of transfers": exactly one ESDT payment was expected
    IncorrectNumberOfTransfers,
    /// "Only ECITY can be deposited"
    OnlyEcityCanBeDeposited,
    /// "Token not supported"
    TokenNotSupported,
    /// "Nothing to unstake"
    NothingToUnstake,
    /// "Nothing to claim"
    NothingToClaim,
    /// "Episode not yet available"
    EpisodeNotYetAvailable,
    /// "Endpoint can only be called by owner"
    OnlyOwner,
    /// "Token ID already set"
    TokenIdAlreadySet,
    /// "Invalid token ID": the token id is not set, or not a valid ESDT identifier
    InvalidTokenId,
    /// "cannot subtract because result would be negative"
    SubtractionUnderflow,
    /// An ESDT transfer of nothing, which the chain refuses
    ZeroTransfer,
    /// A 64-bit counter or timestamp computation went out of range
    ArithmeticOverflow,
    /// A staked amount does not fit in 64 bits
    AmountTooLarge,
    /// An expansion building nonce outside 1..=24
    UnknownExpansionNonce,
    /// The attributes of a citizen NFT could not be decoded
    AttributesDecodeError,
}

} // verus!
