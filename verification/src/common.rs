//! The token identifiers the contract is configured with.

use vstd::prelude::*;

use crate::bytes::copy_bytes;
use crate::error::ContractError;

verus! {

/// An ASCII digit, `'0'` to `'9'`.
pub open spec fn is_digit(c: u8) -> bool {
    48 <= c <= 57
}

/// An uppercase ASCII letter (`'A'` to `'Z'`) or a digit.
pub open spec fn is_upper_alnum(c: u8) -> bool {
    (65 <= c <= 90) || is_digit(c)
}

/// A lowercase ASCII letter (`'a'` to `'z'`) or a digit.
pub open spec fn is_lower_alnum(c: u8) -> bool {
    (97 <= c <= 122) || is_digit(c)
}

/// An ESDT token identifier: a ticker of 3 to 10 uppercase letters or digits,
/// a dash, then 6 lowercase letters or digits.
pub open spec fn valid_token_identifier(s: Seq<u8>) -> bool {
    &&& 10 <= s.len() <= 17
    &&& forall|i: int| 0 <= i < s.len() - 7 ==> is_upper_alnum(#[trigger] s[i])
    &&& s[s.len() - 7] == 45u8  // '-'
    &&& forall|i: int| s.len() - 6 <= i < s.len() ==> is_lower_alnum(#[trigger] s[i])
}

/// Calls the framework's check of an ESDT token identifier, which accepts
/// exactly the identifiers `valid_token_identifier` describes.
#[verifier::external_body]
fn validate_token_identifier(token_id: &[u8]) -> (r: bool)
    ensures
        r == valid_token_identifier(token_id@),
{
    multiversx_sc::chain_core::token_identifier_util::validate_token_identifier(token_id)
}

/// The storage of one token identifier: unset until set once.
pub struct TokenIdMapper {
    token_id: Option<Vec<u8>>,
}

impl View for TokenIdMapper {
    type V = Option<Seq<u8>>;

    closed spec fn view(&self) -> Option<Seq<u8>> {
        match self.token_id {
            Some(t) => Some(t@),
            None => None,
        }
    }
}

/// What setting the token identifier `t` makes of the stored one `m`.
pub open spec fn token_id_after_set(m: Option<Seq<u8>>, t: Seq<u8>) -> Result<
    Option<Seq<u8>>,
    ContractError,
> {
    if m is Some {
        Err(ContractError::TokenIdAlreadySet)
    } else if !valid_token_identifier(t) {
        Err(ContractError::InvalidTokenId)
    } else {
        Ok(Some(t))
    }
}

/// What setting `t` where nothing is stored makes of the stored one `m`.
pub open spec fn token_id_after_set_if_empty(m: Option<Seq<u8>>, t: Seq<u8>) -> Result<
    Option<Seq<u8>>,
    ContractError,
> {
    if m is None {
        token_id_after_set(m, t)
    } else {
        Ok(m)
    }
}

/// Reading the stored token identifier: an error where none is set.
pub open spec fn token_id_read(m: Option<Seq<u8>>) -> Result<Seq<u8>, ContractError> {
    match m {
        Some(t) => Ok(t),
        None => Err(ContractError::InvalidTokenId),
    }
}

impl TokenIdMapper {
    pub fn new() -> (r: Self)
        ensures
            r@ is None,
    {
        TokenIdMapper { token_id: None }
    }

    pub fn is_empty(&self) -> (r: bool)
        ensures
            r == (self@ is None),
    {
        self.token_id.is_none()
    }

    /// The stored token identifier.
    pub fn get_token_id(&self) -> (r: Result<Vec<u8>, ContractError>)
        ensures
            match r {
                Ok(t) => token_id_read(self@) == Ok::<Seq<u8>, ContractError>(t@),
                Err(e) => token_id_read(self@) == Err::<Seq<u8>, ContractError>(e),
            },
    {
        match &self.token_id {
            Some(t) => Ok(copy_bytes(t)),
            None => Err(ContractError::InvalidTokenId),
        }
    }

    /// Stores `token_id`; fails if one is already stored or it is not a valid
    /// identifier.
    pub fn set_token_id(&mut self, token_id: Vec<u8>) -> (r: Result<(), ContractError>)
        ensures
            match token_id_after_set(old(self)@, token_id@) {
                Ok(m) => r is Ok && final(self)@ == m,
                Err(e) => r == Err::<(), ContractError>(e) && final(self)@ == old(self)@,
            },
    {
        if self.token_id.is_some() {
            return Err(ContractError::TokenIdAlreadySet);
        }
        if !validate_token_identifier(token_id.as_slice()) {
            return Err(ContractError::InvalidTokenId);
        }
        self.token_id = Some(token_id);
        Ok(())
    }

    /// Stores `token_id` where nothing is stored yet.
    pub fn set_if_empty(&mut self, token_id: Vec<u8>) -> (r: Result<(), ContractError>)
        ensures
            match token_id_after_set_if_empty(old(self)@, token_id@) {
                Ok(m) => r is Ok && final(self)@ == m,
                Err(e) => r == Err::<(), ContractError>(e) && final(self)@ == old(self)@,
            },
    {
        if self.is_empty() {
            self.set_token_id(token_id)
        } else {
            Ok(())
        }
    }

    /// A copy of the mapper.
    pub fn copy(&self) -> (r: Self)
        ensures
            r@ == self@,
    {
        match &self.token_id {
            Some(t) => TokenIdMapper { token_id: Some(copy_bytes(t)) },
            None => TokenIdMapper { token_id: None },
        }
    }
}

/// The token identifiers the contract is configured with: the genesis and
/// expansion building collections, the citizen collection and the ECITY
/// reward token.
pub trait CommonModule {
    spec fn genesis_token_id(&self) -> Option<Seq<u8>>;

    spec fn expansion_token_id(&self) -> Option<Seq<u8>>;

    spec fn citizen_token_id(&self) -> Option<Seq<u8>>;

    spec fn ecity_token_id(&self) -> Option<Seq<u8>>;

    fn genesis_tokenid(&self) -> (r: &TokenIdMapper)
        ensures
            r@ == self.genesis_token_id(),
    ;

    fn expansion_tokenid(&self) -> (r: &TokenIdMapper)
        ensures
            r@ == self.expansion_token_id(),
    ;

    fn citizen_tokenid(&self) -> (r: &TokenIdMapper)
        ensures
            r@ == self.citizen_token_id(),
    ;

    fn ecity_tokenid(&self) -> (r: &TokenIdMapper)
        ensures
            r@ == self.ecity_token_id(),
    ;
}

} // verus!
