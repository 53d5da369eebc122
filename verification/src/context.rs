//! What the chain tells the contract about a call, and what the contract asks
//! the chain to send.

use vstd::prelude::*;

use crate::amount::Amount;
use crate::bytes::{bytes_eq, copy_bytes};

verus! {

/// The attributes of an NFT held by the contract.
#[derive(Debug)]
pub struct NftAttributes {
    pub token_identifier: Vec<u8>,
    pub nonce: u64,
    pub attributes: Vec<u8>,
}

/// The chain's side of a call: who calls, who owns the contract, the block
/// time, and the attributes of the NFTs the contract holds.
pub struct CallContext {
    pub caller: Vec<u8>,
    pub owner: Vec<u8>,
    pub block_timestamp: u64,
    pub nft_attributes: Vec<NftAttributes>,
}

/// An ESDT transfer the contract makes.
#[derive(Debug)]
pub struct EsdtTransfer {
    pub to: Vec<u8>,
    pub token_identifier: Vec<u8>,
    pub token_nonce: u64,
    pub amount: Amount,
}

/// An ESDT transfer as plain values: recipient, token, nonce, amount.
pub type TransferModel = (Seq<u8>, Seq<u8>, u64, nat);

impl View for EsdtTransfer {
    type V = TransferModel;

    open spec fn view(&self) -> TransferModel {
        (self.to@, self.token_identifier@, self.token_nonce, self.amount@)
    }
}

/// The transfers of a list, as plain values.
pub open spec fn transfers_model(v: Seq<EsdtTransfer>) -> Seq<TransferModel> {
    v.map_values(|t: EsdtTransfer| t@)
}

/// The attributes the chain reports for the NFT `token`/`nonce`: those of the
/// first entry that names it, and none (empty) where no entry does.
pub open spec fn attributes_in(s: Seq<NftAttributes>, token: Seq<u8>, nonce: u64) -> Seq<u8>
    decreases s.len(),
{
    if s.len() == 0 {
        Seq::empty()
    } else if s[0].token_identifier@ == token && s[0].nonce == nonce {
        s[0].attributes@
    } else {
        attributes_in(s.drop_first(), token, nonce)
    }
}

impl CallContext {
    /// The attributes of the NFT `token`/`nonce` the contract holds.
    pub open spec fn attributes_of(&self, token: Seq<u8>, nonce: u64) -> Seq<u8> {
        attributes_in(self.nft_attributes@, token, nonce)
    }

    /// Looks up the attributes of the NFT `token`/`nonce`.
    pub fn get_nft_attributes(&self, token: &[u8], nonce: u64) -> (r: Vec<u8>)
        ensures
            r@ == self.attributes_of(token@, nonce),
    {
        let mut i: usize = 0;
        assert(self.nft_attributes@.skip(0) =~= self.nft_attributes@);
        while i < self.nft_attributes.len()
            invariant
                i <= self.nft_attributes@.len(),
                attributes_in(self.nft_attributes@, token@, nonce) == attributes_in(
                    self.nft_attributes@.skip(i as int),
                    token@,
                    nonce,
                ),
            decreases self.nft_attributes@.len() - i,
        {
            let e = &self.nft_attributes[i];
            assert(self.nft_attributes@.skip(i as int)[0] == *e);
            if e.nonce == nonce && bytes_eq(e.token_identifier.as_slice(), token) {
                return copy_bytes(&e.attributes);
            }
            assert(self.nft_attributes@.skip(i as int).drop_first() =~= self.nft_attributes@.skip(
                i + 1,
            ));
            i += 1;
        }
        Vec::new()
    }
}

} // verus!
