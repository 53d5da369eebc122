use vstd::prelude::*;

use crate::amount::Amount;
use crate::bytes::bytes_eq;

verus! {

/// A citizen NFT: the token collection and the nonce inside it.
#[derive(Clone, PartialEq, Debug)]
pub struct Citizen {
    pub token_identifier: Vec<u8>,
    pub nonce: u64,
}

/// An ESDT payment: token collection, nonce and amount.
#[derive(Debug)]
pub struct MyEsdtTokenPayment {
    pub token_identifier: Vec<u8>,
    pub token_nonce: u64,
    pub amount: Amount,
}

impl MyEsdtTokenPayment {
    /// The payment `self` covers `other`: same token and nonce, and at least
    /// as large an amount.
    pub open spec fn covers(&self, other: &Self) -> bool {
        &&& self.token_identifier@ == other.token_identifier@
        &&& self.token_nonce == other.token_nonce
        &&& self.amount@ >= other.amount@
    }
}

impl PartialEq for MyEsdtTokenPayment {
    fn eq(&self, other: &Self) -> (r: bool) {
        bytes_eq(self.token_identifier.as_slice(), other.token_identifier.as_slice())
            && self.token_nonce == other.token_nonce && self.amount.ge(&other.amount)
    }

    fn ne(&self, other: &Self) -> (r: bool) {
        !self.eq(other)
    }
}

impl vstd::std_specs::cmp::PartialEqSpecImpl for MyEsdtTokenPayment {
    open spec fn obeys_eq_spec() -> bool {
        true
    }

    open spec fn eq_spec(&self, other: &MyEsdtTokenPayment) -> bool {
        self.covers(other)
    }
}

/// The kind of building a building NFT stands for.
#[derive(Clone, Copy, PartialEq, Eq, Structural, Debug)]
pub enum BuildingType {
    NoBuilding,
    Headquarter,
    Metro,
    Park,
    PoliceStation,
    Museum,
    Hotel,
    Casino,
    Restaurant,
    Airport,
    ArcadeRoom,
    Stadium,
    ThemePark,
    RocketStation,
    WineBar,
    TownHall,
}

impl Default for BuildingType {
    fn default() -> (r: Self)
        ensures
            r == BuildingType::NoBuilding,
    {
        BuildingType::NoBuilding
    }
}

/// The rarity class of a building NFT.
#[derive(Clone, Copy, PartialEq, Eq, Structural, Debug)]
pub enum BuildingRarity {
    NoRarity,
    GenesisClassic,
    GenesisLegendary,
    ExpansionClassic,
    ExpansionRare,
    ExpansionLegendary,
    TownHallClassic,
    TownHallLegendary,
}

/// What the contract knows of a building NFT.
#[derive(Clone, Copy, PartialEq, Eq, Structural, Debug)]
pub struct BuildingAttributes {
    pub building_type: BuildingType,
    pub building_rarity: BuildingRarity,
}

/// The attributes stored on a citizen NFT.
#[derive(Clone, PartialEq, Debug)]
pub struct CitizenAttributes {
    pub id: u64,
    pub rank: u64,
    pub rarity_level: u64,
    pub job: Vec<u8>,
    pub building: Vec<u8>,
    pub face: Vec<u8>,
    pub hair: Vec<u8>,
    pub top: Vec<u8>,
    pub over_clothe: Vec<u8>,
    pub bottom: Vec<u8>,
    pub hat: Vec<u8>,
    pub held_item: Vec<u8>,
    pub eyes_object: Vec<u8>,
    pub mouth_object: Vec<u8>,
    pub extra: Vec<u8>,
}

} // verus!
