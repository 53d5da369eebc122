//! What the contract reads from the NFTs: building kind and rarity from the
//! collection and nonce, citizen attributes from the NFT's stored bytes.

use vstd::prelude::*;

use crate::bytes::bytes_eq;
use crate::codec::{citizen_attributes_decodable, decode_citizen_attributes, encodes_citizen_attributes};
use crate::common::{CommonModule, token_id_read};
use crate::context::CallContext;
use crate::error::ContractError;
use crate::structs::{BuildingAttributes, BuildingRarity, BuildingType, CitizenAttributes};

verus! {

/// The kind of a genesis building: nonces go by pairs, from the headquarters
/// (1, 2) to the town hall (15, 16); any other nonce is no building.
pub open spec fn genesis_building_type(nonce: u64) -> BuildingType {
    if nonce == 1 || nonce == 2 {
        BuildingType::Headquarter
    } else if nonce == 3 || nonce == 4 {
        BuildingType::Metro
    } else if nonce == 5 || nonce == 6 {
        BuildingType::Park
    } else if nonce == 7 || nonce == 8 {
        BuildingType::PoliceStation
    } else if nonce == 9 || nonce == 10 {
        BuildingType::Museum
    } else if nonce == 11 || nonce == 12 {
        BuildingType::Hotel
    } else if nonce == 13 || nonce == 14 {
        BuildingType::Casino
    } else if nonce == 15 || nonce == 16 {
        BuildingType::TownHall
    } else {
        BuildingType::NoBuilding
    }
}

/// The attributes of a genesis building: odd nonces are classic, even ones
/// legendary; the town hall has rarities of its own.
pub open spec fn genesis_building_attributes(nonce: u64) -> BuildingAttributes {
    let building_type = genesis_building_type(nonce);
    let odd = nonce % 2 == 1;
    BuildingAttributes {
        building_type,
        building_rarity: if building_type == BuildingType::TownHall {
            if odd {
                BuildingRarity::TownHallClassic
            } else {
                BuildingRarity::TownHallLegendary
            }
        } else if odd {
            BuildingRarity::GenesisClassic
        } else {
            BuildingRarity::GenesisLegendary
        },
    }
}

/// The kind of an expansion building: nonces go by threes, from the casino
/// (1 to 3) to the rocket station (22 to 24).
pub open spec fn expansion_building_type(nonce: u64) -> BuildingType
    recommends
        1 <= nonce <= 24,
{
    if nonce <= 3 {
        BuildingType::Casino
    } else if nonce <= 6 {
        BuildingType::Restaurant
    } else if nonce <= 9 {
        BuildingType::WineBar
    } else if nonce <= 12 {
        BuildingType::Airport
    } else if nonce <= 15 {
        BuildingType::ArcadeRoom
    } else if nonce <= 18 {
        BuildingType::Stadium
    } else if nonce <= 21 {
        BuildingType::ThemePark
    } else {
        BuildingType::RocketStation
    }
}

/// The attributes of an expansion building; the rarity goes classic, rare,
/// legendary along each three nonces. There are no expansion buildings
/// outside nonces 1..=24.
pub open spec fn expansion_building_attributes(nonce: u64) -> Result<
    BuildingAttributes,
    ContractError,
> {
    if nonce < 1 || nonce > 24 {
        Err(ContractError::UnknownExpansionNonce)
    } else {
        Ok(
            BuildingAttributes {
                building_type: expansion_building_type(nonce),
                building_rarity: if nonce % 3 == 1 {
                    BuildingRarity::ExpansionClassic
                } else if nonce % 3 == 2 {
                    BuildingRarity::ExpansionRare
                } else {
                    BuildingRarity::ExpansionLegendary
                },
            },
        )
    }
}

/// The attributes of the building `token`/`nonce`, where `genesis` is the
/// configured genesis collection: no token means no building; a token that is
/// not the genesis collection is taken for an expansion building.
pub open spec fn building_attributes(
    genesis: Option<Seq<u8>>,
    token: Option<Seq<u8>>,
    nonce: u64,
) -> Result<BuildingAttributes, ContractError> {
    match token {
        None => Ok(
            BuildingAttributes {
                building_type: BuildingType::NoBuilding,
                building_rarity: BuildingRarity::NoRarity,
            },
        ),
        Some(t) => match token_id_read(genesis) {
            Err(e) => Err(e),
            Ok(g) => if t == g {
                Ok(genesis_building_attributes(nonce))
            } else {
                expansion_building_attributes(nonce)
            },
        },
    }
}

/// Reading the attributes of the citizen `nonce`: they are those the chain
/// reports for the configured citizen collection, decoded.
pub open spec fn citizen_attributes_readable(
    citizen: Option<Seq<u8>>,
    ctx: CallContext,
    nonce: u64,
) -> Result<Seq<u8>, ContractError> {
    match token_id_read(citizen) {
        Err(e) => Err(e),
        Ok(t) => if citizen_attributes_decodable(ctx.attributes_of(t, nonce)) {
            Ok(ctx.attributes_of(t, nonce))
        } else {
            Err(ContractError::AttributesDecodeError)
        },
    }
}

/// The ten visual traits of a citizen, in the order of its attributes.
pub open spec fn citizen_traits(a: CitizenAttributes) -> Seq<Seq<u8>> {
    seq![
        a.face@,
        a.hair@,
        a.top@,
        a.over_clothe@,
        a.bottom@,
        a.hat@,
        a.held_item@,
        a.eyes_object@,
        a.mouth_object@,
        a.extra@,
    ]
}

/// Reading building and citizen attributes.
pub trait UtilsModule: CommonModule {
    fn get_genesis_building_attributes(&self, nonce: &u64) -> (r: BuildingAttributes)
        ensures
            r == genesis_building_attributes(*nonce),
    {
        let nonce = *nonce;
        let mut building_rarity = if nonce % 2 == 1 {
            BuildingRarity::GenesisClassic
        } else {
            BuildingRarity::GenesisLegendary
        };
        let building_type = if nonce == 1 || nonce == 2 {
            BuildingType::Headquarter
        } else if nonce == 3 || nonce == 4 {
            BuildingType::Metro
        } else if nonce == 5 || nonce == 6 {
            BuildingType::Park
        } else if nonce == 7 || nonce == 8 {
            BuildingType::PoliceStation
        } else if nonce == 9 || nonce == 10 {
            BuildingType::Museum
        } else if nonce == 11 || nonce == 12 {
            BuildingType::Hotel
        } else if nonce == 13 || nonce == 14 {
            BuildingType::Casino
        } else if nonce == 15 || nonce == 16 {
            BuildingType::TownHall
        } else {
            BuildingType::NoBuilding
        };
        if building_type == BuildingType::TownHall {
            building_rarity =
            if nonce % 2 == 1 {
                BuildingRarity::TownHallClassic
            } else {
                BuildingRarity::TownHallLegendary
            };
        }
        BuildingAttributes { building_type, building_rarity }
    }

    fn get_expansion_building_attributes(&self, nonce: &u64) -> (r: BuildingAttributes)
        requires
            1 <= *nonce <= 24,
        ensures
            expansion_building_attributes(*nonce) == Ok::<BuildingAttributes, ContractError>(r),
    {
        let nonce = *nonce;
        let building_rarity = if nonce % 3 == 1 {
            BuildingRarity::ExpansionClassic
        } else if nonce % 3 == 2 {
            BuildingRarity::ExpansionRare
        } else {
            BuildingRarity::ExpansionLegendary
        };
        let building_type = if nonce <= 3 {
            BuildingType::Casino
        } else if nonce <= 6 {
            BuildingType::Restaurant
        } else if nonce <= 9 {
            BuildingType::WineBar
        } else if nonce <= 12 {
            BuildingType::Airport
        } else if nonce <= 15 {
            BuildingType::ArcadeRoom
        } else if nonce <= 18 {
            BuildingType::Stadium
        } else if nonce <= 21 {
            BuildingType::ThemePark
        } else {
            BuildingType::RocketStation
        };
        BuildingAttributes { building_type, building_rarity }
    }

    fn get_building_attributes(&self, token_identifier: Option<Vec<u8>>, nonce: &u64) -> (r: Result<
        BuildingAttributes,
        ContractError,
    >)
        requires
            (token_identifier matches Some(t) && self.genesis_token_id() matches Some(g) && t@ != g)
                ==> 1 <= *nonce <= 24,
        ensures
            r == building_attributes(
                self.genesis_token_id(),
                match token_identifier {
                    Some(t) => Some(t@),
                    None => None,
                },
                *nonce,
            ),
    {
        match token_identifier {
            None => Ok(
                BuildingAttributes {
                    building_type: BuildingType::NoBuilding,
                    building_rarity: BuildingRarity::NoRarity,
                },
            ),
            Some(t) => {
                let genesis = match self.genesis_tokenid().get_token_id() {
                    Ok(g) => g,
                    Err(e) => {
                        return Err(e);
                    },
                };
                if bytes_eq(t.as_slice(), genesis.as_slice()) {
                    Ok(self.get_genesis_building_attributes(nonce))
                } else {
                    Ok(self.get_expansion_building_attributes(nonce))
                }
            },
        }
    }

    fn get_citizen_attributes(&self, ctx: &CallContext, nonce: u64) -> (r: Result<
        CitizenAttributes,
        ContractError,
    >)
        ensures
            match citizen_attributes_readable(self.citizen_token_id(), *ctx, nonce) {
                Ok(bytes) => r matches Ok(a) && encodes_citizen_attributes(a, bytes),
                Err(e) => r == Err::<CitizenAttributes, ContractError>(e),
            },
    {
        let citizen = match self.citizen_tokenid().get_token_id() {
            Ok(t) => t,
            Err(e) => {
                return Err(e);
            },
        };
        let bytes = ctx.get_nft_attributes(citizen.as_slice(), nonce);
        decode_citizen_attributes(bytes.as_slice())
    }

    fn get_citizen_traits(&self, attributes: CitizenAttributes) -> (r: Vec<Vec<u8>>)
        ensures
            r@.map_values(|b: Vec<u8>| b@) == citizen_traits(attributes),
    {
        let ghost expected = citizen_traits(attributes);
        let mut res: Vec<Vec<u8>> = Vec::new();
        res.push(attributes.face);
        res.push(attributes.hair);
        res.push(attributes.top);
        res.push(attributes.over_clothe);
        res.push(attributes.bottom);
        res.push(attributes.hat);
        res.push(attributes.held_item);
        res.push(attributes.eyes_object);
        res.push(attributes.mouth_object);
        res.push(attributes.extra);
        assert(res@.map_values(|b: Vec<u8>| b@) =~= expected);
        res
    }
}

} // verus!
