use staking_v2_sc::amount::Amount;
use staking_v2_sc::codec::decode_citizen_attributes;
use staking_v2_sc::common::CommonModule;
use staking_v2_sc::context::{CallContext, EsdtTransfer, NftAttributes};
use staking_v2_sc::contract::StakingV2ScContract;
use staking_v2_sc::error::ContractError;
use staking_v2_sc::structs::{
    BuildingAttributes, BuildingRarity, BuildingType, CitizenAttributes, MyEsdtTokenPayment,
};
use staking_v2_sc::utils::UtilsModule;

const GNS: &[u8] = b"GNS-6620e5";
const EXP: &[u8] = b"EXP-6620e5";
const CTZN: &[u8] = b"CIT-6620e5";
const ECITY: &[u8] = b"ECITY-6620e5";
const EPISODE: u64 = 1_209_600;

fn addr(b: u8) -> Vec<u8> {
    vec![b; 32]
}

fn router() -> Vec<u8> {
    addr(7)
}

fn owner() -> Vec<u8> {
    addr(9)
}

fn user() -> Vec<u8> {
    addr(1)
}

fn ctx(caller: Vec<u8>, time: u64) -> CallContext {
    CallContext { caller, owner: owner(), block_timestamp: time, nft_attributes: Vec::new() }
}

fn amt(x: u128) -> Amount {
    Amount::from_u128(x)
}

fn val(a: Amount) -> u128 {
    a.to_u128().unwrap()
}

fn entries(v: Vec<(u64, Amount)>) -> Vec<(u64, u128)> {
    v.into_iter().map(|(n, a)| (n, val(a))).collect()
}

fn pay(token: &[u8], nonce: u64, amount: u128) -> MyEsdtTokenPayment {
    MyEsdtTokenPayment { token_identifier: token.to_vec(), token_nonce: nonce, amount: amt(amount) }
}

fn encode_attributes(id: u64, rank: u64, rarity_level: u64, buffers: &[&[u8]; 12]) -> Vec<u8> {
    let mut out = Vec::new();
    out.extend_from_slice(&id.to_be_bytes());
    out.extend_from_slice(&rank.to_be_bytes());
    out.extend_from_slice(&rarity_level.to_be_bytes());
    for b in buffers.iter() {
        out.extend_from_slice(&(b.len() as u32).to_be_bytes());
        out.extend_from_slice(b);
    }
    out
}

fn empty_buffers() -> [&'static [u8]; 12] {
    [b"", b"", b"", b"", b"", b"", b"", b"", b"", b"", b"", b""]
}

/// A contract with its four tokens and the router set through the setters.
fn configured() -> StakingV2ScContract {
    let mut c = StakingV2ScContract::new();
    c.set_ecity_tokenid(ECITY.to_vec()).unwrap();
    c.set_gns_tokenid(GNS.to_vec()).unwrap();
    c.set_exp_tokenid(EXP.to_vec()).unwrap();
    c.set_ctzn_tokenid(CTZN.to_vec()).unwrap();
    c.set_router_address(router());
    c
}

fn transfer_amounts(ts: &[EsdtTransfer]) -> Vec<(Vec<u8>, Vec<u8>, u64, u128)> {
    ts.iter()
        .map(|t| (t.to.clone(), t.token_identifier.clone(), t.token_nonce, t.amount.to_u128().unwrap()))
        .collect()
}

#[test]
fn cap_time_caps_to_one_episode() {
    let c = StakingV2ScContract::new();
    assert_eq!(c.cap_time(0), 0);
    assert_eq!(c.cap_time(1000), 1000);
    assert_eq!(c.cap_time(EPISODE), EPISODE);
    assert_eq!(c.cap_time(EPISODE + 1), EPISODE);
    assert_eq!(c.cap_time(u64::MAX), EPISODE);
}

#[test]
fn genesis_reward_values() {
    let c = StakingV2ScContract::new();
    assert_eq!(val(c.gns_reward(amt(8_000_000), BuildingRarity::GenesisClassic)), 1040);
    assert_eq!(val(c.gns_reward(amt(8_000_000), BuildingRarity::GenesisLegendary)), 32258);
    assert_eq!(val(c.gns_reward(amt(8_000_000), BuildingRarity::TownHallClassic)), 1040);
    assert_eq!(val(c.gns_reward(amt(8_000_000), BuildingRarity::TownHallLegendary)), 32258);
    assert_eq!(val(c.gns_reward(amt(8_000_000), BuildingRarity::ExpansionRare)), 0);
    assert_eq!(val(c.gns_reward(amt(8_000_000), BuildingRarity::NoRarity)), 0);
}

#[test]
fn expansion_reward_values() {
    let c = StakingV2ScContract::new();
    assert_eq!(val(c.exp_reward(amt(12_000_000), BuildingRarity::ExpansionClassic)), 285);
    assert_eq!(val(c.exp_reward(amt(12_000_000), BuildingRarity::ExpansionRare)), 2500);
    assert_eq!(val(c.exp_reward(amt(12_000_000), BuildingRarity::ExpansionLegendary)), 25000);
    assert_eq!(val(c.exp_reward(amt(12_000_000), BuildingRarity::GenesisClassic)), 0);
}

#[test]
fn reward_shares_stay_within_episode() {
    let c = StakingV2ScContract::new();
    for r in [0u128, 1, 7, 961, 12_345_678, 8_000_000_000_000_000_000, u128::MAX / 2] {
        let total = 961 * val(c.gns_reward(amt(r), BuildingRarity::GenesisClassic))
            + 31 * val(c.gns_reward(amt(r), BuildingRarity::GenesisLegendary))
            + 3500 * val(c.exp_reward(amt(r), BuildingRarity::ExpansionClassic))
            + 400 * val(c.exp_reward(amt(r), BuildingRarity::ExpansionRare))
            + 40 * val(c.exp_reward(amt(r), BuildingRarity::ExpansionLegendary));
        assert!(total <= r);
    }
}

#[test]
fn genesis_building_attributes() {
    let c = StakingV2ScContract::new();
    let a = |t, r| BuildingAttributes { building_type: t, building_rarity: r };
    assert_eq!(
        c.get_genesis_building_attributes(&1),
        a(BuildingType::Headquarter, BuildingRarity::GenesisClassic)
    );
    assert_eq!(
        c.get_genesis_building_attributes(&2),
        a(BuildingType::Headquarter, BuildingRarity::GenesisLegendary)
    );
    assert_eq!(
        c.get_genesis_building_attributes(&8),
        a(BuildingType::PoliceStation, BuildingRarity::GenesisLegendary)
    );
    assert_eq!(
        c.get_genesis_building_attributes(&15),
        a(BuildingType::TownHall, BuildingRarity::TownHallClassic)
    );
    assert_eq!(
        c.get_genesis_building_attributes(&16),
        a(BuildingType::TownHall, BuildingRarity::TownHallLegendary)
    );
    assert_eq!(
        c.get_genesis_building_attributes(&17),
        a(BuildingType::NoBuilding, BuildingRarity::GenesisClassic)
    );
    assert_eq!(
        c.get_genesis_building_attributes(&0),
        a(BuildingType::NoBuilding, BuildingRarity::GenesisLegendary)
    );
}

#[test]
fn expansion_building_attributes() {
    let c = StakingV2ScContract::new();
    let a = |t, r| BuildingAttributes { building_type: t, building_rarity: r };
    assert_eq!(
        c.get_expansion_building_attributes(&1),
        a(BuildingType::Casino, BuildingRarity::ExpansionClassic)
    );
    assert_eq!(
        c.get_expansion_building_attributes(&2),
        a(BuildingType::Casino, BuildingRarity::ExpansionRare)
    );
    assert_eq!(
        c.get_expansion_building_attributes(&9),
        a(BuildingType::WineBar, BuildingRarity::ExpansionLegendary)
    );
    assert_eq!(
        c.get_expansion_building_attributes(&24),
        a(BuildingType::RocketStation, BuildingRarity::ExpansionLegendary)
    );
    // there is no expansion building outside nonces 1 to 24: its reward is refused
    let c = configured();
    assert_eq!(c.building_reward(0, &EXP.to_vec(), 25).err(), Some(ContractError::UnknownExpansionNonce));
    assert_eq!(c.building_reward(0, &EXP.to_vec(), 0).err(), Some(ContractError::UnknownExpansionNonce));
}

#[test]
fn building_attributes_by_collection() {
    let c = configured();
    assert_eq!(
        c.get_building_attributes(None, &5),
        Ok(BuildingAttributes {
            building_type: BuildingType::NoBuilding,
            building_rarity: BuildingRarity::NoRarity
        })
    );
    assert_eq!(
        c.get_building_attributes(Some(GNS.to_vec()), &5),
        Ok(BuildingAttributes {
            building_type: BuildingType::Park,
            building_rarity: BuildingRarity::GenesisClassic
        })
    );
    assert_eq!(
        c.get_building_attributes(Some(EXP.to_vec()), &5),
        Ok(BuildingAttributes {
            building_type: BuildingType::Restaurant,
            building_rarity: BuildingRarity::ExpansionRare
        })
    );
    let empty = StakingV2ScContract::new();
    assert_eq!(empty.get_building_attributes(Some(GNS.to_vec()), &5), Err(ContractError::InvalidTokenId));
}

#[test]
fn decode_citizen_attributes_roundtrip() {
    let buffers: [&[u8]; 12] = [
        b"Job", b"Metro", b"face1", b"hair2", b"top", b"coat", b"jeans", b"cap", b"phone", b"glasses",
        b"", b"x",
    ];
    let bytes = encode_attributes(42, 3, 2, &buffers);
    let a = decode_citizen_attributes(&bytes).unwrap();
    assert_eq!(a.id, 42);
    assert_eq!(a.rank, 3);
    assert_eq!(a.rarity_level, 2);
    assert_eq!(a.job, b"Job".to_vec());
    assert_eq!(a.building, b"Metro".to_vec());
    assert_eq!(a.mouth_object, Vec::<u8>::new());
    assert_eq!(a.extra, b"x".to_vec());
    let c = StakingV2ScContract::new();
    let traits = c.get_citizen_traits(a);
    assert_eq!(traits.len(), 10);
    assert_eq!(traits[0], b"face1".to_vec());
    assert_eq!(traits[3], b"coat".to_vec());
    assert_eq!(traits[9], b"x".to_vec());
}

#[test]
fn decode_citizen_attributes_rejects_bad_bytes() {
    let bytes = encode_attributes(1, 1, 1, &empty_buffers());
    assert!(decode_citizen_attributes(&bytes).is_ok());
    let mut longer = bytes.clone();
    longer.push(0);
    assert_eq!(decode_citizen_attributes(&longer), Err(ContractError::AttributesDecodeError));
    assert_eq!(
        decode_citizen_attributes(&bytes[..bytes.len() - 1]),
        Err(ContractError::AttributesDecodeError)
    );
    assert_eq!(decode_citizen_attributes(&[]), Err(ContractError::AttributesDecodeError));
}

#[test]
fn citizen_attributes_from_the_chain() {
    let c = configured();
    let bytes = encode_attributes(5, 1, 3, &empty_buffers());
    let mut cx = ctx(user(), 0);
    cx.nft_attributes.push(NftAttributes { token_identifier: CTZN.to_vec(), nonce: 20, attributes: bytes });
    let a: CitizenAttributes = c.get_citizen_attributes(&cx, 20).unwrap();
    assert_eq!(a.rarity_level, 3);
    assert_eq!(c.get_citizen_attributes(&cx, 21).err(), Some(ContractError::AttributesDecodeError));
    let empty = StakingV2ScContract::new();
    assert_eq!(empty.get_citizen_attributes(&cx, 20).err(), Some(ContractError::InvalidTokenId));
}

#[test]
fn token_ids_are_validated_and_set_once() {
    let mut c = StakingV2ScContract::new();
    assert_eq!(c.set_ecity_tokenid(b"ecity".to_vec()), Err(ContractError::InvalidTokenId));
    assert_eq!(c.set_ecity_tokenid(b"ECITY-6620E5".to_vec()), Err(ContractError::InvalidTokenId));
    assert!(c.ecity_tokenid().is_empty());
    assert_eq!(c.set_ecity_tokenid(ECITY.to_vec()), Ok(()));
    assert_eq!(c.set_ecity_tokenid(ECITY.to_vec()), Err(ContractError::TokenIdAlreadySet));
    assert_eq!(c.ecity_tokenid().get_token_id(), Ok(ECITY.to_vec()));
    assert_eq!(c.set_gns_tokenid(GNS.to_vec()), Ok(()));
    assert_eq!(c.set_gns_tokenid(EXP.to_vec()), Err(ContractError::TokenIdAlreadySet));
    assert_eq!(c.collections(), vec![GNS.to_vec()]);
}

#[test]
fn init_sets_only_what_is_empty() {
    let mut c = StakingV2ScContract::new();
    c.set_router_address(addr(3));
    c.init(ECITY.to_vec(), GNS.to_vec(), EXP.to_vec(), CTZN.to_vec(), router()).unwrap();
    assert_eq!(c.router_address(), addr(3));
    assert_eq!(c.genesis_tokenid().get_token_id(), Ok(GNS.to_vec()));
    assert_eq!(c.current_episode(), 0);
    // init does not make the collections stakeable, and the setters now refuse
    assert!(c.collections().is_empty());
    assert_eq!(c.set_gns_tokenid(GNS.to_vec()), Err(ContractError::TokenIdAlreadySet));
    // a second init keeps what is there
    c.init(ECITY.to_vec(), EXP.to_vec(), GNS.to_vec(), CTZN.to_vec(), router()).unwrap();
    assert_eq!(c.genesis_tokenid().get_token_id(), Ok(GNS.to_vec()));
}

#[test]
fn init_with_invalid_token_changes_nothing() {
    let mut c = StakingV2ScContract::new();
    assert_eq!(
        c.init(ECITY.to_vec(), GNS.to_vec(), b"bad".to_vec(), CTZN.to_vec(), router()),
        Err(ContractError::InvalidTokenId)
    );
    assert!(c.ecity_tokenid().is_empty());
    assert!(c.router_address().is_empty());
}

#[test]
fn deposit_errors() {
    let mut c = StakingV2ScContract::new();
    let p = vec![pay(ECITY, 0, 1000)];
    assert_eq!(c.deposit_ecity(&ctx(router(), 10), &p), Err(ContractError::EcityTokenIdNotSet));
    c.set_ecity_tokenid(ECITY.to_vec()).unwrap();
    assert_eq!(c.deposit_ecity(&ctx(router(), 10), &p), Err(ContractError::RouterAddressNotSet));
    c.set_router_address(router());
    assert_eq!(c.deposit_ecity(&ctx(user(), 10), &p), Err(ContractError::OnlyRouterCanDeposit));
    assert_eq!(c.deposit_ecity(&ctx(router(), 10), &vec![]), Err(ContractError::IncorrectNumberOfTransfers));
    assert_eq!(
        c.deposit_ecity(&ctx(router(), 10), &vec![pay(ECITY, 0, 1), pay(ECITY, 0, 1)]),
        Err(ContractError::IncorrectNumberOfTransfers)
    );
    assert_eq!(
        c.deposit_ecity(&ctx(router(), 10), &vec![pay(GNS, 0, 1000)]),
        Err(ContractError::OnlyEcityCanBeDeposited)
    );
    assert_eq!(val(c.episodes_rewards(0)), 0);
}

#[test]
fn deposits_open_episodes() {
    let mut c = configured();
    c.deposit_ecity(&ctx(router(), 1000), &vec![pay(ECITY, 0, 500)]).unwrap();
    assert_eq!(c.current_episode(), 0);
    assert_eq!(val(c.episodes_rewards(0)), 500);
    assert_eq!(c.episodes_timestamps(0), 1000);
    c.deposit_ecity(&ctx(router(), 2000), &vec![pay(ECITY, 0, 700)]).unwrap();
    assert_eq!(c.current_episode(), 1);
    assert_eq!(val(c.episodes_rewards(1)), 700);
    assert_eq!(c.episodes_timestamps(1), 2000);
    assert_eq!(val(c.episodes_rewards(0)), 500);
}

#[test]
fn add_ecity_tops_up_current_episode() {
    let mut c = configured();
    c.deposit_ecity(&ctx(router(), 1000), &vec![pay(ECITY, 0, 500)]).unwrap();
    c.add_ecity(&vec![pay(ECITY, 0, 250)]).unwrap();
    assert_eq!(c.current_episode(), 0);
    assert_eq!(val(c.episodes_rewards(0)), 750);
    assert_eq!(c.add_ecity(&vec![pay(GNS, 1, 250)]), Err(ContractError::OnlyEcityCanBeDeposited));
    assert_eq!(c.add_ecity(&vec![]), Err(ContractError::IncorrectNumberOfTransfers));
    let mut empty = StakingV2ScContract::new();
    assert_eq!(empty.add_ecity(&vec![pay(ECITY, 0, 1)]), Err(ContractError::InvalidTokenId));
}

#[test]
fn add_ecity_beyond_128_bits_adds_up() {
    let mut c = configured();
    c.deposit_ecity(&ctx(router(), 1000), &vec![pay(ECITY, 0, u128::MAX)]).unwrap();
    c.add_ecity(&vec![pay(ECITY, 0, 5)]).unwrap();
    let expected = amt(u128::MAX).add(&amt(5));
    assert!(c.episodes_rewards(0).same(&expected));
    assert_eq!(c.episodes_rewards(0).to_u128(), None);
}

#[test]
fn stake_records_the_payment() {
    let mut c = configured();
    let t = c.stake(&ctx(user(), 100), &vec![pay(GNS, 1, 1), pay(EXP, 4, 2)]).unwrap();
    assert!(t.is_empty());
    assert_eq!(val(c.staked(&user(), &GNS.to_vec(), &1)), 1);
    assert_eq!(val(c.staked(&user(), &EXP.to_vec(), &4)), 2);
    assert_eq!(entries(c.staked_iter(&user(), &GNS.to_vec())), vec![(1, 1)]);
    assert_eq!(entries(c.staked_iter(&user(), &EXP.to_vec())), vec![(4, 2)]);
    assert_eq!(c.nb_staked(&user()), 3);
    assert_eq!(c.nb_players(), 1);
    assert_eq!(c.staked_time(&user()), 0);
    c.stake(&ctx(addr(2), 100), &vec![pay(GNS, 2, 1)]).unwrap();
    assert_eq!(c.nb_players(), 2);
    c.stake(&ctx(user(), 100), &vec![pay(GNS, 1, 1)]).unwrap();
    assert_eq!(val(c.staked(&user(), &GNS.to_vec(), &1)), 2);
    assert_eq!(entries(c.staked_iter(&user(), &GNS.to_vec())), vec![(1, 2)]);
    assert_eq!(c.nb_players(), 2);
}

#[test]
fn stake_refuses_unknown_tokens_and_changes_nothing() {
    let mut c = configured();
    assert_eq!(
        c.stake(&ctx(user(), 100), &vec![pay(GNS, 1, 1), pay(b"UNK-6620e5", 1, 1)]).err(),
        Some(ContractError::TokenNotSupported)
    );
    assert_eq!(val(c.staked(&user(), &GNS.to_vec(), &1)), 0);
    assert_eq!(c.nb_players(), 0);
}

#[test]
fn stake_refuses_amounts_beyond_64_bits() {
    let mut c = configured();
    assert_eq!(
        c.stake(&ctx(user(), 100), &vec![pay(GNS, 1, u64::MAX as u128 + 1)]).err(),
        Some(ContractError::AmountTooLarge)
    );
    assert_eq!(c.nb_staked(&user()), 0);
}

#[test]
fn claim_pays_share_of_staked_time() {
    let mut c = configured();
    c.deposit_ecity(&ctx(router(), 1000), &vec![pay(ECITY, 0, 8_000_000_000)]).unwrap();
    c.stake(&ctx(user(), 2000), &vec![pay(GNS, 1, 1)]).unwrap();
    assert_eq!(c.staked_time(&user()), 2000);
    assert_eq!(c.last_episode_claimed(&user()), 0);
    let half = 2000 + EPISODE / 2;
    let t = c.claim(&ctx(user(), half)).unwrap();
    // 8e9 / 8 / 961 = 1040582, for half an episode
    assert_eq!(transfer_amounts(&t), vec![(user(), ECITY.to_vec(), 0, 520291)]);
    assert_eq!(val(c.claimed_per_episode(0)), 520291);
    assert_eq!(c.staked_time(&user()), half);
    let again = c.claim(&ctx(user(), half)).unwrap();
    assert!(again.is_empty());
    assert_eq!(val(c.claimed_per_episode(0)), 520291);
}

#[test]
fn claim_of_a_past_episode_moves_stake_time_to_its_end() {
    let mut c = configured();
    c.deposit_ecity(&ctx(router(), 1000), &vec![pay(ECITY, 0, 8_000_000_000)]).unwrap();
    c.stake(&ctx(user(), 1000), &vec![pay(GNS, 2, 1)]).unwrap();
    c.deposit_ecity(&ctx(router(), 1000 + EPISODE), &vec![pay(ECITY, 0, 16_000_000_000)]).unwrap();
    assert_eq!(c.current_episode(), 1);
    let t = c.claim(&ctx(user(), 1000 + EPISODE + 100)).unwrap();
    // episode 0 in full for the legendary: 8e9 / 8 / 31 = 32258064;
    // episode 1 from its start, 100 seconds: 16e9 / 8 / 31 * 100 / 1209600 = 5333
    assert_eq!(
        transfer_amounts(&t),
        vec![(user(), ECITY.to_vec(), 0, 32258064), (user(), ECITY.to_vec(), 0, 5333)]
    );
    assert_eq!(c.last_episode_claimed(&user()), 1);
    assert_eq!(c.staked_time(&user()), 1000 + EPISODE + 100);
}

#[test]
fn claim_ecity_for_another_address() {
    let mut c = configured();
    c.deposit_ecity(&ctx(router(), 0), &vec![pay(ECITY, 0, 8_000_000_000)]).unwrap();
    c.stake(&ctx(user(), 5), &vec![pay(GNS, 1, 1)]).unwrap();
    let t = c.claim_ecity(&ctx(addr(4), 5 + EPISODE), 0, &user()).unwrap();
    assert_eq!(transfer_amounts(&t), vec![(user(), ECITY.to_vec(), 0, 1040582)]);
    // an episode that has not begun gives nothing
    let none = c.claim_ecity(&ctx(addr(4), 5 + EPISODE), 3, &user()).unwrap();
    assert!(none.is_empty());
}

#[test]
fn claim_before_stake_time_is_refused() {
    let mut c = configured();
    c.deposit_ecity(&ctx(router(), 10), &vec![pay(ECITY, 0, 1000)]).unwrap();
    c.stake(&ctx(user(), 100), &vec![pay(GNS, 1, 1)]).unwrap();
    assert_eq!(c.claim(&ctx(user(), 50)).err(), Some(ContractError::ArithmeticOverflow));
    assert_eq!(c.staked_time(&user()), 100);
}

#[test]
fn expansion_buildings_earn_expansion_reward() {
    let mut c = configured();
    c.deposit_ecity(&ctx(router(), 0), &vec![pay(ECITY, 0, 12_000_000_000)]).unwrap();
    c.stake(&ctx(user(), 0), &vec![pay(EXP, 3, 1)]).unwrap();
    // nonce 3 is a legendary expansion building: 12e9 / 2 / 2 / 3 / 40
    assert_eq!(c.building_reward(0, &EXP.to_vec(), 3).map(val), Ok(25_000_000));
    assert_eq!(c.building_reward(0, &EXP.to_vec(), 2).map(val), Ok(2_500_000));
    assert_eq!(c.building_reward(0, &EXP.to_vec(), 1).map(val), Ok(285_714));
    let t = c.claim(&ctx(user(), EPISODE)).unwrap();
    assert_eq!(transfer_amounts(&t), vec![(user(), ECITY.to_vec(), 0, 25_000_000)]);
}

#[test]
fn citizen_reward_of_a_staked_citizen() {
    let mut c = configured();
    c.deposit_ecity(&ctx(router(), 0), &vec![pay(ECITY, 0, 6_000_000_000)]).unwrap();
    c.stake(&ctx(user(), 0), &vec![pay(CTZN, 20, 1)]).unwrap();
    let mut cx = ctx(user(), EPISODE);
    cx.nft_attributes.push(NftAttributes {
        token_identifier: CTZN.to_vec(),
        nonce: 20,
        attributes: encode_attributes(20, 1, 1, &empty_buffers()),
    });
    assert_eq!(c.ctzn_reward(&cx, 0, 20).map(val), Ok(140449));
    assert_eq!(c.reward(&cx, 0, &CTZN.to_vec(), 20).map(val), Ok(140449));
    let t = c.claim(&cx).unwrap();
    // 6e9 / 2 / 3 / 7120 = 140449
    assert_eq!(transfer_amounts(&t), vec![(user(), ECITY.to_vec(), 0, 140449)]);
}

#[test]
fn citizen_reward_by_rarity_level() {
    let mut c = configured();
    c.deposit_ecity(&ctx(router(), 0), &vec![pay(ECITY, 0, 6_000_000_000)]).unwrap();
    let mut cx = ctx(user(), 0);
    for (nonce, level) in [(21u64, 2u64), (22, 3), (23, 4), (24, 0)] {
        cx.nft_attributes.push(NftAttributes {
            token_identifier: CTZN.to_vec(),
            nonce,
            attributes: encode_attributes(nonce, 7, level, &empty_buffers()),
        });
    }
    // 6e9 / 2 / 3 = 1e9 for each rarity level
    assert_eq!(c.ctzn_reward(&cx, 0, 21).map(val), Ok(1_250_000));
    assert_eq!(c.ctzn_reward(&cx, 0, 22).map(val), Ok(12_500_000));
    assert_eq!(c.ctzn_reward(&cx, 0, 23).map(val), Ok(0));
    assert_eq!(c.ctzn_reward(&cx, 0, 24).map(val), Ok(0));
    // an episode without rewards pays nothing
    assert_eq!(c.ctzn_reward(&cx, 5, 22).map(val), Ok(0));
}

#[test]
fn each_collection_earns_by_its_own_rule() {
    let mut c = configured();
    c.deposit_ecity(&ctx(router(), 0), &vec![pay(ECITY, 0, 6_000_000_000)]).unwrap();
    let mut cx = ctx(user(), EPISODE);
    for nonce in [5u64, 30] {
        cx.nft_attributes.push(NftAttributes {
            token_identifier: CTZN.to_vec(),
            nonce,
            attributes: encode_attributes(nonce, 1, 3, &empty_buffers()),
        });
    }
    // a legendary citizen, whatever its nonce: 6e9 / 2 / 3 / 80
    assert_eq!(c.reward(&cx, 0, &CTZN.to_vec(), 5).map(val), Ok(12_500_000));
    assert_eq!(c.reward(&cx, 0, &CTZN.to_vec(), 30).map(val), Ok(12_500_000));
    // a legendary expansion building: 6e9 / 2 / 2 / 3 / 40
    assert_eq!(c.reward(&cx, 0, &EXP.to_vec(), 24).map(val), Ok(12_500_000));
    assert_eq!(c.reward(&cx, 0, &GNS.to_vec(), 2).map(val), Ok(6_000_000_000 / 8 / 31));
    // a genesis nonce without a building earns the citizen reward of that nonce
    assert_eq!(c.reward(&cx, 0, &GNS.to_vec(), 30).map(val), Ok(12_500_000));
    assert_eq!(c.reward(&cx, 0, &GNS.to_vec(), 20).err(), Some(ContractError::AttributesDecodeError));
}

#[test]
fn genesis_first_when_citizen_collection_is_the_same() {
    let mut c = StakingV2ScContract::new();
    c.init(ECITY.to_vec(), GNS.to_vec(), EXP.to_vec(), GNS.to_vec(), router()).unwrap();
    c.set_router_address(router());
    c.deposit_ecity(&ctx(router(), 0), &vec![pay(ECITY, 0, 8_000_000_000)]).unwrap();
    let cx = ctx(user(), 0);
    assert_eq!(c.reward(&cx, 0, &GNS.to_vec(), 1).map(val), Ok(1_040_582));
}

#[test]
fn claim_fails_on_undecodable_citizen_attributes() {
    let mut c = configured();
    c.deposit_ecity(&ctx(router(), 0), &vec![pay(ECITY, 0, 6_000_000_000)]).unwrap();
    c.stake(&ctx(user(), 0), &vec![pay(CTZN, 20, 1)]).unwrap();
    assert_eq!(c.claim(&ctx(user(), 10)).err(), Some(ContractError::AttributesDecodeError));
}

#[test]
fn claim_fails_on_unknown_expansion_nonce() {
    let mut c = configured();
    c.deposit_ecity(&ctx(router(), 0), &vec![pay(ECITY, 0, 6_000_000_000)]).unwrap();
    c.stake(&ctx(user(), 0), &vec![pay(EXP, 30, 1)]).unwrap();
    assert_eq!(c.claim(&ctx(user(), 10)).err(), Some(ContractError::UnknownExpansionNonce));
}

#[test]
fn unstake_single_sends_the_token_back() {
    let mut c = configured();
    c.stake(&ctx(user(), 0), &vec![pay(GNS, 1, 1)]).unwrap();
    let t = c.unstake_single(&ctx(user(), 10), &GNS.to_vec(), 1).unwrap();
    assert_eq!(transfer_amounts(&t), vec![(user(), GNS.to_vec(), 1, 1)]);
    assert_eq!(val(c.staked(&user(), &GNS.to_vec(), &1)), 0);
    assert!(c.staked_iter(&user(), &GNS.to_vec()).is_empty());
    assert_eq!(c.nb_staked(&user()), 0);
    assert_eq!(c.nb_players(), 0);
    assert_eq!(
        c.unstake_single(&ctx(user(), 10), &GNS.to_vec(), 1).err(),
        Some(ContractError::NothingToUnstake)
    );
}

#[test]
fn unstake_one_of_several() {
    let mut c = configured();
    c.stake(&ctx(user(), 0), &vec![pay(GNS, 1, 1)]).unwrap();
    c.stake(&ctx(user(), 0), &vec![pay(GNS, 1, 1)]).unwrap();
    c.unstake_single(&ctx(user(), 10), &GNS.to_vec(), 1).unwrap();
    assert_eq!(val(c.staked(&user(), &GNS.to_vec(), &1)), 1);
    // the entry holds the amount left
    assert_eq!(entries(c.staked_iter(&user(), &GNS.to_vec())), vec![(1, 1)]);
    assert_eq!(c.nb_staked(&user()), 1);
    assert_eq!(c.nb_players(), 1);
}

#[test]
fn unstake_many() {
    let mut c = configured();
    c.stake(&ctx(user(), 0), &vec![pay(GNS, 1, 1), pay(GNS, 3, 1), pay(GNS, 3, 1)]).unwrap();
    let t = c.unstake(&ctx(user(), 5), &vec![(GNS.to_vec(), 3, 2), (GNS.to_vec(), 1, 1)]).unwrap();
    assert_eq!(
        transfer_amounts(&t),
        vec![(user(), GNS.to_vec(), 3, 1), (user(), GNS.to_vec(), 3, 1), (user(), GNS.to_vec(), 1, 1)]
    );
    assert_eq!(c.nb_staked(&user()), 0);
    assert_eq!(c.nb_players(), 0);
}

#[test]
fn unstake_too_many_changes_nothing() {
    let mut c = configured();
    c.stake(&ctx(user(), 0), &vec![pay(GNS, 1, 1)]).unwrap();
    assert_eq!(
        c.unstake(&ctx(user(), 5), &vec![(GNS.to_vec(), 1, 2)]).err(),
        Some(ContractError::NothingToUnstake)
    );
    assert_eq!(val(c.staked(&user(), &GNS.to_vec(), &1)), 1);
    assert_eq!(c.nb_staked(&user()), 1);
}

#[test]
fn unstake_undoes_stake() {
    let mut c = configured();
    c.stake(&ctx(addr(2), 0), &vec![pay(GNS, 2, 1)]).unwrap();
    let players = c.nb_players();
    c.stake(&ctx(user(), 10), &vec![pay(GNS, 5, 1)]).unwrap();
    c.unstake_single(&ctx(user(), 20), &GNS.to_vec(), 5).unwrap();
    assert_eq!(val(c.staked(&user(), &GNS.to_vec(), &5)), 0);
    assert!(c.staked_iter(&user(), &GNS.to_vec()).is_empty());
    assert_eq!(c.nb_staked(&user()), 0);
    assert_eq!(c.nb_players(), players);
}

#[test]
fn fake_claim_counts_what_claim_pays() {
    let mut c = configured();
    c.deposit_ecity(&ctx(router(), 1000), &vec![pay(ECITY, 0, 8_000_000_000)]).unwrap();
    c.stake(&ctx(user(), 1000), &vec![pay(GNS, 1, 1)]).unwrap();
    // only the current episode is unclaimed: 1040582 * 4000 / 1209600
    assert_eq!(c.fake_claim(&ctx(user(), 5000), &user()).map(val), Ok(3441));
    c.deposit_ecity(&ctx(router(), 1000 + EPISODE), &vec![pay(ECITY, 0, 8_000_000_000)]).unwrap();
    let now = 1000 + EPISODE + 100;
    // episode 0 in full, then 100 seconds of episode 1: 1040582 * 100 / 1209600 = 86
    assert_eq!(c.fake_claim(&ctx(user(), now), &user()).map(val), Ok(1040582 + 86));
    assert_eq!(c.last_episode_claimed(&user()), 0);
    let t = c.claim(&ctx(user(), now)).unwrap();
    assert_eq!(
        transfer_amounts(&t),
        vec![(user(), ECITY.to_vec(), 0, 1040582), (user(), ECITY.to_vec(), 0, 86)]
    );
    assert_eq!(c.fake_claim(&ctx(user(), now), &user()).map(val), Ok(0));
}

#[test]
fn fake_claim_of_an_address_that_never_staked() {
    let mut c = configured();
    c.deposit_ecity(&ctx(router(), 1000), &vec![pay(ECITY, 0, 8_000_000_000)]).unwrap();
    c.deposit_ecity(&ctx(router(), 2000), &vec![pay(ECITY, 0, 8_000_000_000)]).unwrap();
    // the replayed claim moves the stake time to the end of episode 0, past now
    assert_eq!(c.fake_claim(&ctx(user(), 3000), &user()).map(val), Ok(0));
    // where the claim itself fails on that stake time
    assert_eq!(c.claim(&ctx(user(), 3000)).err(), Some(ContractError::ArithmeticOverflow));
}

#[test]
fn large_rewards_are_paid_in_full() {
    let mut c = configured();
    c.deposit_ecity(&ctx(router(), 0), &vec![pay(ECITY, 0, u128::MAX)]).unwrap();
    c.stake(&ctx(user(), 0), &vec![pay(GNS, 2, 1)]).unwrap();
    // the reward times the staked time goes past 128 bits on the way
    let t = c.claim(&ctx(user(), EPISODE)).unwrap();
    assert_eq!(transfer_amounts(&t), vec![(user(), ECITY.to_vec(), 0, u128::MAX / 8 / 31)]);
}

#[test]
fn amount_arithmetic() {
    let big = amt(u128::MAX).add(&amt(u128::MAX));
    assert_eq!(big.to_u128(), None);
    assert_eq!(big.div_u64(2).to_u128(), Some(u128::MAX));
    assert_eq!(amt(u128::MAX).mul_u64(3).div_u64(3).to_u128(), Some(u128::MAX));
    assert_eq!(big.checked_sub(&amt(u128::MAX)).map(val), Some(u128::MAX));
    assert!(amt(5).checked_sub(&amt(6)).is_none());
    assert!(big.ge(&amt(u128::MAX)));
    assert!(!amt(7).ge(&big));
    assert!(Amount::zero().is_zero());
    assert_eq!(amt(u64::MAX as u128).to_u64(), Some(u64::MAX));
    assert_eq!(amt(u64::MAX as u128 + 1).to_u64(), None);
    assert_eq!(val(amt(1_000_000).mul_u64(1_209_600).div_u64(7)), 172_800_000_000);
}

#[test]
fn claim_unclaimable_gives_the_rest_to_the_owner() {
    let mut c = configured();
    c.deposit_ecity(&ctx(router(), 1000), &vec![pay(ECITY, 0, 8_000_000_000)]).unwrap();
    c.stake(&ctx(user(), 1000), &vec![pay(GNS, 1, 1)]).unwrap();
    assert_eq!(c.claim_unclaimable(&ctx(user(), 2000), 0).err(), Some(ContractError::OnlyOwner));
    assert_eq!(
        c.claim_unclaimable(&ctx(owner(), 2000), 0).err(),
        Some(ContractError::EpisodeNotYetAvailable)
    );
    assert_eq!(c.claim_unclaimable(&ctx(owner(), 2000), 4).err(), Some(ContractError::NothingToClaim));
    c.claim(&ctx(user(), 1000 + EPISODE)).unwrap();
    c.deposit_ecity(&ctx(router(), 1000 + EPISODE), &vec![pay(ECITY, 0, 10)]).unwrap();
    let t = c.claim_unclaimable(&ctx(owner(), 2000 + EPISODE), 0).unwrap();
    assert_eq!(transfer_amounts(&t), vec![(owner(), ECITY.to_vec(), 0, 8_000_000_000 - 1040582)]);
    assert_eq!(val(c.claimed_per_episode(0)), 8_000_000_000);
    // the leftover is paid once, also after other calls
    assert_eq!(
        c.claim_unclaimable(&ctx(owner(), 3000 + EPISODE), 0).err(),
        Some(ContractError::ZeroTransfer)
    );
    c.claim(&ctx(user(), 3000 + EPISODE)).unwrap();
    c.add_ecity(&vec![pay(ECITY, 0, 7)]).unwrap();
    // the claim in between added to what was claimed of episode 0
    assert!(val(c.claimed_per_episode(0)) > 8_000_000_000);
    assert_eq!(
        c.claim_unclaimable(&ctx(owner(), 4000 + EPISODE), 0).err(),
        Some(ContractError::SubtractionUnderflow)
    );
}

#[test]
fn claim_unclaimable_below_claimed_is_refused() {
    let mut c = configured();
    c.deposit_ecity(&ctx(router(), 1000), &vec![pay(ECITY, 0, 248_000_000)]).unwrap();
    // 249 stakers of a legendary genesis building, each owed 248e6 / 8 / 31 = 1e6
    let stakers: Vec<Vec<u8>> = (0..249u32)
        .map(|i| {
            let mut a = vec![3u8; 32];
            a[0] = (i % 256) as u8;
            a[1] = (i / 256) as u8;
            a
        })
        .collect();
    for s in &stakers {
        c.stake(&ctx(s.clone(), 1000), &vec![pay(GNS, 2, 1)]).unwrap();
    }
    c.deposit_ecity(&ctx(router(), 1000 + EPISODE), &vec![pay(ECITY, 0, 1)]).unwrap();
    for s in &stakers {
        let t = c.claim(&ctx(s.clone(), 1000 + EPISODE)).unwrap();
        assert_eq!(transfer_amounts(&t), vec![(s.clone(), ECITY.to_vec(), 0, 1_000_000)]);
    }
    assert_eq!(val(c.claimed_per_episode(0)), 249_000_000);
    assert_eq!(
        c.claim_unclaimable(&ctx(owner(), 2000 + EPISODE), 0).err(),
        Some(ContractError::SubtractionUnderflow)
    );
}

#[test]
fn payment_equality_allows_larger_amounts() {
    assert!(pay(GNS, 1, 5) == pay(GNS, 1, 3));
    assert!(pay(GNS, 1, 3) != pay(GNS, 1, 5));
    assert!(pay(GNS, 1, 3) != pay(GNS, 2, 3));
    assert!(pay(GNS, 1, 3) != pay(EXP, 1, 3));
}

#[test]
fn default_building_type_is_no_building() {
    assert_eq!(BuildingType::default(), BuildingType::NoBuilding);
}
