//! The staking contract of ctzn.city: building and citizen NFTs are staked,
//! ECITY rewards are deposited per episode of two weeks, and stakers claim
//! their share of each episode.

use vstd::prelude::*;

use crate::amount::Amount;
use crate::bytes::{bytes_eq, copy_bytes};
use crate::codec::{encoded_rarity_level, lemma_encoded_rarity_level};
use crate::common::{CommonModule, TokenIdMapper, token_id_after_set, token_id_after_set_if_empty, token_id_read};
use crate::context::{CallContext, EsdtTransfer, TransferModel, transfers_model};
use crate::error::ContractError;
use crate::storage::{StorageMap, StorageSet, seq_without, value_or};
use crate::structs::{BuildingRarity, BuildingType, MyEsdtTokenPayment};
use crate::utils::{
    UtilsModule, building_attributes, citizen_attributes_readable, genesis_building_attributes,
};

verus! {

/// The length of an episode, in seconds: two weeks.
pub const EPISODE_DURATION: u64 = 1209600;

/// A staked entry: owner, collection, nonce and the amount recorded with it.
pub type StakedItem = (Seq<u8>, Seq<u8>, u64, nat);

/// The storage of the contract, as plain values. Numeric storage reads as 0
/// where nothing was written; the router address is empty until set.
pub struct ContractModel {
    pub genesis_tokenid: Option<Seq<u8>>,
    pub expansion_tokenid: Option<Seq<u8>>,
    pub citizen_tokenid: Option<Seq<u8>>,
    pub ecity_tokenid: Option<Seq<u8>>,
    pub router_address: Seq<u8>,
    /// Amount staked per owner, collection and nonce.
    pub staked: Map<(Seq<u8>, Seq<u8>, u64), nat>,
    /// The staked entries, in the order they were recorded.
    pub staked_iter: Seq<StakedItem>,
    /// Per owner, the time from which rewards are still owed.
    pub staked_time: Map<Seq<u8>, u64>,
    /// Per owner, the number of tokens staked.
    pub nb_staked: Map<Seq<u8>, u64>,
    pub nb_players: u64,
    pub last_episode_claimed: Map<Seq<u8>, u64>,
    /// The collections that can be staked, in the order they were added.
    pub collections: Seq<Seq<u8>>,
    pub episodes_timestamps: Map<u64, u64>,
    pub episodes_rewards: Map<u64, nat>,
    pub current_episode: u64,
    pub claimed_per_episode: Map<u64, nat>,
}

/// The 64-bit value stored under `k`, 0 where none is.
pub open spec fn u64_at<K>(m: Map<K, u64>, k: K) -> u64 {
    value_or(m, k, 0u64)
}

/// The amount stored under `k`, 0 where none is.
pub open spec fn amount_at<K>(m: Map<K, nat>, k: K) -> nat {
    value_or(m, k, 0nat)
}

/// `s` with `x` added at the end, unless it is already in it.
pub open spec fn set_insert<A>(s: Seq<A>, x: A) -> Seq<A> {
    if s.contains(x) {
        s
    } else {
        s.push(x)
    }
}

/// An ESDT payment as plain values: token, nonce, amount.
pub type PaymentModel = (Seq<u8>, u64, nat);

impl View for MyEsdtTokenPayment {
    type V = PaymentModel;

    open spec fn view(&self) -> PaymentModel {
        (self.token_identifier@, self.token_nonce, self.amount@)
    }
}

/// The payments of a list, as plain values.
pub open spec fn payments_model(v: Seq<MyEsdtTokenPayment>) -> Seq<PaymentModel> {
    v.map_values(|p: MyEsdtTokenPayment| p@)
}

// ---------------------------------------------------------------- rewards

/// A time span capped to one episode.
pub open spec fn capped_time(time: u64) -> u64 {
    if time > EPISODE_DURATION {
        EPISODE_DURATION
    } else {
        time
    }
}

/// The reward of one genesis building out of an episode's rewards: half goes
/// to buildings, half of that to genesis buildings, half of that to each of
/// the classic (961 buildings) and legendary (31 buildings) classes; the town
/// halls count as their class. Other rarities get nothing.
pub open spec fn genesis_reward(episode_rewards: nat, rarity: BuildingRarity) -> nat {
    let rarity_fund = episode_rewards / 2 / 2 / 2;
    match rarity {
        BuildingRarity::GenesisClassic | BuildingRarity::TownHallClassic => rarity_fund / 961,
        BuildingRarity::GenesisLegendary | BuildingRarity::TownHallLegendary => rarity_fund / 31,
        _ => 0,
    }
}

/// The reward of one expansion building: half to buildings, half of that to
/// expansion buildings, a third of that to each rarity class of 3500, 400 and
/// 40 buildings. Other rarities get nothing.
pub open spec fn expansion_reward(episode_rewards: nat, rarity: BuildingRarity) -> nat {
    let rarity_fund = episode_rewards / 2 / 2 / 3;
    match rarity {
        BuildingRarity::ExpansionClassic => rarity_fund / 3500,
        BuildingRarity::ExpansionRare => rarity_fund / 400,
        BuildingRarity::ExpansionLegendary => rarity_fund / 40,
        _ => 0,
    }
}

/// The reward of one citizen: half to citizens, a third of that to each
/// rarity level 1, 2, 3, shared by 7120, 800 and 80 citizens. Other levels get
/// nothing.
pub open spec fn citizen_reward(episode_rewards: nat, rarity_level: nat) -> nat {
    let rarity_fund = episode_rewards / 2 / 3;
    if rarity_level == 1 {
        rarity_fund / 7120
    } else if rarity_level == 2 {
        rarity_fund / 800
    } else if rarity_level == 3 {
        rarity_fund / 80
    } else {
        0
    }
}

/// The citizen reward of the citizen `nonce` for `episode`.
pub open spec fn ctzn_reward_of(m: ContractModel, ctx: CallContext, episode: u64, nonce: u64) -> Result<
    nat,
    ContractError,
> {
    match citizen_attributes_readable(m.citizen_tokenid, ctx, nonce) {
        Err(e) => Err(e),
        Ok(bytes) => Ok(
            citizen_reward(amount_at(m.episodes_rewards, episode), encoded_rarity_level(bytes)),
        ),
    }
}

/// The reward of one building of the given rarity: the genesis rule for
/// genesis and town hall rarities, the expansion rule for expansion ones,
/// nothing for no rarity.
pub open spec fn building_reward_for(episode_rewards: nat, rarity: BuildingRarity) -> nat {
    match rarity {
        BuildingRarity::ExpansionClassic | BuildingRarity::ExpansionRare
        | BuildingRarity::ExpansionLegendary => expansion_reward(episode_rewards, rarity),
        _ => genesis_reward(episode_rewards, rarity),
    }
}

/// The building reward of the NFT `token`/`nonce` for `episode`, by the
/// rarity its collection and nonce give it.
pub open spec fn building_reward_of(m: ContractModel, episode: u64, token: Seq<u8>, nonce: u64) -> Result<
    nat,
    ContractError,
> {
    match building_attributes(m.genesis_tokenid, Some(token), nonce) {
        Err(e) => Err(e),
        Ok(a) => Ok(building_reward_for(amount_at(m.episodes_rewards, episode), a.building_rarity)),
    }
}

/// The reward of the NFT `token`/`nonce` for `episode`. In the genesis
/// collection: a building's where the nonce names a building, else the
/// citizen reward of that nonce. In the citizen collection: a citizen's. In
/// any other collection: an expansion building's.
#[verifier::opaque]
pub open spec fn reward_of(
    m: ContractModel,
    ctx: CallContext,
    episode: u64,
    token: Seq<u8>,
    nonce: u64,
) -> Result<nat, ContractError> {
    match token_id_read(m.genesis_tokenid) {
        Err(e) => Err(e),
        Ok(g) => if token == g {
            if genesis_building_attributes(nonce).building_type != BuildingType::NoBuilding {
                building_reward_of(m, episode, token, nonce)
            } else {
                ctzn_reward_of(m, ctx, episode, nonce)
            }
        } else if m.citizen_tokenid == Some(token) {
            ctzn_reward_of(m, ctx, episode, nonce)
        } else {
            building_reward_of(m, episode, token, nonce)
        },
    }
}

/// `acc` plus the rewards for `episode` of the entries of `items` that `addr`
/// staked in `token` with a non-zero amount, added in order; an error where a
/// reward fails.
pub open spec fn staked_rewards_from(
    m: ContractModel,
    ctx: CallContext,
    episode: u64,
    addr: Seq<u8>,
    token: Seq<u8>,
    items: Seq<StakedItem>,
    acc: nat,
) -> Result<nat, ContractError>
    decreases items.len(),
{
    if items.len() == 0 {
        Ok(acc)
    } else {
        match staked_rewards_from(m, ctx, episode, addr, token, items.drop_last(), acc) {
            Err(e) => Err(e),
            Ok(s) => {
                let it = items.last();
                if it.0 == addr && it.1 == token && it.3 != 0 {
                    match reward_of(m, ctx, episode, token, it.2) {
                        Err(e) => Err(e),
                        Ok(v) => Ok(s + v),
                    }
                } else {
                    Ok(s)
                }
            },
        }
    }
}

/// `acc` plus the rewards for `episode` of everything `addr` staked, one
/// collection of `tokens` after the other.
pub open spec fn episode_rewards_from(
    m: ContractModel,
    ctx: CallContext,
    episode: u64,
    addr: Seq<u8>,
    tokens: Seq<Seq<u8>>,
    acc: nat,
) -> Result<nat, ContractError>
    decreases tokens.len(),
{
    if tokens.len() == 0 {
        Ok(acc)
    } else {
        match episode_rewards_from(m, ctx, episode, addr, tokens.drop_last(), acc) {
            Err(e) => Err(e),
            Ok(s) => staked_rewards_from(m, ctx, episode, addr, tokens.last(), m.staked_iter, s),
        }
    }
}

/// An error on a prefix of the entries is the error of all of them.
pub proof fn lemma_staked_rewards_prefix_err(
    m: ContractModel,
    ctx: CallContext,
    episode: u64,
    addr: Seq<u8>,
    token: Seq<u8>,
    items: Seq<StakedItem>,
    k: int,
    acc: nat,
)
    requires
        0 <= k <= items.len(),
        staked_rewards_from(m, ctx, episode, addr, token, items.take(k), acc) is Err,
    ensures
        staked_rewards_from(m, ctx, episode, addr, token, items, acc) == staked_rewards_from(
            m,
            ctx,
            episode,
            addr,
            token,
            items.take(k),
            acc,
        ),
    decreases items.len(),
{
    if k == items.len() {
        assert(items.take(k) =~= items);
    } else {
        assert(items.drop_last().take(k) =~= items.take(k));
        lemma_staked_rewards_prefix_err(m, ctx, episode, addr, token, items.drop_last(), k, acc);
    }
}

/// An error on a prefix of the collections is the error of all of them.
pub proof fn lemma_episode_rewards_prefix_err(
    m: ContractModel,
    ctx: CallContext,
    episode: u64,
    addr: Seq<u8>,
    tokens: Seq<Seq<u8>>,
    k: int,
    acc: nat,
)
    requires
        0 <= k <= tokens.len(),
        episode_rewards_from(m, ctx, episode, addr, tokens.take(k), acc) is Err,
    ensures
        episode_rewards_from(m, ctx, episode, addr, tokens, acc) == episode_rewards_from(
            m,
            ctx,
            episode,
            addr,
            tokens.take(k),
            acc,
        ),
    decreases tokens.len(),
{
    if k == tokens.len() {
        assert(tokens.take(k) =~= tokens);
    } else {
        assert(tokens.drop_last().take(k) =~= tokens.take(k));
        lemma_episode_rewards_prefix_err(m, ctx, episode, addr, tokens.drop_last(), k, acc);
    }
}

/// Claiming the rewards of `episode` for `addr`: nothing where the episode has
/// no rewards, has not begun, or ended before the owner's stake time; else the
/// summed rewards of the owner's NFTs, scaled by the staked time (capped to an
/// episode) over an episode, are recorded as claimed and sent in ECITY, and
/// the stake time moves to now (current episode) or to the episode's end.
/// A stake time past now fails, unless `lenient`, where it counts as no time
/// staked.
pub open spec fn claim_ecity_with(
    m: ContractModel,
    ctx: CallContext,
    episode: u64,
    addr: Seq<u8>,
    lenient: bool,
) -> Result<(ContractModel, Seq<TransferModel>), ContractError> {
    let now = ctx.block_timestamp;
    let stake_time = u64_at(m.staked_time, addr);
    let start = u64_at(m.episodes_timestamps, episode);
    if amount_at(m.episodes_rewards, episode) == 0 || m.current_episode < episode {
        Ok((m, Seq::empty()))
    } else if start + EPISODE_DURATION > u64::MAX {
        Err(ContractError::ArithmeticOverflow)
    } else if stake_time > start + EPISODE_DURATION {
        Ok((m, Seq::empty()))
    } else if now < stake_time && !lenient {
        Err(ContractError::ArithmeticOverflow)
    } else {
        let staked_length = if now < stake_time {
            0
        } else {
            capped_time((now - stake_time) as u64)
        };
        match episode_rewards_from(m, ctx, episode, addr, m.collections, 0) {
            Err(e) => Err(e),
            Ok(total) => {
                let to_be_sent = (total * (staked_length as nat)) / (EPISODE_DURATION as nat);
                let claimed = amount_at(m.claimed_per_episode, episode) + to_be_sent;
                let new_time = if episode == m.current_episode {
                    now
                } else {
                    (start + EPISODE_DURATION) as u64
                };
                let m2 = ContractModel {
                    claimed_per_episode: m.claimed_per_episode.insert(episode, claimed),
                    staked_time: m.staked_time.insert(addr, new_time),
                    ..m
                };
                if to_be_sent > 0 {
                    match token_id_read(m.ecity_tokenid) {
                        Err(e) => Err(e),
                        Ok(ecity) => Ok((m2, seq![(addr, ecity, 0u64, to_be_sent)])),
                    }
                } else {
                    Ok((m2, Seq::empty()))
                }
            },
        }
    }
}

/// Claiming the rewards of `episode` for `addr`, as the `claimEcity`
/// endpoint does.
pub open spec fn claim_ecity_of(m: ContractModel, ctx: CallContext, episode: u64, addr: Seq<u8>) -> Result<
    (ContractModel, Seq<TransferModel>),
    ContractError,
> {
    claim_ecity_with(m, ctx, episode, addr, false)
}

/// Claiming the episodes `lo` up to `hi` (excluded) for `addr`, one after the
/// other.
pub open spec fn claim_episodes_with(
    m: ContractModel,
    ctx: CallContext,
    addr: Seq<u8>,
    lo: u64,
    hi: int,
    lenient: bool,
) -> Result<(ContractModel, Seq<TransferModel>), ContractError>
    decreases hi - lo,
{
    if hi <= lo {
        Ok((m, Seq::empty()))
    } else {
        match claim_episodes_with(m, ctx, addr, lo, hi - 1, lenient) {
            Err(e) => Err(e),
            Ok((m1, t1)) => match claim_ecity_with(m1, ctx, (hi - 1) as u64, addr, lenient) {
                Err(e) => Err(e),
                Ok((m2, t2)) => Ok((m2, t1 + t2)),
            },
        }
    }
}

/// Claiming the episodes `lo` up to `hi` (excluded) for `addr`, as `claim`
/// does.
pub open spec fn claim_episodes(
    m: ContractModel,
    ctx: CallContext,
    addr: Seq<u8>,
    lo: u64,
    hi: int,
) -> Result<(ContractModel, Seq<TransferModel>), ContractError> {
    claim_episodes_with(m, ctx, addr, lo, hi, false)
}

/// An error on the first episodes is the error of the longer run.
pub proof fn lemma_claim_episodes_prefix_err(
    m: ContractModel,
    ctx: CallContext,
    addr: Seq<u8>,
    lo: u64,
    k: int,
    hi: int,
    lenient: bool,
)
    requires
        k <= hi,
        claim_episodes_with(m, ctx, addr, lo, k, lenient) is Err,
    ensures
        claim_episodes_with(m, ctx, addr, lo, hi, lenient) == claim_episodes_with(
            m,
            ctx,
            addr,
            lo,
            k,
            lenient,
        ),
    decreases hi - k,
{
    if k < hi {
        lemma_claim_episodes_prefix_err(m, ctx, addr, lo, k, hi - 1, lenient);
    }
}

/// Claiming, for `addr`, every episode from its last claimed one to the
/// current one.
pub open spec fn claim_upto_with(m: ContractModel, ctx: CallContext, addr: Seq<u8>, lenient: bool) -> Result<
    (ContractModel, Seq<TransferModel>),
    ContractError,
> {
    if m.current_episode == u64::MAX {
        Err(ContractError::ArithmeticOverflow)
    } else {
        claim_episodes_with(
            m,
            ctx,
            addr,
            u64_at(m.last_episode_claimed, addr),
            m.current_episode + 1,
            lenient,
        )
    }
}

/// Claiming, for `addr`, every episode from its last claimed one to the
/// current one, as `claim` does.
pub open spec fn claim_upto(m: ContractModel, ctx: CallContext, addr: Seq<u8>) -> Result<
    (ContractModel, Seq<TransferModel>),
    ContractError,
> {
    claim_upto_with(m, ctx, addr, false)
}

/// Claiming every episode from the caller's last claimed one to the current
/// one, then recording the current episode as the last claimed.
pub open spec fn claim_of(m: ContractModel, ctx: CallContext) -> Result<
    (ContractModel, Seq<TransferModel>),
    ContractError,
> {
    let caller = ctx.caller@;
    match claim_upto(m, ctx, caller) {
        Err(e) => Err(e),
        Ok((m1, t)) => Ok(
            (
                ContractModel {
                    last_episode_claimed: m1.last_episode_claimed.insert(caller, m1.current_episode),
                    ..m1
                },
                t,
            ),
        ),
    }
}

/// The sum of the amounts of some transfers.
pub open spec fn transfers_total(t: Seq<TransferModel>) -> nat
    decreases t.len(),
{
    if t.len() == 0 {
        0
    } else {
        transfers_total(t.drop_last()) + t.last().3
    }
}

/// What `addr` would be paid if it claimed now: the total of the transfers of
/// claiming its episodes up to the current one, where a stake time moved past
/// now counts as no time staked rather than failing.
pub open spec fn fake_claim_of(m: ContractModel, ctx: CallContext, addr: Seq<u8>) -> Result<
    nat,
    ContractError,
> {
    match claim_upto_with(m, ctx, addr, true) {
        Err(e) => Err(e),
        Ok((m1, t)) => Ok(transfers_total(t)),
    }
}

/// Recording one staked payment of `caller`: the collection must be
/// stakeable; the amount is added to the caller's stake, the caller's entry
/// for the nonce is replaced by one with the new amount (or recorded anew), a
/// first stake counts a new player, and the caller's token count grows by the
/// amount.
pub open spec fn stake_payment(m: ContractModel, caller: Seq<u8>, p: PaymentModel) -> Result<
    ContractModel,
    ContractError,
> {
    let (token, nonce, amount) = p;
    let key = (caller, token, nonce);
    let staked = amount_at(m.staked, key);
    let nb = u64_at(m.nb_staked, caller);
    if !m.collections.contains(token) {
        Err(ContractError::TokenNotSupported)
    } else if nb == 0 && m.nb_players == u64::MAX {
        Err(ContractError::ArithmeticOverflow)
    } else if amount > u64::MAX {
        Err(ContractError::AmountTooLarge)
    } else if nb + amount > u64::MAX {
        Err(ContractError::ArithmeticOverflow)
    } else {
        Ok(
            ContractModel {
                staked: m.staked.insert(key, staked + amount),
                staked_iter: set_insert(
                    seq_without(m.staked_iter, (caller, token, nonce, staked)),
                    (caller, token, nonce, staked + amount),
                ),
                nb_players: if nb == 0 {
                    (m.nb_players + 1) as u64
                } else {
                    m.nb_players
                },
                nb_staked: m.nb_staked.insert(caller, (nb + amount) as u64),
                ..m
            },
        )
    }
}

/// Recording the payments of `caller`, in order.
pub open spec fn stake_payments(m: ContractModel, caller: Seq<u8>, ps: Seq<PaymentModel>) -> Result<
    ContractModel,
    ContractError,
>
    decreases ps.len(),
{
    if ps.len() == 0 {
        Ok(m)
    } else {
        match stake_payments(m, caller, ps.drop_last()) {
            Err(e) => Err(e),
            Ok(m1) => stake_payment(m1, caller, ps.last()),
        }
    }
}

/// An error on the first payments is the error of all of them.
pub proof fn lemma_stake_payments_prefix_err(m: ContractModel, caller: Seq<u8>, ps: Seq<PaymentModel>, k: int)
    requires
        0 <= k <= ps.len(),
        stake_payments(m, caller, ps.take(k)) is Err,
    ensures
        stake_payments(m, caller, ps) == stake_payments(m, caller, ps.take(k)),
    decreases ps.len(),
{
    if k == ps.len() {
        assert(ps.take(k) =~= ps);
    } else {
        assert(ps.drop_last().take(k) =~= ps.take(k));
        lemma_stake_payments_prefix_err(m, caller, ps.drop_last(), k);
    }
}

/// Staking: the caller first claims, then the payments are recorded.
pub open spec fn stake_of(m: ContractModel, ctx: CallContext, ps: Seq<PaymentModel>) -> Result<
    (ContractModel, Seq<TransferModel>),
    ContractError,
> {
    match claim_of(m, ctx) {
        Err(e) => Err(e),
        Ok((m1, t)) => match stake_payments(m1, ctx.caller@, ps) {
            Err(e) => Err(e),
            Ok(m2) => Ok((m2, t)),
        },
    }
}

/// Taking one token `token`/`nonce` out of the stake of `caller` once the
/// claim is done: its amount goes down by one, its entry is replaced by one
/// with the new amount (or removed at zero), the caller's token count goes
/// down by one and a caller left with none stops counting as a player.
pub open spec fn unstake_after_claim(m: ContractModel, caller: Seq<u8>, token: Seq<u8>, nonce: u64) -> Result<
    ContractModel,
    ContractError,
> {
    let key = (caller, token, nonce);
    let staked = amount_at(m.staked, key);
    let nb = u64_at(m.nb_staked, caller);
    if staked == 0 {
        Err(ContractError::SubtractionUnderflow)
    } else if nb == 0 {
        Err(ContractError::ArithmeticOverflow)
    } else if nb == 1 && m.nb_players == 0 {
        Err(ContractError::ArithmeticOverflow)
    } else {
        let left = (staked - 1) as nat;
        let without = seq_without(m.staked_iter, (caller, token, nonce, staked));
        Ok(
            ContractModel {
                staked: m.staked.insert(key, left),
                staked_iter: if left == 0 {
                    without
                } else {
                    set_insert(without, (caller, token, nonce, left))
                },
                nb_staked: m.nb_staked.insert(caller, (nb - 1) as u64),
                nb_players: if nb == 1 {
                    (m.nb_players - 1) as u64
                } else {
                    m.nb_players
                },
                ..m
            },
        )
    }
}

/// Unstaking one token `token`/`nonce` of the caller: there must be one; the
/// caller claims, the stake is updated and the token is sent back.
pub open spec fn unstake_single_of(m: ContractModel, ctx: CallContext, token: Seq<u8>, nonce: u64) -> Result<
    (ContractModel, Seq<TransferModel>),
    ContractError,
> {
    let caller = ctx.caller@;
    if amount_at(m.staked, (caller, token, nonce)) == 0 {
        Err(ContractError::NothingToUnstake)
    } else {
        match claim_of(m, ctx) {
            Err(e) => Err(e),
            Ok((m1, t)) => match unstake_after_claim(m1, caller, token, nonce) {
                Err(e) => Err(e),
                Ok(m2) => Ok((m2, t.push((caller, token, nonce, 1nat)))),
            },
        }
    }
}

/// Unstaking `quantity` tokens `token`/`nonce`, one at a time.
pub open spec fn unstake_repeat(
    m: ContractModel,
    ctx: CallContext,
    token: Seq<u8>,
    nonce: u64,
    quantity: nat,
) -> Result<(ContractModel, Seq<TransferModel>), ContractError>
    decreases quantity,
{
    if quantity == 0 {
        Ok((m, Seq::empty()))
    } else {
        match unstake_repeat(m, ctx, token, nonce, (quantity - 1) as nat) {
            Err(e) => Err(e),
            Ok((m1, t1)) => match unstake_single_of(m1, ctx, token, nonce) {
                Err(e) => Err(e),
                Ok((m2, t2)) => Ok((m2, t1 + t2)),
            },
        }
    }
}

/// An error on the first unstakes is the error of the longer run.
pub proof fn lemma_unstake_repeat_prefix_err(
    m: ContractModel,
    ctx: CallContext,
    token: Seq<u8>,
    nonce: u64,
    k: nat,
    quantity: nat,
)
    requires
        k <= quantity,
        unstake_repeat(m, ctx, token, nonce, k) is Err,
    ensures
        unstake_repeat(m, ctx, token, nonce, quantity) == unstake_repeat(m, ctx, token, nonce, k),
    decreases quantity - k,
{
    if k < quantity {
        lemma_unstake_repeat_prefix_err(m, ctx, token, nonce, k, (quantity - 1) as nat);
    }
}

/// An unstake request: collection, nonce, quantity.
pub type UnstakeModel = (Seq<u8>, u64, u64);

/// Unstaking every request of `items`, in order.
pub open spec fn unstake_list(m: ContractModel, ctx: CallContext, items: Seq<UnstakeModel>) -> Result<
    (ContractModel, Seq<TransferModel>),
    ContractError,
>
    decreases items.len(),
{
    if items.len() == 0 {
        Ok((m, Seq::empty()))
    } else {
        match unstake_list(m, ctx, items.drop_last()) {
            Err(e) => Err(e),
            Ok((m1, t1)) => {
                let (token, nonce, quantity) = items.last();
                match unstake_repeat(m1, ctx, token, nonce, quantity as nat) {
                    Err(e) => Err(e),
                    Ok((m2, t2)) => Ok((m2, t1 + t2)),
                }
            },
        }
    }
}

/// An error on the first requests is the error of all of them.
pub proof fn lemma_unstake_list_prefix_err(
    m: ContractModel,
    ctx: CallContext,
    items: Seq<UnstakeModel>,
    k: int,
)
    requires
        0 <= k <= items.len(),
        unstake_list(m, ctx, items.take(k)) is Err,
    ensures
        unstake_list(m, ctx, items) == unstake_list(m, ctx, items.take(k)),
    decreases items.len(),
{
    if k == items.len() {
        assert(items.take(k) =~= items);
    } else {
        assert(items.drop_last().take(k) =~= items.take(k));
        lemma_unstake_list_prefix_err(m, ctx, items.drop_last(), k);
    }
}

/// Depositing the rewards of an episode: only the router, once the ECITY token
/// and the router are set, with exactly one ECITY payment. The deposit opens
/// the next episode (the first deposit, at an episode 0 with no start time,
/// opens episode 0 itself) and sets its rewards and start time.
pub open spec fn deposit_ecity_of(m: ContractModel, ctx: CallContext, ps: Seq<PaymentModel>) -> Result<
    ContractModel,
    ContractError,
> {
    let ce = m.current_episode;
    let opens_first = ce == 0 && u64_at(m.episodes_timestamps, 0) == 0;
    if m.ecity_tokenid is None {
        Err(ContractError::EcityTokenIdNotSet)
    } else if m.router_address.len() == 0 {
        Err(ContractError::RouterAddressNotSet)
    } else if ctx.caller@ != m.router_address {
        Err(ContractError::OnlyRouterCanDeposit)
    } else if ps.len() != 1 {
        Err(ContractError::IncorrectNumberOfTransfers)
    } else if Some(ps[0].0) != m.ecity_tokenid {
        Err(ContractError::OnlyEcityCanBeDeposited)
    } else if !opens_first && ce == u64::MAX {
        Err(ContractError::ArithmeticOverflow)
    } else {
        let episode = if opens_first {
            ce
        } else {
            (ce + 1) as u64
        };
        Ok(
            ContractModel {
                current_episode: episode,
                episodes_rewards: m.episodes_rewards.insert(episode, ps[0].2),
                episodes_timestamps: m.episodes_timestamps.insert(episode, ctx.block_timestamp),
                ..m
            },
        )
    }
}

/// Adding rewards to the current episode: exactly one payment, in ECITY.
pub open spec fn add_ecity_of(m: ContractModel, ps: Seq<PaymentModel>) -> Result<
    ContractModel,
    ContractError,
> {
    let ce = m.current_episode;
    let total = amount_at(m.episodes_rewards, ce) + ps[0].2;
    if ps.len() != 1 {
        Err(ContractError::IncorrectNumberOfTransfers)
    } else if m.ecity_tokenid is None {
        Err(ContractError::InvalidTokenId)
    } else if Some(ps[0].0) != m.ecity_tokenid {
        Err(ContractError::OnlyEcityCanBeDeposited)
    } else {
        Ok(
            ContractModel {
                episodes_rewards: m.episodes_rewards.insert(ce, total),
                ..m
            },
        )
    }
}

/// The owner takes what was not claimed of a past episode with rewards: the
/// rewards less what was claimed, in ECITY, which is then recorded as claimed
/// too, so that it is paid once. Nothing left is a transfer of nothing, which
/// fails.
pub open spec fn claim_unclaimable_of(m: ContractModel, ctx: CallContext, episode: u64) -> Result<
    (ContractModel, Seq<TransferModel>),
    ContractError,
> {
    let total = amount_at(m.episodes_rewards, episode);
    let claimed = amount_at(m.claimed_per_episode, episode);
    if ctx.caller@ != ctx.owner@ {
        Err(ContractError::OnlyOwner)
    } else if total == 0 {
        Err(ContractError::NothingToClaim)
    } else if m.current_episode <= episode {
        Err(ContractError::EpisodeNotYetAvailable)
    } else if claimed > total {
        Err(ContractError::SubtractionUnderflow)
    } else {
        match token_id_read(m.ecity_tokenid) {
            Err(e) => Err(e),
            Ok(ecity) => {
                let rest = (total - claimed) as nat;
                let m2 = ContractModel {
                    claimed_per_episode: m.claimed_per_episode.insert(episode, total),
                    ..m
                };
                if rest > 0 {
                    Ok((m2, seq![(ctx.caller@, ecity, 0u64, rest)]))
                } else {
                    Err(ContractError::ZeroTransfer)
                }
            },
        }
    }
}

/// The unstake requests of a list, as plain values.
pub open spec fn unstake_requests_model(v: Seq<(Vec<u8>, u64, u64)>) -> Seq<UnstakeModel> {
    v.map_values(|t: (Vec<u8>, u64, u64)| (t.0@, t.1, t.2))
}

/// The entries of `owner` in `token`, as nonce and amount, in order.
pub open spec fn staked_entries_of(items: Seq<StakedItem>, owner: Seq<u8>, token: Seq<u8>) -> Seq<
    (u64, nat),
>
    decreases items.len(),
{
    if items.len() == 0 {
        Seq::empty()
    } else {
        let rest = staked_entries_of(items.drop_last(), owner, token);
        let it = items.last();
        if it.0 == owner && it.1 == token {
            rest.push((it.2, it.3))
        } else {
            rest
        }
    }
}

/// Nonce and amount entries, as plain values.
pub open spec fn entries_model(v: Seq<(u64, Amount)>) -> Seq<(u64, nat)> {
    v.map_values(|e: (u64, Amount)| (e.0, e.1@))
}

/// The byte strings of a list, as plain values.
pub open spec fn byte_strings_model(v: Seq<Vec<u8>>) -> Seq<Seq<u8>> {
    v.map_values(|t: Vec<u8>| t@)
}

/// Deploying: each token identifier and the router address are stored where
/// none is yet.
pub open spec fn init_of(
    m: ContractModel,
    ecity: Seq<u8>,
    gns: Seq<u8>,
    exp: Seq<u8>,
    ctzn: Seq<u8>,
    router: Seq<u8>,
) -> Result<ContractModel, ContractError> {
    match token_id_after_set_if_empty(m.ecity_tokenid, ecity) {
        Err(e) => Err(e),
        Ok(e_id) => match token_id_after_set_if_empty(m.genesis_tokenid, gns) {
            Err(e) => Err(e),
            Ok(g_id) => match token_id_after_set_if_empty(m.expansion_tokenid, exp) {
                Err(e) => Err(e),
                Ok(x_id) => match token_id_after_set_if_empty(m.citizen_tokenid, ctzn) {
                    Err(e) => Err(e),
                    Ok(c_id) => Ok(
                        ContractModel {
                            ecity_tokenid: e_id,
                            genesis_tokenid: g_id,
                            expansion_tokenid: x_id,
                            citizen_tokenid: c_id,
                            router_address: if m.router_address.len() == 0 {
                                router
                            } else {
                                m.router_address
                            },
                            ..m
                        },
                    ),
                },
            },
        },
    }
}

/// The storage of the contract.
pub struct StakingV2ScContract {
    genesis_tokenid: TokenIdMapper,
    expansion_tokenid: TokenIdMapper,
    citizen_tokenid: TokenIdMapper,
    ecity_tokenid: TokenIdMapper,
    router_address: Vec<u8>,
    staked: StorageMap<(Vec<u8>, Vec<u8>, u64), Amount>,
    staked_iter: StorageSet<(Vec<u8>, Vec<u8>, u64, Amount)>,
    staked_time: StorageMap<Vec<u8>, u64>,
    nb_staked: StorageMap<Vec<u8>, u64>,
    nb_players: u64,
    last_episode_claimed: StorageMap<Vec<u8>, u64>,
    collections: StorageSet<Vec<u8>>,
    episodes_timestamps: StorageMap<u64, u64>,
    episodes_rewards: StorageMap<u64, Amount>,
    current_episode: u64,
    claimed_per_episode: StorageMap<u64, Amount>,
}

impl View for StakingV2ScContract {
    type V = ContractModel;

    closed spec fn view(&self) -> ContractModel {
        ContractModel {
            genesis_tokenid: self.genesis_tokenid@,
            expansion_tokenid: self.expansion_tokenid@,
            citizen_tokenid: self.citizen_tokenid@,
            ecity_tokenid: self.ecity_tokenid@,
            router_address: self.router_address@,
            staked: self.staked@,
            staked_iter: self.staked_iter@,
            staked_time: self.staked_time@,
            nb_staked: self.nb_staked@,
            nb_players: self.nb_players,
            last_episode_claimed: self.last_episode_claimed@,
            collections: self.collections@,
            episodes_timestamps: self.episodes_timestamps@,
            episodes_rewards: self.episodes_rewards@,
            current_episode: self.current_episode,
            claimed_per_episode: self.claimed_per_episode@,
        }
    }
}

impl CommonModule for StakingV2ScContract {
    open spec fn genesis_token_id(&self) -> Option<Seq<u8>> {
        self@.genesis_tokenid
    }

    open spec fn expansion_token_id(&self) -> Option<Seq<u8>> {
        self@.expansion_tokenid
    }

    open spec fn citizen_token_id(&self) -> Option<Seq<u8>> {
        self@.citizen_tokenid
    }

    open spec fn ecity_token_id(&self) -> Option<Seq<u8>> {
        self@.ecity_tokenid
    }

    fn genesis_tokenid(&self) -> (r: &TokenIdMapper) {
        &self.genesis_tokenid
    }

    fn expansion_tokenid(&self) -> (r: &TokenIdMapper) {
        &self.expansion_tokenid
    }

    fn citizen_tokenid(&self) -> (r: &TokenIdMapper) {
        &self.citizen_tokenid
    }

    fn ecity_tokenid(&self) -> (r: &TokenIdMapper) {
        &self.ecity_tokenid
    }
}

impl UtilsModule for StakingV2ScContract {

}

impl StakingV2ScContract {
    /// The sets of the storage hold no value twice.
    pub open spec fn wf(&self) -> bool {
        self@.staked_iter.no_duplicates() && self@.collections.no_duplicates()
    }

    /// The storage of a contract that was never initialised: nothing set.
    pub fn new() -> (r: Self)
        ensures
            r.wf(),
            r@ == (ContractModel {
                genesis_tokenid: None,
                expansion_tokenid: None,
                citizen_tokenid: None,
                ecity_tokenid: None,
                router_address: Seq::empty(),
                staked: Map::empty(),
                staked_iter: Seq::empty(),
                staked_time: Map::empty(),
                nb_staked: Map::empty(),
                nb_players: 0,
                last_episode_claimed: Map::empty(),
                collections: Seq::empty(),
                episodes_timestamps: Map::empty(),
                episodes_rewards: Map::empty(),
                current_episode: 0,
                claimed_per_episode: Map::empty(),
            }),
    {
        let r = StakingV2ScContract {
            genesis_tokenid: TokenIdMapper::new(),
            expansion_tokenid: TokenIdMapper::new(),
            citizen_tokenid: TokenIdMapper::new(),
            ecity_tokenid: TokenIdMapper::new(),
            router_address: Vec::new(),
            staked: StorageMap::new(),
            staked_iter: StorageSet::new(),
            staked_time: StorageMap::new(),
            nb_staked: StorageMap::new(),
            nb_players: 0,
            last_episode_claimed: StorageMap::new(),
            collections: StorageSet::new(),
            episodes_timestamps: StorageMap::new(),
            episodes_rewards: StorageMap::new(),
            current_episode: 0,
            claimed_per_episode: StorageMap::new(),
        };
        assert(r.router_address@ =~= Seq::<u8>::empty());
        r
    }

    /// A copy of the storage.
    fn copy(&self) -> (r: Self)
        requires
            self.wf(),
        ensures
            r.wf(),
            r@ == self@,
    {
        StakingV2ScContract {
            genesis_tokenid: self.genesis_tokenid.copy(),
            expansion_tokenid: self.expansion_tokenid.copy(),
            citizen_tokenid: self.citizen_tokenid.copy(),
            ecity_tokenid: self.ecity_tokenid.copy(),
            router_address: copy_bytes(&self.router_address),
            staked: self.staked.copy(),
            staked_iter: self.staked_iter.copy(),
            staked_time: self.staked_time.copy(),
            nb_staked: self.nb_staked.copy(),
            nb_players: self.nb_players,
            last_episode_claimed: self.last_episode_claimed.copy(),
            collections: self.collections.copy(),
            episodes_timestamps: self.episodes_timestamps.copy(),
            episodes_rewards: self.episodes_rewards.copy(),
            current_episode: self.current_episode,
            claimed_per_episode: self.claimed_per_episode.copy(),
        }
    }

    /// Caps a time span to one episode.
    pub fn cap_time(&self, time: u64) -> (r: u64)
        ensures
            r == capped_time(time),
    {
        let two_weeks: u64 = 14 * 24 * 60 * 60;
        if time > two_weeks {
            return two_weeks;
        }
        time
    }

    /// The rewards of `episode`.
    fn rewards_of(&self, episode: u64) -> (r: Amount)
        ensures
            r@ == amount_at(self@.episodes_rewards, episode),
    {
        match self.episodes_rewards.get(&episode) {
            Some(v) => v,
            None => Amount::zero(),
        }
    }

    /// The reward of one genesis building of the given rarity.
    pub fn gns_reward(&self, episode_rewards: Amount, building_rarity: BuildingRarity) -> (r: Amount)
        ensures
            r@ == genesis_reward(episode_rewards@, building_rarity),
    {
        let building_fund = episode_rewards.div_u64(2);
        let gns_fund = building_fund.div_u64(2);
        let gns_rarity_fund = gns_fund.div_u64(2);
        match building_rarity {
            BuildingRarity::GenesisClassic => gns_rarity_fund.div_u64(961),
            BuildingRarity::GenesisLegendary => gns_rarity_fund.div_u64(31),
            BuildingRarity::TownHallClassic => gns_rarity_fund.div_u64(961),
            BuildingRarity::TownHallLegendary => gns_rarity_fund.div_u64(31),
            _ => Amount::zero(),
        }
    }

    /// The reward of one expansion building of the given rarity.
    pub fn exp_reward(&self, episode_rewards: Amount, building_rarity: BuildingRarity) -> (r: Amount)
        ensures
            r@ == expansion_reward(episode_rewards@, building_rarity),
    {
        let building_fund = episode_rewards.div_u64(2);
        let exp_fund = building_fund.div_u64(2);
        let exp_rarity_fund = exp_fund.div_u64(3);
        match building_rarity {
            BuildingRarity::ExpansionClassic => exp_rarity_fund.div_u64(3500),
            BuildingRarity::ExpansionRare => exp_rarity_fund.div_u64(400),
            BuildingRarity::ExpansionLegendary => exp_rarity_fund.div_u64(40),
            _ => Amount::zero(),
        }
    }

    /// The reward of the citizen `nonce` for `episode`, by the rarity level its
    /// attributes hold.
    pub fn ctzn_reward(&self, ctx: &CallContext, episode: u64, nonce: u64) -> (r: Result<
        Amount,
        ContractError,
    >)
        ensures
            match ctzn_reward_of(self@, *ctx, episode, nonce) {
                Ok(v) => r matches Ok(x) && x@ == v,
                Err(e) => r matches Err(x) && x == e,
            },
    {
        let episode_rewards = self.rewards_of(episode);
        let ctzn_attributes = match self.get_citizen_attributes(ctx, nonce) {
            Ok(a) => a,
            Err(e) => {
                return Err(e);
            },
        };
        proof {
            let bytes = citizen_attributes_readable(self@.citizen_tokenid, *ctx, nonce)->Ok_0;
            lemma_encoded_rarity_level(ctzn_attributes, bytes);
        }
        let ctzn_fund = episode_rewards.div_u64(2);
        let ctzn_rarity_fund = ctzn_fund.div_u64(3);
        let citizen_reward = if ctzn_attributes.rarity_level == 1 {
            ctzn_rarity_fund.div_u64(7120)
        } else if ctzn_attributes.rarity_level == 2 {
            ctzn_rarity_fund.div_u64(800)
        } else if ctzn_attributes.rarity_level == 3 {
            ctzn_rarity_fund.div_u64(80)
        } else {
            Amount::zero()
        };
        Ok(citizen_reward)
    }

    /// The reward of the building `token_id`/`nonce` for `episode`: genesis
    /// buildings by the genesis rule, expansion buildings by the expansion
    /// rule.
    pub fn building_reward(&self, episode: u64, token_id: &Vec<u8>, nonce: u64) -> (r: Result<
        Amount,
        ContractError,
    >)
        ensures
            match building_reward_of(self@, episode, token_id@, nonce) {
                Ok(v) => r matches Ok(x) && x@ == v,
                Err(e) => r matches Err(x) && x == e,
            },
    {
        let episode_rewards = self.rewards_of(episode);
        let genesis = match self.genesis_tokenid.get_token_id() {
            Ok(g) => g,
            Err(e) => {
                return Err(e);
            },
        };
        if !bytes_eq(token_id.as_slice(), genesis.as_slice()) && !(1 <= nonce && nonce <= 24) {
            return Err(ContractError::UnknownExpansionNonce);
        }
        let attributes = match self.get_building_attributes(Some(copy_bytes(token_id)), &nonce) {
            Ok(a) => a,
            Err(e) => {
                return Err(e);
            },
        };
        let rarity = attributes.building_rarity;
        if rarity == BuildingRarity::GenesisClassic || rarity == BuildingRarity::GenesisLegendary
            || rarity == BuildingRarity::TownHallClassic || rarity
            == BuildingRarity::TownHallLegendary {
            return Ok(self.gns_reward(episode_rewards, rarity));
        } else if rarity == BuildingRarity::ExpansionClassic || rarity
            == BuildingRarity::ExpansionRare || rarity == BuildingRarity::ExpansionLegendary {
            return Ok(self.exp_reward(episode_rewards, rarity));
        }
        Ok(Amount::zero())
    }

    /// The reward of the NFT `token_id`/`nonce` for `episode`: by its building
    /// kind in the genesis collection (the citizen reward of the nonce where
    /// it names no building), a citizen's in the citizen collection, an
    /// expansion building's in any other.
    pub fn reward(&self, ctx: &CallContext, episode: u64, token_id: &Vec<u8>, nonce: u64) -> (r:
        Result<Amount, ContractError>)
        ensures
            match reward_of(self@, *ctx, episode, token_id@, nonce) {
                Ok(v) => r matches Ok(x) && x@ == v,
                Err(e) => r matches Err(x) && x == e,
            },
    {
        reveal(reward_of);
        let genesis = match self.genesis_tokenid.get_token_id() {
            Ok(g) => g,
            Err(e) => {
                return Err(e);
            },
        };
        if bytes_eq(token_id.as_slice(), genesis.as_slice()) {
            let attributes = self.get_genesis_building_attributes(&nonce);
            if attributes.building_type != BuildingType::NoBuilding {
                return self.building_reward(episode, token_id, nonce);
            } else {
                return self.ctzn_reward(ctx, episode, nonce);
            }
        }
        let is_citizen = match self.citizen_tokenid.get_token_id() {
            Ok(c) => bytes_eq(c.as_slice(), token_id.as_slice()),
            Err(_) => false,
        };
        if is_citizen {
            self.ctzn_reward(ctx, episode, nonce)
        } else {
            self.building_reward(episode, token_id, nonce)
        }
    }

    /// Where the entries of the `i`-th collection fail at entry `j`, the whole
    /// sum fails the same way.
    proof fn lemma_sum_fails_at(
        &self,
        ctx: &CallContext,
        episode: u64,
        addr: Seq<u8>,
        i: int,
        j: int,
        start: nat,
        acc: nat,
    )
        requires
            0 <= i < self@.collections.len(),
            0 <= j < self@.staked_iter.len(),
            episode_rewards_from(self@, *ctx, episode, addr, self@.collections.take(i), acc) == Ok::<
                nat,
                ContractError,
            >(start),
            staked_rewards_from(
                self@,
                *ctx,
                episode,
                addr,
                self@.collections[i],
                self@.staked_iter.take(j + 1),
                start,
            ) is Err,
        ensures
            episode_rewards_from(self@, *ctx, episode, addr, self@.collections, acc)
                == staked_rewards_from(
                self@,
                *ctx,
                episode,
                addr,
                self@.collections[i],
                self@.staked_iter.take(j + 1),
                start,
            ),
    {
        let m = self@;
        lemma_staked_rewards_prefix_err(m, *ctx, episode, addr, m.collections[i], m.staked_iter, j + 1, start);
        assert(m.collections.take(i + 1).drop_last() =~= m.collections.take(i));
        assert(m.collections.take(i + 1).last() == m.collections[i]);
        lemma_episode_rewards_prefix_err(m, *ctx, episode, addr, m.collections, i + 1, acc);
    }

    /// The rewards for `episode` of everything `addr` staked, added to `acc`.
    fn staked_rewards_sum(&self, ctx: &CallContext, episode: u64, addr: &Vec<u8>, acc: Amount) -> (r:
        Result<Amount, ContractError>)
        requires
            self.wf(),
        ensures
            match episode_rewards_from(self@, *ctx, episode, addr@, self@.collections, acc@) {
                Ok(v) => r matches Ok(x) && x@ == v,
                Err(e) => r matches Err(x) && x == e,
            },
    {
        let ghost m = self@;
        let ghost acc0 = acc@;
        let mut to_be_sent = acc;
        let mut i: usize = 0;
        assert(m.collections.take(0) =~= Seq::<Seq<u8>>::empty());
        while i < self.collections.len()
            invariant
                m == self@,
                acc0 == acc@,
                i <= m.collections.len(),
                episode_rewards_from(m, *ctx, episode, addr@, m.collections.take(i as int), acc0)
                    == Ok::<nat, ContractError>(to_be_sent@),
            decreases m.collections.len() - i,
        {
            let token_id = self.collections.get(i);
            let ghost start = to_be_sent@;
            let mut j: usize = 0;
            assert(m.staked_iter.take(0) =~= Seq::<StakedItem>::empty());
            while j < self.staked_iter.len()
                invariant
                    m == self@,
                    acc0 == acc@,
                    j <= m.staked_iter.len(),
                    i < m.collections.len(),
                    token_id@ == m.collections[i as int],
                    episode_rewards_from(m, *ctx, episode, addr@, m.collections.take(i as int), acc0)
                        == Ok::<nat, ContractError>(start),
                    staked_rewards_from(
                        m,
                        *ctx,
                        episode,
                        addr@,
                        token_id@,
                        m.staked_iter.take(j as int),
                        start,
                    ) == Ok::<nat, ContractError>(to_be_sent@),
                decreases m.staked_iter.len() - j,
            {
                let item = self.staked_iter.get(j);
                assert(m.staked_iter.take(j + 1).drop_last() =~= m.staked_iter.take(j as int));
                assert(m.staked_iter.take(j + 1).last() == item@);
                if bytes_eq(item.0.as_slice(), addr.as_slice()) && bytes_eq(
                    item.1.as_slice(),
                    token_id.as_slice(),
                ) && !item.3.is_zero() {
                    let reward = match self.reward(ctx, episode, token_id, item.2) {
                        Ok(v) => v,
                        Err(e) => {
                            proof {
                                assert(reward_of(m, *ctx, episode, token_id@, item.2) == Err::<
                                    nat,
                                    ContractError,
                                >(e));
                                assert(staked_rewards_from(
                                    m,
                                    *ctx,
                                    episode,
                                    addr@,
                                    token_id@,
                                    m.staked_iter.take(j + 1),
                                    start,
                                ) == Err::<nat, ContractError>(e));
                                self.lemma_sum_fails_at(ctx, episode, addr@, i as int, j as int, start, acc0);
                            }
                            return Err(e);
                        },
                    };
                    to_be_sent = to_be_sent.add(&reward);
                }
                j += 1;
            }
            assert(m.staked_iter.take(j as int) =~= m.staked_iter);
            assert(m.collections.take(i + 1).drop_last() =~= m.collections.take(i as int));
            i += 1;
        }
        assert(m.collections.take(i as int) =~= m.collections);
        Ok(to_be_sent)
    }

    /// Claims the rewards of `episode` for `addr`, leaving the storage as is
    /// where it fails.
    fn claim_ecity_step(
        &mut self,
        ctx: &CallContext,
        episode: u64,
        addr: &Vec<u8>,
        transfers: &mut Vec<EsdtTransfer>,
        lenient: bool,
    ) -> (r: Result<(), ContractError>)
        requires
            old(self).wf(),
        ensures
            final(self).wf(),
            match claim_ecity_with(old(self)@, *ctx, episode, addr@, lenient) {
                Ok((m, t)) => r is Ok && final(self)@ == m && transfers_model(final(transfers)@)
                    == transfers_model(old(transfers)@) + t,
                Err(e) => r == Err::<(), ContractError>(e) && final(self)@ == old(self)@,
            },
    {
        let episode_rewards = self.rewards_of(episode);
        if episode_rewards.is_zero() || self.current_episode < episode {
            assert(transfers_model(transfers@) =~= transfers_model(old(transfers)@) + Seq::<TransferModel>::empty());
            return Ok(());
        }
        let now = ctx.block_timestamp;
        let stake_time = match self.staked_time.get(addr) {
            Some(v) => v,
            None => 0,
        };
        let start = match self.episodes_timestamps.get(&episode) {
            Some(v) => v,
            None => 0,
        };
        let end = match start.checked_add(EPISODE_DURATION) {
            Some(v) => v,
            None => {
                return Err(ContractError::ArithmeticOverflow);
            },
        };
        if stake_time > end {
            assert(transfers_model(transfers@) =~= transfers_model(old(transfers)@) + Seq::<TransferModel>::empty());
            return Ok(());
        }
        if now < stake_time && !lenient {
            return Err(ContractError::ArithmeticOverflow);
        }
        let staked_length = if now < stake_time {
            0
        } else {
            self.cap_time(now - stake_time)
        };
        let total = match self.staked_rewards_sum(ctx, episode, addr, Amount::zero()) {
            Ok(v) => v,
            Err(e) => {
                return Err(e);
            },
        };
        let to_be_sent = total.mul_u64(staked_length).div_u64(EPISODE_DURATION);
        let claimed_before = match self.claimed_per_episode.get(&episode) {
            Some(v) => v,
            None => Amount::zero(),
        };
        let claimed = claimed_before.add(&to_be_sent);
        let ecity = if !to_be_sent.is_zero() {
            match self.ecity_tokenid.get_token_id() {
                Ok(t) => Some(t),
                Err(e) => {
                    return Err(e);
                },
            }
        } else {
            None
        };
        self.claimed_per_episode.set(episode, claimed);
        if episode == self.current_episode {
            self.staked_time.set(copy_bytes(addr), now);
        } else {
            self.staked_time.set(copy_bytes(addr), end);
        }
        match ecity {
            Some(token_identifier) => {
                let ghost before = transfers_model(transfers@);
                transfers.push(
                    EsdtTransfer {
                        to: copy_bytes(addr),
                        token_identifier,
                        token_nonce: 0,
                        amount: to_be_sent,
                    },
                );
                assert(transfers_model(transfers@) =~= before + seq![transfers@.last()@]);
            },
            None => {
                assert(transfers_model(transfers@) =~= transfers_model(old(transfers)@) + Seq::<TransferModel>::empty());
            },
        }
        Ok(())
    }

    /// Claims, for `addr`, every episode from its last claimed one to the
    /// current one; may leave the storage changed where it fails.
    fn claim_upto_step(
        &mut self,
        ctx: &CallContext,
        addr: &Vec<u8>,
        transfers: &mut Vec<EsdtTransfer>,
        lenient: bool,
    ) -> (r: Result<(), ContractError>)
        requires
            old(self).wf(),
        ensures
            final(self).wf(),
            match claim_upto_with(old(self)@, *ctx, addr@, lenient) {
                Ok((m, t)) => r is Ok && final(self)@ == m && transfers_model(final(transfers)@)
                    == transfers_model(old(transfers)@) + t,
                Err(e) => r == Err::<(), ContractError>(e),
            },
    {
        let ghost m0 = self@;
        let ghost t0 = transfers_model(transfers@);
        let last = match self.last_episode_claimed.get(addr) {
            Some(v) => v,
            None => 0,
        };
        let bound = match self.current_episode.checked_add(1) {
            Some(v) => v,
            None => {
                return Err(ContractError::ArithmeticOverflow);
            },
        };
        let mut episode = last;
        assert(transfers_model(transfers@) =~= t0 + Seq::<TransferModel>::empty());
        while episode < bound
            invariant
                self.wf(),
                m0 == old(self)@,
                t0 == transfers_model(old(transfers)@),
                (last <= episode <= bound) || (bound <= last && episode == last),
                bound == m0.current_episode + 1,
                last == u64_at(m0.last_episode_claimed, addr@),
                ({
                    let k = if episode < last { last as int } else { episode as int };
                    claim_episodes_with(m0, *ctx, addr@, last, k, lenient) matches Ok((m1, t1)) && self@
                        == m1 && transfers_model(transfers@) == t0 + t1
                }),
            decreases bound - episode,
        {
            let ghost before = self@;
            let ghost tb = transfers_model(transfers@);
            match self.claim_ecity_step(ctx, episode, addr, transfers, lenient) {
                Ok(()) => {},
                Err(e) => {
                    proof {
                        assert(claim_episodes_with(m0, *ctx, addr@, last, episode + 1, lenient) == Err::<
                            (ContractModel, Seq<TransferModel>),
                            ContractError,
                        >(e));
                        lemma_claim_episodes_prefix_err(m0, *ctx, addr@, last, episode + 1, bound as int, lenient);
                    }
                    return Err(e);
                },
            }
            proof {
                let t2 = claim_ecity_with(before, *ctx, episode, addr@, lenient)->Ok_0.1;
                assert(transfers_model(transfers@) =~= t0 + (tb.subrange(t0.len() as int, tb.len() as int) + t2));
            }
            episode += 1;
        }
        Ok(())
    }

    /// Claims every episode from the caller's last claimed one to the current
    /// one; may leave the storage changed where it fails.
    fn claim_step(&mut self, ctx: &CallContext, transfers: &mut Vec<EsdtTransfer>) -> (r: Result<
        (),
        ContractError,
    >)
        requires
            old(self).wf(),
        ensures
            final(self).wf(),
            match claim_of(old(self)@, *ctx) {
                Ok((m, t)) => r is Ok && final(self)@ == m && transfers_model(final(transfers)@)
                    == transfers_model(old(transfers)@) + t,
                Err(e) => r == Err::<(), ContractError>(e),
            },
    {
        match self.claim_upto_step(ctx, &ctx.caller, transfers, false) {
            Ok(()) => {},
            Err(e) => {
                return Err(e);
            },
        }
        let current = self.current_episode;
        self.last_episode_claimed.set(copy_bytes(&ctx.caller), current);
        Ok(())
    }

    /// Claims every episode from the caller's last claimed one to the current
    /// one.
    pub fn claim(&mut self, ctx: &CallContext) -> (r: Result<Vec<EsdtTransfer>, ContractError>)
        requires
            old(self).wf(),
        ensures
            final(self).wf(),
            match claim_of(old(self)@, *ctx) {
                Ok((m, t)) => r matches Ok(v) && final(self)@ == m && transfers_model(v@) == t,
                Err(e) => r matches Err(x) && x == e && final(self)@ == old(self)@,
            },
    {
        let mut work = self.copy();
        let mut transfers: Vec<EsdtTransfer> = Vec::new();
        assert(transfers_model(transfers@) =~= Seq::<TransferModel>::empty());
        match work.claim_step(ctx, &mut transfers) {
            Ok(()) => {
                *self = work;
                assert(transfers_model(transfers@) =~= claim_of(old(self)@, *ctx)->Ok_0.1);
                Ok(transfers)
            },
            Err(e) => Err(e),
        }
    }

    /// Claims the rewards of `episode` for `addr`.
    pub fn claim_ecity(&mut self, ctx: &CallContext, episode: u64, addr: &Vec<u8>) -> (r: Result<
        Vec<EsdtTransfer>,
        ContractError,
    >)
        requires
            old(self).wf(),
        ensures
            final(self).wf(),
            match claim_ecity_of(old(self)@, *ctx, episode, addr@) {
                Ok((m, t)) => r matches Ok(v) && final(self)@ == m && transfers_model(v@) == t,
                Err(e) => r matches Err(x) && x == e && final(self)@ == old(self)@,
            },
    {
        let mut transfers: Vec<EsdtTransfer> = Vec::new();
        assert(transfers_model(transfers@) =~= Seq::<TransferModel>::empty());
        match self.claim_ecity_step(ctx, episode, addr, &mut transfers, false) {
            Ok(()) => {
                assert(transfers_model(transfers@) =~= claim_ecity_of(old(self)@, *ctx, episode, addr@)->Ok_0.1);
                Ok(transfers)
            },
            Err(e) => Err(e),
        }
    }

    /// Counts the ECITY that `addr` would be paid if it claimed now, without
    /// claiming it.
    pub fn fake_claim(&self, ctx: &CallContext, addr: &Vec<u8>) -> (r: Result<Amount, ContractError>)
        requires
            self.wf(),
        ensures
            match fake_claim_of(self@, *ctx, addr@) {
                Ok(v) => r matches Ok(x) && x@ == v,
                Err(e) => r matches Err(x) && x == e,
            },
    {
        let mut work = self.copy();
        let mut transfers: Vec<EsdtTransfer> = Vec::new();
        assert(transfers_model(transfers@) =~= Seq::<TransferModel>::empty());
        match work.claim_upto_step(ctx, addr, &mut transfers, true) {
            Ok(()) => {},
            Err(e) => {
                return Err(e);
            },
        }
        let ghost t = transfers_model(transfers@);
        assert(t == claim_upto_with(self@, *ctx, addr@, true)->Ok_0.1);
        let mut total = Amount::zero();
        let mut i: usize = 0;
        assert(t.take(0) =~= Seq::<TransferModel>::empty());
        while i < transfers.len()
            invariant
                i <= transfers@.len(),
                t == transfers_model(transfers@),
                total@ == transfers_total(t.take(i as int)),
            decreases transfers@.len() - i,
        {
            assert(t.take(i + 1).drop_last() =~= t.take(i as int));
            assert(t.take(i + 1).last() == transfers@[i as int]@);
            total = total.add(&transfers[i].amount);
            i += 1;
        }
        assert(t.take(i as int) =~= t);
        Ok(total)
    }

    /// Records one staked payment of `caller`; may leave the storage changed
    /// where it fails.
    fn stake_payment_step(&mut self, caller: &Vec<u8>, payment: &MyEsdtTokenPayment) -> (r: Result<
        (),
        ContractError,
    >)
        requires
            old(self).wf(),
        ensures
            final(self).wf(),
            match stake_payment(old(self)@, caller@, payment@) {
                Ok(m) => r is Ok && final(self)@ == m,
                Err(e) => r == Err::<(), ContractError>(e),
            },
    {
        let token = &payment.token_identifier;
        let nonce = payment.token_nonce;
        if !self.collections.contains(token) {
            return Err(ContractError::TokenNotSupported);
        }
        let key = (copy_bytes(caller), copy_bytes(token), nonce);
        let staked = match self.staked.get(&key) {
            Some(v) => v,
            None => Amount::zero(),
        };
        let new_staked = staked.add(&payment.amount);
        self.staked.set(key, new_staked.copy());
        self.staked_iter.remove(&(copy_bytes(caller), copy_bytes(token), nonce, staked));
        self.staked_iter.insert((copy_bytes(caller), copy_bytes(token), nonce, new_staked));
        let nb = match self.nb_staked.get(caller) {
            Some(v) => v,
            None => 0,
        };
        if nb == 0 {
            self.nb_players = match self.nb_players.checked_add(1) {
                Some(v) => v,
                None => {
                    return Err(ContractError::ArithmeticOverflow);
                },
            };
        }
        let amount = match payment.amount.to_u64() {
            Some(v) => v,
            None => {
                return Err(ContractError::AmountTooLarge);
            },
        };
        let new_nb = match nb.checked_add(amount) {
            Some(v) => v,
            None => {
                return Err(ContractError::ArithmeticOverflow);
            },
        };
        self.nb_staked.set(copy_bytes(caller), new_nb);
        Ok(())
    }

    /// Stakes the NFTs paid in: the caller claims first, then each payment is
    /// recorded.
    pub fn stake(&mut self, ctx: &CallContext, payments: &Vec<MyEsdtTokenPayment>) -> (r: Result<
        Vec<EsdtTransfer>,
        ContractError,
    >)
        requires
            old(self).wf(),
        ensures
            final(self).wf(),
            match stake_of(old(self)@, *ctx, payments_model(payments@)) {
                Ok((m, t)) => r matches Ok(v) && final(self)@ == m && transfers_model(v@) == t,
                Err(e) => r == Err::<Vec<EsdtTransfer>, ContractError>(e) && final(self)@ == old(
                    self,
                )@,
            },
    {
        let ghost m0 = self@;
        let ghost ps = payments_model(payments@);
        let mut work = self.copy();
        let mut transfers: Vec<EsdtTransfer> = Vec::new();
        assert(transfers_model(transfers@) =~= Seq::<TransferModel>::empty());
        match work.claim_step(ctx, &mut transfers) {
            Ok(()) => {},
            Err(e) => {
                return Err(e);
            },
        }
        assert(transfers_model(transfers@) =~= claim_of(m0, *ctx)->Ok_0.1);
        let ghost m1 = work@;
        let mut i: usize = 0;
        assert(ps.take(0) =~= Seq::<PaymentModel>::empty());
        while i < payments.len()
            invariant
                work.wf(),
                self.wf(),
                self@ == m0,
                m0 == old(self)@,
                claim_of(m0, *ctx) matches Ok((mc, tc)) && mc == m1 && transfers_model(transfers@)
                    == tc,
                i <= payments@.len(),
                ps == payments_model(payments@),
                stake_payments(m1, ctx.caller@, ps.take(i as int)) == Ok::<
                    ContractModel,
                    ContractError,
                >(work@),
            decreases payments@.len() - i,
        {
            assert(ps.take(i + 1).drop_last() =~= ps.take(i as int));
            assert(ps.take(i + 1).last() == payments@[i as int]@);
            match work.stake_payment_step(&ctx.caller, &payments[i]) {
                Ok(()) => {},
                Err(e) => {
                    proof {
                        lemma_stake_payments_prefix_err(m1, ctx.caller@, ps, i + 1);
                    }
                    return Err(e);
                },
            }
            i += 1;
        }
        assert(ps.take(i as int) =~= ps);
        *self = work;
        Ok(transfers)
    }

    /// Takes one token `token_id`/`nonce` out of the caller's stake; may leave
    /// the storage changed where it fails.
    fn unstake_single_step(
        &mut self,
        ctx: &CallContext,
        token_id: &Vec<u8>,
        nonce: u64,
        transfers: &mut Vec<EsdtTransfer>,
    ) -> (r: Result<(), ContractError>)
        requires
            old(self).wf(),
        ensures
            final(self).wf(),
            match unstake_single_of(old(self)@, *ctx, token_id@, nonce) {
                Ok((m, t)) => r is Ok && final(self)@ == m && transfers_model(final(transfers)@)
                    == transfers_model(old(transfers)@) + t,
                Err(e) => r == Err::<(), ContractError>(e),
            },
    {
        let ghost t0 = transfers_model(transfers@);
        let caller = &ctx.caller;
        let key = (copy_bytes(caller), copy_bytes(token_id), nonce);
        let staked0 = match self.staked.get(&key) {
            Some(v) => v,
            None => Amount::zero(),
        };
        if staked0.is_zero() {
            return Err(ContractError::NothingToUnstake);
        }
        match self.claim_step(ctx, transfers) {
            Ok(()) => {},
            Err(e) => {
                return Err(e);
            },
        }
        let ghost m1 = self@;
        let ghost t1 = transfers_model(transfers@);
        let staked = match self.staked.get(&key) {
            Some(v) => v,
            None => Amount::zero(),
        };
        let left = match staked.checked_sub(&Amount::from_u64(1)) {
            Some(v) => v,
            None => {
                return Err(ContractError::SubtractionUnderflow);
            },
        };
        let nb = match self.nb_staked.get(caller) {
            Some(v) => v,
            None => 0,
        };
        if nb == 0 {
            return Err(ContractError::ArithmeticOverflow);
        }
        if nb == 1 && self.nb_players == 0 {
            return Err(ContractError::ArithmeticOverflow);
        }
        self.staked.set(key, left.copy());
        self.staked_iter.remove(&(copy_bytes(caller), copy_bytes(token_id), nonce, staked));
        if !left.is_zero() {
            self.staked_iter.insert((copy_bytes(caller), copy_bytes(token_id), nonce, left));
        }
        self.nb_staked.set(copy_bytes(caller), nb - 1);
        if nb == 1 {
            self.nb_players = self.nb_players - 1;
        }
        transfers.push(
            EsdtTransfer {
                to: copy_bytes(caller),
                token_identifier: copy_bytes(token_id),
                token_nonce: nonce,
                amount: Amount::from_u64(1),
            },
        );
        proof {
            let t = claim_of(old(self)@, *ctx)->Ok_0.1;
            assert(t1 == t0 + t);
            assert(transfers_model(transfers@) =~= t1.push(transfers@.last()@));
            assert(transfers@.last()@ == (ctx.caller@, token_id@, nonce, 1nat));
            assert(transfers_model(transfers@) =~= t0 + t.push((ctx.caller@, token_id@, nonce, 1nat)));
        }
        Ok(())
    }

    /// Unstakes one token `token_id`/`nonce` of the caller and sends it back.
    pub fn unstake_single(&mut self, ctx: &CallContext, token_id: &Vec<u8>, nonce: u64) -> (r: Result<
        Vec<EsdtTransfer>,
        ContractError,
    >)
        requires
            old(self).wf(),
        ensures
            final(self).wf(),
            match unstake_single_of(old(self)@, *ctx, token_id@, nonce) {
                Ok((m, t)) => r matches Ok(v) && final(self)@ == m && transfers_model(v@) == t,
                Err(e) => r == Err::<Vec<EsdtTransfer>, ContractError>(e) && final(self)@ == old(
                    self,
                )@,
            },
    {
        let mut work = self.copy();
        let mut transfers: Vec<EsdtTransfer> = Vec::new();
        assert(transfers_model(transfers@) =~= Seq::<TransferModel>::empty());
        match work.unstake_single_step(ctx, token_id, nonce, &mut transfers) {
            Ok(()) => {
                *self = work;
                assert(transfers_model(transfers@) =~= unstake_single_of(old(self)@, *ctx, token_id@, nonce)->Ok_0.1);
                Ok(transfers)
            },
            Err(e) => Err(e),
        }
    }

    /// Unstakes, for each request, the given quantity of the token, one at a
    /// time.
    pub fn unstake(&mut self, ctx: &CallContext, payments: &Vec<(Vec<u8>, u64, u64)>) -> (r: Result<
        Vec<EsdtTransfer>,
        ContractError,
    >)
        requires
            old(self).wf(),
        ensures
            final(self).wf(),
            match unstake_list(old(self)@, *ctx, unstake_requests_model(payments@)) {
                Ok((m, t)) => r matches Ok(v) && final(self)@ == m && transfers_model(v@) == t,
                Err(e) => r == Err::<Vec<EsdtTransfer>, ContractError>(e) && final(self)@ == old(
                    self,
                )@,
            },
    {
        let ghost m0 = self@;
        let ghost reqs = unstake_requests_model(payments@);
        let mut work = self.copy();
        let mut transfers: Vec<EsdtTransfer> = Vec::new();
        let mut i: usize = 0;
        assert(reqs.take(0) =~= Seq::<UnstakeModel>::empty());
        assert(transfers_model(transfers@) =~= Seq::<TransferModel>::empty());
        while i < payments.len()
            invariant
                work.wf(),
                self.wf(),
                self@ == m0,
                m0 == old(self)@,
                i <= payments@.len(),
                reqs.len() == payments@.len(),
                reqs == unstake_requests_model(payments@),
                unstake_list(m0, *ctx, reqs.take(i as int)) matches Ok((m1, t1)) && work@ == m1
                    && transfers_model(transfers@) == t1,
            decreases payments@.len() - i,
        {
            let (token_id, nonce, quantity) = (&payments[i].0, payments[i].1, payments[i].2);
            let ghost mi = work@;
            let ghost ti = transfers_model(transfers@);
            assert(reqs.take(i + 1).drop_last() =~= reqs.take(i as int));
            assert(reqs.take(i + 1).last() == (token_id@, nonce, quantity));
            let mut q: u64 = 0;
            assert(transfers_model(transfers@) =~= ti + Seq::<TransferModel>::empty());
            while q < quantity
                invariant
                    work.wf(),
                    self.wf(),
                    self@ == m0,
                    m0 == old(self)@,
                    i < reqs.len(),
                    reqs.len() == payments@.len(),
                    reqs == unstake_requests_model(payments@),
                    reqs.take(i + 1).drop_last() == reqs.take(i as int),
                    reqs.take(i + 1).last() == (token_id@, nonce, quantity),
                    unstake_list(m0, *ctx, reqs.take(i as int)) matches Ok((ma, ta)) && ma == mi && ta
                        == ti,
                    q <= quantity,
                    unstake_repeat(mi, *ctx, token_id@, nonce, q as nat) matches Ok((m2, t2)) && work@
                        == m2 && transfers_model(transfers@) == ti + t2,
                decreases quantity - q,
            {
                let ghost tq = transfers_model(transfers@);
                match work.unstake_single_step(ctx, token_id, nonce, &mut transfers) {
                    Ok(()) => {},
                    Err(e) => {
                        proof {
                            lemma_unstake_repeat_prefix_err(mi, *ctx, token_id@, nonce, (q + 1) as nat, quantity as nat);
                            assert(unstake_list(m0, *ctx, reqs.take(i + 1)) == Err::<
                                (ContractModel, Seq<TransferModel>),
                                ContractError,
                            >(e));
                            lemma_unstake_list_prefix_err(m0, *ctx, reqs, i + 1);
                        }
                        return Err(e);
                    },
                }
                proof {
                    let t2 = unstake_repeat(mi, *ctx, token_id@, nonce, q as nat)->Ok_0.1;
                    let t3 = unstake_single_of(unstake_repeat(mi, *ctx, token_id@, nonce, q as nat)->Ok_0.0, *ctx, token_id@, nonce)->Ok_0.1;
                    assert(transfers_model(transfers@) =~= ti + (t2 + t3));
                }
                q += 1;
            }
            proof {
                let t2 = unstake_repeat(mi, *ctx, token_id@, nonce, quantity as nat)->Ok_0.1;
                let t1 = unstake_list(m0, *ctx, reqs.take(i as int))->Ok_0.1;
                assert(transfers_model(transfers@) =~= t1 + t2);
            }
            i += 1;
        }
        assert(reqs.take(i as int) =~= reqs);
        *self = work;
        Ok(transfers)
    }

    /// The router deposits the rewards of a new episode.
    pub fn deposit_ecity(&mut self, ctx: &CallContext, payments: &Vec<MyEsdtTokenPayment>) -> (r:
        Result<(), ContractError>)
        requires
            old(self).wf(),
        ensures
            final(self).wf(),
            match deposit_ecity_of(old(self)@, *ctx, payments_model(payments@)) {
                Ok(m) => r is Ok && final(self)@ == m,
                Err(e) => r == Err::<(), ContractError>(e) && final(self)@ == old(self)@,
            },
    {
        if self.ecity_tokenid.is_empty() {
            return Err(ContractError::EcityTokenIdNotSet);
        }
        if self.router_address.len() == 0 {
            return Err(ContractError::RouterAddressNotSet);
        }
        if !bytes_eq(ctx.caller.as_slice(), self.router_address.as_slice()) {
            return Err(ContractError::OnlyRouterCanDeposit);
        }
        if payments.len() != 1 {
            return Err(ContractError::IncorrectNumberOfTransfers);
        }
        let payment = &payments[0];
        let ecity = match self.ecity_tokenid.get_token_id() {
            Ok(t) => t,
            Err(e) => {
                return Err(e);
            },
        };
        if !bytes_eq(payment.token_identifier.as_slice(), ecity.as_slice()) {
            return Err(ContractError::OnlyEcityCanBeDeposited);
        }
        let current_episode = self.current_episode;
        let first_start = match self.episodes_timestamps.get(&0) {
            Some(v) => v,
            None => 0,
        };
        if !(current_episode == 0 && first_start == 0) {
            self.current_episode = match current_episode.checked_add(1) {
                Some(v) => v,
                None => {
                    return Err(ContractError::ArithmeticOverflow);
                },
            };
        }
        let episode = self.current_episode;
        self.episodes_rewards.set(episode, payment.amount.copy());
        self.episodes_timestamps.set(episode, ctx.block_timestamp);
        Ok(())
    }

    /// Adds ECITY to the rewards of the current episode.
    pub fn add_ecity(&mut self, payments: &Vec<MyEsdtTokenPayment>) -> (r: Result<(), ContractError>)
        requires
            old(self).wf(),
        ensures
            final(self).wf(),
            match add_ecity_of(old(self)@, payments_model(payments@)) {
                Ok(m) => r is Ok && final(self)@ == m,
                Err(e) => r == Err::<(), ContractError>(e) && final(self)@ == old(self)@,
            },
    {
        if payments.len() != 1 {
            return Err(ContractError::IncorrectNumberOfTransfers);
        }
        let payment = &payments[0];
        let ecity = match self.ecity_tokenid.get_token_id() {
            Ok(t) => t,
            Err(e) => {
                return Err(e);
            },
        };
        if !bytes_eq(payment.token_identifier.as_slice(), ecity.as_slice()) {
            return Err(ContractError::OnlyEcityCanBeDeposited);
        }
        let current_episode = self.current_episode;
        let rewards = self.rewards_of(current_episode);
        let total = rewards.add(&payment.amount);
        self.episodes_rewards.set(current_episode, total);
        Ok(())
    }

    /// The owner takes what was not claimed of a past episode, which is then
    /// recorded as claimed.
    pub fn claim_unclaimable(&mut self, ctx: &CallContext, episode: u64) -> (r: Result<
        Vec<EsdtTransfer>,
        ContractError,
    >)
        requires
            old(self).wf(),
        ensures
            final(self).wf(),
            match claim_unclaimable_of(old(self)@, *ctx, episode) {
                Ok((m, t)) => r matches Ok(v) && final(self)@ == m && transfers_model(v@) == t,
                Err(e) => r matches Err(x) && x == e && final(self)@ == old(self)@,
            },
    {
        if !bytes_eq(ctx.caller.as_slice(), ctx.owner.as_slice()) {
            return Err(ContractError::OnlyOwner);
        }
        let total = self.rewards_of(episode);
        if total.is_zero() {
            return Err(ContractError::NothingToClaim);
        }
        if !(self.current_episode > episode) {
            return Err(ContractError::EpisodeNotYetAvailable);
        }
        let claimed = match self.claimed_per_episode.get(&episode) {
            Some(v) => v,
            None => Amount::zero(),
        };
        let to_be_sent = match total.checked_sub(&claimed) {
            Some(v) => v,
            None => {
                return Err(ContractError::SubtractionUnderflow);
            },
        };
        let ecity = match self.ecity_tokenid.get_token_id() {
            Ok(t) => t,
            Err(e) => {
                return Err(e);
            },
        };
        if to_be_sent.is_zero() {
            return Err(ContractError::ZeroTransfer);
        }
        self.claimed_per_episode.set(episode, total);
        let mut transfers: Vec<EsdtTransfer> = Vec::new();
        transfers.push(
            EsdtTransfer {
                to: copy_bytes(&ctx.caller),
                token_identifier: ecity,
                token_nonce: 0,
                amount: to_be_sent,
            },
        );
        assert(transfers_model(transfers@) =~= claim_unclaimable_of(old(self)@, *ctx, episode)->Ok_0.1);
        Ok(transfers)
    }

    /// Sets the ECITY token identifier.
    pub fn set_ecity_tokenid(&mut self, ecity_tokenid: Vec<u8>) -> (r: Result<(), ContractError>)
        requires
            old(self).wf(),
        ensures
            final(self).wf(),
            match token_id_after_set(old(self)@.ecity_tokenid, ecity_tokenid@) {
                Ok(v) => r is Ok && final(self)@ == (ContractModel {
                    ecity_tokenid: v,
                    ..old(self)@
                }),
                Err(e) => r == Err::<(), ContractError>(e) && final(self)@ == old(self)@,
            },
    {
        self.ecity_tokenid.set_token_id(ecity_tokenid)
    }

    /// Sets the genesis collection and makes it stakeable.
    pub fn set_gns_tokenid(&mut self, gns_tokenid: Vec<u8>) -> (r: Result<(), ContractError>)
        requires
            old(self).wf(),
        ensures
            final(self).wf(),
            match token_id_after_set(old(self)@.genesis_tokenid, gns_tokenid@) {
                Ok(v) => r is Ok && final(self)@ == (ContractModel {
                    genesis_tokenid: v,
                    collections: set_insert(old(self)@.collections, gns_tokenid@),
                    ..old(self)@
                }),
                Err(e) => r == Err::<(), ContractError>(e) && final(self)@ == old(self)@,
            },
    {
        let copy = copy_bytes(&gns_tokenid);
        match self.genesis_tokenid.set_token_id(copy) {
            Ok(()) => {},
            Err(e) => {
                return Err(e);
            },
        }
        self.collections.insert(gns_tokenid);
        Ok(())
    }

    /// Sets the expansion collection and makes it stakeable.
    pub fn set_exp_tokenid(&mut self, exp_tokenid: Vec<u8>) -> (r: Result<(), ContractError>)
        requires
            old(self).wf(),
        ensures
            final(self).wf(),
            match token_id_after_set(old(self)@.expansion_tokenid, exp_tokenid@) {
                Ok(v) => r is Ok && final(self)@ == (ContractModel {
                    expansion_tokenid: v,
                    collections: set_insert(old(self)@.collections, exp_tokenid@),
                    ..old(self)@
                }),
                Err(e) => r == Err::<(), ContractError>(e) && final(self)@ == old(self)@,
            },
    {
        let copy = copy_bytes(&exp_tokenid);
        match self.expansion_tokenid.set_token_id(copy) {
            Ok(()) => {},
            Err(e) => {
                return Err(e);
            },
        }
        self.collections.insert(exp_tokenid);
        Ok(())
    }

    /// Sets the citizen collection and makes it stakeable.
    pub fn set_ctzn_tokenid(&mut self, ctzn_tokenid: Vec<u8>) -> (r: Result<(), ContractError>)
        requires
            old(self).wf(),
        ensures
            final(self).wf(),
            match token_id_after_set(old(self)@.citizen_tokenid, ctzn_tokenid@) {
                Ok(v) => r is Ok && final(self)@ == (ContractModel {
                    citizen_tokenid: v,
                    collections: set_insert(old(self)@.collections, ctzn_tokenid@),
                    ..old(self)@
                }),
                Err(e) => r == Err::<(), ContractError>(e) && final(self)@ == old(self)@,
            },
    {
        let copy = copy_bytes(&ctzn_tokenid);
        match self.citizen_tokenid.set_token_id(copy) {
            Ok(()) => {},
            Err(e) => {
                return Err(e);
            },
        }
        self.collections.insert(ctzn_tokenid);
        Ok(())
    }

    /// Sets the router address.
    pub fn set_router_address(&mut self, router_address: Vec<u8>)
        requires
            old(self).wf(),
        ensures
            final(self).wf(),
            final(self)@ == (ContractModel { router_address: router_address@, ..old(self)@ }),
    {
        self.router_address = router_address;
    }

    /// Deploys the contract: stores each token identifier and the router
    /// address where none is stored yet.
    pub fn init(
        &mut self,
        ecity_tokenid: Vec<u8>,
        gns_tokenid: Vec<u8>,
        exp_tokenid: Vec<u8>,
        ctzn_tokenid: Vec<u8>,
        router_address: Vec<u8>,
    ) -> (r: Result<(), ContractError>)
        requires
            old(self).wf(),
        ensures
            final(self).wf(),
            match init_of(
                old(self)@,
                ecity_tokenid@,
                gns_tokenid@,
                exp_tokenid@,
                ctzn_tokenid@,
                router_address@,
            ) {
                Ok(m) => r is Ok && final(self)@ == m,
                Err(e) => r == Err::<(), ContractError>(e) && final(self)@ == old(self)@,
            },
    {
        let mut work = self.copy();
        match work.ecity_tokenid.set_if_empty(ecity_tokenid) {
            Ok(()) => {},
            Err(e) => {
                return Err(e);
            },
        }
        match work.genesis_tokenid.set_if_empty(gns_tokenid) {
            Ok(()) => {},
            Err(e) => {
                return Err(e);
            },
        }
        match work.expansion_tokenid.set_if_empty(exp_tokenid) {
            Ok(()) => {},
            Err(e) => {
                return Err(e);
            },
        }
        match work.citizen_tokenid.set_if_empty(ctzn_tokenid) {
            Ok(()) => {},
            Err(e) => {
                return Err(e);
            },
        }
        if work.router_address.len() == 0 {
            work.router_address = router_address;
        }
        *self = work;
        Ok(())
    }

    /// The stored router address (empty until set).
    pub fn router_address(&self) -> (r: Vec<u8>)
        ensures
            r@ == self@.router_address,
    {
        copy_bytes(&self.router_address)
    }

    /// The amount `user` staked of `token_id`/`nonce`.
    pub fn staked(&self, user: &Vec<u8>, token_id: &Vec<u8>, nonce: &u64) -> (r: Amount)
        ensures
            r@ == amount_at(self@.staked, (user@, token_id@, *nonce)),
    {
        match self.staked.get(&(copy_bytes(user), copy_bytes(token_id), *nonce)) {
            Some(v) => v,
            None => Amount::zero(),
        }
    }

    /// The entries `user` has recorded in `token_id`, as nonce and amount.
    pub fn staked_iter(&self, user: &Vec<u8>, token_id: &Vec<u8>) -> (r: Vec<(u64, Amount)>)
        ensures
            entries_model(r@) == staked_entries_of(self@.staked_iter, user@, token_id@),
    {
        let ghost items = self@.staked_iter;
        let mut res: Vec<(u64, Amount)> = Vec::new();
        let mut j: usize = 0;
        assert(items.take(0) =~= Seq::<StakedItem>::empty());
        while j < self.staked_iter.len()
            invariant
                items == self@.staked_iter,
                j <= items.len(),
                entries_model(res@) == staked_entries_of(items.take(j as int), user@, token_id@),
            decreases items.len() - j,
        {
            let item = self.staked_iter.get(j);
            assert(items.take(j + 1).drop_last() =~= items.take(j as int));
            assert(items.take(j + 1).last() == item@);
            if bytes_eq(item.0.as_slice(), user.as_slice()) && bytes_eq(
                item.1.as_slice(),
                token_id.as_slice(),
            ) {
                let ghost before = entries_model(res@);
                res.push((item.2, item.3.copy()));
                assert(entries_model(res@) =~= before.push((item@.2, item@.3)));
            }
            j += 1;
        }
        assert(items.take(j as int) =~= items);
        res
    }

    /// The time from which rewards are owed to `user`.
    pub fn staked_time(&self, user: &Vec<u8>) -> (r: u64)
        ensures
            r == u64_at(self@.staked_time, user@),
    {
        match self.staked_time.get(user) {
            Some(v) => v,
            None => 0,
        }
    }

    /// The number of tokens `user` has staked.
    pub fn nb_staked(&self, user: &Vec<u8>) -> (r: u64)
        ensures
            r == u64_at(self@.nb_staked, user@),
    {
        match self.nb_staked.get(user) {
            Some(v) => v,
            None => 0,
        }
    }

    /// The number of players with tokens staked.
    pub fn nb_players(&self) -> (r: u64)
        ensures
            r == self@.nb_players,
    {
        self.nb_players
    }

    /// The last episode `user` claimed.
    pub fn last_episode_claimed(&self, user: &Vec<u8>) -> (r: u64)
        ensures
            r == u64_at(self@.last_episode_claimed, user@),
    {
        match self.last_episode_claimed.get(user) {
            Some(v) => v,
            None => 0,
        }
    }

    /// The stakeable collections, in the order they were added.
    pub fn collections(&self) -> (r: Vec<Vec<u8>>)
        ensures
            byte_strings_model(r@) == self@.collections,
    {
        let mut res: Vec<Vec<u8>> = Vec::new();
        let mut i: usize = 0;
        assert(byte_strings_model(res@) =~= self@.collections.take(0));
        while i < self.collections.len()
            invariant
                i <= self@.collections.len(),
                res@.len() == i,
                byte_strings_model(res@) == self@.collections.take(i as int),
            decreases self@.collections.len() - i,
        {
            let ghost prev = res@;
            let t = copy_bytes(self.collections.get(i));
            assert(t@ == self@.collections[i as int]);
            res.push(t);
            assert(res@ == prev.push(t));
            assert forall|k: int| 0 <= k < i + 1 implies #[trigger] byte_strings_model(res@)[k]
                == self@.collections.take(i + 1)[k] by {
                if k < i {
                    assert(byte_strings_model(prev)[k] == self@.collections.take(i as int)[k]);
                }
            }
            assert(byte_strings_model(res@) =~= self@.collections.take(i + 1));
            i += 1;
        }
        assert(self@.collections.take(i as int) =~= self@.collections);
        res
    }

    /// The start time of `episode`.
    pub fn episodes_timestamps(&self, episode: u64) -> (r: u64)
        ensures
            r == u64_at(self@.episodes_timestamps, episode),
    {
        match self.episodes_timestamps.get(&episode) {
            Some(v) => v,
            None => 0,
        }
    }

    /// The rewards of `episode`.
    pub fn episodes_rewards(&self, episode: u64) -> (r: Amount)
        ensures
            r@ == amount_at(self@.episodes_rewards, episode),
    {
        self.rewards_of(episode)
    }

    /// The current episode.
    pub fn current_episode(&self) -> (r: u64)
        ensures
            r == self@.current_episode,
    {
        self.current_episode
    }

    /// What was claimed of the rewards of `episode`.
    pub fn claimed_per_episode(&self, episode: u64) -> (r: Amount)
        ensures
            r@ == amount_at(self@.claimed_per_episode, episode),
    {
        match self.claimed_per_episode.get(&episode) {
            Some(v) => v,
            None => Amount::zero(),
        }
    }
}

} // verus!
