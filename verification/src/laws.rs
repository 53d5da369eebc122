//! Properties of the contract that span its functions.

use vstd::prelude::*;

use crate::contract::{
    claim_ecity_with, init_of, set_insert, stake_payment, unstake_after_claim, ContractModel, EPISODE_DURATION, PaymentModel, StakedItem, add_ecity_of, amount_at,
    building_reward_of, capped_time, claim_episodes_with, citizen_reward, claim_ecity_of, claim_episodes, claim_of,
    claim_unclaimable_of, ctzn_reward_of, deposit_ecity_of, episode_rewards_from,
    expansion_reward, fake_claim_of, genesis_reward, reward_of, stake_of, stake_payments,
    staked_rewards_from, transfers_total, u64_at, unstake_list, unstake_repeat,
    unstake_single_of,
};
use crate::storage::seq_without;
use crate::utils::{expansion_building_attributes, genesis_building_attributes};
use crate::common::{token_id_after_set, valid_token_identifier};
use crate::context::{CallContext, TransferModel};
use crate::error::ContractError;
use crate::structs::{BuildingRarity, BuildingType};

verus! {

/// An episode's rewards are shared out without ever exceeding them: one
/// reward for each of the 961 classic and 31 legendary genesis buildings, the
/// 3500, 400 and 40 expansion buildings of each rarity and the 7120, 800 and
/// 80 citizens of each rarity level add up to at most the episode's rewards.
pub proof fn law_reward_shares_within_episode(episode_rewards: nat)
    ensures
        961 * genesis_reward(episode_rewards, BuildingRarity::GenesisClassic) + 31 * genesis_reward(
            episode_rewards,
            BuildingRarity::GenesisLegendary,
        ) + 3500 * expansion_reward(episode_rewards, BuildingRarity::ExpansionClassic) + 400
            * expansion_reward(episode_rewards, BuildingRarity::ExpansionRare) + 40
            * expansion_reward(episode_rewards, BuildingRarity::ExpansionLegendary) + 7120
            * citizen_reward(episode_rewards, 1) + 800 * citizen_reward(episode_rewards, 2) + 80
            * citizen_reward(episode_rewards, 3) <= episode_rewards,
{
    let r = episode_rewards as int;
    let g = r / 2 / 2 / 2;
    let x = r / 2 / 2 / 3;
    let c = r / 2 / 3;
    assert(961 * (g / 961) <= g) by (nonlinear_arith)
        requires
            g >= 0,
    ;
    assert(31 * (g / 31) <= g) by (nonlinear_arith)
        requires
            g >= 0,
    ;
    assert(3500 * (x / 3500) <= x) by (nonlinear_arith)
        requires
            x >= 0,
    ;
    assert(400 * (x / 400) <= x) by (nonlinear_arith)
        requires
            x >= 0,
    ;
    assert(40 * (x / 40) <= x) by (nonlinear_arith)
        requires
            x >= 0,
    ;
    assert(7120 * (c / 7120) <= c) by (nonlinear_arith)
        requires
            c >= 0,
    ;
    assert(800 * (c / 800) <= c) by (nonlinear_arith)
        requires
            c >= 0,
    ;
    assert(80 * (c / 80) <= c) by (nonlinear_arith)
        requires
            c >= 0,
    ;
    assert(2 * g + 3 * x + 3 * c <= r) by (nonlinear_arith)
        requires
            r >= 0,
            g == r / 2 / 2 / 2,
            x == r / 2 / 2 / 3,
            c == r / 2 / 3,
    ;
}


/// No recorded claim of any episode is smaller in `m2` than in `m1`.
pub open spec fn claimed_grows(m1: ContractModel, m2: ContractModel) -> bool {
    forall|e: u64| amount_at(m2.claimed_per_episode, e) >= #[trigger] amount_at(m1.claimed_per_episode, e)
}

/// `m1` and `m2` record the same stakes, players, collections and episode.
pub open spec fn same_stakes(m1: ContractModel, m2: ContractModel) -> bool {
    &&& m2.staked == m1.staked
    &&& m2.staked_iter == m1.staked_iter
    &&& m2.nb_staked == m1.nb_staked
    &&& m2.nb_players == m1.nb_players
    &&& m2.collections == m1.collections
    &&& m2.current_episode == m1.current_episode
    &&& m2.last_episode_claimed == m1.last_episode_claimed
    &&& m2.episodes_rewards == m1.episodes_rewards
}

proof fn lemma_claim_ecity_effects(m: ContractModel, ctx: CallContext, episode: u64, addr: Seq<u8>)
    requires
        claim_ecity_of(m, ctx, episode, addr) is Ok,
    ensures
        ({
            let (m2, t) = claim_ecity_of(m, ctx, episode, addr)->Ok_0;
            same_stakes(m, m2) && claimed_grows(m, m2)
        }),
{
    let (m2, t) = claim_ecity_of(m, ctx, episode, addr)->Ok_0;
    assert forall|e: u64| amount_at(m2.claimed_per_episode, e) >= #[trigger] amount_at(
        m.claimed_per_episode,
        e,
    ) by {}
}

proof fn lemma_claim_episodes_effects(
    m: ContractModel,
    ctx: CallContext,
    addr: Seq<u8>,
    lo: u64,
    hi: int,
)
    requires
        claim_episodes(m, ctx, addr, lo, hi) is Ok,
    ensures
        ({
            let (m2, t) = claim_episodes(m, ctx, addr, lo, hi)->Ok_0;
            same_stakes(m, m2) && claimed_grows(m, m2)
        }),
    decreases hi - lo,
{
    if hi > lo {
        lemma_claim_episodes_effects(m, ctx, addr, lo, hi - 1);
        let (m1, t1) = claim_episodes(m, ctx, addr, lo, hi - 1)->Ok_0;
        lemma_claim_ecity_effects(m1, ctx, (hi - 1) as u64, addr);
        let (m2, t2) = claim_ecity_of(m1, ctx, (hi - 1) as u64, addr)->Ok_0;
        assert forall|e: u64| amount_at(m2.claimed_per_episode, e) >= #[trigger] amount_at(
            m.claimed_per_episode,
            e,
        ) by {
            assert(amount_at(m1.claimed_per_episode, e) >= amount_at(m.claimed_per_episode, e));
            assert(amount_at(m2.claimed_per_episode, e) >= amount_at(m1.claimed_per_episode, e));
        }
    }
}

/// Claiming leaves the stakes alone, keeps the episode, records the caller as
/// up to date with the current episode, and only adds to what was claimed.
pub proof fn law_claim_brings_caller_up_to_date(m: ContractModel, ctx: CallContext)
    requires
        claim_of(m, ctx) is Ok,
    ensures
        ({
            let (m2, t) = claim_of(m, ctx)->Ok_0;
            &&& m2.staked == m.staked
            &&& m2.staked_iter == m.staked_iter
            &&& m2.nb_staked == m.nb_staked
            &&& m2.nb_players == m.nb_players
            &&& m2.current_episode == m.current_episode
            &&& m2.episodes_rewards == m.episodes_rewards
            &&& u64_at(m2.last_episode_claimed, ctx.caller@) == m.current_episode
            &&& claimed_grows(m, m2)
        }),
{
    let caller = ctx.caller@;
    let last = u64_at(m.last_episode_claimed, caller);
    lemma_claim_episodes_effects(m, ctx, caller, last, m.current_episode + 1);
    let (m1, t) = claim_episodes(m, ctx, caller, last, m.current_episode + 1)->Ok_0;
    let (m2, t2) = claim_of(m, ctx)->Ok_0;
    assert(m2.claimed_per_episode == m1.claimed_per_episode);
}

/// A claim of one episode pays at most what the claimant's NFTs earn over a
/// whole episode, in one ECITY transfer to the claimant, and records exactly
/// what it pays as claimed. A claimant staked for a whole episode or more is
/// paid all of it.
pub proof fn law_claim_pays_at_most_full_episode(
    m: ContractModel,
    ctx: CallContext,
    episode: u64,
    addr: Seq<u8>,
)
    requires
        claim_ecity_of(m, ctx, episode, addr) is Ok,
    ensures
        ({
            let (m2, t) = claim_ecity_of(m, ctx, episode, addr)->Ok_0;
            &&& t.len() <= 1
            &&& t.len() == 1 ==> {
                &&& t[0].0 == addr
                &&& Some(t[0].1) == m.ecity_tokenid
                &&& t[0].2 == 0
                &&& episode_rewards_from(m, ctx, episode, addr, m.collections, 0) matches Ok(
                    total,
                ) && t[0].3 <= total
                &&& amount_at(m2.claimed_per_episode, episode) == amount_at(
                    m.claimed_per_episode,
                    episode,
                ) + t[0].3
            }
            &&& (amount_at(m.episodes_rewards, episode) > 0 && episode <= m.current_episode
                && u64_at(m.staked_time, addr) <= u64_at(m.episodes_timestamps, episode)
                + EPISODE_DURATION && u64_at(m.staked_time, addr) + EPISODE_DURATION
                <= ctx.block_timestamp) ==> (episode_rewards_from(
                m,
                ctx,
                episode,
                addr,
                m.collections,
                0,
            ) matches Ok(total) && (if total > 0 {
                t.len() == 1 && t[0].3 == total
            } else {
                t.len() == 0
            }))
        }),
{
    let (m2, t) = claim_ecity_of(m, ctx, episode, addr)->Ok_0;
    let now = ctx.block_timestamp;
    let st = u64_at(m.staked_time, addr);
    if amount_at(m.episodes_rewards, episode) > 0 && episode <= m.current_episode && st
        <= u64_at(m.episodes_timestamps, episode) + EPISODE_DURATION && st + EPISODE_DURATION
        <= now {
        assert(capped_time((now - st) as u64) == EPISODE_DURATION);
        let total = episode_rewards_from(m, ctx, episode, addr, m.collections, 0)->Ok_0;
        assert((total * (EPISODE_DURATION as nat)) / (EPISODE_DURATION as nat) == total) by {
            vstd::arithmetic::div_mod::lemma_div_by_multiple(total as int, EPISODE_DURATION as int);
        }
    }
    if t.len() == 1 {
        let stake_time = u64_at(m.staked_time, addr);
        let staked_length = capped_time((now - stake_time) as u64);
        let total = episode_rewards_from(m, ctx, episode, addr, m.collections, 0)->Ok_0;
        assert(staked_length <= EPISODE_DURATION);
        assert((total * (staked_length as nat)) / (EPISODE_DURATION as nat) <= total) by (
        nonlinear_arith)
            requires
                staked_length <= EPISODE_DURATION,
                EPISODE_DURATION == 1209600,
        ;
    }
}

/// Depositing opens the next episode (only the very first deposit, on an
/// episode 0 that has no start time, fills episode 0 itself) with the
/// deposited amount as its rewards and the block time as its start.
pub proof fn law_deposit_opens_next_episode(m: ContractModel, ctx: CallContext, ps: Seq<PaymentModel>)
    requires
        deposit_ecity_of(m, ctx, ps) is Ok,
    ensures
        ({
            let m2 = deposit_ecity_of(m, ctx, ps)->Ok_0;
            &&& ctx.caller@ == m.router_address
            &&& ps.len() == 1
            &&& Some(ps[0].0) == m.ecity_tokenid
            &&& if m.current_episode == 0 && u64_at(m.episodes_timestamps, 0) == 0 {
                m2.current_episode == 0
            } else {
                m2.current_episode == m.current_episode + 1
            }
            &&& amount_at(m2.episodes_rewards, m2.current_episode) == ps[0].2
            &&& u64_at(m2.episodes_timestamps, m2.current_episode) == ctx.block_timestamp
            &&& m2.claimed_per_episode == m.claimed_per_episode
            &&& m2.staked == m.staked
        }),
{
}

/// Adding ECITY tops up the rewards of the current episode without starting a
/// new one.
pub proof fn law_add_ecity_tops_up_current_episode(m: ContractModel, ps: Seq<PaymentModel>)
    requires
        add_ecity_of(m, ps) is Ok,
    ensures
        ({
            let m2 = add_ecity_of(m, ps)->Ok_0;
            &&& m2.current_episode == m.current_episode
            &&& amount_at(m2.episodes_rewards, m.current_episode) == amount_at(
                m.episodes_rewards,
                m.current_episode,
            ) + ps[0].2
            &&& forall|e: u64|
                e != m.current_episode ==> amount_at(m2.episodes_rewards, e) == #[trigger] amount_at(
                    m.episodes_rewards,
                    e,
                )
        }),
{
}

/// What the owner takes of a past episode is exactly what was not claimed of
/// its rewards, and all of the rewards are then recorded as claimed.
pub proof fn law_unclaimable_is_the_unclaimed_rest(m: ContractModel, ctx: CallContext, episode: u64)
    requires
        claim_unclaimable_of(m, ctx, episode) is Ok,
    ensures
        ({
            let (m2, t) = claim_unclaimable_of(m, ctx, episode)->Ok_0;
            &&& ctx.caller@ == ctx.owner@
            &&& episode < m.current_episode
            &&& t.len() == 1
            &&& t[0].0 == ctx.owner@
            &&& t[0].3 > 0
            &&& t[0].3 + amount_at(m.claimed_per_episode, episode) == amount_at(
                m.episodes_rewards,
                episode,
            )
            &&& amount_at(m2.claimed_per_episode, episode) == amount_at(m.episodes_rewards, episode)
        }),
{
}

/// The leftover of the past episode `e` is paid out: all its rewards are
/// recorded as claimed.
pub open spec fn leftover_paid(m: ContractModel, e: u64) -> bool {
    e < m.current_episode && amount_at(m.claimed_per_episode, e) >= amount_at(m.episodes_rewards, e)
}

/// From `m1` to `m2` the episode does not go back, no claimed total shrinks,
/// and the rewards of the past episodes stay.
pub open spec fn keeps_leftovers(m1: ContractModel, m2: ContractModel) -> bool {
    &&& m2.current_episode >= m1.current_episode
    &&& claimed_grows(m1, m2)
    &&& forall|e: u64|
        e < m1.current_episode ==> #[trigger] amount_at(m2.episodes_rewards, e) == amount_at(
            m1.episodes_rewards,
            e,
        )
}

/// Taking the leftover of an episode pays it out.
pub proof fn law_unclaimable_pays_out(m: ContractModel, ctx: CallContext, episode: u64)
    requires
        claim_unclaimable_of(m, ctx, episode) is Ok,
    ensures
        leftover_paid(claim_unclaimable_of(m, ctx, episode)->Ok_0.0, episode),
        keeps_leftovers(m, claim_unclaimable_of(m, ctx, episode)->Ok_0.0),
{
    let m2 = claim_unclaimable_of(m, ctx, episode)->Ok_0.0;
    assert forall|e: u64| amount_at(m2.claimed_per_episode, e) >= #[trigger] amount_at(
        m.claimed_per_episode,
        e,
    ) by {}
}

/// A leftover that is paid out is never paid again: taking it fails.
pub proof fn law_paid_leftover_is_refused(m: ContractModel, ctx: CallContext, episode: u64)
    requires
        leftover_paid(m, episode),
    ensures
        claim_unclaimable_of(m, ctx, episode) is Err,
{
}

/// A paid-out leftover stays paid out across any change that keeps the
/// leftovers, as every endpoint does (the laws below).
pub proof fn law_paid_leftover_stays_paid(m1: ContractModel, m2: ContractModel, episode: u64)
    requires
        leftover_paid(m1, episode),
        keeps_leftovers(m1, m2),
    ensures
        leftover_paid(m2, episode),
{
    assert(amount_at(m2.claimed_per_episode, episode) >= amount_at(m1.claimed_per_episode, episode));
}

proof fn lemma_keeps_leftovers_trans(m1: ContractModel, m2: ContractModel, m3: ContractModel)
    requires
        keeps_leftovers(m1, m2),
        keeps_leftovers(m2, m3),
    ensures
        keeps_leftovers(m1, m3),
{
    assert forall|e: u64| amount_at(m3.claimed_per_episode, e) >= #[trigger] amount_at(
        m1.claimed_per_episode,
        e,
    ) by {
        assert(amount_at(m2.claimed_per_episode, e) >= amount_at(m1.claimed_per_episode, e));
        assert(amount_at(m3.claimed_per_episode, e) >= amount_at(m2.claimed_per_episode, e));
    }
    assert forall|e: u64| e < m1.current_episode implies #[trigger] amount_at(m3.episodes_rewards, e)
        == amount_at(m1.episodes_rewards, e) by {
        assert(amount_at(m2.episodes_rewards, e) == amount_at(m1.episodes_rewards, e));
    }
}

/// Depositing keeps the leftovers: it only fills the episode it opens.
pub proof fn law_deposit_keeps_leftovers(m: ContractModel, ctx: CallContext, ps: Seq<PaymentModel>)
    requires
        deposit_ecity_of(m, ctx, ps) is Ok,
    ensures
        keeps_leftovers(m, deposit_ecity_of(m, ctx, ps)->Ok_0),
{
}

/// Adding ECITY keeps the leftovers: it only tops up the current episode.
pub proof fn law_add_ecity_keeps_leftovers(m: ContractModel, ps: Seq<PaymentModel>)
    requires
        add_ecity_of(m, ps) is Ok,
    ensures
        keeps_leftovers(m, add_ecity_of(m, ps)->Ok_0),
{
}

/// Claiming one episode keeps the leftovers.
pub proof fn law_claim_ecity_keeps_leftovers(m: ContractModel, ctx: CallContext, episode: u64, addr: Seq<u8>)
    requires
        claim_ecity_of(m, ctx, episode, addr) is Ok,
    ensures
        keeps_leftovers(m, claim_ecity_of(m, ctx, episode, addr)->Ok_0.0),
{
    lemma_claim_ecity_effects(m, ctx, episode, addr);
}

/// Claiming keeps the leftovers.
pub proof fn law_claim_keeps_leftovers(m: ContractModel, ctx: CallContext)
    requires
        claim_of(m, ctx) is Ok,
    ensures
        keeps_leftovers(m, claim_of(m, ctx)->Ok_0.0),
{
    law_claim_brings_caller_up_to_date(m, ctx);
}

/// Staking keeps the leftovers.
pub proof fn law_stake_keeps_leftovers(m: ContractModel, ctx: CallContext, ps: Seq<PaymentModel>)
    requires
        stake_of(m, ctx, ps) is Ok,
    ensures
        keeps_leftovers(m, stake_of(m, ctx, ps)->Ok_0.0),
{
    law_claim_brings_caller_up_to_date(m, ctx);
    law_stake_only_adds_to_claimed(m, ctx, ps);
    let m1 = claim_of(m, ctx)->Ok_0.0;
    lemma_stake_payments_keep_claimed(m1, ctx.caller@, ps);
}

proof fn lemma_unstake_repeat_keeps(
    m: ContractModel,
    ctx: CallContext,
    token: Seq<u8>,
    nonce: u64,
    quantity: nat,
)
    requires
        unstake_repeat(m, ctx, token, nonce, quantity) is Ok,
    ensures
        keeps_leftovers(m, unstake_repeat(m, ctx, token, nonce, quantity)->Ok_0.0),
    decreases quantity,
{
    if quantity == 0 {
        assert forall|e: u64| amount_at(m.claimed_per_episode, e) >= #[trigger] amount_at(
            m.claimed_per_episode,
            e,
        ) by {}
    } else {
        lemma_unstake_repeat_keeps(m, ctx, token, nonce, (quantity - 1) as nat);
        let m1 = unstake_repeat(m, ctx, token, nonce, (quantity - 1) as nat)->Ok_0.0;
        law_claim_brings_caller_up_to_date(m1, ctx);
        let m2 = unstake_single_of(m1, ctx, token, nonce)->Ok_0.0;
        lemma_keeps_leftovers_trans(m, m1, m2);
    }
}

/// Unstaking keeps the leftovers.
pub proof fn law_unstake_keeps_leftovers(
    m: ContractModel,
    ctx: CallContext,
    items: Seq<(Seq<u8>, u64, u64)>,
)
    requires
        unstake_list(m, ctx, items) is Ok,
    ensures
        keeps_leftovers(m, unstake_list(m, ctx, items)->Ok_0.0),
    decreases items.len(),
{
    if items.len() == 0 {
        assert forall|e: u64| amount_at(m.claimed_per_episode, e) >= #[trigger] amount_at(
            m.claimed_per_episode,
            e,
        ) by {}
    } else {
        law_unstake_keeps_leftovers(m, ctx, items.drop_last());
        let m1 = unstake_list(m, ctx, items.drop_last())->Ok_0.0;
        let (token, nonce, quantity) = items.last();
        lemma_unstake_repeat_keeps(m1, ctx, token, nonce, quantity as nat);
        let m2 = unstake_list(m, ctx, items)->Ok_0.0;
        lemma_keeps_leftovers_trans(m, m1, m2);
    }
}

proof fn lemma_lenient_agrees(m: ContractModel, ctx: CallContext, addr: Seq<u8>, lo: u64, hi: int)
    requires
        claim_episodes_with(m, ctx, addr, lo, hi, false) is Ok,
    ensures
        claim_episodes_with(m, ctx, addr, lo, hi, true) == claim_episodes_with(
            m,
            ctx,
            addr,
            lo,
            hi,
            false,
        ),
    decreases hi - lo,
{
    if hi > lo {
        lemma_lenient_agrees(m, ctx, addr, lo, hi - 1);
    }
}

/// `fake_claim` counts what a claim would pay: wherever the caller's claim
/// succeeds, it is the total of the transfers that the claim makes.
pub proof fn law_fake_claim_counts_claim(m: ContractModel, ctx: CallContext)
    requires
        claim_of(m, ctx) is Ok,
    ensures
        fake_claim_of(m, ctx, ctx.caller@) == Ok::<nat, ContractError>(
            transfers_total(claim_of(m, ctx)->Ok_0.1),
        ),
{
    let c = ctx.caller@;
    lemma_lenient_agrees(m, ctx, c, u64_at(m.last_episode_claimed, c), m.current_episode + 1);
}

proof fn lemma_staked_rewards_none(
    m: ContractModel,
    ctx: CallContext,
    episode: u64,
    addr: Seq<u8>,
    token: Seq<u8>,
    items: Seq<StakedItem>,
    acc: nat,
)
    requires
        forall|i: int| 0 <= i < items.len() && #[trigger] items[i].0 == addr ==> items[i].3 == 0,
    ensures
        staked_rewards_from(m, ctx, episode, addr, token, items, acc) == Ok::<nat, ContractError>(acc),
    decreases items.len(),
{
    if items.len() > 0 {
        let front = items.drop_last();
        assert forall|i: int| 0 <= i < front.len() && #[trigger] front[i].0 == addr implies front[i].3
            == 0 by {
            assert(front[i] == items[i]);
        }
        lemma_staked_rewards_none(m, ctx, episode, addr, token, front, acc);
        assert(items.last() == items[items.len() - 1]);
    }
}

proof fn lemma_episode_rewards_none(
    m: ContractModel,
    ctx: CallContext,
    episode: u64,
    addr: Seq<u8>,
    tokens: Seq<Seq<u8>>,
)
    requires
        forall|i: int|
            0 <= i < m.staked_iter.len() && #[trigger] m.staked_iter[i].0 == addr ==> m.staked_iter[i].3
                == 0,
    ensures
        episode_rewards_from(m, ctx, episode, addr, tokens, 0) == Ok::<nat, ContractError>(0),
    decreases tokens.len(),
{
    if tokens.len() > 0 {
        lemma_episode_rewards_none(m, ctx, episode, addr, tokens.drop_last());
        lemma_staked_rewards_none(m, ctx, episode, addr, tokens.last(), m.staked_iter, 0);
    }
}

proof fn lemma_lenient_pays_nothing(m: ContractModel, ctx: CallContext, addr: Seq<u8>, lo: u64, hi: int)
    requires
        hi <= u64::MAX,
        forall|i: int|
            0 <= i < m.staked_iter.len() && #[trigger] m.staked_iter[i].0 == addr ==> m.staked_iter[i].3
                == 0,
        forall|e: u64| lo <= e < hi ==> #[trigger] u64_at(m.episodes_timestamps, e) + EPISODE_DURATION
            <= u64::MAX,
    ensures
        claim_episodes_with(m, ctx, addr, lo, hi, true) matches Ok((m1, t)) && t.len() == 0
            && m1.staked_iter == m.staked_iter && m1.episodes_timestamps == m.episodes_timestamps,
    decreases hi - lo,
{
    if hi > lo {
        lemma_lenient_pays_nothing(m, ctx, addr, lo, hi - 1);
        let (m1, t1) = claim_episodes_with(m, ctx, addr, lo, hi - 1, true)->Ok_0;
        let e = (hi - 1) as u64;
        assert(lo <= e && e < hi);
        assert(u64_at(m.episodes_timestamps, e) + EPISODE_DURATION <= u64::MAX);
        assert(u64_at(m1.episodes_timestamps, e) + EPISODE_DURATION <= u64::MAX);
        lemma_episode_rewards_none(m1, ctx, e, addr, m1.collections);
        assert((0 * (capped_time(0) as nat)) / (EPISODE_DURATION as nat) == 0);
        let st = u64_at(m1.staked_time, addr);
        if ctx.block_timestamp >= st {
            let l = capped_time((ctx.block_timestamp - st) as u64) as nat;
            assert(0 * l == 0);
        }
        assert(t1 + Seq::<TransferModel>::empty() =~= t1);
    }
}

/// An address with nothing staked is counted nothing by `fake_claim`, even
/// where its stake time lies past now (while the episodes' ends fit the
/// clock).
pub proof fn law_fake_claim_of_non_staker(m: ContractModel, ctx: CallContext, addr: Seq<u8>)
    requires
        forall|i: int|
            0 <= i < m.staked_iter.len() && #[trigger] m.staked_iter[i].0 == addr ==> m.staked_iter[i].3
                == 0,
        forall|e: u64| #[trigger] u64_at(m.episodes_timestamps, e) + EPISODE_DURATION <= u64::MAX,
        m.current_episode < u64::MAX,
    ensures
        fake_claim_of(m, ctx, addr) == Ok::<nat, ContractError>(0),
{
    lemma_lenient_pays_nothing(
        m,
        ctx,
        addr,
        u64_at(m.last_episode_claimed, addr),
        m.current_episode + 1,
    );
    assert(transfers_total(Seq::<TransferModel>::empty()) == 0);
}

/// An expansion building earns the expansion reward of its rarity.
pub proof fn law_expansion_buildings_earn_expansion_reward(
    m: ContractModel,
    episode: u64,
    token: Seq<u8>,
    nonce: u64,
)
    requires
        m.genesis_tokenid is Some,
        m.genesis_tokenid != Some(token),
        1 <= nonce <= 24,
    ensures
        building_reward_of(m, episode, token, nonce) == Ok::<nat, ContractError>(
            expansion_reward(
                amount_at(m.episodes_rewards, episode),
                expansion_building_attributes(nonce)->Ok_0.building_rarity,
            ),
        ),
{
}

/// A genesis building earns the genesis reward of its rarity; a genesis nonce
/// that names no building earns the citizen reward of that nonce.
pub proof fn law_genesis_collection_rewards(
    m: ContractModel,
    ctx: CallContext,
    episode: u64,
    token: Seq<u8>,
    nonce: u64,
)
    requires
        m.genesis_tokenid == Some(token),
    ensures
        reward_of(m, ctx, episode, token, nonce) == if 1 <= nonce <= 16 {
            Ok::<nat, ContractError>(
                genesis_reward(
                    amount_at(m.episodes_rewards, episode),
                    genesis_building_attributes(nonce).building_rarity,
                ),
            )
        } else {
            ctzn_reward_of(m, ctx, episode, nonce)
        },
{
    reveal(reward_of);
}

/// An NFT of the citizen collection (where it is not the genesis one) earns
/// the citizen reward of its rarity level, whatever its nonce.
pub proof fn law_citizens_earn_citizen_reward(
    m: ContractModel,
    ctx: CallContext,
    episode: u64,
    token: Seq<u8>,
    nonce: u64,
)
    requires
        m.genesis_tokenid is Some,
        m.genesis_tokenid != Some(token),
        m.citizen_tokenid == Some(token),
    ensures
        reward_of(m, ctx, episode, token, nonce) == ctzn_reward_of(m, ctx, episode, nonce),
{
    reveal(reward_of);
}

/// An NFT of any other collection is read as an expansion building.
pub proof fn law_other_collections_are_expansion_buildings(
    m: ContractModel,
    ctx: CallContext,
    episode: u64,
    token: Seq<u8>,
    nonce: u64,
)
    requires
        m.genesis_tokenid is Some,
        m.genesis_tokenid != Some(token),
        m.citizen_tokenid != Some(token),
    ensures
        reward_of(m, ctx, episode, token, nonce) == building_reward_of(m, episode, token, nonce),
{
    reveal(reward_of);
}

/// A token identifier is set once: setting it again is refused.
pub proof fn law_token_id_set_once(m: Option<Seq<u8>>, t1: Seq<u8>, t2: Seq<u8>)
    requires
        token_id_after_set(m, t1) is Ok,
    ensures
        token_id_after_set(token_id_after_set(m, t1)->Ok_0, t2) == Err::<
            Option<Seq<u8>>,
            ContractError,
        >(ContractError::TokenIdAlreadySet),
{
}


proof fn lemma_stake_payments_keep_claimed(m: ContractModel, caller: Seq<u8>, ps: Seq<PaymentModel>)
    requires
        stake_payments(m, caller, ps) is Ok,
    ensures
        stake_payments(m, caller, ps)->Ok_0.claimed_per_episode == m.claimed_per_episode,
        stake_payments(m, caller, ps)->Ok_0.staked_time == m.staked_time,
        stake_payments(m, caller, ps)->Ok_0.last_episode_claimed == m.last_episode_claimed,
        stake_payments(m, caller, ps)->Ok_0.episodes_rewards == m.episodes_rewards,
        stake_payments(m, caller, ps)->Ok_0.current_episode == m.current_episode,
    decreases ps.len(),
{
    if ps.len() > 0 {
        lemma_stake_payments_keep_claimed(m, caller, ps.drop_last());
    }
}

/// Staking first claims for the caller: it pays what the claim pays, and the
/// payments recorded after it leave the stake time, the last claimed episode
/// and the claimed totals as the claim set them, so that the new tokens earn
/// nothing for the time before the call.
pub proof fn law_stake_claims_first(m: ContractModel, ctx: CallContext, ps: Seq<PaymentModel>)
    requires
        stake_of(m, ctx, ps) is Ok,
    ensures
        ({
            let (m2, t) = stake_of(m, ctx, ps)->Ok_0;
            let (m1, t1) = claim_of(m, ctx)->Ok_0;
            &&& t == t1
            &&& m2.staked_time == m1.staked_time
            &&& m2.last_episode_claimed == m1.last_episode_claimed
            &&& m2.claimed_per_episode == m1.claimed_per_episode
            &&& u64_at(m2.last_episode_claimed, ctx.caller@) == m.current_episode
        }),
{
    law_claim_brings_caller_up_to_date(m, ctx);
    let (m1, t) = claim_of(m, ctx)->Ok_0;
    lemma_stake_payments_keep_claimed(m1, ctx.caller@, ps);
}

/// Staking only ever adds to what is recorded as claimed.
pub proof fn law_stake_only_adds_to_claimed(m: ContractModel, ctx: CallContext, ps: Seq<PaymentModel>)
    requires
        stake_of(m, ctx, ps) is Ok,
    ensures
        claimed_grows(m, stake_of(m, ctx, ps)->Ok_0.0),
{
    law_claim_brings_caller_up_to_date(m, ctx);
    let (m1, t) = claim_of(m, ctx)->Ok_0;
    lemma_stake_payments_keep_claimed(m1, ctx.caller@, ps);
}

proof fn lemma_unstake_single_grows(m: ContractModel, ctx: CallContext, token: Seq<u8>, nonce: u64)
    requires
        unstake_single_of(m, ctx, token, nonce) is Ok,
    ensures
        claimed_grows(m, unstake_single_of(m, ctx, token, nonce)->Ok_0.0),
{
    law_claim_brings_caller_up_to_date(m, ctx);
}

proof fn lemma_unstake_repeat_grows(
    m: ContractModel,
    ctx: CallContext,
    token: Seq<u8>,
    nonce: u64,
    quantity: nat,
)
    requires
        unstake_repeat(m, ctx, token, nonce, quantity) is Ok,
    ensures
        claimed_grows(m, unstake_repeat(m, ctx, token, nonce, quantity)->Ok_0.0),
    decreases quantity,
{
    if quantity > 0 {
        lemma_unstake_repeat_grows(m, ctx, token, nonce, (quantity - 1) as nat);
        let (m1, t1) = unstake_repeat(m, ctx, token, nonce, (quantity - 1) as nat)->Ok_0;
        lemma_unstake_single_grows(m1, ctx, token, nonce);
        let m2 = unstake_repeat(m, ctx, token, nonce, quantity)->Ok_0.0;
        assert forall|e: u64| amount_at(m2.claimed_per_episode, e) >= #[trigger] amount_at(
            m.claimed_per_episode,
            e,
        ) by {
            assert(amount_at(m1.claimed_per_episode, e) >= amount_at(m.claimed_per_episode, e));
        }
    }
}

/// Unstaking only ever adds to what is recorded as claimed.
pub proof fn law_unstake_only_adds_to_claimed(
    m: ContractModel,
    ctx: CallContext,
    items: Seq<(Seq<u8>, u64, u64)>,
)
    requires
        unstake_list(m, ctx, items) is Ok,
    ensures
        claimed_grows(m, unstake_list(m, ctx, items)->Ok_0.0),
    decreases items.len(),
{
    if items.len() > 0 {
        law_unstake_only_adds_to_claimed(m, ctx, items.drop_last());
        let (m1, t1) = unstake_list(m, ctx, items.drop_last())->Ok_0;
        let (token, nonce, quantity) = items.last();
        lemma_unstake_repeat_grows(m1, ctx, token, nonce, quantity as nat);
        let m2 = unstake_list(m, ctx, items)->Ok_0.0;
        assert forall|e: u64| amount_at(m2.claimed_per_episode, e) >= #[trigger] amount_at(
            m.claimed_per_episode,
            e,
        ) by {
            assert(amount_at(m1.claimed_per_episode, e) >= amount_at(m.claimed_per_episode, e));
        }
    }
}

/// The owner, collection and nonce of a staked entry.
pub open spec fn stake_key(it: StakedItem) -> (Seq<u8>, Seq<u8>, u64) {
    (it.0, it.1, it.2)
}

/// The entry of key `k` with amount `a`.
pub open spec fn entry_of(k: (Seq<u8>, Seq<u8>, u64), a: nat) -> StakedItem {
    (k.0, k.1, k.2, a)
}

/// The entries of the owner `u` agree with its staked amounts: each of its
/// entries holds the current, non-zero amount of its collection and nonce,
/// no two of them share these, and each of its non-zero stakes has its entry.
pub open spec fn owner_entries_agree(
    items: Seq<StakedItem>,
    staked: Map<(Seq<u8>, Seq<u8>, u64), nat>,
    u: Seq<u8>,
) -> bool {
    &&& forall|i: int|
        0 <= i < items.len() && (#[trigger] items[i]).0 == u ==> items[i].3 == amount_at(
            staked,
            stake_key(items[i]),
        ) && items[i].3 > 0
    &&& forall|i: int, j: int|
        0 <= i < items.len() && 0 <= j < items.len() && items[i].0 == u && stake_key(
            #[trigger] items[i],
        ) == stake_key(#[trigger] items[j]) ==> i == j
    &&& forall|k: (Seq<u8>, Seq<u8>, u64)|
        k.0 == u && #[trigger] amount_at(staked, k) > 0 ==> exists|i: int|
            0 <= i < items.len() && stake_key(#[trigger] items[i]) == k
}

/// Taking out the entry of `k0` leaves the owner's entries of the other keys,
/// each once, and none of `k0`.
proof fn lemma_without_key(
    items: Seq<StakedItem>,
    staked: Map<(Seq<u8>, Seq<u8>, u64), nat>,
    k0: (Seq<u8>, Seq<u8>, u64),
)
    requires
        owner_entries_agree(items, staked, k0.0),
    ensures
        ({
            let l = seq_without(items, entry_of(k0, amount_at(staked, k0)));
            let u = k0.0;
            &&& forall|x: int| 0 <= x < l.len() ==> stake_key(#[trigger] l[x]) != k0
            &&& forall|x: int|
                0 <= x < l.len() && (#[trigger] l[x]).0 == u ==> l[x].3 == amount_at(
                    staked,
                    stake_key(l[x]),
                ) && l[x].3 > 0
            &&& forall|x: int, y: int|
                0 <= x < l.len() && 0 <= y < l.len() && l[x].0 == u && stake_key(#[trigger] l[x])
                    == stake_key(#[trigger] l[y]) ==> x == y
            &&& forall|k: (Seq<u8>, Seq<u8>, u64)|
                k.0 == u && k != k0 && #[trigger] amount_at(staked, k) > 0 ==> exists|x: int|
                    0 <= x < l.len() && stake_key(#[trigger] l[x]) == k
        }),
{
    let u = k0.0;
    let e0 = entry_of(k0, amount_at(staked, k0));
    let l = seq_without(items, e0);
    if amount_at(staked, k0) == 0 {
        assert forall|x: int| 0 <= x < items.len() implies stake_key(#[trigger] items[x]) != k0 by {
            if stake_key(items[x]) == k0 {
                assert(items[x].0 == u);
                assert(items[x].3 > 0);
            }
        }
        assert(!items.contains(e0)) by {
            if items.contains(e0) {
                let x = choose|x: int| 0 <= x < items.len() && items[x] == e0;
                assert(stake_key(items[x]) == k0);
            }
        }
        assert(l == items);
        assert forall|k: (Seq<u8>, Seq<u8>, u64)|
            k.0 == u && k != k0 && #[trigger] amount_at(staked, k) > 0 implies exists|x: int|
                0 <= x < l.len() && stake_key(#[trigger] l[x]) == k by {
            let x = choose|x: int| 0 <= x < items.len() && stake_key(#[trigger] items[x]) == k;
            assert(stake_key(l[x]) == k);
        }
    } else {
        let i = choose|i: int| 0 <= i < items.len() && stake_key(#[trigger] items[i]) == k0;
        assert(items[i].0 == u);
        assert(items[i].3 == amount_at(staked, k0));
        assert(items[i] == e0);
        assert(items.contains(e0));
        let j = items.index_of(e0);
        assert(0 <= j < items.len() && items[j] == e0);
        assert(stake_key(items[j]) == k0);
        assert(j == i);
        assert(l == items.remove(i));
        assert forall|x: int| 0 <= x < l.len() implies #[trigger] l[x] == items[if x < i { x } else { x + 1 }] by {}
        assert forall|x: int| 0 <= x < l.len() implies stake_key(#[trigger] l[x]) != k0 by {
            let x0 = if x < i { x } else { x + 1 };
            assert(l[x] == items[x0]);
        }
        assert forall|x: int|
            0 <= x < l.len() && (#[trigger] l[x]).0 == u implies l[x].3 == amount_at(
                staked,
                stake_key(l[x]),
            ) && l[x].3 > 0 by {
            let x0 = if x < i { x } else { x + 1 };
            assert(l[x] == items[x0]);
        }
        assert forall|x: int, y: int|
            0 <= x < l.len() && 0 <= y < l.len() && l[x].0 == u && stake_key(#[trigger] l[x])
                == stake_key(#[trigger] l[y]) implies x == y by {
            let x0 = if x < i { x } else { x + 1 };
            let y0 = if y < i { y } else { y + 1 };
            assert(l[x] == items[x0]);
            assert(l[y] == items[y0]);
        }
        assert forall|k: (Seq<u8>, Seq<u8>, u64)|
            k.0 == u && k != k0 && #[trigger] amount_at(staked, k) > 0 implies exists|x: int|
                0 <= x < l.len() && stake_key(#[trigger] l[x]) == k by {
            let x0 = choose|x: int| 0 <= x < items.len() && stake_key(#[trigger] items[x]) == k;
            assert(x0 != i);
            let x = if x0 < i { x0 } else { x0 - 1 };
            assert(l[x] == items[x0]);
        }
    }
}

/// Replacing the entry of `k0` by one with the non-zero amount `v`, as the
/// amount of `k0` becomes `v`, keeps its owner's entries in agreement.
proof fn lemma_set_entry(
    items: Seq<StakedItem>,
    staked: Map<(Seq<u8>, Seq<u8>, u64), nat>,
    k0: (Seq<u8>, Seq<u8>, u64),
    v: nat,
)
    requires
        owner_entries_agree(items, staked, k0.0),
        v > 0,
    ensures
        owner_entries_agree(
            set_insert(seq_without(items, entry_of(k0, amount_at(staked, k0))), entry_of(k0, v)),
            staked.insert(k0, v),
            k0.0,
        ),
{
    lemma_without_key(items, staked, k0);
    let u = k0.0;
    let l = seq_without(items, entry_of(k0, amount_at(staked, k0)));
    let e1 = entry_of(k0, v);
    let st = staked.insert(k0, v);
    assert(!l.contains(e1)) by {
        if l.contains(e1) {
            let x = choose|x: int| 0 <= x < l.len() && l[x] == e1;
            assert(stake_key(l[x]) == k0);
        }
    }
    let l2 = l.push(e1);
    assert(set_insert(l, e1) == l2);
    assert forall|x: int|
        0 <= x < l2.len() && (#[trigger] l2[x]).0 == u implies l2[x].3 == amount_at(
            st,
            stake_key(l2[x]),
        ) && l2[x].3 > 0 by {
        if x < l.len() {
            assert(l2[x] == l[x]);
            assert(stake_key(l[x]) != k0);
        }
    }
    assert forall|x: int, y: int|
        0 <= x < l2.len() && 0 <= y < l2.len() && l2[x].0 == u && stake_key(#[trigger] l2[x])
            == stake_key(#[trigger] l2[y]) implies x == y by {
        if x < l.len() {
            assert(l2[x] == l[x]);
            assert(stake_key(l[x]) != k0);
        }
        if y < l.len() {
            assert(l2[y] == l[y]);
            assert(stake_key(l[y]) != k0);
        }
    }
    assert forall|k: (Seq<u8>, Seq<u8>, u64)|
        k.0 == u && #[trigger] amount_at(st, k) > 0 implies exists|x: int|
            0 <= x < l2.len() && stake_key(#[trigger] l2[x]) == k by {
        if k == k0 {
            assert(stake_key(l2[l.len() as int]) == k);
        } else {
            assert(amount_at(staked, k) > 0);
            let x = choose|x: int| 0 <= x < l.len() && stake_key(#[trigger] l[x]) == k;
            assert(l2[x] == l[x]);
        }
    }
}

/// Taking out the entry of `k0`, as the amount of `k0` becomes 0, keeps its
/// owner's entries in agreement.
proof fn lemma_drop_entry(
    items: Seq<StakedItem>,
    staked: Map<(Seq<u8>, Seq<u8>, u64), nat>,
    k0: (Seq<u8>, Seq<u8>, u64),
)
    requires
        owner_entries_agree(items, staked, k0.0),
    ensures
        owner_entries_agree(
            seq_without(items, entry_of(k0, amount_at(staked, k0))),
            staked.insert(k0, 0),
            k0.0,
        ),
{
    lemma_without_key(items, staked, k0);
    let u = k0.0;
    let l = seq_without(items, entry_of(k0, amount_at(staked, k0)));
    let st = staked.insert(k0, 0);
    assert forall|x: int|
        0 <= x < l.len() && (#[trigger] l[x]).0 == u implies l[x].3 == amount_at(st, stake_key(l[x]))
            && l[x].3 > 0 by {
        assert(stake_key(l[x]) != k0);
    }
    assert forall|k: (Seq<u8>, Seq<u8>, u64)|
        k.0 == u && #[trigger] amount_at(st, k) > 0 implies exists|x: int|
            0 <= x < l.len() && stake_key(#[trigger] l[x]) == k by {
        assert(k != k0);
        assert(amount_at(staked, k) > 0);
    }
}

proof fn lemma_stake_payments_consistent(m: ContractModel, caller: Seq<u8>, ps: Seq<PaymentModel>)
    requires
        owner_entries_agree(m.staked_iter, m.staked, caller),
        forall|i: int| 0 <= i < ps.len() ==> #[trigger] ps[i].2 > 0,
        stake_payments(m, caller, ps) is Ok,
    ensures
        owner_entries_agree(
            stake_payments(m, caller, ps)->Ok_0.staked_iter,
            stake_payments(m, caller, ps)->Ok_0.staked,
            caller,
        ),
    decreases ps.len(),
{
    if ps.len() > 0 {
        let front = ps.drop_last();
        assert forall|i: int| 0 <= i < front.len() implies #[trigger] front[i].2 > 0 by {
            assert(front[i] == ps[i]);
        }
        lemma_stake_payments_consistent(m, caller, front);
        let m1 = stake_payments(m, caller, front)->Ok_0;
        let (token, nonce, amount) = ps.last();
        assert(ps.last().2 > 0) by {
            assert(ps[ps.len() - 1].2 > 0);
        }
        let k0 = (caller, token, nonce);
        lemma_set_entry(m1.staked_iter, m1.staked, k0, amount_at(m1.staked, k0) + amount);
    }
}

/// Staking keeps the caller's entries in agreement with its staked amounts,
/// for payments of non-zero amounts: each nonce listed once, with its
/// current amount.
pub proof fn law_stake_keeps_caller_entries(m: ContractModel, ctx: CallContext, ps: Seq<PaymentModel>)
    requires
        owner_entries_agree(m.staked_iter, m.staked, ctx.caller@),
        forall|i: int| 0 <= i < ps.len() ==> #[trigger] ps[i].2 > 0,
        stake_of(m, ctx, ps) is Ok,
    ensures
        owner_entries_agree(
            stake_of(m, ctx, ps)->Ok_0.0.staked_iter,
            stake_of(m, ctx, ps)->Ok_0.0.staked,
            ctx.caller@,
        ),
{
    law_claim_brings_caller_up_to_date(m, ctx);
    let m1 = claim_of(m, ctx)->Ok_0.0;
    lemma_stake_payments_consistent(m1, ctx.caller@, ps);
}

proof fn lemma_unstake_single_consistent(m: ContractModel, ctx: CallContext, token: Seq<u8>, nonce: u64)
    requires
        owner_entries_agree(m.staked_iter, m.staked, ctx.caller@),
        unstake_single_of(m, ctx, token, nonce) is Ok,
    ensures
        owner_entries_agree(
            unstake_single_of(m, ctx, token, nonce)->Ok_0.0.staked_iter,
            unstake_single_of(m, ctx, token, nonce)->Ok_0.0.staked,
            ctx.caller@,
        ),
{
    law_claim_brings_caller_up_to_date(m, ctx);
    let m1 = claim_of(m, ctx)->Ok_0.0;
    let c = ctx.caller@;
    let k0 = (c, token, nonce);
    let staked = amount_at(m1.staked, k0);
    if staked == 1 {
        lemma_drop_entry(m1.staked_iter, m1.staked, k0);
    } else {
        lemma_set_entry(m1.staked_iter, m1.staked, k0, (staked - 1) as nat);
    }
}

proof fn lemma_unstake_repeat_consistent(
    m: ContractModel,
    ctx: CallContext,
    token: Seq<u8>,
    nonce: u64,
    quantity: nat,
)
    requires
        owner_entries_agree(m.staked_iter, m.staked, ctx.caller@),
        unstake_repeat(m, ctx, token, nonce, quantity) is Ok,
    ensures
        owner_entries_agree(
            unstake_repeat(m, ctx, token, nonce, quantity)->Ok_0.0.staked_iter,
            unstake_repeat(m, ctx, token, nonce, quantity)->Ok_0.0.staked,
            ctx.caller@,
        ),
    decreases quantity,
{
    if quantity > 0 {
        lemma_unstake_repeat_consistent(m, ctx, token, nonce, (quantity - 1) as nat);
        let m1 = unstake_repeat(m, ctx, token, nonce, (quantity - 1) as nat)->Ok_0.0;
        lemma_unstake_single_consistent(m1, ctx, token, nonce);
    }
}

/// Unstaking keeps the caller's entries in agreement with its staked amounts.
pub proof fn law_unstake_keeps_caller_entries(
    m: ContractModel,
    ctx: CallContext,
    items: Seq<(Seq<u8>, u64, u64)>,
)
    requires
        owner_entries_agree(m.staked_iter, m.staked, ctx.caller@),
        unstake_list(m, ctx, items) is Ok,
    ensures
        owner_entries_agree(
            unstake_list(m, ctx, items)->Ok_0.0.staked_iter,
            unstake_list(m, ctx, items)->Ok_0.0.staked,
            ctx.caller@,
        ),
    decreases items.len(),
{
    if items.len() > 0 {
        law_unstake_keeps_caller_entries(m, ctx, items.drop_last());
        let m1 = unstake_list(m, ctx, items.drop_last())->Ok_0.0;
        let (token, nonce, quantity) = items.last();
        lemma_unstake_repeat_consistent(m1, ctx, token, nonce, quantity as nat);
    }
}

/// The total that the entries `items` record for the owner `u`.
pub open spec fn owner_total(items: Seq<StakedItem>, u: Seq<u8>) -> nat
    decreases items.len(),
{
    if items.len() == 0 {
        0
    } else {
        owner_total(items.drop_last(), u) + if items.last().0 == u {
            items.last().3
        } else {
            0
        }
    }
}

/// Each owner's token count is the total of its staked entries.
pub open spec fn counts_agree(m: ContractModel) -> bool {
    forall|u: Seq<u8>| #[trigger] u64_at(m.nb_staked, u) == owner_total(m.staked_iter, u)
}

proof fn lemma_owner_total_remove(items: Seq<StakedItem>, i: int, u: Seq<u8>)
    requires
        0 <= i < items.len(),
    ensures
        owner_total(items.remove(i), u) + (if items[i].0 == u {
            items[i].3
        } else {
            0
        }) == owner_total(items, u),
    decreases items.len(),
{
    if i == items.len() - 1 {
        assert(items.remove(i) =~= items.drop_last());
    } else {
        let r = items.remove(i);
        assert(r.drop_last() =~= items.drop_last().remove(i));
        assert(r.last() == items.last());
        lemma_owner_total_remove(items.drop_last(), i, u);
    }
}

/// Taking out an entry of another owner, or adding one, leaves `u`'s total.
proof fn lemma_owner_total_other(items: Seq<StakedItem>, e: StakedItem, u: Seq<u8>)
    requires
        e.0 != u,
    ensures
        owner_total(seq_without(items, e), u) == owner_total(items, u),
        owner_total(items.push(e), u) == owner_total(items, u),
{
    if items.contains(e) {
        let j = items.index_of(e);
        assert(0 <= j < items.len() && items[j] == e);
        lemma_owner_total_remove(items, j, u);
    }
    assert(items.push(e).drop_last() =~= items);
}

/// Taking out the entry of `k0` takes its amount off its owner's total.
proof fn lemma_without_total(
    items: Seq<StakedItem>,
    staked: Map<(Seq<u8>, Seq<u8>, u64), nat>,
    k0: (Seq<u8>, Seq<u8>, u64),
)
    requires
        owner_entries_agree(items, staked, k0.0),
    ensures
        owner_total(seq_without(items, entry_of(k0, amount_at(staked, k0))), k0.0) + amount_at(
            staked,
            k0,
        ) == owner_total(items, k0.0),
{
    let u = k0.0;
    let e0 = entry_of(k0, amount_at(staked, k0));
    if amount_at(staked, k0) == 0 {
        assert(!items.contains(e0)) by {
            if items.contains(e0) {
                let x = choose|x: int| 0 <= x < items.len() && items[x] == e0;
                assert(items[x].0 == u);
                assert(items[x].3 > 0);
            }
        }
    } else {
        let i = choose|i: int| 0 <= i < items.len() && stake_key(#[trigger] items[i]) == k0;
        assert(items[i].0 == u);
        assert(items[i].3 == amount_at(staked, k0));
        assert(items[i] == e0);
        assert(items.contains(e0));
        let j = items.index_of(e0);
        assert(0 <= j < items.len() && items[j] == e0);
        lemma_owner_total_remove(items, j, u);
    }
}

/// Replacing the entry of `k0` by one with amount `v` moves its owner's total
/// by the difference and leaves the other owners' totals.
proof fn lemma_set_entry_total(
    items: Seq<StakedItem>,
    staked: Map<(Seq<u8>, Seq<u8>, u64), nat>,
    k0: (Seq<u8>, Seq<u8>, u64),
    v: nat,
    u: Seq<u8>,
)
    requires
        owner_entries_agree(items, staked, k0.0),
    ensures
        ({
            let l = seq_without(items, entry_of(k0, amount_at(staked, k0)));
            let l2 = if v == 0 { l } else { set_insert(l, entry_of(k0, v)) };
            owner_total(l2, u) + (if k0.0 == u {
                amount_at(staked, k0)
            } else {
                0
            }) == owner_total(items, u) + (if k0.0 == u {
                v
            } else {
                0
            })
        }),
{
    let e0 = entry_of(k0, amount_at(staked, k0));
    let l = seq_without(items, e0);
    let e1 = entry_of(k0, v);
    if u == k0.0 {
        lemma_without_key(items, staked, k0);
        lemma_without_total(items, staked, k0);
        if v > 0 {
            assert(!l.contains(e1)) by {
                if l.contains(e1) {
                    let x = choose|x: int| 0 <= x < l.len() && l[x] == e1;
                    assert(stake_key(l[x]) == k0);
                }
            }
            assert(l.push(e1).drop_last() =~= l);
        }
    } else {
        lemma_owner_total_other(items, e0, u);
        lemma_owner_total_other(l, e1, u);
    }
}

proof fn lemma_stake_payments_counts(m: ContractModel, caller: Seq<u8>, ps: Seq<PaymentModel>)
    requires
        owner_entries_agree(m.staked_iter, m.staked, caller),
        counts_agree(m),
        forall|i: int| 0 <= i < ps.len() ==> #[trigger] ps[i].2 > 0,
        stake_payments(m, caller, ps) is Ok,
    ensures
        counts_agree(stake_payments(m, caller, ps)->Ok_0),
    decreases ps.len(),
{
    if ps.len() > 0 {
        let front = ps.drop_last();
        assert forall|i: int| 0 <= i < front.len() implies #[trigger] front[i].2 > 0 by {
            assert(front[i] == ps[i]);
        }
        lemma_stake_payments_counts(m, caller, front);
        lemma_stake_payments_consistent(m, caller, front);
        let m1 = stake_payments(m, caller, front)->Ok_0;
        let m2 = stake_payments(m, caller, ps)->Ok_0;
        let (token, nonce, amount) = ps.last();
        assert(ps.last().2 > 0) by {
            assert(ps[ps.len() - 1].2 > 0);
        }
        let k0 = (caller, token, nonce);
        let v = amount_at(m1.staked, k0) + amount;
        assert forall|u: Seq<u8>| #[trigger] u64_at(m2.nb_staked, u) == owner_total(m2.staked_iter, u) by {
            lemma_set_entry_total(m1.staked_iter, m1.staked, k0, v, u);
            assert(u64_at(m1.nb_staked, u) == owner_total(m1.staked_iter, u));
        }
    }
}

/// Staking keeps each owner's token count equal to the total of its staked
/// entries, where the caller's entries agree with its stakes and the payments
/// are of non-zero amounts.
pub proof fn law_stake_keeps_counts(m: ContractModel, ctx: CallContext, ps: Seq<PaymentModel>)
    requires
        owner_entries_agree(m.staked_iter, m.staked, ctx.caller@),
        counts_agree(m),
        forall|i: int| 0 <= i < ps.len() ==> #[trigger] ps[i].2 > 0,
        stake_of(m, ctx, ps) is Ok,
    ensures
        counts_agree(stake_of(m, ctx, ps)->Ok_0.0),
{
    law_claim_brings_caller_up_to_date(m, ctx);
    let m1 = claim_of(m, ctx)->Ok_0.0;
    lemma_stake_payments_counts(m1, ctx.caller@, ps);
}

proof fn lemma_unstake_single_counts(m: ContractModel, ctx: CallContext, token: Seq<u8>, nonce: u64)
    requires
        owner_entries_agree(m.staked_iter, m.staked, ctx.caller@),
        counts_agree(m),
        unstake_single_of(m, ctx, token, nonce) is Ok,
    ensures
        counts_agree(unstake_single_of(m, ctx, token, nonce)->Ok_0.0),
{
    law_claim_brings_caller_up_to_date(m, ctx);
    let m1 = claim_of(m, ctx)->Ok_0.0;
    let m2 = unstake_single_of(m, ctx, token, nonce)->Ok_0.0;
    let c = ctx.caller@;
    let k0 = (c, token, nonce);
    let staked = amount_at(m1.staked, k0);
    let v = (staked - 1) as nat;
    assert forall|u: Seq<u8>| #[trigger] u64_at(m2.nb_staked, u) == owner_total(m2.staked_iter, u) by {
        lemma_set_entry_total(m1.staked_iter, m1.staked, k0, v, u);
        assert(u64_at(m1.nb_staked, u) == owner_total(m1.staked_iter, u));
    }
}

proof fn lemma_unstake_repeat_counts(
    m: ContractModel,
    ctx: CallContext,
    token: Seq<u8>,
    nonce: u64,
    quantity: nat,
)
    requires
        owner_entries_agree(m.staked_iter, m.staked, ctx.caller@),
        counts_agree(m),
        unstake_repeat(m, ctx, token, nonce, quantity) is Ok,
    ensures
        counts_agree(unstake_repeat(m, ctx, token, nonce, quantity)->Ok_0.0),
    decreases quantity,
{
    if quantity > 0 {
        lemma_unstake_repeat_counts(m, ctx, token, nonce, (quantity - 1) as nat);
        lemma_unstake_repeat_consistent(m, ctx, token, nonce, (quantity - 1) as nat);
        let m1 = unstake_repeat(m, ctx, token, nonce, (quantity - 1) as nat)->Ok_0.0;
        lemma_unstake_single_counts(m1, ctx, token, nonce);
    }
}

/// Unstaking keeps each owner's token count equal to the total of its staked
/// entries, where the caller's entries agree with its stakes.
pub proof fn law_unstake_keeps_counts(
    m: ContractModel,
    ctx: CallContext,
    items: Seq<(Seq<u8>, u64, u64)>,
)
    requires
        owner_entries_agree(m.staked_iter, m.staked, ctx.caller@),
        counts_agree(m),
        unstake_list(m, ctx, items) is Ok,
    ensures
        counts_agree(unstake_list(m, ctx, items)->Ok_0.0),
    decreases items.len(),
{
    if items.len() > 0 {
        law_unstake_keeps_counts(m, ctx, items.drop_last());
        law_unstake_keeps_caller_entries(m, ctx, items.drop_last());
        let m1 = unstake_list(m, ctx, items.drop_last())->Ok_0.0;
        let (token, nonce, quantity) = items.last();
        lemma_unstake_repeat_counts(m1, ctx, token, nonce, quantity as nat);
    }
}

/// Unstaking a token right after staking it gives back the stake records as
/// they were: the staked amount, the recorded entries, the caller's token
/// count and the number of players. (The entries must not already hold that
/// token with an amount of 0 or 1 while nothing of it is staked.)
pub proof fn law_unstake_undoes_stake(
    m: ContractModel,
    ctx: CallContext,
    ctx2: CallContext,
    token: Seq<u8>,
    nonce: u64,
)
    requires
        ctx2.caller@ == ctx.caller@,
        amount_at(m.staked, (ctx.caller@, token, nonce)) == 0,
        !m.staked_iter.contains((ctx.caller@, token, nonce, 0nat)),
        !m.staked_iter.contains((ctx.caller@, token, nonce, 1nat)),
        stake_of(m, ctx, seq![(token, nonce, 1nat)]) is Ok,
        unstake_single_of(stake_of(m, ctx, seq![(token, nonce, 1nat)])->Ok_0.0, ctx2, token, nonce) is Ok,
    ensures
        ({
            let m1 = stake_of(m, ctx, seq![(token, nonce, 1nat)])->Ok_0.0;
            let m3 = unstake_single_of(m1, ctx2, token, nonce)->Ok_0.0;
            &&& amount_at(m3.staked, (ctx.caller@, token, nonce)) == 0
            &&& m3.staked_iter == m.staked_iter
            &&& u64_at(m3.nb_staked, ctx.caller@) == u64_at(m.nb_staked, ctx.caller@)
            &&& m3.nb_players == m.nb_players
        }),
{
    let c = ctx.caller@;
    let key = (c, token, nonce);
    let p: PaymentModel = (token, nonce, 1nat);
    let ps = seq![p];
    law_claim_brings_caller_up_to_date(m, ctx);
    let mc = claim_of(m, ctx)->Ok_0.0;
    assert(ps.drop_last() =~= Seq::<PaymentModel>::empty());
    assert(stake_payments(mc, c, Seq::<PaymentModel>::empty()) == Ok::<ContractModel, ContractError>(mc));
    assert(ps.last() == p);
    assert(stake_payments(mc, c, ps) == stake_payment(mc, c, p));
    let m1 = stake_of(m, ctx, ps)->Ok_0.0;
    assert(m1 == stake_payment(mc, c, p)->Ok_0);
    let x0 = (c, token, nonce, 0nat);
    let x = (c, token, nonce, 1nat);
    assert(seq_without(m.staked_iter, x0) == m.staked_iter);
    assert(m1.staked_iter == m.staked_iter.push(x));
    law_claim_brings_caller_up_to_date(m1, ctx2);
    let m1c = claim_of(m1, ctx2)->Ok_0.0;
    assert(amount_at(m1c.staked, key) == 1);
    let s1 = m.staked_iter.push(x);
    assert(s1.contains(x)) by {
        assert(s1[s1.len() - 1] == x);
    }
    let j = s1.index_of(x);
    assert(j == s1.len() - 1) by {
        assert(0 <= j < s1.len() && s1[j] == x);
        if j < s1.len() - 1 {
            assert(m.staked_iter[j] == x);
            assert(m.staked_iter.contains(x));
        }
    }
    assert(seq_without(s1, x) =~= m.staked_iter);
}

/// The owners with tokens staked.
pub open spec fn players(m: ContractModel) -> Set<Seq<u8>> {
    Set::new(|u: Seq<u8>| u64_at(m.nb_staked, u) > 0)
}

/// The player count is the number of owners with tokens staked.
pub open spec fn players_counted(m: ContractModel) -> bool {
    players(m).finite() && m.nb_players == players(m).len()
}

proof fn lemma_stake_payments_players(m: ContractModel, caller: Seq<u8>, ps: Seq<PaymentModel>)
    requires
        players_counted(m),
        forall|i: int| 0 <= i < ps.len() ==> #[trigger] ps[i].2 > 0,
        stake_payments(m, caller, ps) is Ok,
    ensures
        players_counted(stake_payments(m, caller, ps)->Ok_0),
    decreases ps.len(),
{
    if ps.len() > 0 {
        let front = ps.drop_last();
        assert forall|i: int| 0 <= i < front.len() implies #[trigger] front[i].2 > 0 by {
            assert(front[i] == ps[i]);
        }
        lemma_stake_payments_players(m, caller, front);
        let m1 = stake_payments(m, caller, front)->Ok_0;
        let m2 = stake_payments(m, caller, ps)->Ok_0;
        assert(ps.last().2 > 0) by {
            assert(ps[ps.len() - 1].2 > 0);
        }
        if u64_at(m1.nb_staked, caller) == 0 {
            assert(players(m2) =~= players(m1).insert(caller));
            assert(!players(m1).contains(caller));
        } else {
            assert(players(m2) =~= players(m1));
        }
    }
}

/// Staking keeps the player count equal to the number of owners with tokens
/// staked, for payments of non-zero amounts.
pub proof fn law_stake_keeps_player_count(m: ContractModel, ctx: CallContext, ps: Seq<PaymentModel>)
    requires
        players_counted(m),
        forall|i: int| 0 <= i < ps.len() ==> #[trigger] ps[i].2 > 0,
        stake_of(m, ctx, ps) is Ok,
    ensures
        players_counted(stake_of(m, ctx, ps)->Ok_0.0),
{
    law_claim_brings_caller_up_to_date(m, ctx);
    let m1 = claim_of(m, ctx)->Ok_0.0;
    assert(players(m1) =~= players(m));
    lemma_stake_payments_players(m1, ctx.caller@, ps);
}

proof fn lemma_unstake_single_players(m: ContractModel, ctx: CallContext, token: Seq<u8>, nonce: u64)
    requires
        players_counted(m),
        unstake_single_of(m, ctx, token, nonce) is Ok,
    ensures
        players_counted(unstake_single_of(m, ctx, token, nonce)->Ok_0.0),
{
    law_claim_brings_caller_up_to_date(m, ctx);
    let m1 = claim_of(m, ctx)->Ok_0.0;
    let m2 = unstake_single_of(m, ctx, token, nonce)->Ok_0.0;
    let c = ctx.caller@;
    assert(players(m1) =~= players(m));
    if u64_at(m1.nb_staked, c) == 1 {
        assert(players(m1).contains(c));
        assert(players(m2) =~= players(m1).remove(c));
    } else {
        assert(players(m2) =~= players(m1));
    }
}

proof fn lemma_unstake_repeat_players(
    m: ContractModel,
    ctx: CallContext,
    token: Seq<u8>,
    nonce: u64,
    quantity: nat,
)
    requires
        players_counted(m),
        unstake_repeat(m, ctx, token, nonce, quantity) is Ok,
    ensures
        players_counted(unstake_repeat(m, ctx, token, nonce, quantity)->Ok_0.0),
    decreases quantity,
{
    if quantity > 0 {
        lemma_unstake_repeat_players(m, ctx, token, nonce, (quantity - 1) as nat);
        let m1 = unstake_repeat(m, ctx, token, nonce, (quantity - 1) as nat)->Ok_0.0;
        lemma_unstake_single_players(m1, ctx, token, nonce);
    }
}

/// Unstaking keeps the player count equal to the number of owners with
/// tokens staked.
pub proof fn law_unstake_keeps_player_count(
    m: ContractModel,
    ctx: CallContext,
    items: Seq<(Seq<u8>, u64, u64)>,
)
    requires
        players_counted(m),
        unstake_list(m, ctx, items) is Ok,
    ensures
        players_counted(unstake_list(m, ctx, items)->Ok_0.0),
    decreases items.len(),
{
    if items.len() > 0 {
        law_unstake_keeps_player_count(m, ctx, items.drop_last());
        let m1 = unstake_list(m, ctx, items.drop_last())->Ok_0.0;
        let (token, nonce, quantity) = items.last();
        lemma_unstake_repeat_players(m1, ctx, token, nonce, quantity as nat);
    }
}

/// `m1` and `m2` agree on everything the rewards are computed from.
pub open spec fn same_reward_inputs(m1: ContractModel, m2: ContractModel) -> bool {
    &&& m1.genesis_tokenid == m2.genesis_tokenid
    &&& m1.citizen_tokenid == m2.citizen_tokenid
    &&& m1.episodes_rewards == m2.episodes_rewards
    &&& m1.staked_iter == m2.staked_iter
}

proof fn lemma_staked_rewards_same_inputs(
    m1: ContractModel,
    m2: ContractModel,
    ctx: CallContext,
    episode: u64,
    addr: Seq<u8>,
    token: Seq<u8>,
    items: Seq<StakedItem>,
    acc: nat,
)
    requires
        same_reward_inputs(m1, m2),
    ensures
        staked_rewards_from(m1, ctx, episode, addr, token, items, acc) == staked_rewards_from(
            m2,
            ctx,
            episode,
            addr,
            token,
            items,
            acc,
        ),
    decreases items.len(),
{
    if items.len() > 0 {
        lemma_staked_rewards_same_inputs(m1, m2, ctx, episode, addr, token, items.drop_last(), acc);
        reveal(reward_of);
        assert(reward_of(m1, ctx, episode, token, items.last().2) == reward_of(
            m2,
            ctx,
            episode,
            token,
            items.last().2,
        ));
    }
}

proof fn lemma_episode_rewards_same_inputs(
    m1: ContractModel,
    m2: ContractModel,
    ctx: CallContext,
    episode: u64,
    addr: Seq<u8>,
    tokens: Seq<Seq<u8>>,
    acc: nat,
)
    requires
        same_reward_inputs(m1, m2),
    ensures
        episode_rewards_from(m1, ctx, episode, addr, tokens, acc) == episode_rewards_from(
            m2,
            ctx,
            episode,
            addr,
            tokens,
            acc,
        ),
    decreases tokens.len(),
{
    if tokens.len() > 0 {
        lemma_episode_rewards_same_inputs(m1, m2, ctx, episode, addr, tokens.drop_last(), acc);
        let prev = episode_rewards_from(m1, ctx, episode, addr, tokens.drop_last(), acc);
        if prev is Ok {
            lemma_staked_rewards_same_inputs(
                m1,
                m2,
                ctx,
                episode,
                addr,
                tokens.last(),
                m1.staked_iter,
                prev->Ok_0,
            );
        }
    }
}

/// After a claim of the current episode, claiming it again in the same block,
/// with the claimant's last claim left as it was set, changes nothing and pays
/// nothing.
proof fn lemma_claim_current_again(
    m0: ContractModel,
    m2: ContractModel,
    ctx: CallContext,
    addr: Seq<u8>,
)
    requires
        claim_ecity_of(m0, ctx, m0.current_episode, addr) is Ok,
        m2 == (ContractModel {
            last_episode_claimed: m2.last_episode_claimed,
            ..claim_ecity_of(m0, ctx, m0.current_episode, addr)->Ok_0.0
        }),
    ensures
        claim_ecity_of(m2, ctx, m0.current_episode, addr) == Ok::<
            (ContractModel, Seq<TransferModel>),
            ContractError,
        >((m2, Seq::empty())),
{
    let e = m0.current_episode;
    let now = ctx.block_timestamp;
    let stake_time = u64_at(m0.staked_time, addr);
    let start = u64_at(m0.episodes_timestamps, e);
    let m1 = claim_ecity_of(m0, ctx, e, addr)->Ok_0.0;
    if amount_at(m0.episodes_rewards, e) == 0 || stake_time > start + EPISODE_DURATION {
        assert(m1 == m0);
    } else {
        assert(u64_at(m2.staked_time, addr) == now);
        if now <= start + EPISODE_DURATION {
            assert(same_reward_inputs(m2, m0));
            lemma_episode_rewards_same_inputs(m2, m0, ctx, e, addr, m0.collections, 0);
            let total = episode_rewards_from(m0, ctx, e, addr, m0.collections, 0)->Ok_0;
            assert(crate::contract::capped_time(0) == 0);
            assert(total * 0 == 0);
            let claimed = amount_at(m2.claimed_per_episode, e);
            assert(m2.claimed_per_episode.dom().contains(e));
            assert(m2.claimed_per_episode.insert(e, claimed) =~= m2.claimed_per_episode);
            assert(m2.staked_time.dom().contains(addr));
            assert(m2.staked_time.insert(addr, now) =~= m2.staked_time);
            let m3 = claim_ecity_of(m2, ctx, e, addr)->Ok_0.0;
            assert(m3 == m2);
        }
    }
}

/// A claim cannot be collected twice: right after a successful claim, a
/// second claim by the same caller in the same block succeeds, pays nothing
/// and changes nothing. (The caller's last claimed episode must not lie past
/// the current one, as it never does once set by a claim.)
pub proof fn law_claim_twice_pays_nothing(m: ContractModel, ctx: CallContext)
    requires
        claim_of(m, ctx) is Ok,
        u64_at(m.last_episode_claimed, ctx.caller@) <= m.current_episode,
    ensures
        ({
            let m2 = claim_of(m, ctx)->Ok_0.0;
            claim_of(m2, ctx) == Ok::<(ContractModel, Seq<TransferModel>), ContractError>(
                (m2, Seq::empty()),
            )
        }),
{
    let c = ctx.caller@;
    let last = u64_at(m.last_episode_claimed, c);
    let ce = m.current_episode;
    law_claim_brings_caller_up_to_date(m, ctx);
    let (m1, t) = claim_episodes(m, ctx, c, last, ce + 1)->Ok_0;
    let m2 = claim_of(m, ctx)->Ok_0.0;
    assert(claim_episodes(m, ctx, c, last, ce as int) is Ok);
    lemma_claim_episodes_effects(m, ctx, c, last, ce as int);
    let m0 = claim_episodes(m, ctx, c, last, ce as int)->Ok_0.0;
    assert(m0.current_episode == ce);
    assert(m1 == claim_ecity_of(m0, ctx, ce, c)->Ok_0.0);
    assert(m2 == (ContractModel { last_episode_claimed: m2.last_episode_claimed, ..m1 }));
    lemma_claim_current_again(m0, m2, ctx, c);
    assert(u64_at(m2.last_episode_claimed, c) == ce);
    assert(claim_episodes(m2, ctx, c, ce, ce as int) == Ok::<
        (ContractModel, Seq<TransferModel>),
        ContractError,
    >((m2, Seq::empty())));
    assert(Seq::<TransferModel>::empty() + Seq::<TransferModel>::empty() =~= Seq::<TransferModel>::empty());
    assert(m2.last_episode_claimed.dom().contains(c));
    assert(m2.last_episode_claimed.insert(c, ce) =~= m2.last_episode_claimed);
}

/// Rewards add up over an owner's entries: an entry of the owner in the
/// collection with a non-zero amount adds its reward to the total, any other
/// entry adds nothing, and a failing reward fails the total.
pub proof fn law_staked_rewards_add_up(
    m: ContractModel,
    ctx: CallContext,
    episode: u64,
    addr: Seq<u8>,
    token: Seq<u8>,
    items: Seq<StakedItem>,
    it: StakedItem,
    acc: nat,
)
    requires
        staked_rewards_from(m, ctx, episode, addr, token, items, acc) is Ok,
    ensures
        ({
            let s = staked_rewards_from(m, ctx, episode, addr, token, items, acc)->Ok_0;
            let after = staked_rewards_from(m, ctx, episode, addr, token, items.push(it), acc);
            &&& s >= acc
            &&& (it.0 == addr && it.1 == token && it.3 != 0) ==> match reward_of(
                m,
                ctx,
                episode,
                token,
                it.2,
            ) {
                Ok(v) => after == Ok::<nat, ContractError>(s + v),
                Err(e) => after == Err::<nat, ContractError>(e),
            }
            &&& !(it.0 == addr && it.1 == token && it.3 != 0) ==> after == Ok::<nat, ContractError>(s)
        }),
{
    lemma_staked_rewards_at_least(m, ctx, episode, addr, token, items, acc);
    assert(items.push(it).drop_last() =~= items);
    assert(items.push(it).last() == it);
}

proof fn lemma_staked_rewards_at_least(
    m: ContractModel,
    ctx: CallContext,
    episode: u64,
    addr: Seq<u8>,
    token: Seq<u8>,
    items: Seq<StakedItem>,
    acc: nat,
)
    requires
        staked_rewards_from(m, ctx, episode, addr, token, items, acc) is Ok,
    ensures
        staked_rewards_from(m, ctx, episode, addr, token, items, acc)->Ok_0 >= acc,
    decreases items.len(),
{
    if items.len() > 0 {
        lemma_staked_rewards_at_least(m, ctx, episode, addr, token, items.drop_last(), acc);
    }
}

/// The running total starts where it is told: summing from `acc` is summing
/// from nothing and adding `acc`, for each collection and over all of them.
pub proof fn law_rewards_sum_from_start(
    m: ContractModel,
    ctx: CallContext,
    episode: u64,
    addr: Seq<u8>,
    token: Seq<u8>,
    items: Seq<StakedItem>,
    tokens: Seq<Seq<u8>>,
    acc: nat,
)
    ensures
        staked_rewards_from(m, ctx, episode, addr, token, items, acc) == match staked_rewards_from(
            m,
            ctx,
            episode,
            addr,
            token,
            items,
            0,
        ) {
            Ok(s) => Ok::<nat, ContractError>(s + acc),
            Err(e) => Err(e),
        },
        episode_rewards_from(m, ctx, episode, addr, tokens, acc) == match episode_rewards_from(
            m,
            ctx,
            episode,
            addr,
            tokens,
            0,
        ) {
            Ok(s) => Ok::<nat, ContractError>(s + acc),
            Err(e) => Err(e),
        },
{
    lemma_staked_shift(m, ctx, episode, addr, token, items, acc);
    lemma_episode_shift(m, ctx, episode, addr, tokens, acc);
}

proof fn lemma_staked_shift(
    m: ContractModel,
    ctx: CallContext,
    episode: u64,
    addr: Seq<u8>,
    token: Seq<u8>,
    items: Seq<StakedItem>,
    acc: nat,
)
    ensures
        staked_rewards_from(m, ctx, episode, addr, token, items, acc) == match staked_rewards_from(
            m,
            ctx,
            episode,
            addr,
            token,
            items,
            0,
        ) {
            Ok(s) => Ok::<nat, ContractError>(s + acc),
            Err(e) => Err(e),
        },
    decreases items.len(),
{
    if items.len() > 0 {
        lemma_staked_shift(m, ctx, episode, addr, token, items.drop_last(), acc);
    }
}

proof fn lemma_staked_shift_any(
    m: ContractModel,
    ctx: CallContext,
    episode: u64,
    addr: Seq<u8>,
    token: Seq<u8>,
    items: Seq<StakedItem>,
    a: nat,
    b: nat,
)
    ensures
        staked_rewards_from(m, ctx, episode, addr, token, items, a + b) == match staked_rewards_from(
            m,
            ctx,
            episode,
            addr,
            token,
            items,
            a,
        ) {
            Ok(s) => Ok::<nat, ContractError>(s + b),
            Err(e) => Err(e),
        },
{
    lemma_staked_shift(m, ctx, episode, addr, token, items, a + b);
    lemma_staked_shift(m, ctx, episode, addr, token, items, a);
}

proof fn lemma_episode_shift(
    m: ContractModel,
    ctx: CallContext,
    episode: u64,
    addr: Seq<u8>,
    tokens: Seq<Seq<u8>>,
    acc: nat,
)
    ensures
        episode_rewards_from(m, ctx, episode, addr, tokens, acc) == match episode_rewards_from(
            m,
            ctx,
            episode,
            addr,
            tokens,
            0,
        ) {
            Ok(s) => Ok::<nat, ContractError>(s + acc),
            Err(e) => Err(e),
        },
    decreases tokens.len(),
{
    if tokens.len() > 0 {
        lemma_episode_shift(m, ctx, episode, addr, tokens.drop_last(), acc);
        let prev = episode_rewards_from(m, ctx, episode, addr, tokens.drop_last(), 0);
        if prev is Ok {
            lemma_staked_shift_any(m, ctx, episode, addr, tokens.last(), m.staked_iter, prev->Ok_0, acc);
        }
    }
}

/// Genesis buildings come in pairs of nonces, from 1 and 2 to the town hall's
/// 15 and 16: the two of a pair are the same building, the odd one classic and
/// the even one legendary (the town hall has rarities of its own); no other
/// nonce names a building.
pub proof fn law_genesis_nonces(n: u64)
    ensures
        (genesis_building_attributes(n).building_type != BuildingType::NoBuilding) == (1 <= n <= 16),
        (genesis_building_attributes(n).building_type == BuildingType::TownHall) == (n == 15 || n
            == 16),
        genesis_building_attributes(n).building_type != BuildingType::TownHall
            ==> genesis_building_attributes(n).building_rarity == if n % 2 == 1 {
            BuildingRarity::GenesisClassic
        } else {
            BuildingRarity::GenesisLegendary
        },
        genesis_building_attributes(n).building_type == BuildingType::TownHall
            ==> genesis_building_attributes(n).building_rarity == if n % 2 == 1 {
            BuildingRarity::TownHallClassic
        } else {
            BuildingRarity::TownHallLegendary
        },
        n % 2 == 1 && n < 16 ==> genesis_building_attributes(n).building_type
            == genesis_building_attributes((n + 1) as u64).building_type,
        1 <= n < 16 && n % 2 == 0 ==> genesis_building_attributes(n).building_type
            != genesis_building_attributes((n + 1) as u64).building_type,
{
}

/// A genesis building that is not the town hall earns an eighth of the
/// episode's rewards shared by 961 where its nonce is odd, by 31 where it is
/// even.
pub proof fn law_genesis_reward_by_parity(
    m: ContractModel,
    ctx: CallContext,
    episode: u64,
    token: Seq<u8>,
    nonce: u64,
)
    requires
        m.genesis_tokenid == Some(token),
        1 <= nonce <= 14,
    ensures
        reward_of(m, ctx, episode, token, nonce) == Ok::<nat, ContractError>(
            if nonce % 2 == 1 {
                amount_at(m.episodes_rewards, episode) / 2 / 2 / 2 / 961
            } else {
                amount_at(m.episodes_rewards, episode) / 2 / 2 / 2 / 31
            },
        ),
{
    reveal(reward_of);
    law_genesis_nonces(nonce);
}

/// Expansion buildings come in threes of nonces from 1 to 24: the three are
/// the same building, classic, rare and legendary in turn.
pub proof fn law_expansion_nonces(n: u64)
    requires
        1 <= n <= 24,
    ensures
        expansion_building_attributes(n) is Ok,
        expansion_building_attributes(n)->Ok_0.building_rarity == if n % 3 == 1 {
            BuildingRarity::ExpansionClassic
        } else if n % 3 == 2 {
            BuildingRarity::ExpansionRare
        } else {
            BuildingRarity::ExpansionLegendary
        },
        n % 3 != 0 ==> expansion_building_attributes(n)->Ok_0.building_type
            == expansion_building_attributes((n + 1) as u64)->Ok_0.building_type,
        n % 3 == 0 && n < 24 ==> expansion_building_attributes(n)->Ok_0.building_type
            != expansion_building_attributes((n + 1) as u64)->Ok_0.building_type,
{
}

/// Unstaking claims first: it succeeds only where the caller's claim does,
/// pays what the claim pays and then sends the token back, leaves the claim's
/// stake time and claimed totals, brings the caller up to the current
/// episode, and takes one token off its stake.
pub proof fn law_unstake_single_claims_first(m: ContractModel, ctx: CallContext, token: Seq<u8>, nonce: u64)
    requires
        unstake_single_of(m, ctx, token, nonce) is Ok,
    ensures
        claim_of(m, ctx) is Ok,
        ({
            let (m2, t) = unstake_single_of(m, ctx, token, nonce)->Ok_0;
            let (m1, t1) = claim_of(m, ctx)->Ok_0;
            &&& t == t1.push((ctx.caller@, token, nonce, 1nat))
            &&& m2.staked_time == m1.staked_time
            &&& m2.claimed_per_episode == m1.claimed_per_episode
            &&& u64_at(m2.last_episode_claimed, ctx.caller@) == m.current_episode
            &&& amount_at(m2.staked, (ctx.caller@, token, nonce)) + 1 == amount_at(
                m.staked,
                (ctx.caller@, token, nonce),
            )
        }),
{
    law_claim_brings_caller_up_to_date(m, ctx);
}

/// An owner whose stake time lies past the end of an episode has had that
/// episode claimed: claiming it pays nothing and changes nothing.
pub proof fn law_claim_after_episode_end_pays_nothing(
    m: ContractModel,
    ctx: CallContext,
    episode: u64,
    addr: Seq<u8>,
    lenient: bool,
)
    requires
        u64_at(m.episodes_timestamps, episode) + EPISODE_DURATION <= u64::MAX,
        u64_at(m.staked_time, addr) > u64_at(m.episodes_timestamps, episode) + EPISODE_DURATION,
    ensures
        claim_ecity_with(m, ctx, episode, addr, lenient) == Ok::<
            (ContractModel, Seq<TransferModel>),
            ContractError,
        >((m, Seq::empty())),
{
}

/// Deploying stores each token identifier that is not stored yet, and the
/// router address where none is, and keeps what is stored; it fails exactly
/// where an identifier to be stored is not a valid one, and touches nothing
/// else.
pub proof fn law_init_stores_what_is_unset(
    m: ContractModel,
    ecity: Seq<u8>,
    gns: Seq<u8>,
    exp: Seq<u8>,
    ctzn: Seq<u8>,
    router: Seq<u8>,
)
    ensures
        (init_of(m, ecity, gns, exp, ctzn, router) is Ok) == ((m.ecity_tokenid is Some
            || valid_token_identifier(ecity)) && (m.genesis_tokenid is Some || valid_token_identifier(
            gns,
        )) && (m.expansion_tokenid is Some || valid_token_identifier(exp)) && (
        m.citizen_tokenid is Some || valid_token_identifier(ctzn))),
        init_of(m, ecity, gns, exp, ctzn, router) is Ok ==> {
            let r = init_of(m, ecity, gns, exp, ctzn, router)->Ok_0;
            &&& r.ecity_tokenid == if m.ecity_tokenid is None {
                Some(ecity)
            } else {
                m.ecity_tokenid
            }
            &&& r.genesis_tokenid == if m.genesis_tokenid is None {
                Some(gns)
            } else {
                m.genesis_tokenid
            }
            &&& r.expansion_tokenid == if m.expansion_tokenid is None {
                Some(exp)
            } else {
                m.expansion_tokenid
            }
            &&& r.citizen_tokenid == if m.citizen_tokenid is None {
                Some(ctzn)
            } else {
                m.citizen_tokenid
            }
            &&& r.router_address == if m.router_address.len() == 0 {
                router
            } else {
                m.router_address
            }
            &&& r.staked == m.staked
            &&& r.staked_iter == m.staked_iter
            &&& r.collections == m.collections
            &&& r.episodes_rewards == m.episodes_rewards
            &&& r.current_episode == m.current_episode
            &&& r.claimed_per_episode == m.claimed_per_episode
        },
{
}

/// A claim of an episode the owner staked in pays the owner's total reward
/// scaled by the time staked since its stake time, capped to one episode, over
/// one episode; it records that much more as claimed, and moves the stake
/// time to now for the current episode or to the episode's end for a past one.
pub proof fn law_claim_pays_share_of_staked_time(
    m: ContractModel,
    ctx: CallContext,
    episode: u64,
    addr: Seq<u8>,
)
    requires
        amount_at(m.episodes_rewards, episode) > 0,
        episode <= m.current_episode,
        u64_at(m.episodes_timestamps, episode) + EPISODE_DURATION <= u64::MAX,
        u64_at(m.staked_time, addr) <= u64_at(m.episodes_timestamps, episode) + EPISODE_DURATION,
        u64_at(m.staked_time, addr) <= ctx.block_timestamp,
        episode_rewards_from(m, ctx, episode, addr, m.collections, 0) is Ok,
        m.ecity_tokenid is Some,
    ensures
        ({
            let total = episode_rewards_from(m, ctx, episode, addr, m.collections, 0)->Ok_0;
            let span = (ctx.block_timestamp - u64_at(m.staked_time, addr)) as nat;
            let staked = if span > EPISODE_DURATION { EPISODE_DURATION as nat } else { span };
            let paid = total * staked / (EPISODE_DURATION as nat);
            let (m2, t) = claim_ecity_of(m, ctx, episode, addr)->Ok_0;
            &&& claim_ecity_of(m, ctx, episode, addr) is Ok
            &&& transfers_total(t) == paid
            &&& t.len() == if paid > 0 { 1int } else { 0int }
            &&& amount_at(m2.claimed_per_episode, episode) == amount_at(m.claimed_per_episode, episode)
                + paid
            &&& u64_at(m2.staked_time, addr) == if episode == m.current_episode {
                ctx.block_timestamp as int
            } else {
                u64_at(m.episodes_timestamps, episode) + EPISODE_DURATION
            }
        }),
{
    let (m2, t) = claim_ecity_of(m, ctx, episode, addr)->Ok_0;
    assert(transfers_total(Seq::<TransferModel>::empty()) == 0);
    if t.len() == 1 {
        assert(t.drop_last() =~= Seq::<TransferModel>::empty());
    }
}

/// The shares of an episode's rewards: a genesis classic building gets an
/// eighth shared by 961 and a legendary one by 31; an expansion building a
/// twelfth shared by 3500, 400 or 40 by rarity; a citizen a sixth shared by
/// 7120, 800 or 80 by rarity level 1, 2 or 3; anything else nothing.
pub proof fn law_reward_formulas(r: nat, level: nat)
    ensures
        genesis_reward(r, BuildingRarity::GenesisClassic) == r / 8 / 961,
        genesis_reward(r, BuildingRarity::TownHallClassic) == r / 8 / 961,
        genesis_reward(r, BuildingRarity::GenesisLegendary) == r / 8 / 31,
        genesis_reward(r, BuildingRarity::TownHallLegendary) == r / 8 / 31,
        genesis_reward(r, BuildingRarity::NoRarity) == 0,
        genesis_reward(r, BuildingRarity::ExpansionRare) == 0,
        expansion_reward(r, BuildingRarity::ExpansionClassic) == r / 12 / 3500,
        expansion_reward(r, BuildingRarity::ExpansionRare) == r / 12 / 400,
        expansion_reward(r, BuildingRarity::ExpansionLegendary) == r / 12 / 40,
        expansion_reward(r, BuildingRarity::GenesisClassic) == 0,
        citizen_reward(r, level) == if level == 1 {
            r / 6 / 7120
        } else if level == 2 {
            r / 6 / 800
        } else if level == 3 {
            r / 6 / 80
        } else {
            0
        },
{
    vstd::arithmetic::div_mod::lemma_div_denominator(r as int, 2, 2);
    vstd::arithmetic::div_mod::lemma_div_denominator(r as int, 4, 2);
    vstd::arithmetic::div_mod::lemma_div_denominator(r as int, 4, 3);
    vstd::arithmetic::div_mod::lemma_div_denominator(r as int, 2, 3);
}

} // verus!
