use vault_rewards::fixed::FixedPoint;
use vault_rewards::fixed::SCALE;
use vault_rewards::reward::RewardPool;
use vault_rewards::Error;

const ALICE: u64 = 1;
const BOB: u64 = 2;
const CAROL: u64 = 3;
const TOKEN: u64 = 7;

#[test]
fn proportional_distribution() {
    let mut pool = RewardPool::new();
    pool.deposit_stake(ALICE, 600).unwrap();
    pool.deposit_stake(BOB, 400).unwrap();
    pool.distribute_reward(TOKEN, 100).unwrap();
    // reward per token rose by 100 / 1000 = 0.1
    assert_eq!(pool.reward_per_token_value(TOKEN).units, SCALE / 10);
    assert_eq!(pool.compute_reward(ALICE, TOKEN).unwrap(), 60);
    assert_eq!(pool.compute_reward(BOB, TOKEN).unwrap(), 40);
    assert_eq!(pool.total_rewards_amount(TOKEN), 100);
}

#[test]
fn zero_stake_distribution_is_dropped() {
    let mut pool = RewardPool::new();
    let r = pool.distribute_reward(TOKEN, 50);
    assert!(r.is_ok());
    assert_eq!(pool.reward_per_token_value(TOKEN).units, 0);
    assert_eq!(pool.total_rewards_amount(TOKEN), 0);
    assert_eq!(pool.compute_reward(ALICE, TOKEN).unwrap(), 0);
}

#[test]
fn rounding_loss_is_bounded_by_holders() {
    let mut pool = RewardPool::new();
    pool.deposit_stake(ALICE, 3).unwrap();
    pool.deposit_stake(BOB, 7).unwrap();
    // 1 over total 10: each share rounds down to zero, at most one unit lost
    pool.distribute_reward(TOKEN, 1).unwrap();
    assert_eq!(pool.compute_reward(ALICE, TOKEN).unwrap(), 0);
    assert_eq!(pool.compute_reward(BOB, TOKEN).unwrap(), 0);
    // a further 10 accumulates with the earlier remainder
    pool.distribute_reward(TOKEN, 10).unwrap();
    assert_eq!(pool.compute_reward(ALICE, TOKEN).unwrap(), 3);
    assert_eq!(pool.compute_reward(BOB, TOKEN).unwrap(), 7);
}

#[test]
fn stake_changes_never_move_earned_rewards() {
    let mut pool = RewardPool::new();
    pool.deposit_stake(ALICE, 600).unwrap();
    pool.deposit_stake(BOB, 400).unwrap();
    pool.distribute_reward(TOKEN, 100).unwrap();
    // a later deposit settles first: the earned 60 stays put
    pool.deposit_stake(ALICE, 1000).unwrap();
    assert_eq!(pool.compute_reward(ALICE, TOKEN).unwrap(), 60);
    assert_eq!(pool.stake_amount(ALICE), 1600);
    assert_eq!(pool.total_stake, 2000);
    // and only future distributions see the new weights
    pool.distribute_reward(TOKEN, 100).unwrap();
    assert_eq!(pool.compute_reward(ALICE, TOKEN).unwrap(), 140);
    assert_eq!(pool.compute_reward(BOB, TOKEN).unwrap(), 60);
}

#[test]
fn withdraw_reward_resets_the_record() {
    let mut pool = RewardPool::new();
    pool.deposit_stake(ALICE, 600).unwrap();
    pool.deposit_stake(BOB, 400).unwrap();
    pool.distribute_reward(TOKEN, 100).unwrap();
    let w = pool.withdraw_reward(ALICE, TOKEN).unwrap();
    assert_eq!(w, 60);
    assert_eq!(pool.compute_reward(ALICE, TOKEN).unwrap(), 0);
    assert_eq!(pool.compute_reward(BOB, TOKEN).unwrap(), 40);
    assert_eq!(pool.total_rewards_amount(TOKEN), 40);
}

#[test]
fn withdraw_stake_checks_the_balance() {
    let mut pool = RewardPool::new();
    pool.deposit_stake(ALICE, 600).unwrap();
    pool.distribute_reward(TOKEN, 100).unwrap();
    assert_eq!(pool.withdraw_stake(ALICE, 1000), Err(Error::InsufficientStake));
    pool.withdraw_stake(ALICE, 100).unwrap();
    assert_eq!(pool.stake_amount(ALICE), 500);
    assert_eq!(pool.total_stake, 500);
    // the reward earned on the removed stake is still there; one unit was
    // lost to rounding since 100 does not divide evenly by the stake of 600
    assert_eq!(pool.compute_reward(ALICE, TOKEN).unwrap(), 99);
}

#[test]
fn deposit_overflow_is_rejected_without_damage() {
    let mut pool = RewardPool::new();
    pool.deposit_stake(ALICE, u128::MAX).unwrap();
    assert_eq!(pool.deposit_stake(BOB, 1), Err(Error::Overflow));
    assert_eq!(pool.stake_amount(BOB), 0);
    assert_eq!(pool.total_stake, u128::MAX);
}

#[test]
fn distribute_overflow_is_rejected() {
    let mut pool = RewardPool::new();
    pool.deposit_stake(ALICE, 1000).unwrap();
    assert_eq!(pool.distribute_reward(TOKEN, u128::MAX), Err(Error::Overflow));
    assert_eq!(pool.reward_per_token_value(TOKEN).units, 0);
}

#[test]
fn clearing_resumes_until_done() {
    let mut pool = RewardPool::new();
    pool.deposit_stake(ALICE, 3).unwrap();
    pool.deposit_stake(BOB, 7).unwrap();
    pool.distribute_reward(TOKEN, 10).unwrap();
    // a later deposit settles, which adds tally and escrow entries
    pool.deposit_stake(CAROL, 10).unwrap();
    // stakes 3, accumulator 1, tally 1, escrow 1, rewards total 1
    assert!(!pool.clear_some(4));
    assert!(pool.clear_some(4));
    assert_eq!(pool.total_stake, 0);
    assert_eq!(pool.stake_amount(ALICE), 0);
    assert_eq!(pool.reward_per_token_value(TOKEN).units, 0);
    assert_eq!(pool.total_rewards_amount(TOKEN), 0);
    // clearing an empty pool reports completion at once
    assert!(pool.clear_some(0));
}

#[test]
fn fixed_point_arithmetic() {
    assert_eq!(FixedPoint::from_int(3).units, 3 * SCALE);
    assert!(FixedPoint::zero().is_zero());
    let tenth = FixedPoint { units: SCALE / 10 };
    let two = FixedPoint::from_int(2);
    assert_eq!(two.checked_add(tenth).unwrap().units, 2 * SCALE + SCALE / 10);
    assert_eq!(two.checked_sub(tenth).unwrap().units, 2 * SCALE - SCALE / 10);
    assert!(tenth.checked_sub(two).is_none());
    assert!(FixedPoint { units: u128::MAX }.checked_add(FixedPoint { units: 1 }).is_none());
    // one third, rounded down to the scale
    assert_eq!(FixedPoint::ratio(1, 3).unwrap().units, 333_333_333);
    assert!(FixedPoint::ratio(1, 0).is_none());
    assert!(FixedPoint::ratio(u128::MAX, 3).is_none());
    // 3 * (1/3 rounded down) rounds down to 0
    assert_eq!(FixedPoint::ratio(1, 3).unwrap().mul_floor(3).unwrap(), 0);
    assert_eq!(tenth.mul_floor(1000).unwrap(), 100);
    // 500 / 0.1 = 5000
    assert_eq!(tenth.div_floor(500).unwrap(), 5000);
    assert!(FixedPoint::zero().div_floor(500).is_none());
}
