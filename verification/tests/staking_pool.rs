use vault_rewards::staking::NominatorStakingPool;
use vault_rewards::Error;

const VAULT: u64 = 10;
const OTHER_VAULT: u64 = 11;
const NOMINATOR: u64 = 21;
const HELPER: u64 = 22;
const TOKEN: u64 = 7;

#[test]
fn slashing_isolates_epochs() {
    let mut staking = NominatorStakingPool::new();
    staking.deposit_stake(VAULT, NOMINATOR, 100).unwrap();
    assert_eq!(staking.compute_stake(VAULT, NOMINATOR), 100);
    assert_eq!(staking.nonce(VAULT), 0);

    let refunds = staking.force_refund(VAULT);
    assert_eq!(refunds, vec![(NOMINATOR, 100)]);
    assert_eq!(staking.nonce(VAULT), 1);
    // the pre-slash stake is unreachable, not merely zeroed
    assert_eq!(staking.compute_stake(VAULT, NOMINATOR), 0);
    assert_eq!(staking.total_current_stake(VAULT), 0);

    staking.deposit_stake(VAULT, NOMINATOR, 50).unwrap();
    assert_eq!(staking.compute_stake(VAULT, NOMINATOR), 50);
    assert_eq!(staking.total_current_stake(VAULT), 50);
}

#[test]
fn slashing_leaves_other_vaults_alone() {
    let mut staking = NominatorStakingPool::new();
    staking.deposit_stake(VAULT, NOMINATOR, 100).unwrap();
    staking.deposit_stake(OTHER_VAULT, NOMINATOR, 30).unwrap();
    staking.force_refund(VAULT);
    assert_eq!(staking.compute_stake(OTHER_VAULT, NOMINATOR), 30);
    assert_eq!(staking.nonce(OTHER_VAULT), 0);
}

#[test]
fn refund_reports_every_nominator() {
    let mut staking = NominatorStakingPool::new();
    staking.deposit_stake(VAULT, NOMINATOR, 60).unwrap();
    staking.deposit_stake(VAULT, HELPER, 40).unwrap();
    let refunds = staking.force_refund(VAULT);
    assert_eq!(refunds, vec![(NOMINATOR, 60), (HELPER, 40)]);
    // slashing a vault nobody nominated refunds nothing
    let empty = staking.force_refund(OTHER_VAULT);
    assert!(empty.is_empty());
    assert_eq!(staking.nonce(OTHER_VAULT), 1);
}

#[test]
fn staking_rewards_flow_to_nominators() {
    let mut staking = NominatorStakingPool::new();
    staking.deposit_stake(VAULT, NOMINATOR, 600).unwrap();
    staking.deposit_stake(VAULT, HELPER, 400).unwrap();
    staking.distribute_reward(TOKEN, VAULT, 100).unwrap();
    assert_eq!(staking.compute_reward(TOKEN, VAULT, NOMINATOR).unwrap(), 60);
    assert_eq!(staking.compute_reward(TOKEN, VAULT, HELPER).unwrap(), 40);
    let w = staking.withdraw_reward(TOKEN, VAULT, NOMINATOR).unwrap();
    assert_eq!(w, 60);
    assert_eq!(staking.compute_reward(TOKEN, VAULT, NOMINATOR).unwrap(), 0);
    assert_eq!(staking.compute_reward(TOKEN, VAULT, HELPER).unwrap(), 40);
}

#[test]
fn staking_distribution_without_stake_is_dropped() {
    let mut staking = NominatorStakingPool::new();
    assert!(staking.distribute_reward(TOKEN, VAULT, 100).is_ok());
    assert_eq!(staking.compute_reward(TOKEN, VAULT, NOMINATOR).unwrap(), 0);
}

#[test]
fn staking_withdrawal_checks_the_balance() {
    let mut staking = NominatorStakingPool::new();
    staking.deposit_stake(VAULT, NOMINATOR, 100).unwrap();
    assert_eq!(staking.withdraw_stake(VAULT, NOMINATOR, 101), Err(Error::InsufficientStake));
    staking.withdraw_stake(VAULT, NOMINATOR, 40).unwrap();
    assert_eq!(staking.compute_stake(VAULT, NOMINATOR), 60);
    // a slash invalidates the balance entirely
    staking.force_refund(VAULT);
    assert_eq!(staking.withdraw_stake(VAULT, NOMINATOR, 1), Err(Error::InsufficientStake));
}
