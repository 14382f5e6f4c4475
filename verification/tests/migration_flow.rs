use vault_rewards::fixed::FixedPoint;
use vault_rewards::fixed::SCALE;
use vault_rewards::hierarchy::fast_track;
use vault_rewards::hierarchy::PoolHierarchy;
use vault_rewards::migration::pre_upgrade;
use vault_rewards::migration::ExtBuilder;
use vault_rewards::migration::RewardsMigration;
use vault_rewards::migration::VaultInput;
use vault_rewards::migration::Version;
use vault_rewards::Error;

const VAULT: u64 = 1;
const ACCOUNT: u64 = 1;
const COLLATERAL_CURRENCY: u64 = 100;
const WRAPPED_CURRENCY: u64 = 200;
const NATIVE_CURRENCY: u64 = 300;

fn default_migration() -> RewardsMigration {
    let mut migration = RewardsMigration::new(NATIVE_CURRENCY);
    migration.add_vault(VaultInput {
        vault: VAULT,
        collateral_currency: COLLATERAL_CURRENCY,
        wrapped_currency: WRAPPED_CURRENCY,
        secure_threshold: FixedPoint::from_int(2),
    });
    migration.set_price(COLLATERAL_CURRENCY, FixedPoint { units: SCALE / 10 });
    migration
}

#[test]
fn migration_works() {
    // assume that we are at the initial version
    let mut state = ExtBuilder::build_with(Version::V0);

    // register the old vault: collateral with the staking pool, issued
    // tokens as its flat-pool stake
    state.staking.deposit_stake(VAULT, ACCOUNT, 1000).unwrap();
    state.old_pool.deposit_stake(VAULT, 100).unwrap();

    // distribute rewards to the old vault
    assert!(state.old_pool.distribute_reward(WRAPPED_CURRENCY, 100).is_ok());
    assert_eq!(state.old_pool.compute_reward(VAULT, WRAPPED_CURRENCY).unwrap(), 100);

    // no staking rewards prior to migration
    assert_eq!(state.staking.compute_reward(WRAPPED_CURRENCY, VAULT, ACCOUNT).unwrap(), 0);

    let migration = default_migration();
    let snapshot = pre_upgrade(&state, NATIVE_CURRENCY, WRAPPED_CURRENCY);
    let report = migration.run(&mut state);
    assert!(report.migrated);
    assert_eq!(report.skipped_rewards, 0);
    assert_eq!(report.skipped_vaults, 0);
    assert!(migration.post_upgrade(&state, &snapshot, NATIVE_CURRENCY, WRAPPED_CURRENCY));

    // the old pool's records are gone
    assert_eq!(state.old_pool.stake_amount(VAULT), 0);
    assert_eq!(state.old_pool.compute_reward(VAULT, WRAPPED_CURRENCY).unwrap(), 0);

    // stake = collateral / threshold: 500 = 1000 / 2
    assert_eq!(state.hierarchy.vault_stake_amount(COLLATERAL_CURRENCY, VAULT), 500);

    // stake = sum(collateral / threshold) / price: 5000 = 500 / 0.1
    assert_eq!(state.hierarchy.capacity_stake_amount(COLLATERAL_CURRENCY), 5000);

    // the migration distributed the previous rewards
    assert_eq!(state.staking.compute_reward(WRAPPED_CURRENCY, VAULT, ACCOUNT).unwrap(), 100);

    assert_eq!(state.version, Version::V1);
}

#[test]
fn verification_flags_an_unmigrated_state() {
    let mut state = ExtBuilder::build_with(Version::V0);
    state.staking.deposit_stake(VAULT, ACCOUNT, 1000).unwrap();
    state.old_pool.deposit_stake(VAULT, 100).unwrap();
    state.old_pool.distribute_reward(WRAPPED_CURRENCY, 100).unwrap();
    let migration = default_migration();
    let snapshot = pre_upgrade(&state, NATIVE_CURRENCY, WRAPPED_CURRENCY);
    assert_eq!(snapshot.stake_entries, 1);
    // the flat pool still owes its reward, so the checks must fail
    assert!(!migration.post_upgrade(&state, &snapshot, NATIVE_CURRENCY, WRAPPED_CURRENCY));
}

#[test]
fn migration_runs_only_once() {
    let mut state = ExtBuilder::build_with(Version::V0);
    state.staking.deposit_stake(VAULT, ACCOUNT, 1000).unwrap();
    state.old_pool.deposit_stake(VAULT, 100).unwrap();
    state.old_pool.distribute_reward(WRAPPED_CURRENCY, 100).unwrap();

    let migration = default_migration();
    let first = migration.run(&mut state);
    assert!(first.migrated);
    let second = migration.run(&mut state);
    assert!(!second.migrated);

    // the second run changed nothing
    assert_eq!(state.version, Version::V1);
    assert_eq!(state.staking.compute_reward(WRAPPED_CURRENCY, VAULT, ACCOUNT).unwrap(), 100);
    assert_eq!(state.hierarchy.vault_stake_amount(COLLATERAL_CURRENCY, VAULT), 500);
    assert_eq!(state.hierarchy.capacity_stake_amount(COLLATERAL_CURRENCY), 5000);
}

#[test]
fn migration_skips_a_vault_without_a_price() {
    let mut state = ExtBuilder::build_with(Version::V0);
    state.staking.deposit_stake(VAULT, ACCOUNT, 1000).unwrap();

    let mut migration = RewardsMigration::new(NATIVE_CURRENCY);
    migration.add_vault(VaultInput {
        vault: VAULT,
        collateral_currency: COLLATERAL_CURRENCY,
        wrapped_currency: WRAPPED_CURRENCY,
        secure_threshold: FixedPoint::from_int(2),
    });
    let report = migration.run(&mut state);
    assert!(report.migrated);
    assert_eq!(report.skipped_vaults, 1);
    assert_eq!(state.hierarchy.vault_stake_amount(COLLATERAL_CURRENCY, VAULT), 0);
    assert_eq!(state.version, Version::V1);
}

#[test]
fn builder_sets_the_version() {
    let builder = ExtBuilder::new();
    let state = builder.build();
    assert_eq!(state.version, Version::V0);
    let migrated = ExtBuilder::build_with(Version::V1);
    assert_eq!(migrated.version, Version::V1);
}

#[test]
fn capacity_conversion_matches_the_worked_example() {
    let mut hierarchy = PoolHierarchy::new();
    // collateral 1000 at threshold 2.0 gives capacity 500; at price 0.1 the
    // common-unit contribution is 5000
    hierarchy
        .update_reward_stake(
            COLLATERAL_CURRENCY,
            VAULT,
            1000,
            FixedPoint::from_int(2),
            Some(FixedPoint { units: SCALE / 10 }),
        )
        .unwrap();
    assert_eq!(hierarchy.vault_stake_amount(COLLATERAL_CURRENCY, VAULT), 500);
    assert_eq!(hierarchy.capacity_stake_amount(COLLATERAL_CURRENCY), 5000);
    assert_eq!(hierarchy.vault_total_stake(COLLATERAL_CURRENCY), 500);
}

#[test]
fn capacity_conversion_reports_bad_inputs() {
    let mut hierarchy = PoolHierarchy::new();
    assert_eq!(
        hierarchy.update_reward_stake(
            COLLATERAL_CURRENCY,
            VAULT,
            1000,
            FixedPoint::zero(),
            Some(FixedPoint { units: SCALE / 10 }),
        ),
        Err(Error::ZeroDivisor)
    );
    assert_eq!(
        hierarchy.update_reward_stake(
            COLLATERAL_CURRENCY,
            VAULT,
            1000,
            FixedPoint::from_int(2),
            None,
        ),
        Err(Error::PriceUnavailable)
    );
    assert_eq!(
        PoolHierarchy::capacity_stake(u128::MAX, FixedPoint::from_int(2)),
        Err(Error::Overflow)
    );
}

#[test]
fn rewards_cascade_down_the_hierarchy() {
    let mut hierarchy = PoolHierarchy::new();
    hierarchy
        .update_reward_stake(
            COLLATERAL_CURRENCY,
            VAULT,
            1000,
            FixedPoint::from_int(2),
            Some(FixedPoint { units: SCALE / 10 }),
        )
        .unwrap();
    // reward enters at the capacity pool and is owed to the one currency
    hierarchy.distribute_reward(WRAPPED_CURRENCY, 100).unwrap();
    assert_eq!(
        hierarchy.compute_capacity_reward(COLLATERAL_CURRENCY, WRAPPED_CURRENCY).unwrap(),
        100
    );
    // pushing it down moves the whole share into the vault pool
    let moved = fast_track(&mut hierarchy, COLLATERAL_CURRENCY, WRAPPED_CURRENCY).unwrap();
    assert_eq!(moved, 100);
    assert_eq!(
        hierarchy.compute_capacity_reward(COLLATERAL_CURRENCY, WRAPPED_CURRENCY).unwrap(),
        0
    );
    assert_eq!(
        hierarchy.compute_vault_reward(COLLATERAL_CURRENCY, VAULT, WRAPPED_CURRENCY).unwrap(),
        100
    );
    // the vault's share leaves the vault pool for its staking pool
    let share = hierarchy
        .withdraw_vault_reward(COLLATERAL_CURRENCY, VAULT, WRAPPED_CURRENCY)
        .unwrap();
    assert_eq!(share, 100);
    assert_eq!(
        hierarchy.compute_vault_reward(COLLATERAL_CURRENCY, VAULT, WRAPPED_CURRENCY).unwrap(),
        0
    );
}
