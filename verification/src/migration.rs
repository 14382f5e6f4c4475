//! The one-shot, version-gated migration from a flat per-vault reward pool
//! to the two-tier hierarchy.
//!
//! A stored schema version gates the run: only a state at the initial
//! version is transformed, anything else is left untouched, so running the
//! migration twice is safe. The run redistributes every vault's accrued but
//! unwithdrawn rewards into that vault's staking pool, wipes the flat pool's
//! storage in bounded chunks, recomputes every vault's capacity stake in the
//! hierarchy from collateral, threshold and oracle price, and finally
//! advances the version. Per-vault failures are counted and skipped, never
//! fatal, so the migration always makes bounded forward progress.

use vstd::prelude::*;

use crate::fixed::FixedPoint;
use crate::fixed::SCALE;
use crate::Balance;
use crate::hierarchy::PoolHierarchy;
use crate::reward::RewardPool;
use crate::staking::NominatorStakingPool;
use crate::store::Key;
use crate::store::Store;
use crate::CurrencyId;
use crate::NominatorId;
use crate::VaultAccount;

verus! {

/// How many storage entries one clearing pass may remove.
pub const CLEAR_BATCH: u64 = 512;

/// The stored schema version of the reward accounting.
#[derive(Clone, Copy, PartialEq, Eq, Structural, Debug)]
pub enum Version {
    /// The flat per-vault reward pool: eligible for migration.
    V0,
    /// The two-tier hierarchy: already migrated.
    V1,
}

/// What the vault registry knows about one vault.
#[derive(Clone, Copy, PartialEq, Eq, Structural, Debug)]
pub struct VaultInput {
    /// The vault's identity.
    pub vault: VaultAccount,
    /// The currency of the vault's collateral.
    pub collateral_currency: CurrencyId,
    /// The currency the vault issues.
    pub wrapped_currency: CurrencyId,
    /// The vault's secure collateral threshold.
    pub secure_threshold: FixedPoint,
}

/// The complete reward-accounting state the migration transforms.
pub struct SystemState {
    /// The stored schema version.
    pub version: Version,
    /// The flat pool of the initial schema, keyed by vault.
    pub old_pool: RewardPool,
    /// Per-vault nominator staking pools.
    pub staking: NominatorStakingPool,
    /// The capacity and vault pools of the new schema.
    pub hierarchy: PoolHierarchy,
}

impl SystemState {
    /// Well-formed: every component pool is well-formed.
    pub open spec fn wf(self) -> bool {
        &&& self.old_pool.wf()
        &&& self.staking.wf()
        &&& self.hierarchy.wf()
    }
}

/// What any single migration run leaves behind: a state that was not at the
/// initial version is untouched, and an eligible state ends at the new
/// version with the flat pool's storage wiped.
pub open spec fn migration_transition(pre: SystemState, post: SystemState) -> bool {
    &&& pre.version != Version::V0 ==> post == pre
    &&& pre.version == Version::V0 ==> post.version == Version::V1
        && post.old_pool.is_cleared()
}

/// Running the migration twice leaves the state identical after the second
/// run: the version guard short-circuits every run after the first.
pub proof fn lemma_migration_idempotent(s0: SystemState, s1: SystemState, s2: SystemState)
    requires
        migration_transition(s0, s1),
        migration_transition(s1, s2),
    ensures
        s2 == s1,
{
    if s0.version == Version::V0 {
        assert(s1.version == Version::V1);
    }
}

/// The migration's redistribution effect for one vault and reward currency.
/// When the old pool's owed reward is computable, the vault has current
/// stake, and neither the scaled reward nor the raised accumulator exceeds
/// the balance range, the vault's staking accumulator for that currency rose
/// by exactly the owed reward's per-unit share; on a failing step, and on a
/// zero-stake vault whose reward is dropped, it is unchanged.
pub open spec fn redistributed(
    pre: SystemState,
    post: SystemState,
    v: VaultAccount,
    c: CurrencyId,
) -> bool {
    let r = pre.old_pool.computed_reward(v, c);
    let t = pre.staking.total_stake_of(v);
    post.staking.rpt_of(v, c) == if !pre.old_pool.settle_step_overflows(v, c) && t > 0 && r
        * SCALE <= u128::MAX && pre.staking.rpt_of(v, c) + r * SCALE / t <= u128::MAX {
        pre.staking.rpt_of(v, c) + r * SCALE / t
    } else {
        pre.staking.rpt_of(v, c)
    }
}

/// Whether the migration's redistribution step for one vault and currency
/// fails: the owed reward cannot be computed, or distributing it into the
/// vault's staking pool would overflow the accumulator.
pub open spec fn reward_step_fails(pre: SystemState, v: VaultAccount, c: CurrencyId) -> bool {
    let r = pre.old_pool.computed_reward(v, c);
    let t = pre.staking.total_stake_of(v);
    pre.old_pool.settle_step_overflows(v, c) || (t > 0 && (r * SCALE > u128::MAX
        || pre.staking.rpt_of(v, c) + r * SCALE / t > u128::MAX))
}

/// How many of the first `k` vaults' redistribution steps fail, both
/// denominations counted.
pub open spec fn failed_reward_steps(
    pre: SystemState,
    vaults: Seq<VaultInput>,
    native: CurrencyId,
    k: int,
) -> int
    decreases k,
{
    if k <= 0 {
        0
    } else {
        failed_reward_steps(pre, vaults, native, k - 1) + (if reward_step_fails(
            pre,
            vaults[k - 1].vault,
            vaults[k - 1].wrapped_currency,
        ) {
            1int
        } else {
            0int
        }) + (if reward_step_fails(pre, vaults[k - 1].vault, native) {
            1int
        } else {
            0int
        })
    }
}

/// The migration's capacity effect for one vault: its vault-pool stake is
/// its staking collateral over its secure threshold, and its currency's
/// capacity stake is the price-converted vault-pool total.
pub open spec fn converted(
    pre: SystemState,
    post: SystemState,
    vi: VaultInput,
    price: FixedPoint,
) -> bool {
    &&& post.hierarchy.vault_stake_of(vi.collateral_currency, vi.vault)
        == pre.staking.total_stake_of(vi.vault) * SCALE / (vi.secure_threshold.units as int)
    &&& post.hierarchy.capacity_stake_of(vi.collateral_currency)
        == post.hierarchy.vault_total_of(vi.collateral_currency) * SCALE / (price.units as int)
}

/// Saturating addition on balances.
pub open spec fn sat_add(a: int, b: int) -> int {
    if a + b > u128::MAX {
        u128::MAX as int
    } else {
        a + b
    }
}

/// The outstanding rewards of a currency across a set of staking pools,
/// summed saturating in storage order.
pub open spec fn staking_outstanding(pools: Seq<(Key, RewardPool)>, c: CurrencyId) -> int
    decreases pools.len(),
{
    if pools.len() == 0 {
        0
    } else {
        sat_add(staking_outstanding(pools.drop_last(), c), pools.last().1.total_rewards_of(c))
    }
}

/// The outstanding rewards of a currency across every staking pool.
pub fn staking_outstanding_amount(staking: &NominatorStakingPool, c: CurrencyId) -> (r: Balance)
    requires
        staking.wf(),
    ensures
        r == staking_outstanding(staking.pools.entries(), c),
{
    let m = staking.pools.len();
    let mut acc: Balance = 0;
    let mut i: usize = 0;
    while i < m
        invariant
            staking.wf(),
            m == staking.pools.entries().len(),
            i <= m,
            acc == staking_outstanding(staking.pools.entries().subrange(0, i as int), c),
        decreases m - i,
    {
        let pool = staking.pools.value_at(i);
        proof {
            staking.pools.lemma_idx_is(staking.pools.entries()[i as int].0, i as int);
        }
        let t = pool.total_rewards_amount(c);
        acc = if t <= u128::MAX - acc {
            acc + t
        } else {
            u128::MAX
        };
        proof {
            assert(staking.pools.entries().subrange(0, i + 1 as int).drop_last()
                =~= staking.pools.entries().subrange(0, i as int));
            assert(staking.pools.entries().subrange(0, (i + 1) as int).last()
                == staking.pools.entries()[i as int]);
        }
        i += 1;
    }
    proof {
        assert(staking.pools.entries().subrange(0, m as int) =~= staking.pools.entries());
    }
    acc
}

/// What the accounting looked like before the migration ran: the flat
/// pool's stake entry count and the outstanding rewards per denomination,
/// across the flat pool and every staking pool.
#[derive(Clone, Copy, PartialEq, Eq, Structural, Debug)]
pub struct MigrationSnapshot {
    /// Entries of the flat pool's stake table.
    pub stake_entries: usize,
    /// Outstanding rewards in the native currency, summed saturating.
    pub outstanding_native: Balance,
    /// Outstanding rewards in the wrapped currency, summed saturating.
    pub outstanding_wrapped: Balance,
}

/// Record the accounting that the migration is about to transform, for
/// checking against afterwards.
pub fn pre_upgrade(state: &SystemState, native: CurrencyId, wrapped: CurrencyId) -> (snap:
    MigrationSnapshot)
    requires
        state.wf(),
    ensures
        snap.stake_entries == state.old_pool.stakes.entries().len(),
        snap.outstanding_native == sat_add(
            state.old_pool.total_rewards_of(native),
            staking_outstanding(state.staking.pools.entries(), native),
        ),
        snap.outstanding_wrapped == sat_add(
            state.old_pool.total_rewards_of(wrapped),
            staking_outstanding(state.staking.pools.entries(), wrapped),
        ),
{
    let stake_entries = state.old_pool.stakes.len();
    let flat_native = state.old_pool.total_rewards_amount(native);
    let pools_native = staking_outstanding_amount(&state.staking, native);
    let outstanding_native = if pools_native <= u128::MAX - flat_native {
        flat_native + pools_native
    } else {
        u128::MAX
    };
    let flat_wrapped = state.old_pool.total_rewards_amount(wrapped);
    let pools_wrapped = staking_outstanding_amount(&state.staking, wrapped);
    let outstanding_wrapped = if pools_wrapped <= u128::MAX - flat_wrapped {
        flat_wrapped + pools_wrapped
    } else {
        u128::MAX
    };
    MigrationSnapshot { stake_entries, outstanding_native, outstanding_wrapped }
}

/// What one migration run reports.
#[derive(Clone, Copy, PartialEq, Eq, Structural, Debug)]
pub struct MigrationReport {
    /// Whether the state was eligible and was transformed.
    pub migrated: bool,
    /// Reward redistributions that failed and were skipped: exactly the
    /// failing steps of the snapshot, both denominations counted.
    pub skipped_rewards: u128,
    /// Capacity conversions that failed and were skipped. A zero count
    /// guarantees every vault was converted.
    pub skipped_vaults: u128,
}

/// A prepared migration: the vault registry snapshot, the oracle prices and
/// the native currency it needs.
pub struct RewardsMigration {
    /// The currency rewards are also denominated in besides each vault's
    /// wrapped currency.
    pub native_currency: CurrencyId,
    /// Every vault to migrate.
    pub vaults: Vec<VaultInput>,
    /// Oracle price per collateral currency; keyed `{ a: currency, b: 0 }`.
    pub prices: Store<FixedPoint>,
}

impl RewardsMigration {
    /// Well-formed: the price table has distinct keys, the vault snapshot
    /// lists each vault once (it comes from a keyed registry), and no
    /// vault's wrapped currency is the native currency — they are the two
    /// distinct reward denominations.
    pub open spec fn wf(self) -> bool {
        &&& self.prices.wf()
        &&& forall|i: int, j: int|
            0 <= i < j < self.vaults@.len() ==> (#[trigger] self.vaults@[i]).vault != (
            #[trigger] self.vaults@[j]).vault
        &&& forall|i: int|
            0 <= i < self.vaults@.len() ==> (#[trigger] self.vaults@[i]).wrapped_currency
                != self.native_currency
    }

    /// A migration with no vaults and no prices yet.
    pub fn new(native_currency: CurrencyId) -> (r: RewardsMigration)
        ensures
            r.wf(),
            r.native_currency == native_currency,
            r.vaults@.len() == 0,
    {
        RewardsMigration { native_currency, vaults: Vec::new(), prices: Store::new() }
    }

    /// Record a vault to migrate. Each vault appears once, and its wrapped
    /// currency is never the native denomination.
    pub fn add_vault(&mut self, v: VaultInput)
        requires
            old(self).wf(),
            forall|j: int|
                0 <= j < old(self).vaults@.len() ==> (#[trigger] old(self).vaults@[j]).vault
                    != v.vault,
            v.wrapped_currency != old(self).native_currency,
        ensures
            final(self).wf(),
            final(self).vaults@ == old(self).vaults@.push(v),
            final(self).native_currency == old(self).native_currency,
    {
        self.vaults.push(v);
    }

    /// Record the oracle price of a collateral currency.
    pub fn set_price(&mut self, currency: CurrencyId, price: FixedPoint)
        requires
            old(self).wf(),
        ensures
            final(self).wf(),
            final(self).vaults == old(self).vaults,
            final(self).native_currency == old(self).native_currency,
            final(self).prices.has(Key { a: currency, b: 0 }),
            final(self).prices.val(Key { a: currency, b: 0 }) == price,
    {
        self.prices.insert(Key { a: currency, b: 0 }, price);
    }

    /// One vault's share of the post-migration representation checks: its
    /// hierarchy stake is its staking collateral over its secure threshold,
    /// and its currency's capacity stake is the price-converted vault-pool
    /// total.
    pub open spec fn vault_checks(self, state: SystemState, i: int) -> bool {
        let vi = self.vaults@[i];
        let coll = state.staking.total_stake_of(vi.vault);
        let price_key = Key { a: vi.collateral_currency, b: 0 };
        &&& vi.secure_threshold.units != 0
        &&& coll * SCALE <= u128::MAX
        &&& state.hierarchy.vault_stake_of(vi.collateral_currency, vi.vault) == coll * SCALE / (
        vi.secure_threshold.units as int)
        &&& self.prices.has(price_key)
        &&& self.prices.val(price_key).units != 0
        &&& state.hierarchy.vault_total_of(vi.collateral_currency) * SCALE <= u128::MAX
        &&& state.hierarchy.capacity_stake_of(vi.collateral_currency) == state.hierarchy.vault_total_of(
            vi.collateral_currency,
        ) * SCALE / (self.prices.val(price_key).units as int)
    }

    /// Everything the post-migration verification asserts: the flat pool
    /// owes nothing in either denomination, the staking pools hold at most
    /// what was outstanding before, and every vault passes its
    /// representation checks.
    pub open spec fn post_checks(
        self,
        state: SystemState,
        snap: MigrationSnapshot,
        native: CurrencyId,
        wrapped: CurrencyId,
    ) -> bool {
        &&& state.old_pool.total_rewards_of(native) == 0
        &&& state.old_pool.total_rewards_of(wrapped) == 0
        &&& staking_outstanding(state.staking.pools.entries(), native) <= snap.outstanding_native
        &&& staking_outstanding(state.staking.pools.entries(), wrapped)
            <= snap.outstanding_wrapped
        &&& forall|i: int| 0 <= i < self.vaults@.len() ==> #[trigger] self.vault_checks(state, i)
    }

    /// Verify a migrated state against the snapshot taken before the run:
    /// report whether every check holds.
    pub fn post_upgrade(
        &self,
        state: &SystemState,
        snap: &MigrationSnapshot,
        native: CurrencyId,
        wrapped: CurrencyId,
    ) -> (ok: bool)
        requires
            self.wf(),
            state.wf(),
        ensures
            ok <==> self.post_checks(*state, *snap, native, wrapped),
    {
        if state.old_pool.total_rewards_amount(native) != 0 {
            return false;
        }
        if state.old_pool.total_rewards_amount(wrapped) != 0 {
            return false;
        }
        if staking_outstanding_amount(&state.staking, native) > snap.outstanding_native {
            return false;
        }
        if staking_outstanding_amount(&state.staking, wrapped) > snap.outstanding_wrapped {
            return false;
        }
        let n = self.vaults.len();
        let mut i: usize = 0;
        while i < n
            invariant
                self.wf(),
                state.wf(),
                n == self.vaults@.len(),
                i <= n,
                forall|j: int| 0 <= j < i ==> #[trigger] self.vault_checks(*state, j),
            decreases n - i,
        {
            let vi = self.vaults[i];
            let collateral = state.staking.total_current_stake(vi.vault);
            let expected = match PoolHierarchy::capacity_stake(collateral, vi.secure_threshold) {
                Ok(v) => v,
                Err(_) => {
                    proof {
                        assert(!self.vault_checks(*state, i as int));
                    }
                    return false;
                },
            };
            if state.hierarchy.vault_stake_amount(vi.collateral_currency, vi.vault) != expected {
                proof {
                    assert(!self.vault_checks(*state, i as int));
                }
                return false;
            }
            let price = match self.prices.get(Key { a: vi.collateral_currency, b: 0 }) {
                Some(p) => *p,
                None => {
                    proof {
                        assert(!self.vault_checks(*state, i as int));
                    }
                    return false;
                },
            };
            let total = state.hierarchy.vault_total_stake(vi.collateral_currency);
            let conv = match price.div_floor(total) {
                Some(v) => v,
                None => {
                    proof {
                        assert(!self.vault_checks(*state, i as int));
                    }
                    return false;
                },
            };
            if state.hierarchy.capacity_stake_amount(vi.collateral_currency) != conv {
                proof {
                    assert(!self.vault_checks(*state, i as int));
                }
                return false;
            }
            proof {
                assert(self.vault_checks(*state, i as int));
            }
            i += 1;
        }
        true
    }

    /// Run the whole migration as one unit of work.
    ///
    /// Gate: a version other than the initial one returns immediately with
    /// nothing changed. Then, vault by vault, the flat pool's accrued
    /// rewards, in the vault's wrapped currency and in the native currency,
    /// are distributed into the vault's staking pool; failures are counted
    /// and skipped. The flat pool's storage is wiped in bounded chunks.
    /// Every vault's capacity stake is recomputed in the hierarchy; a
    /// missing price or a failed conversion is counted and skipped. Finally
    /// the stored version advances.
    pub fn run(&self, state: &mut SystemState) -> (r: MigrationReport)
        requires
            self.wf(),
            old(state).wf(),
        ensures
            final(state).wf(),
            migration_transition(*old(state), *final(state)),
            r.migrated <==> old(state).version == Version::V0,
            forall|v2: VaultAccount| #[trigger]
                final(state).staking.nonce_of(v2) == old(state).staking.nonce_of(v2),
            forall|v2: VaultAccount, n2: NominatorId| #[trigger]
                final(state).staking.stake_of(v2, n2) == old(state).staking.stake_of(v2, n2),
            forall|v2: VaultAccount| #[trigger]
                final(state).staking.total_stake_of(v2) == old(state).staking.total_stake_of(v2),
            old(state).version == Version::V0 ==> forall|i: int|
                0 <= i < self.vaults@.len() ==> redistributed(
                    *old(state),
                    *final(state),
                    (#[trigger] self.vaults@[i]).vault,
                    self.vaults@[i].wrapped_currency,
                ) && redistributed(
                    *old(state),
                    *final(state),
                    self.vaults@[i].vault,
                    self.native_currency,
                ),
            old(state).version == Version::V0 ==> r.skipped_rewards == failed_reward_steps(
                *old(state),
                self.vaults@,
                self.native_currency,
                self.vaults@.len() as int,
            ),
            old(state).version == Version::V0 ==> forall|i: int|
                0 <= i < self.vaults@.len() ==> final(state).hierarchy.vault_stake_of(
                    (#[trigger] self.vaults@[i]).collateral_currency,
                    self.vaults@[i].vault,
                ) == old(state).staking.total_stake_of(self.vaults@[i].vault) * SCALE / (
                self.vaults@[i].secure_threshold.units as int) || final(state).hierarchy.vault_stake_of(
                    self.vaults@[i].collateral_currency,
                    self.vaults@[i].vault,
                ) == old(state).hierarchy.vault_stake_of(
                    self.vaults@[i].collateral_currency,
                    self.vaults@[i].vault,
                ),
            old(state).version == Version::V0 && r.skipped_vaults == 0 ==> forall|i: int|
                0 <= i < self.vaults@.len() ==> self.prices.has(
                    Key { a: (#[trigger] self.vaults@[i]).collateral_currency, b: 0 },
                ) && self.vaults@[i].secure_threshold.units != 0 && self.prices.val(
                    Key { a: self.vaults@[i].collateral_currency, b: 0 },
                ).units != 0 && converted(
                    *old(state),
                    *final(state),
                    self.vaults@[i],
                    self.prices.val(Key { a: self.vaults@[i].collateral_currency, b: 0 }),
                ),
    {
        match state.version {
            Version::V0 => (),
            _ => {
                return MigrationReport { migrated: false, skipped_rewards: 0, skipped_vaults: 0 };
            },
        }
        let mut skipped_rewards: u128 = 0;
        let n = self.vaults.len();
        let mut i: usize = 0;
        while i < n
            invariant
                self.wf(),
                state.wf(),
                n == self.vaults@.len(),
                i <= n,
                skipped_rewards == failed_reward_steps(
                    *old(state),
                    self.vaults@,
                    self.native_currency,
                    i as int,
                ),
                skipped_rewards <= 2 * i,
                state.old_pool == old(state).old_pool,
                state.hierarchy == old(state).hierarchy,
                state.version == old(state).version,
                forall|v2: VaultAccount| #[trigger]
                    state.staking.nonce_of(v2) == old(state).staking.nonce_of(v2),
                forall|v2: VaultAccount, n2: NominatorId| #[trigger]
                    state.staking.stake_of(v2, n2) == old(state).staking.stake_of(v2, n2),
                forall|v2: VaultAccount| #[trigger]
                    state.staking.total_stake_of(v2) == old(state).staking.total_stake_of(v2),
                forall|j: int, c2: CurrencyId|
                    #![trigger old(state).staking.rpt_of(self.vaults@[j].vault, c2)]
                    i <= j < n ==> state.staking.rpt_of(self.vaults@[j].vault, c2) == old(
                        state,
                    ).staking.rpt_of(self.vaults@[j].vault, c2),
                forall|j: int|
                    0 <= j < i ==> redistributed(
                        *old(state),
                        *state,
                        (#[trigger] self.vaults@[j]).vault,
                        self.vaults@[j].wrapped_currency,
                    ) && redistributed(
                        *old(state),
                        *state,
                        self.vaults@[j].vault,
                        self.native_currency,
                    ),
            decreases n - i,
        {
            let ghost head = *state;
            let vi = self.vaults[i];
            skipped_rewards = Self::redistribute_one(
                state,
                vi.vault,
                vi.wrapped_currency,
                skipped_rewards,
            );
            let ghost mid = *state;
            skipped_rewards = Self::redistribute_one(
                state,
                vi.vault,
                self.native_currency,
                skipped_rewards,
            );
            proof {
                assert(vi.wrapped_currency != self.native_currency);
                assert(reward_step_fails(head, vi.vault, vi.wrapped_currency)
                    == reward_step_fails(*old(state), vi.vault, vi.wrapped_currency)) by {
                    assert(head.old_pool == old(state).old_pool);
                    assert(head.staking.rpt_of(vi.vault, vi.wrapped_currency) == old(
                        state,
                    ).staking.rpt_of(vi.vault, vi.wrapped_currency));
                    assert(head.staking.total_stake_of(vi.vault) == old(
                        state,
                    ).staking.total_stake_of(vi.vault));
                }
                assert(reward_step_fails(mid, vi.vault, self.native_currency)
                    == reward_step_fails(*old(state), vi.vault, self.native_currency)) by {
                    assert(mid.old_pool == old(state).old_pool);
                    assert(mid.staking.rpt_of(vi.vault, self.native_currency) == old(
                        state,
                    ).staking.rpt_of(vi.vault, self.native_currency));
                    assert(mid.staking.total_stake_of(vi.vault) == old(
                        state,
                    ).staking.total_stake_of(vi.vault));
                }
                assert(skipped_rewards == failed_reward_steps(
                    *old(state),
                    self.vaults@,
                    self.native_currency,
                    i + 1,
                ));
                assert(state.staking.rpt_of(vi.vault, vi.wrapped_currency) == mid.staking.rpt_of(
                    vi.vault,
                    vi.wrapped_currency,
                ));
                assert(redistributed(*old(state), *state, vi.vault, vi.wrapped_currency)) by {
                    assert(head.staking.rpt_of(vi.vault, vi.wrapped_currency) == old(
                        state,
                    ).staking.rpt_of(vi.vault, vi.wrapped_currency));
                    assert(redistributed(head, mid, vi.vault, vi.wrapped_currency));
                }
                assert(redistributed(*old(state), *state, vi.vault, self.native_currency)) by {
                    assert(head.staking.rpt_of(vi.vault, self.native_currency) == old(
                        state,
                    ).staking.rpt_of(vi.vault, self.native_currency));
                    assert(mid.staking.rpt_of(vi.vault, self.native_currency) == old(
                        state,
                    ).staking.rpt_of(vi.vault, self.native_currency));
                    assert(redistributed(mid, *state, vi.vault, self.native_currency));
                }
                assert forall|j: int, c2: CurrencyId|
                    #![trigger old(state).staking.rpt_of(self.vaults@[j].vault, c2)]
                    i + 1 <= j < n implies state.staking.rpt_of(self.vaults@[j].vault, c2) == old(
                    state,
                ).staking.rpt_of(self.vaults@[j].vault, c2) by {
                    assert(self.vaults@[j].vault != vi.vault);
                    assert(head.staking.rpt_of(self.vaults@[j].vault, c2) == old(
                        state,
                    ).staking.rpt_of(self.vaults@[j].vault, c2));
                }
                assert forall|j: int| 0 <= j < i + 1 implies redistributed(
                    *old(state),
                    *state,
                    (#[trigger] self.vaults@[j]).vault,
                    self.vaults@[j].wrapped_currency,
                ) && redistributed(
                    *old(state),
                    *state,
                    self.vaults@[j].vault,
                    self.native_currency,
                ) by {
                    if j < i {
                        assert(self.vaults@[j].vault != vi.vault);
                        assert(state.staking.rpt_of(self.vaults@[j].vault, self.vaults@[j].wrapped_currency)
                            == head.staking.rpt_of(self.vaults@[j].vault, self.vaults@[j].wrapped_currency));
                        assert(state.staking.rpt_of(self.vaults@[j].vault, self.native_currency)
                            == head.staking.rpt_of(self.vaults@[j].vault, self.native_currency));
                        assert(redistributed(*old(state), head, self.vaults@[j].vault, self.vaults@[j].wrapped_currency));
                        assert(redistributed(*old(state), head, self.vaults@[j].vault, self.native_currency));
                    }
                }
            }
            i += 1;
        }
        let ghost staking_mid = state.staking;
        let ghost after_rewards = *state;
        while !state.old_pool.clear_some(CLEAR_BATCH)
            invariant
                self.wf(),
                state.wf(),
                state.staking == staking_mid,
                state.hierarchy == old(state).hierarchy,
            decreases state.old_pool.entry_count(),
        {
        }
        let ghost cleared_pool = state.old_pool;
        let mut skipped_vaults: u128 = 0;
        let mut i2: usize = 0;
        while i2 < n
            invariant
                self.wf(),
                state.wf(),
                n == self.vaults@.len(),
                i2 <= n,
                state.old_pool == cleared_pool,
                cleared_pool.is_cleared(),
                skipped_vaults <= i2,
                state.staking == staking_mid,
                forall|j: int|
                    0 <= j < i2 ==> state.hierarchy.vault_stake_of(
                        (#[trigger] self.vaults@[j]).collateral_currency,
                        self.vaults@[j].vault,
                    ) == old(state).staking.total_stake_of(self.vaults@[j].vault) * SCALE / (
                    self.vaults@[j].secure_threshold.units as int) || state.hierarchy.vault_stake_of(
                        self.vaults@[j].collateral_currency,
                        self.vaults@[j].vault,
                    ) == old(state).hierarchy.vault_stake_of(
                        self.vaults@[j].collateral_currency,
                        self.vaults@[j].vault,
                    ),
                forall|j: int|
                    i2 <= j < n ==> state.hierarchy.vault_stake_of(
                        (#[trigger] self.vaults@[j]).collateral_currency,
                        self.vaults@[j].vault,
                    ) == old(state).hierarchy.vault_stake_of(
                        self.vaults@[j].collateral_currency,
                        self.vaults@[j].vault,
                    ),
                forall|v2: VaultAccount| #[trigger]
                    state.staking.total_stake_of(v2) == old(state).staking.total_stake_of(v2),
                skipped_vaults == 0 ==> forall|j: int|
                    0 <= j < i2 ==> self.prices.has(
                        Key { a: (#[trigger] self.vaults@[j]).collateral_currency, b: 0 },
                    ) && self.vaults@[j].secure_threshold.units != 0 && self.prices.val(
                        Key { a: self.vaults@[j].collateral_currency, b: 0 },
                    ).units != 0 && converted(
                        *old(state),
                        *state,
                        self.vaults@[j],
                        self.prices.val(Key { a: self.vaults@[j].collateral_currency, b: 0 }),
                    ),
            decreases n - i2,
        {
            let ghost head = *state;
            let ghost skipped_head = skipped_vaults;
            let vi = self.vaults[i2];
            let collateral = state.staking.total_current_stake(vi.vault);
            let price = match self.prices.get(Key { a: vi.collateral_currency, b: 0 }) {
                Some(price) => Some(*price),
                None => None,
            };
            match state.hierarchy.update_reward_stake(
                vi.collateral_currency,
                vi.vault,
                collateral,
                vi.secure_threshold,
                price,
            ) {
                Ok(()) => (),
                Err(_) => {
                    skipped_vaults = skipped_vaults + 1;
                },
            }
            proof {
                if skipped_vaults == 0 {
                    assert(skipped_head == 0);
                    assert forall|j: int| 0 <= j < i2 + 1 implies self.prices.has(
                        Key { a: (#[trigger] self.vaults@[j]).collateral_currency, b: 0 },
                    ) && self.vaults@[j].secure_threshold.units != 0 && self.prices.val(
                        Key { a: self.vaults@[j].collateral_currency, b: 0 },
                    ).units != 0 && converted(
                        *old(state),
                        *state,
                        self.vaults@[j],
                        self.prices.val(Key { a: self.vaults@[j].collateral_currency, b: 0 }),
                    ) by {
                        if j < i2 {
                            assert(self.vaults@[j].vault != vi.vault);
                            if self.vaults@[j].collateral_currency != vi.collateral_currency {
                                assert(state.hierarchy.vault_stake_of(
                                    self.vaults@[j].collateral_currency,
                                    self.vaults@[j].vault,
                                ) == head.hierarchy.vault_stake_of(
                                    self.vaults@[j].collateral_currency,
                                    self.vaults@[j].vault,
                                ));
                                assert(state.hierarchy.vault_total_of(
                                    self.vaults@[j].collateral_currency,
                                ) == head.hierarchy.vault_total_of(
                                    self.vaults@[j].collateral_currency,
                                ));
                                assert(state.hierarchy.capacity_stake_of(
                                    self.vaults@[j].collateral_currency,
                                ) == head.hierarchy.capacity_stake_of(
                                    self.vaults@[j].collateral_currency,
                                ));
                            }
                        }
                    }
                }
            }
            i2 += 1;
        }
        state.version = Version::V1;
        proof {
            assert forall|i3: int| 0 <= i3 < self.vaults@.len() implies redistributed(
                *old(state),
                *state,
                (#[trigger] self.vaults@[i3]).vault,
                self.vaults@[i3].wrapped_currency,
            ) && redistributed(*old(state), *state, self.vaults@[i3].vault, self.native_currency) by {
                assert(state.staking == after_rewards.staking);
                assert(redistributed(
                    *old(state),
                    after_rewards,
                    self.vaults@[i3].vault,
                    self.vaults@[i3].wrapped_currency,
                ));
                assert(redistributed(
                    *old(state),
                    after_rewards,
                    self.vaults@[i3].vault,
                    self.native_currency,
                ));
            }
        }
        MigrationReport { migrated: true, skipped_rewards, skipped_vaults }
    }

    /// One redistribution step: move a vault's accrued flat-pool reward in
    /// one currency into the vault's staking pool, counting a failure
    /// instead of surfacing it.
    fn redistribute_one(
        state: &mut SystemState,
        vault: VaultAccount,
        currency: CurrencyId,
        skipped: u128,
    ) -> (r: u128)
        requires
            old(state).wf(),
            skipped < u128::MAX,
        ensures
            r == skipped + (if reward_step_fails(*old(state), vault, currency) {
                1int
            } else {
                0int
            }),
            final(state).wf(),
            final(state).old_pool == old(state).old_pool,
            final(state).hierarchy == old(state).hierarchy,
            final(state).version == old(state).version,
            forall|v2: VaultAccount| #[trigger]
                final(state).staking.nonce_of(v2) == old(state).staking.nonce_of(v2),
            forall|v2: VaultAccount, n2: NominatorId| #[trigger]
                final(state).staking.stake_of(v2, n2) == old(state).staking.stake_of(v2, n2),
            forall|v2: VaultAccount| #[trigger]
                final(state).staking.total_stake_of(v2) == old(state).staking.total_stake_of(v2),
            forall|v2: VaultAccount, c2: CurrencyId|
                v2 != vault ==> #[trigger] final(state).staking.rpt_of(v2, c2) == old(
                    state,
                ).staking.rpt_of(v2, c2),
            forall|c2: CurrencyId|
                c2 != currency ==> #[trigger] final(state).staking.rpt_of(vault, c2) == old(
                    state,
                ).staking.rpt_of(vault, c2),
            redistributed(*old(state), *final(state), vault, currency),
    {
        let reward = match state.old_pool.compute_reward(vault, currency) {
            Ok(w) => w,
            Err(_) => {
                return skipped + 1;
            },
        };
        let result = state.staking.distribute_reward(currency, vault, reward);
        proof {
            assert forall|v2: VaultAccount, c2: CurrencyId|
                v2 != vault implies #[trigger] state.staking.rpt_of(v2, c2) == old(
                state,
            ).staking.rpt_of(v2, c2) by {}
            assert forall|c2: CurrencyId|
                c2 != currency implies #[trigger] state.staking.rpt_of(vault, c2) == old(
                state,
            ).staking.rpt_of(vault, c2) by {}
            let r0 = old(state).old_pool.computed_reward(vault, currency);
            let t = old(state).staking.total_stake_of(vault);
            if !old(state).old_pool.settle_step_overflows(vault, currency) && t > 0 && r0 * SCALE
                <= u128::MAX && old(state).staking.rpt_of(vault, currency) + r0 * SCALE / t
                <= u128::MAX {
                assert(reward == r0);
                assert(!old(state).staking.distribute_overflows(vault, currency, reward));
                assert(state.staking.rpt_of(vault, currency) == old(state).staking.rpt_of(
                    vault,
                    currency,
                ) + reward * SCALE / t);
            }
            assert(redistributed(*old(state), *state, vault, currency));
        }
        match result {
            Ok(()) => skipped,
            Err(_) => skipped + 1,
        }
    }
}

/// Assembles a starting system state for tests and simulations: empty pools
/// at a chosen schema version.
#[derive(Clone, Copy, PartialEq, Eq, Structural, Debug)]
pub struct ExtBuilder {
    /// The schema version the built state starts at.
    pub version: Version,
}

impl ExtBuilder {
    /// A builder for a state at the initial schema version.
    pub fn new() -> (b: ExtBuilder)
        ensures
            b.version == Version::V0,
    {
        ExtBuilder { version: Version::V0 }
    }

    /// A state with empty pools at the given schema version.
    pub fn build_with(version: Version) -> (s: SystemState)
        ensures
            s.wf(),
            s.version == version,
            s.old_pool.total_stake == 0,
            s.old_pool.entry_count() == 0,
            forall|v: VaultAccount, n: crate::NominatorId| #[trigger] s.staking.stake_of(v, n)
                == 0,
            forall|v: VaultAccount| #[trigger] s.staking.nonce_of(v) == 0,
            forall|c: CurrencyId, v: VaultAccount| #[trigger] s.hierarchy.vault_stake_of(c, v)
                == 0,
            forall|c: CurrencyId| #[trigger] s.hierarchy.capacity_stake_of(c) == 0,
    {
        SystemState {
            version,
            old_pool: RewardPool::new(),
            staking: NominatorStakingPool::new(),
            hierarchy: PoolHierarchy::new(),
        }
    }

    /// A state with empty pools at the builder's version.
    pub fn build(&self) -> (s: SystemState)
        ensures
            s.wf(),
            s.version == self.version,
            s.old_pool.total_stake == 0,
            s.old_pool.entry_count() == 0,
    {
        Self::build_with(self.version)
    }
}

} // verus!
