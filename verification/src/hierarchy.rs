//! The two-tier pool hierarchy: a capacity pool keyed by collateral currency
//! above one vault pool per collateral currency.
//!
//! Reward enters at the capacity pool, where each currency's synthetic stake
//! is the common-unit value of its vaults' minting capacity. From there it
//! cascades down: a currency's share is distributed across that currency's
//! vault pool in proportion to each vault's capacity, and each vault's share
//! finally reaches its nominators through the staking pool.

use vstd::prelude::*;

use crate::fixed::FixedPoint;
use crate::fixed::SCALE;
use crate::reward::RewardPool;
use crate::store::Key;
use crate::store::Store;
use crate::Balance;
use crate::CurrencyId;
use crate::Error;
use crate::VaultAccount;

verus! {

/// The capacity pool over the per-currency vault pools.
pub struct PoolHierarchy {
    /// One synthetic stake per collateral currency: the currency's total
    /// vault capacity in the common accounting unit.
    pub capacity: RewardPool,
    /// One pool per collateral currency whose participants are vaults; keyed
    /// `{ a: currency, b: 0 }`.
    pub vault_pools: Store<RewardPool>,
}

impl PoolHierarchy {
    /// Whether a currency has a vault pool.
    pub open spec fn has_vault_pool(self, c: CurrencyId) -> bool {
        self.vault_pools.has(Key { a: c, b: 0 })
    }

    /// The vault pool of a currency.
    pub open spec fn vault_pool_of(self, c: CurrencyId) -> RewardPool
        recommends
            self.has_vault_pool(c),
    {
        self.vault_pools.val(Key { a: c, b: 0 })
    }

    /// A vault's stake in its currency's vault pool.
    pub open spec fn vault_stake_of(self, c: CurrencyId, v: VaultAccount) -> int {
        if self.has_vault_pool(c) {
            self.vault_pool_of(c).stake_of(v)
        } else {
            0
        }
    }

    /// The total stake of a currency's vault pool.
    pub open spec fn vault_total_of(self, c: CurrencyId) -> int {
        if self.has_vault_pool(c) {
            self.vault_pool_of(c).total_stake as int
        } else {
            0
        }
    }

    /// The accumulator of a currency's vault pool for a reward currency.
    pub open spec fn vault_rpt_of(self, c: CurrencyId, rc: CurrencyId) -> int {
        if self.has_vault_pool(c) {
            self.vault_pool_of(c).rpt_of(rc)
        } else {
            0
        }
    }

    /// A vault's withdrawable share in its currency's vault pool.
    pub open spec fn vault_reward_of(self, c: CurrencyId, v: VaultAccount, rc: CurrencyId) -> int {
        if self.has_vault_pool(c) {
            self.vault_pool_of(c).computed_reward(v, rc)
        } else {
            0
        }
    }

    /// The capacity pool's synthetic stake for a collateral currency.
    pub open spec fn capacity_stake_of(self, c: CurrencyId) -> int {
        self.capacity.stake_of(c)
    }

    /// Whether paying a vault's share out of its currency's vault pool would
    /// exceed the balance range.
    pub open spec fn vault_payout_overflows(self, c: CurrencyId, v: VaultAccount, rc: CurrencyId) -> bool {
        self.has_vault_pool(c) && self.vault_pool_of(c).settle_step_overflows(v, rc)
    }

    /// Whether distributing `amount` across the capacity pool would exceed
    /// the accumulator range.
    pub open spec fn capacity_distribute_overflows(self, rc: CurrencyId, amount: Balance) -> bool {
        self.capacity.total_stake > 0 && (amount * SCALE > u128::MAX || self.capacity.rpt_of(rc)
            + amount * SCALE / (self.capacity.total_stake as int) > u128::MAX)
    }

    /// Whether distributing `amount` across a currency's vault pool would
    /// exceed the accumulator range.
    pub open spec fn vault_distribute_overflows(self, c: CurrencyId, rc: CurrencyId, amount: int) -> bool {
        self.vault_total_of(c) > 0 && (amount * SCALE > u128::MAX || self.vault_rpt_of(c, rc)
            + amount * SCALE / self.vault_total_of(c) > u128::MAX)
    }

    /// Whether recomputing a vault's place in the hierarchy would exceed the
    /// balance range at any of its steps: the capacity quotient, settling the
    /// vault in its pool, the pool's new total, the price conversion,
    /// settling the currency in the capacity pool, or the capacity total.
    pub open spec fn restake_overflows(
        self,
        currency: CurrencyId,
        vault: VaultAccount,
        collateral: Balance,
        threshold: FixedPoint,
        price: FixedPoint,
    ) -> bool {
        let new_stake = collateral * SCALE / (threshold.units as int);
        let vt_after = self.vault_total_of(currency) - self.vault_stake_of(currency, vault)
            + new_stake;
        ||| collateral * SCALE > u128::MAX
        ||| (self.has_vault_pool(currency) && self.vault_pool_of(currency).settle_overflows(
            vault,
        ))
        ||| vt_after > u128::MAX
        ||| vt_after * SCALE > u128::MAX
        ||| self.capacity.settle_overflows(currency)
        ||| self.capacity.total_stake - self.capacity_stake_of(currency) + vt_after * SCALE / (
        price.units as int) > u128::MAX
    }

    /// Well-formed: both tiers are well-formed pools.
    pub open spec fn wf(self) -> bool {
        &&& self.capacity.wf()
        &&& self.vault_pools.wf()
        &&& forall|k: Key| #[trigger] self.vault_pools.has(k) ==> self.vault_pools.val(k).wf()
    }

    /// An empty hierarchy.
    pub fn new() -> (r: PoolHierarchy)
        ensures
            r.wf(),
            forall|c: CurrencyId, v: VaultAccount| #[trigger] r.vault_stake_of(c, v) == 0,
            forall|c: CurrencyId| #[trigger] r.vault_total_of(c) == 0,
            forall|c: CurrencyId| #[trigger] r.capacity_stake_of(c) == 0,
    {
        PoolHierarchy { capacity: RewardPool::new(), vault_pools: Store::new() }
    }

    /// A vault's minting capacity: collateral over the secure threshold,
    /// rounded down.
    pub fn capacity_stake(collateral: Balance, threshold: FixedPoint) -> (r: Result<Balance, Error>)
        ensures
            match r {
                Ok(v) => threshold.units != 0 && collateral * SCALE <= u128::MAX && v == collateral
                    * SCALE / (threshold.units as int),
                Err(e) => {
                    &&& (e == Error::ZeroDivisor || e == Error::Overflow)
                    &&& (e == Error::ZeroDivisor <==> threshold.units == 0)
                    &&& (e == Error::Overflow ==> collateral * SCALE > u128::MAX)
                },
            },
    {
        if threshold.is_zero() {
            return Err(Error::ZeroDivisor);
        }
        match threshold.div_floor(collateral) {
            Some(v) => Ok(v),
            None => Err(Error::Overflow),
        }
    }

    /// The capacity pool's synthetic stake for a currency.
    pub fn capacity_stake_amount(&self, c: CurrencyId) -> (r: Balance)
        requires
            self.wf(),
        ensures
            r == self.capacity_stake_of(c),
    {
        self.capacity.stake_amount(c)
    }

    /// A vault's stake in its currency's vault pool.
    pub fn vault_stake_amount(&self, c: CurrencyId, v: VaultAccount) -> (r: Balance)
        requires
            self.wf(),
        ensures
            r == self.vault_stake_of(c, v),
    {
        match self.vault_pools.get(Key { a: c, b: 0 }) {
            Some(pool) => pool.stake_amount(v),
            None => 0,
        }
    }

    /// The total stake of a currency's vault pool.
    pub fn vault_total_stake(&self, c: CurrencyId) -> (r: Balance)
        requires
            self.wf(),
        ensures
            r == self.vault_total_of(c),
    {
        match self.vault_pools.get(Key { a: c, b: 0 }) {
            Some(pool) => pool.total_stake,
            None => 0,
        }
    }

    /// The accumulator of a currency's vault pool for a reward currency.
    pub fn vault_rpt_value(&self, c: CurrencyId, rc: CurrencyId) -> (r: FixedPoint)
        requires
            self.wf(),
        ensures
            r.units == self.vault_rpt_of(c, rc),
    {
        match self.vault_pools.get(Key { a: c, b: 0 }) {
            Some(pool) => pool.reward_per_token_value(rc),
            None => FixedPoint { units: 0 },
        }
    }

    /// A vault's withdrawable share in its currency's vault pool. Read-only.
    pub fn compute_vault_reward(&self, c: CurrencyId, v: VaultAccount, rc: CurrencyId) -> (r:
        Result<Balance, Error>)
        requires
            self.wf(),
        ensures
            match r {
                Ok(w) => w == self.vault_reward_of(c, v, rc) && !self.vault_payout_overflows(
                    c,
                    v,
                    rc,
                ),
                Err(e) => e == Error::Overflow && self.vault_payout_overflows(c, v, rc),
            },
    {
        match self.vault_pools.get(Key { a: c, b: 0 }) {
            Some(pool) => pool.compute_reward(v, rc),
            None => Ok(0),
        }
    }

    /// Take a currency's vault pool out, or start an empty one.
    fn take_vault_pool(&mut self, c: CurrencyId) -> (pool: RewardPool)
        requires
            old(self).wf(),
        ensures
            final(self).capacity == old(self).capacity,
            final(self).vault_pools.wf(),
            !final(self).vault_pools.has(Key { a: c, b: 0 }),
            forall|k2: Key|
                k2 != (Key { a: c, b: 0 }) ==> final(self).vault_pools.has(k2) == old(self).vault_pools.has(k2) && (old(self).vault_pools.has(k2) ==> final(self).vault_pools.val(k2) == old(self).vault_pools.val(k2)),
            pool.wf(),
            old(self).has_vault_pool(c) ==> pool == old(self).vault_pool_of(c),
            !old(self).has_vault_pool(c) ==> pool.total_stake == 0 && forall|v: VaultAccount|
                pool.stake_of(v) == 0,
            !old(self).has_vault_pool(c) ==> forall|v: VaultAccount, rc: CurrencyId| #[trigger]
                pool.computed_reward(v, rc) == 0,
            !old(self).has_vault_pool(c) ==> forall|rc: CurrencyId| #[trigger] pool.rpt_of(rc)
                == 0,
    {
        match self.vault_pools.remove(Key { a: c, b: 0 }) {
            Some(pool) => pool,
            None => RewardPool::new(),
        }
    }

    /// Putting the mutated vault pool back leaves every other currency's
    /// pool untouched.
    proof fn lemma_reinsert_post(self, pre: PoolHierarchy, c: CurrencyId, pool: RewardPool)
        requires
            pre.wf(),
            pool.wf(),
            self.capacity.wf(),
            self.vault_pools.wf(),
            self.vault_pools.has(Key { a: c, b: 0 }),
            self.vault_pools.val(Key { a: c, b: 0 }) == pool,
            forall|k2: Key|
                k2 != (Key { a: c, b: 0 }) ==> self.vault_pools.has(k2) == pre.vault_pools.has(k2)
                    && (pre.vault_pools.has(k2) ==> self.vault_pools.val(k2)
                    == pre.vault_pools.val(k2)),
        ensures
            self.wf(),
            self.has_vault_pool(c),
            self.vault_pool_of(c) == pool,
            forall|c2: CurrencyId|
                c2 != c ==> #[trigger] self.has_vault_pool(c2) == pre.has_vault_pool(c2) && (
                pre.has_vault_pool(c2) ==> self.vault_pool_of(c2) == pre.vault_pool_of(c2)),
    {
        assert forall|c2: CurrencyId| c2 != c implies #[trigger] self.has_vault_pool(c2)
            == pre.has_vault_pool(c2) && (pre.has_vault_pool(c2) ==> self.vault_pool_of(c2)
            == pre.vault_pool_of(c2)) by {
            assert(Key { a: c2, b: 0 } != Key { a: c, b: 0 });
        }
        assert forall|k: Key| #[trigger] self.vault_pools.has(k) implies self.vault_pools.val(
            k,
        ).wf() by {
            if k != (Key { a: c, b: 0 }) {
                assert(pre.vault_pools.has(k));
                assert(self.vault_pools.val(k) == pre.vault_pools.val(k));
            }
        }
    }

    /// Recompute one vault's place in the hierarchy from its collateral,
    /// secure threshold and the oracle price of its collateral currency,
    /// when the oracle knows one.
    ///
    /// The vault pool's entry becomes `collateral / threshold` (a re-stake:
    /// the previous value is withdrawn first), and the capacity pool's
    /// synthetic stake for the currency becomes the pool's new total
    /// converted by `1 / price`. A reported error surfaces a failed
    /// conversion, as the migration requires; the re-stake may then be
    /// incomplete and the vault's update must be retried.
    pub fn update_reward_stake(
        &mut self,
        currency: CurrencyId,
        vault: VaultAccount,
        collateral: Balance,
        threshold: FixedPoint,
        price: Option<FixedPoint>,
    ) -> (r: Result<(), Error>)
        requires
            old(self).wf(),
        ensures
            final(self).wf(),
            forall|c2: CurrencyId, v2: VaultAccount|
                c2 != currency ==> #[trigger] final(self).vault_stake_of(c2, v2) == old(self).vault_stake_of(c2, v2),
            forall|c2: CurrencyId|
                c2 != currency ==> #[trigger] final(self).vault_total_of(c2) == old(self).vault_total_of(c2),
            forall|c2: CurrencyId|
                c2 != currency ==> #[trigger] final(self).capacity_stake_of(c2) == old(self).capacity_stake_of(c2),
            match r {
                Ok(()) => {
                    &&& threshold.units != 0
                    &&& price is Some && price->0.units != 0
                    &&& !old(self).restake_overflows(currency, vault, collateral, threshold, price->0)
                    &&& final(self).vault_stake_of(currency, vault) == collateral * SCALE / (
                    threshold.units as int)
                    &&& forall|v2: VaultAccount|
                        v2 != vault ==> #[trigger] final(self).vault_stake_of(currency, v2) == old(self).vault_stake_of(currency, v2)
                    &&& final(self).vault_total_of(currency) == old(self).vault_total_of(currency)
                        - old(self).vault_stake_of(currency, vault) + collateral * SCALE / (
                    threshold.units as int)
                    &&& final(self).capacity_stake_of(currency) == final(self).vault_total_of(
                        currency,
                    ) * SCALE / (price->0.units as int)
                },
                Err(e) => {
                    &&& *final(self) == *old(self)
                    &&& (e == Error::PriceUnavailable <==> price is None)
                    &&& (e == Error::ZeroDivisor <==> price is Some && (threshold.units == 0
                        || price->0.units == 0))
                    &&& (e == Error::Overflow <==> price is Some && threshold.units != 0
                        && price->0.units != 0 && old(self).restake_overflows(
                        currency,
                        vault,
                        collateral,
                        threshold,
                        price->0,
                    ))
                },
            },
    {
        let price = match price {
            Some(p) => p,
            None => {
                return Err(Error::PriceUnavailable);
            },
        };
        if threshold.is_zero() || price.is_zero() {
            return Err(Error::ZeroDivisor);
        }
        let new_stake = match Self::capacity_stake(collateral, threshold) {
            Ok(v) => v,
            Err(e) => {
                return Err(Error::Overflow);
            },
        };
        let vt = self.vault_total_stake(currency);
        let prior = self.vault_stake_amount(currency, vault);
        let vault_settle_bad = match self.vault_pools.get(Key { a: currency, b: 0 }) {
            Some(pool) => pool.settle_would_overflow(vault),
            None => false,
        };
        if vault_settle_bad {
            return Err(Error::Overflow);
        }
        proof {
            if self.has_vault_pool(currency) {
                self.vault_pool_of(currency).lemma_stake_le_total(vault);
            }
        }
        let vt_after = match (vt - prior).checked_add(new_stake) {
            Some(x) => x,
            None => {
                return Err(Error::Overflow);
            },
        };
        let converted = match price.div_floor(vt_after) {
            Some(v) => v,
            None => {
                return Err(Error::Overflow);
            },
        };
        if self.capacity.settle_would_overflow(currency) {
            return Err(Error::Overflow);
        }
        let cur_cap = self.capacity.stake_amount(currency);
        proof {
            self.capacity.lemma_stake_le_total(currency);
        }
        if (self.capacity.total_stake - cur_cap).checked_add(converted).is_none() {
            return Err(Error::Overflow);
        }
        let ghost pre = *self;
        let mut pool = self.take_vault_pool(currency);
        match pool.withdraw_stake(vault, prior) {
            Ok(()) => (),
            Err(e) => {
                proof {
                    assert(false);
                }
                return Err(e);
            },
        }
        proof {
            assert forall|c2: CurrencyId| !(#[trigger] pool.settle_step_overflows(vault, c2)) by {
                assert(pool.stake_of(vault) == 0);
                assert(pool.pending_units(vault, c2) == 0 * (pool.rpt_of(c2) - pool.tally_of(
                    vault,
                    c2,
                )));
                assert(0 * (pool.rpt_of(c2) - pool.tally_of(vault, c2)) == 0);
                assert(0int / (SCALE as int) == 0);
            }
            assert(!pool.settle_overflows(vault));
        }
        match pool.deposit_stake(vault, new_stake) {
            Ok(()) => (),
            Err(e) => {
                proof {
                    assert(false);
                }
                return Err(e);
            },
        }
        let ghost moved = pool;
        self.vault_pools.insert(Key { a: currency, b: 0 }, pool);
        proof {
            self.lemma_reinsert_post(pre, currency, moved);
        }
        match self.capacity.withdraw_stake(currency, cur_cap) {
            Ok(()) => (),
            Err(e) => {
                proof {
                    assert(false);
                }
                return Err(e);
            },
        }
        proof {
            assert forall|c2: CurrencyId|
                !(#[trigger] self.capacity.settle_step_overflows(currency, c2)) by {
                assert(self.capacity.stake_of(currency) == 0);
                assert(self.capacity.pending_units(currency, c2) == 0 * (self.capacity.rpt_of(c2)
                    - self.capacity.tally_of(currency, c2)));
                assert(0 * (self.capacity.rpt_of(c2) - self.capacity.tally_of(currency, c2)) == 0);
                assert(0int / (SCALE as int) == 0);
            }
            assert(!self.capacity.settle_overflows(currency));
        }
        match self.capacity.deposit_stake(currency, converted) {
            Ok(()) => (),
            Err(e) => {
                proof {
                    assert(false);
                }
                return Err(e);
            },
        }
        Ok(())
    }

    /// Credit a reward to the capacity pool as a whole: every currency's
    /// synthetic stake shares in proportion. With zero total capacity the
    /// amount is dropped silently.
    pub fn distribute_reward(&mut self, reward_currency: CurrencyId, amount: Balance) -> (r: Result<
        (),
        Error,
    >)
        requires
            old(self).wf(),
        ensures
            final(self).wf(),
            final(self).vault_pools == old(self).vault_pools,
            forall|c: CurrencyId| #[trigger]
                final(self).capacity_stake_of(c) == old(self).capacity_stake_of(c),
            match r {
                Ok(()) => {
                    &&& !old(self).capacity_distribute_overflows(reward_currency, amount)
                    &&& old(self).capacity.total_stake == 0 ==> final(self).capacity == old(self).capacity
                    &&& old(self).capacity.total_stake > 0 ==> final(self).capacity.rpt_of(
                        reward_currency,
                    ) == old(self).capacity.rpt_of(reward_currency) + amount * SCALE / (old(self).capacity.total_stake as int)
                },
                Err(e) => {
                    &&& e == Error::Overflow
                    &&& old(self).capacity_distribute_overflows(reward_currency, amount)
                    &&& *final(self) == *old(self)
                },
            },
    {
        let r = self.capacity.distribute_reward(reward_currency, amount);
        proof {
            if r is Err {
                assert(self.capacity == old(self).capacity);
                assert(*self == *old(self));
            }
        }
        r
    }

    /// What the capacity pool owes a collateral currency right now.
    pub fn compute_capacity_reward(&self, c: CurrencyId, reward_currency: CurrencyId) -> (r: Result<
        Balance,
        Error,
    >)
        requires
            self.wf(),
        ensures
            match r {
                Ok(w) => w == self.capacity.computed_reward(c, reward_currency)
                    && !self.capacity.settle_step_overflows(c, reward_currency),
                Err(e) => e == Error::Overflow && self.capacity.settle_step_overflows(
                    c,
                    reward_currency,
                ),
            },
    {
        self.capacity.compute_reward(c, reward_currency)
    }

    /// Pay out a vault's share of its currency's vault-pool rewards and
    /// reset the vault's record, so the caller can hand it on to the vault's
    /// staking pool.
    pub fn withdraw_vault_reward(&mut self, c: CurrencyId, v: VaultAccount, rc: CurrencyId) -> (r:
        Result<Balance, Error>)
        requires
            old(self).wf(),
        ensures
            final(self).wf(),
            final(self).capacity == old(self).capacity,
            forall|c2: CurrencyId, v2: VaultAccount| #[trigger]
                final(self).vault_stake_of(c2, v2) == old(self).vault_stake_of(c2, v2),
            forall|c2: CurrencyId| #[trigger]
                final(self).vault_total_of(c2) == old(self).vault_total_of(c2),
            match r {
                Ok(w) => {
                    &&& w == old(self).vault_reward_of(c, v, rc)
                    &&& final(self).vault_reward_of(c, v, rc) == 0
                    &&& !old(self).vault_payout_overflows(c, v, rc)
                },
                Err(e) => {
                    &&& e == Error::Overflow
                    &&& old(self).vault_payout_overflows(c, v, rc)
                    &&& final(self).vault_reward_of(c, v, rc) == old(self).vault_reward_of(
                        c,
                        v,
                        rc,
                    )
                },
            },
    {
        let ghost pre = *self;
        let mut pool = self.take_vault_pool(c);
        let result = pool.withdraw_reward(v, rc);
        let ghost moved = pool;
        self.vault_pools.insert(Key { a: c, b: 0 }, pool);
        proof {
            self.lemma_reinsert_post(pre, c, moved);
        }
        match result {
            Ok(w) => Ok(w),
            Err(e) => Err(e),
        }
    }
}

/// Push a collateral currency's accrued capacity reward down to its
/// vault pool at once, without waiting for a periodic pass: the amount
/// owed to the currency leaves the capacity pool and is distributed
/// across the currency's vaults in proportion to their capacity stake.
/// Returns the amount moved. With no vault stake the amount is dropped,
/// as any distribution into an empty pool is. A failure changes nothing.
pub fn fast_track(hierarchy: &mut PoolHierarchy, c: CurrencyId, reward_currency: CurrencyId) -> (r: Result<
    Balance,
    Error,
>)
    requires
        old(hierarchy).wf(),
    ensures
        final(hierarchy).wf(),
        forall|c2: CurrencyId| #[trigger]
            final(hierarchy).capacity_stake_of(c2) == old(hierarchy).capacity_stake_of(c2),
        forall|c2: CurrencyId, v2: VaultAccount| #[trigger]
            final(hierarchy).vault_stake_of(c2, v2) == old(hierarchy).vault_stake_of(c2, v2),
        forall|c2: CurrencyId| #[trigger]
            final(hierarchy).vault_total_of(c2) == old(hierarchy).vault_total_of(c2),
        match r {
            Ok(w) => {
                &&& w == old(hierarchy).capacity.computed_reward(c, reward_currency)
                &&& !old(hierarchy).capacity.settle_step_overflows(c, reward_currency)
                &&& !old(hierarchy).vault_distribute_overflows(c, reward_currency, w as int)
                &&& final(hierarchy).capacity.computed_reward(c, reward_currency) == 0
                &&& old(hierarchy).vault_total_of(c) > 0 ==> final(hierarchy).vault_rpt_of(
                    c,
                    reward_currency,
                ) == old(hierarchy).vault_rpt_of(c, reward_currency) + w * SCALE / old(hierarchy).vault_total_of(c)
                &&& old(hierarchy).vault_total_of(c) == 0 ==> final(hierarchy).vault_rpt_of(
                    c,
                    reward_currency,
                ) == old(hierarchy).vault_rpt_of(c, reward_currency)
            },
            Err(e) => {
                &&& e == Error::Overflow
                &&& *final(hierarchy) == *old(hierarchy)
                &&& (old(hierarchy).capacity.settle_step_overflows(c, reward_currency)
                    || old(hierarchy).vault_distribute_overflows(
                    c,
                    reward_currency,
                    old(hierarchy).capacity.computed_reward(c, reward_currency),
                ))
            },
        },
{
    let w = match hierarchy.compute_capacity_reward(c, reward_currency) {
        Ok(w) => w,
        Err(e) => {
            return Err(e);
        },
    };
    let vt = hierarchy.vault_total_stake(c);
    if vt > 0 {
        let delta = match FixedPoint::ratio(w, vt) {
            Some(d) => d,
            None => {
                return Err(Error::Overflow);
            },
        };
        let cur = hierarchy.vault_rpt_value(c, reward_currency);
        if cur.checked_add(delta).is_none() {
            return Err(Error::Overflow);
        }
    }
    let ghost pre = *hierarchy;
    let moved_amount = match hierarchy.capacity.withdraw_reward(c, reward_currency) {
        Ok(x) => x,
        Err(e) => {
            proof {
                assert(false);
            }
            return Err(e);
        },
    };
    let ghost mid = *hierarchy;
    let mut pool = hierarchy.take_vault_pool(c);
    let result = pool.distribute_reward(reward_currency, moved_amount);
    let ghost moved = pool;
    hierarchy.vault_pools.insert(Key { a: c, b: 0 }, pool);
    proof {
        hierarchy.lemma_reinsert_post(mid, c, moved);
    }
    match result {
        Ok(()) => {
            proof {
                assert(moved_amount == old(hierarchy).capacity.computed_reward(c, reward_currency));
                assert(!old(hierarchy).capacity.settle_step_overflows(c, reward_currency));
                assert(!old(hierarchy).vault_distribute_overflows(
                    c,
                    reward_currency,
                    moved_amount as int,
                ));
                assert(hierarchy.capacity.computed_reward(c, reward_currency) == 0);
                if old(hierarchy).vault_total_of(c) > 0 {
                    assert(hierarchy.vault_rpt_of(c, reward_currency) == old(
                        hierarchy,
                    ).vault_rpt_of(c, reward_currency) + moved_amount * SCALE / old(
                        hierarchy,
                    ).vault_total_of(c));
                } else {
                    assert(hierarchy.vault_rpt_of(c, reward_currency) == old(
                        hierarchy,
                    ).vault_rpt_of(c, reward_currency));
                }
            }
            Ok(moved_amount)
        },
        Err(e) => {
            proof {
                assert(false);
            }
            Err(e)
        },
    }
}

} // verus!
