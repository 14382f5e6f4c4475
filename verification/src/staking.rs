//! The nominator staking pool: one reward pool per vault and slashing epoch.
//!
//! Every vault carries a nonce, its slashing epoch. Stake is addressed by
//! `(vault, nonce)`, and all operations read the current nonce only, so a
//! forced loss needs nothing but a nonce increment: the slashed epoch's
//! records become unreachable without being rewritten.

use vstd::prelude::*;

use crate::fixed::SCALE;
use crate::reward::RewardPool;
use crate::store::Key;
use crate::store::Store;
use crate::Balance;
use crate::CurrencyId;
use crate::Error;
use crate::NominatorId;
use crate::VaultAccount;

verus! {

/// Stake and reward accounting for nominators, per vault and slashing epoch.
pub struct NominatorStakingPool {
    /// The slashing epoch per vault; keyed `{ a: vault, b: 0 }`. A vault
    /// without an entry is at epoch zero.
    pub nonces: Store<u64>,
    /// One reward pool per `(vault, epoch)`; keyed `{ a: vault, b: nonce }`.
    pub pools: Store<RewardPool>,
}

impl NominatorStakingPool {
    /// The current slashing epoch of a vault.
    pub open spec fn nonce_of(self, v: VaultAccount) -> int {
        if self.nonces.has(Key { a: v, b: 0 }) {
            self.nonces.val(Key { a: v, b: 0 }) as int
        } else {
            0
        }
    }

    /// The storage key of the vault's current-epoch pool.
    pub open spec fn pool_key(self, v: VaultAccount) -> Key {
        Key { a: v, b: self.nonce_of(v) as u64 }
    }

    /// Whether the vault has a pool at its current epoch.
    pub open spec fn has_pool(self, v: VaultAccount) -> bool {
        self.pools.has(self.pool_key(v))
    }

    /// The vault's current-epoch pool.
    pub open spec fn pool_of(self, v: VaultAccount) -> RewardPool
        recommends
            self.has_pool(v),
    {
        self.pools.val(self.pool_key(v))
    }

    /// A nominator's stake at the vault's current epoch; earlier epochs are
    /// unreachable by construction.
    pub open spec fn stake_of(self, v: VaultAccount, n: NominatorId) -> int {
        if self.has_pool(v) {
            self.pool_of(v).stake_of(n)
        } else {
            0
        }
    }

    /// The vault's total stake at the current epoch.
    pub open spec fn total_stake_of(self, v: VaultAccount) -> int {
        if self.has_pool(v) {
            self.pool_of(v).total_stake as int
        } else {
            0
        }
    }

    /// What a nominator can withdraw at the current epoch.
    pub open spec fn computed_reward_of(self, v: VaultAccount, n: NominatorId, c: CurrencyId) -> int {
        if self.has_pool(v) {
            self.pool_of(v).computed_reward(n, c)
        } else {
            0
        }
    }

    /// The current-epoch accumulator of a vault for a currency.
    pub open spec fn rpt_of(self, v: VaultAccount, c: CurrencyId) -> int {
        if self.has_pool(v) {
            self.pool_of(v).rpt_of(c)
        } else {
            0
        }
    }

    /// The stake entries recorded at the vault's current epoch, in storage
    /// order; empty when the vault has no current-epoch pool.
    pub open spec fn current_stake_entries(self, v: VaultAccount) -> Seq<(Key, Balance)> {
        if self.has_pool(v) {
            self.pool_of(v).stakes.entries()
        } else {
            Seq::<(Key, Balance)>::empty()
        }
    }

    /// Whether adding `amount` for `n` at the vault's current epoch would
    /// exceed the balance range.
    pub open spec fn deposit_overflows(self, v: VaultAccount, n: NominatorId, amount: Balance) -> bool {
        self.total_stake_of(v) + amount > u128::MAX || self.settle_overflows_at(v, n)
    }

    /// Whether settling `n` at the vault's current epoch would exceed the
    /// balance range.
    pub open spec fn settle_overflows_at(self, v: VaultAccount, n: NominatorId) -> bool {
        self.has_pool(v) && self.pool_of(v).settle_overflows(n)
    }

    /// Whether distributing `amount` of `c` at the vault's current epoch
    /// would exceed the accumulator range.
    pub open spec fn distribute_overflows(self, v: VaultAccount, c: CurrencyId, amount: Balance) -> bool {
        self.total_stake_of(v) > 0 && (amount * SCALE > u128::MAX || self.rpt_of(v, c) + amount
            * SCALE / self.total_stake_of(v) > u128::MAX)
    }

    /// Whether paying out `n`'s reward in `c` would exceed the balance range.
    pub open spec fn payout_overflows(self, v: VaultAccount, n: NominatorId, c: CurrencyId) -> bool {
        self.has_pool(v) && self.pool_of(v).settle_step_overflows(n, c)
    }

    /// Well-formed: tables have distinct keys and every stored pool is a
    /// well-formed reward pool.
    pub open spec fn wf(self) -> bool {
        &&& self.nonces.wf()
        &&& self.pools.wf()
        &&& forall|k: Key| #[trigger] self.pools.has(k) ==> self.pools.val(k).wf()
    }

    /// An empty staking pool: every vault at epoch zero with nothing staked.
    pub fn new() -> (r: NominatorStakingPool)
        ensures
            r.wf(),
            forall|v: VaultAccount| #[trigger] r.nonce_of(v) == 0,
            forall|v: VaultAccount, n: NominatorId| #[trigger] r.stake_of(v, n) == 0,
            forall|v: VaultAccount| #[trigger] r.total_stake_of(v) == 0,
            forall|v: VaultAccount, n: NominatorId, c: CurrencyId| #[trigger]
                r.computed_reward_of(v, n, c) == 0,
    {
        NominatorStakingPool { nonces: Store::new(), pools: Store::new() }
    }

    /// The current slashing epoch of a vault.
    pub fn nonce(&self, v: VaultAccount) -> (r: u64)
        requires
            self.wf(),
        ensures
            r == self.nonce_of(v),
    {
        match self.nonces.get(Key { a: v, b: 0 }) {
            Some(n) => *n,
            None => 0,
        }
    }

    /// A nominator's stake, read at the current epoch only.
    pub fn compute_stake(&self, v: VaultAccount, n: NominatorId) -> (r: Balance)
        requires
            self.wf(),
        ensures
            r == self.stake_of(v, n),
    {
        let nonce = self.nonce(v);
        match self.pools.get(Key { a: v, b: nonce }) {
            Some(pool) => pool.stake_amount(n),
            None => 0,
        }
    }

    /// The vault's total stake at the current epoch.
    pub fn total_current_stake(&self, v: VaultAccount) -> (r: Balance)
        requires
            self.wf(),
        ensures
            r == self.total_stake_of(v),
    {
        let nonce = self.nonce(v);
        match self.pools.get(Key { a: v, b: nonce }) {
            Some(pool) => pool.total_stake,
            None => 0,
        }
    }

    /// What a nominator can withdraw right now. Read-only.
    pub fn compute_reward(&self, currency: CurrencyId, v: VaultAccount, n: NominatorId) -> (r:
        Result<Balance, Error>)
        requires
            self.wf(),
        ensures
            match r {
                Ok(w) => w == self.computed_reward_of(v, n, currency) && !self.payout_overflows(
                    v,
                    n,
                    currency,
                ),
                Err(e) => e == Error::Overflow && self.payout_overflows(v, n, currency),
            },
    {
        let nonce = self.nonce(v);
        match self.pools.get(Key { a: v, b: nonce }) {
            Some(pool) => pool.compute_reward(n, currency),
            None => Ok(0),
        }
    }

    /// Take the vault's current-epoch pool out for mutation, or start an
    /// empty one.
    fn take_pool(&mut self, v: VaultAccount) -> (pool: RewardPool)
        requires
            old(self).wf(),
        ensures
            final(self).nonces == old(self).nonces,
            final(self).pools.wf(),
            !final(self).pools.has(old(self).pool_key(v)),
            forall|k2: Key|
                k2 != old(self).pool_key(v) ==> final(self).pools.has(k2) == old(self).pools.has(
                    k2,
                ) && (old(self).pools.has(k2) ==> final(self).pools.val(k2) == old(self).pools.val(
                    k2,
                )),
            pool.wf(),
            old(self).has_pool(v) ==> pool == old(self).pool_of(v),
            !old(self).has_pool(v) ==> pool.total_stake == 0 && forall|n: NominatorId|
                pool.stake_of(n) == 0,
            !old(self).has_pool(v) ==> forall|n: NominatorId, c: CurrencyId| #[trigger]
                pool.computed_reward(n, c) == 0,
            !old(self).has_pool(v) ==> forall|c: CurrencyId| #[trigger] pool.rpt_of(c) == 0,
            !old(self).has_pool(v) ==> forall|n: NominatorId| !(#[trigger] pool.settle_overflows(
                n,
            )),
    {
        let nonce = self.nonce(v);
        match self.pools.remove(Key { a: v, b: nonce }) {
            Some(pool) => pool,
            None => RewardPool::new(),
        }
    }

    /// Add stake for a nominator at the vault's current epoch. Settlement
    /// happens first, so no already-earned reward moves.
    pub fn deposit_stake(&mut self, v: VaultAccount, n: NominatorId, amount: Balance) -> (r: Result<
        (),
        Error,
    >)
        requires
            old(self).wf(),
        ensures
            final(self).wf(),
            forall|v2: VaultAccount| #[trigger] final(self).nonce_of(v2) == old(self).nonce_of(v2),
            forall|v2: VaultAccount, n2: NominatorId, c: CurrencyId| #[trigger]
                final(self).computed_reward_of(v2, n2, c) == old(self).computed_reward_of(
                    v2,
                    n2,
                    c,
                ),
            forall|v2: VaultAccount, n2: NominatorId|
                !(v2 == v && n2 == n) ==> #[trigger] final(self).stake_of(v2, n2) == old(
                    self,
                ).stake_of(v2, n2),
            forall|v2: VaultAccount|
                v2 != v ==> #[trigger] final(self).total_stake_of(v2) == old(self).total_stake_of(
                    v2,
                ),
            match r {
                Ok(()) => {
                    &&& final(self).stake_of(v, n) == old(self).stake_of(v, n) + amount
                    &&& final(self).total_stake_of(v) == old(self).total_stake_of(v) + amount
                    &&& !old(self).deposit_overflows(v, n, amount)
                },
                Err(e) => {
                    &&& e == Error::Overflow
                    &&& old(self).deposit_overflows(v, n, amount)
                    &&& final(self).stake_of(v, n) == old(self).stake_of(v, n)
                    &&& final(self).total_stake_of(v) == old(self).total_stake_of(v)
                },
            },
    {
        let ghost pre = *self;
        let mut pool = self.take_pool(v);
        let result = pool.deposit_stake(n, amount);
        let ghost moved = pool;
        let nonce = self.nonce(v);
        self.pools.insert(Key { a: v, b: nonce }, pool);
        proof {
            self.lemma_reinsert_post(pre, v, moved);
        }
        match result {
            Ok(()) => Ok(()),
            Err(e) => Err(e),
        }
    }

    /// Withdraw stake for a nominator at the vault's current epoch.
    pub fn withdraw_stake(&mut self, v: VaultAccount, n: NominatorId, amount: Balance) -> (r:
        Result<(), Error>)
        requires
            old(self).wf(),
        ensures
            final(self).wf(),
            forall|v2: VaultAccount| #[trigger] final(self).nonce_of(v2) == old(self).nonce_of(v2),
            forall|v2: VaultAccount, n2: NominatorId, c: CurrencyId| #[trigger]
                final(self).computed_reward_of(v2, n2, c) == old(self).computed_reward_of(
                    v2,
                    n2,
                    c,
                ),
            forall|v2: VaultAccount, n2: NominatorId|
                !(v2 == v && n2 == n) ==> #[trigger] final(self).stake_of(v2, n2) == old(
                    self,
                ).stake_of(v2, n2),
            forall|v2: VaultAccount|
                v2 != v ==> #[trigger] final(self).total_stake_of(v2) == old(self).total_stake_of(
                    v2,
                ),
            match r {
                Ok(()) => {
                    &&& amount <= old(self).stake_of(v, n)
                    &&& final(self).stake_of(v, n) == old(self).stake_of(v, n) - amount
                    &&& final(self).total_stake_of(v) == old(self).total_stake_of(v) - amount
                    &&& !old(self).settle_overflows_at(v, n)
                },
                Err(e) => {
                    &&& (e == Error::InsufficientStake || e == Error::Overflow)
                    &&& (e == Error::InsufficientStake <==> amount > old(self).stake_of(v, n))
                    &&& (e == Error::Overflow ==> amount <= old(self).stake_of(v, n) && old(
                        self,
                    ).settle_overflows_at(v, n))
                    &&& final(self).stake_of(v, n) == old(self).stake_of(v, n)
                    &&& final(self).total_stake_of(v) == old(self).total_stake_of(v)
                },
            },
    {
        let ghost pre = *self;
        let mut pool = self.take_pool(v);
        let result = pool.withdraw_stake(n, amount);
        let ghost moved = pool;
        let nonce = self.nonce(v);
        self.pools.insert(Key { a: v, b: nonce }, pool);
        proof {
            self.lemma_reinsert_post(pre, v, moved);
        }
        match result {
            Ok(()) => Ok(()),
            Err(e) => Err(e),
        }
    }

    /// Credit a reward to the vault's current-epoch pool as a whole. With no
    /// stake at the current epoch the amount is dropped silently.
    pub fn distribute_reward(&mut self, currency: CurrencyId, v: VaultAccount, amount: Balance) -> (r:
        Result<(), Error>)
        requires
            old(self).wf(),
        ensures
            final(self).wf(),
            forall|v2: VaultAccount| #[trigger] final(self).nonce_of(v2) == old(self).nonce_of(v2),
            forall|v2: VaultAccount, n2: NominatorId| #[trigger]
                final(self).stake_of(v2, n2) == old(self).stake_of(v2, n2),
            forall|v2: VaultAccount| #[trigger]
                final(self).total_stake_of(v2) == old(self).total_stake_of(v2),
            forall|v2: VaultAccount, n2: NominatorId, c: CurrencyId|
                v2 != v ==> #[trigger] final(self).computed_reward_of(v2, n2, c) == old(
                    self,
                ).computed_reward_of(v2, n2, c),
            forall|v2: VaultAccount, c2: CurrencyId|
                v2 != v ==> #[trigger] final(self).rpt_of(v2, c2) == old(self).rpt_of(v2, c2),
            forall|c2: CurrencyId|
                c2 != currency ==> #[trigger] final(self).rpt_of(v, c2) == old(self).rpt_of(
                    v,
                    c2,
                ),
            match r {
                Ok(()) => {
                    &&& !old(self).distribute_overflows(v, currency, amount)
                    &&& old(self).total_stake_of(v) == 0 ==> (forall|
                        n2: NominatorId,
                        c: CurrencyId,
                    | #[trigger]
                        final(self).computed_reward_of(v, n2, c) == old(self).computed_reward_of(
                            v,
                            n2,
                            c,
                        )) && final(self).rpt_of(v, currency) == old(self).rpt_of(v, currency)
                    &&& old(self).total_stake_of(v) > 0 ==> final(self).rpt_of(v, currency) == old(
                        self,
                    ).rpt_of(v, currency) + amount * SCALE / old(self).total_stake_of(v)
                },
                Err(e) => {
                    &&& e == Error::Overflow
                    &&& old(self).distribute_overflows(v, currency, amount)
                    &&& final(self).rpt_of(v, currency) == old(self).rpt_of(v, currency)
                    &&& forall|n2: NominatorId, c: CurrencyId| #[trigger]
                        final(self).computed_reward_of(v, n2, c) == old(self).computed_reward_of(
                            v,
                            n2,
                            c,
                        )
                },
            },
    {
        let ghost pre = *self;
        let mut pool = self.take_pool(v);
        let result = pool.distribute_reward(currency, amount);
        let ghost moved = pool;
        let nonce = self.nonce(v);
        self.pools.insert(Key { a: v, b: nonce }, pool);
        proof {
            self.lemma_reinsert_post(pre, v, moved);
        }
        match result {
            Ok(()) => Ok(()),
            Err(e) => Err(e),
        }
    }

    /// Pay out a nominator's withdrawable reward and reset their record.
    pub fn withdraw_reward(&mut self, currency: CurrencyId, v: VaultAccount, n: NominatorId) -> (r:
        Result<Balance, Error>)
        requires
            old(self).wf(),
        ensures
            final(self).wf(),
            forall|v2: VaultAccount| #[trigger] final(self).nonce_of(v2) == old(self).nonce_of(v2),
            forall|v2: VaultAccount, n2: NominatorId| #[trigger]
                final(self).stake_of(v2, n2) == old(self).stake_of(v2, n2),
            forall|v2: VaultAccount| #[trigger]
                final(self).total_stake_of(v2) == old(self).total_stake_of(v2),
            forall|v2: VaultAccount, n2: NominatorId, c: CurrencyId|
                !(v2 == v && n2 == n && c == currency) ==> #[trigger] final(self).computed_reward_of(v2, n2, c) == old(self).computed_reward_of(v2, n2, c),
            match r {
                Ok(w) => {
                    &&& w == old(self).computed_reward_of(v, n, currency)
                    &&& final(self).computed_reward_of(v, n, currency) == 0
                    &&& !old(self).payout_overflows(v, n, currency)
                },
                Err(e) => {
                    &&& e == Error::Overflow
                    &&& old(self).payout_overflows(v, n, currency)
                    &&& final(self).computed_reward_of(v, n, currency) == old(
                        self,
                    ).computed_reward_of(v, n, currency)
                },
            },
    {
        let ghost pre = *self;
        let mut pool = self.take_pool(v);
        let result = pool.withdraw_reward(n, currency);
        let ghost moved = pool;
        let nonce = self.nonce(v);
        self.pools.insert(Key { a: v, b: nonce }, pool);
        proof {
            self.lemma_reinsert_post(pre, v, moved);
        }
        match result {
            Ok(w) => Ok(w),
            Err(e) => Err(e),
        }
    }

    /// The nominators recorded at the vault's current epoch, with their
    /// stakes, in storage order.
    pub fn current_stakes(&self, v: VaultAccount) -> (r: Vec<(NominatorId, Balance)>)
        requires
            self.wf(),
        ensures
            r@.len() == self.current_stake_entries(v).len(),
            forall|i: int|
                0 <= i < self.current_stake_entries(v).len() ==> r@[i] == ((
                #[trigger] self.current_stake_entries(v)[i]).0.a,
                self.current_stake_entries(v)[i].1),
    {
        let nonce = self.nonce(v);
        let mut refunds: Vec<(NominatorId, Balance)> = Vec::new();
        match self.pools.get(Key { a: v, b: nonce }) {
            Some(pool) => {
                let m = pool.stakes.len();
                let mut i: usize = 0;
                while i < m
                    invariant
                        m == pool.stakes.entries().len(),
                        pool.stakes.entries() == self.pool_of(v).stakes.entries(),
                        i <= m,
                        refunds@.len() == i,
                        forall|j: int|
                            0 <= j < i ==> refunds@[j] == ((
                            #[trigger] pool.stakes.entries()[j]).0.a, pool.stakes.entries()[j].1),
                    decreases m - i,
                {
                    let k = pool.stakes.key_at(i);
                    let amt = *pool.stakes.value_at(i);
                    refunds.push((k.a, amt));
                    i += 1;
                }
                refunds
            },
            None => refunds,
        }
    }

    /// Slash a vault: report every nominator's current stake for refunding,
    /// then advance the slashing epoch. The pre-slash records stay on disk
    /// but can never be read again, so no per-nominator pass is needed.
    pub fn force_refund(&mut self, v: VaultAccount) -> (refunds: Vec<(NominatorId, Balance)>)
        requires
            old(self).wf(),
            old(self).nonce_of(v) < u64::MAX,
        ensures
            final(self).wf(),
            final(self).nonce_of(v) == old(self).nonce_of(v) + 1,
            forall|v2: VaultAccount|
                v2 != v ==> #[trigger] final(self).nonce_of(v2) == old(self).nonce_of(v2),
            forall|n: NominatorId| #[trigger] final(self).stake_of(v, n) == 0,
            final(self).total_stake_of(v) == 0,
            forall|n: NominatorId, c: CurrencyId| #[trigger]
                final(self).computed_reward_of(v, n, c) == 0,
            forall|v2: VaultAccount, n2: NominatorId|
                v2 != v ==> #[trigger] final(self).stake_of(v2, n2) == old(self).stake_of(v2, n2),
            forall|v2: VaultAccount, n2: NominatorId, c: CurrencyId|
                v2 != v ==> #[trigger] final(self).computed_reward_of(v2, n2, c) == old(
                    self,
                ).computed_reward_of(v2, n2, c),
            forall|v2: VaultAccount|
                v2 != v ==> #[trigger] final(self).total_stake_of(v2) == old(self).total_stake_of(
                    v2,
                ),
            refunds@.len() == old(self).current_stake_entries(v).len(),
            forall|i: int|
                0 <= i < old(self).current_stake_entries(v).len() ==> refunds@[i] == ((
                #[trigger] old(self).current_stake_entries(v)[i]).0.a,
                old(self).current_stake_entries(v)[i].1),
    {
        let ghost pre = *self;
        let refunds = self.current_stakes(v);
        let nonce = self.nonce(v);
        let new_nonce = nonce + 1;
        self.nonces.insert(Key { a: v, b: 0 }, new_nonce);
        let fresh = RewardPool::new();
        let ghost fresh_snap = fresh;
        self.pools.insert(Key { a: v, b: new_nonce }, fresh);
        proof {
            assert(self.nonce_of(v) == pre.nonce_of(v) + 1);
            assert forall|v2: VaultAccount| v2 != v implies #[trigger] self.nonce_of(v2)
                == pre.nonce_of(v2) by {
                assert(Key { a: v2, b: 0 } != Key { a: v, b: 0 });
            }
            assert(self.pool_key(v) == Key { a: v, b: new_nonce });
            assert(self.has_pool(v));
            assert(self.pool_of(v) == fresh_snap);
            assert forall|v2: VaultAccount| v2 != v implies #[trigger] self.has_pool(v2)
                == pre.has_pool(v2) && (pre.has_pool(v2) ==> self.pool_of(v2) == pre.pool_of(
                v2,
            )) by {
                assert(self.pool_key(v2) == pre.pool_key(v2));
                assert(pre.pool_key(v2).a == v2);
                assert(Key { a: v2, b: pre.nonce_of(v2) as u64 } != Key { a: v, b: new_nonce });
            }
            assert forall|k: Key| #[trigger] self.pools.has(k) implies self.pools.val(k).wf() by {
                if k != (Key { a: v, b: new_nonce }) {
                    assert(pre.pools.has(k));
                    assert(self.pools.val(k) == pre.pools.val(k));
                }
            }
        }
        refunds
    }

    /// Putting the mutated current-epoch pool back leaves every other vault,
    /// and the epochs themselves, untouched.
    proof fn lemma_reinsert_post(self, pre: NominatorStakingPool, v: VaultAccount, pool: RewardPool)
        requires
            pre.wf(),
            pool.wf(),
            self.nonces == pre.nonces,
            self.pools.wf(),
            self.pools.has(pre.pool_key(v)),
            self.pools.val(pre.pool_key(v)) == pool,
            forall|k2: Key|
                k2 != pre.pool_key(v) ==> self.pools.has(k2) == pre.pools.has(k2) && (
                pre.pools.has(k2) ==> self.pools.val(k2) == pre.pools.val(k2)),
        ensures
            self.wf(),
            forall|v2: VaultAccount| #[trigger] self.nonce_of(v2) == pre.nonce_of(v2),
            self.has_pool(v),
            self.pool_of(v) == pool,
            forall|v2: VaultAccount|
                v2 != v ==> #[trigger] self.has_pool(v2) == pre.has_pool(v2) && (pre.has_pool(v2)
                    ==> self.pool_of(v2) == pre.pool_of(v2)),
    {
        assert(forall|v2: VaultAccount| #[trigger] self.nonce_of(v2) == pre.nonce_of(v2));
        assert(forall|v2: VaultAccount| #[trigger] self.pool_key(v2) == pre.pool_key(v2));
        assert forall|v2: VaultAccount|
            v2 != v implies #[trigger] self.has_pool(v2) == pre.has_pool(v2) && (pre.has_pool(v2)
            ==> self.pool_of(v2) == pre.pool_of(v2)) by {
            assert(pre.pool_key(v2).a == v2);
            assert(pre.pool_key(v).a == v);
            assert(pre.pool_key(v2) != pre.pool_key(v));
        }
        assert forall|k: Key| #[trigger] self.pools.has(k) implies self.pools.val(k).wf() by {
            if k != pre.pool_key(v) {
                assert(pre.pools.has(k));
                assert(self.pools.val(k) == pre.pools.val(k));
            }
        }
    }
}

} // verus!
