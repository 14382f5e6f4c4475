//! The reward pool: stake per participant and O(1) proportional
//! distribution through a lazily settled accumulator.
//!
//! A distribution of `amount` raises the pool's per-currency accumulator by
//! `amount * SCALE / total_stake` once; every participant's owed reward is the
//! product of their stake with the accumulator movement since their last
//! settlement, plus what earlier settlements escrowed. Stake changes settle
//! first, so they never change what a participant is owed.

use vstd::prelude::*;

use crate::fixed::FixedPoint;
use crate::fixed::SCALE;
use crate::store::Key;
use crate::store::Store;
use crate::Balance;
use crate::CurrencyId;
use crate::Error;
use crate::StakeId;

verus! {

/// Sum of the balances stored in a table.
pub open spec fn sum_balances(s: Seq<(Key, Balance)>) -> int
    decreases s.len(),
{
    if s.len() == 0 {
        0
    } else {
        sum_balances(s.drop_last()) + s.last().1
    }
}

/// Balance sums are never negative.
pub proof fn lemma_sum_nonneg(s: Seq<(Key, Balance)>)
    ensures
        sum_balances(s) >= 0,
    decreases s.len(),
{
    if s.len() > 0 {
        lemma_sum_nonneg(s.drop_last());
    }
}

/// Appending an entry adds its balance to the sum.
pub proof fn lemma_sum_push(s: Seq<(Key, Balance)>, e: (Key, Balance))
    ensures
        sum_balances(s.push(e)) == sum_balances(s) + e.1,
{
    assert(s.push(e).drop_last() =~= s);
    assert(s.push(e).last() == e);
}

/// Replacing the balance at one index moves the sum by the difference.
pub proof fn lemma_sum_update(s: Seq<(Key, Balance)>, i: int, v: Balance)
    requires
        0 <= i < s.len(),
    ensures
        sum_balances(s.update(i, (s[i].0, v))) == sum_balances(s) - s[i].1 + v,
    decreases s.len(),
{
    let t = s.update(i, (s[i].0, v));
    if i == s.len() - 1 {
        assert(t.drop_last() =~= s.drop_last());
        assert(t.last() == (s[i].0, v));
    } else {
        assert(t.drop_last() =~= s.drop_last().update(i, (s[i].0, v)));
        assert(t.last() == s.last());
        lemma_sum_update(s.drop_last(), i, v);
    }
}

/// Every single balance is at most the sum of its table.
pub proof fn lemma_sum_at(s: Seq<(Key, Balance)>, i: int)
    requires
        0 <= i < s.len(),
    ensures
        s[i].1 <= sum_balances(s),
    decreases s.len(),
{
    if i == s.len() - 1 {
        lemma_sum_nonneg(s.drop_last());
    } else {
        lemma_sum_at(s.drop_last(), i);
    }
}

/// Dropping the last entry removes its balance from the sum.
pub proof fn lemma_sum_drop_last(s: Seq<(Key, Balance)>)
    requires
        s.len() > 0,
    ensures
        sum_balances(s.drop_last()) == sum_balances(s) - s.last().1,
{
}

/// Sum of a sequence of balances.
pub open spec fn sum_seq(s: Seq<Balance>) -> int
    decreases s.len(),
{
    if s.len() == 0 {
        0
    } else {
        sum_seq(s.drop_last()) + s.last()
    }
}

/// What a set of holders can withdraw after their accumulator moved by
/// `delta`: each holder's stake times the movement, rounded down to a whole
/// balance, summed up.
pub open spec fn sum_shares(stakes: Seq<Balance>, delta: int) -> int
    decreases stakes.len(),
{
    if stakes.len() == 0 {
        0
    } else {
        sum_shares(stakes.drop_last(), delta) + (stakes.last() * delta) / (SCALE as int)
    }
}

/// The total accumulator movement of a sequence of distributions against a
/// constant total stake: each amount contributes `amount * SCALE / total`.
pub open spec fn accum_deltas(amounts: Seq<Balance>, total: Balance) -> int
    decreases amounts.len(),
{
    if amounts.len() == 0 {
        0
    } else {
        accum_deltas(amounts.drop_last(), total) + (amounts.last() * SCALE) / (total as int)
    }
}

/// The summed shares of an accumulator movement sit within one rounding step
/// per holder of the exact product `total * delta`.
pub proof fn lemma_sum_shares_bounds(stakes: Seq<Balance>, delta: int)
    requires
        delta >= 0,
    ensures
        0 <= sum_shares(stakes, delta),
        SCALE * sum_shares(stakes, delta) <= sum_seq(stakes) * delta,
        sum_seq(stakes) * delta <= SCALE * sum_shares(stakes, delta) + stakes.len() * (SCALE - 1),
    decreases stakes.len(),
{
    if stakes.len() == 0 {
        assert(sum_seq(stakes) * delta == 0) by (nonlinear_arith)
            requires
                sum_seq(stakes) == 0,
        ;
    } else {
        let rest = stakes.drop_last();
        let x = stakes.last() * delta;
        lemma_sum_shares_bounds(rest, delta);
        assert(x >= 0) by (nonlinear_arith)
            requires
                x == stakes.last() * delta,
                stakes.last() >= 0,
                delta >= 0,
        ;
        vstd::arithmetic::div_mod::lemma_fundamental_div_mod(x, SCALE as int);
        vstd::arithmetic::div_mod::lemma_mod_bound(x, SCALE as int);
        assert(x / (SCALE as int) >= 0) by (nonlinear_arith)
            requires
                x >= 0,
                x == (SCALE as int) * (x / (SCALE as int)) + x % (SCALE as int),
                0 <= x % (SCALE as int) < (SCALE as int),
        ;
        assert(sum_seq(stakes) * delta == sum_seq(rest) * delta + x) by (nonlinear_arith)
            requires
                sum_seq(stakes) == sum_seq(rest) + stakes.last(),
                x == stakes.last() * delta,
        ;
        assert(SCALE * sum_shares(stakes, delta) == SCALE * sum_shares(rest, delta) + SCALE * (x
            / (SCALE as int))) by (nonlinear_arith)
            requires
                sum_shares(stakes, delta) == sum_shares(rest, delta) + x / (SCALE as int),
        ;
        assert(stakes.len() * (SCALE - 1) == rest.len() * (SCALE - 1) + (SCALE - 1))
            by (nonlinear_arith)
            requires
                stakes.len() == rest.len() + 1,
        ;
    }
}

/// The total accumulator movement of a distribution sequence sits within one
/// rounding step per distribution of the exact scaled value.
pub proof fn lemma_accum_deltas_bounds(amounts: Seq<Balance>, total: Balance)
    requires
        total > 0,
    ensures
        0 <= accum_deltas(amounts, total),
        (total as int) * accum_deltas(amounts, total) <= sum_seq(amounts) * SCALE,
        sum_seq(amounts) * SCALE <= (total as int) * accum_deltas(amounts, total) + amounts.len()
            * (total - 1),
    decreases amounts.len(),
{
    if amounts.len() == 0 {
        assert((total as int) * 0 == 0) by (nonlinear_arith);
        assert(sum_seq(amounts) * SCALE == 0) by (nonlinear_arith)
            requires
                sum_seq(amounts) == 0,
        ;
    } else {
        let rest = amounts.drop_last();
        let x = amounts.last() * SCALE;
        let d = x / (total as int);
        lemma_accum_deltas_bounds(rest, total);
        assert(x >= 0) by (nonlinear_arith)
            requires
                x == amounts.last() * SCALE,
                amounts.last() >= 0,
        ;
        vstd::arithmetic::div_mod::lemma_fundamental_div_mod(x, total as int);
        vstd::arithmetic::div_mod::lemma_mod_bound(x, total as int);
        assert(d >= 0) by (nonlinear_arith)
            requires
                x >= 0,
                total > 0,
                x == (total as int) * d + x % (total as int),
                0 <= x % (total as int) < (total as int),
        ;
        assert(sum_seq(amounts) * SCALE == sum_seq(rest) * SCALE + x) by (nonlinear_arith)
            requires
                sum_seq(amounts) == sum_seq(rest) + amounts.last(),
                x == amounts.last() * SCALE,
        ;
        assert((total as int) * accum_deltas(amounts, total) == (total as int) * accum_deltas(
            rest,
            total,
        ) + (total as int) * d) by (nonlinear_arith)
            requires
                accum_deltas(amounts, total) == accum_deltas(rest, total) + d,
        ;
        assert(amounts.len() * (total - 1) == rest.len() * (total - 1) + (total - 1))
            by (nonlinear_arith)
            requires
                amounts.len() == rest.len() + 1,
        ;
    }
}

/// Conservation of distributed value. For any holders whose stakes sum to
/// `total` and any sequence of distributions at constant total stake, the sum
/// of the holders' withdrawable shares never exceeds what was distributed,
/// and what rounding withholds is below one balance unit per distribution
/// (division remainder) plus one per holder (flooring): scaled by `SCALE`,
/// the shortfall is at most
/// `amounts.len() * (total - 1) + stakes.len() * (SCALE - 1)`.
pub proof fn lemma_conservation(stakes: Seq<Balance>, total: Balance, amounts: Seq<Balance>)
    requires
        sum_seq(stakes) == total,
        total > 0,
    ensures
        0 <= sum_shares(stakes, accum_deltas(amounts, total)),
        sum_shares(stakes, accum_deltas(amounts, total)) <= sum_seq(amounts),
        SCALE * (sum_seq(amounts) - sum_shares(stakes, accum_deltas(amounts, total)))
            <= amounts.len() * (total - 1) + stakes.len() * (SCALE - 1),
{
    let d = accum_deltas(amounts, total);
    let paid = sum_shares(stakes, d);
    let r = sum_seq(amounts);
    lemma_accum_deltas_bounds(amounts, total);
    lemma_sum_shares_bounds(stakes, d);
    assert(SCALE * paid <= r * SCALE) by {
        assert(SCALE * paid <= (total as int) * d);
    }
    assert(paid <= r) by (nonlinear_arith)
        requires
            SCALE * paid <= r * SCALE,
            SCALE > 0,
    ;
    assert(SCALE * (r - paid) == r * SCALE - SCALE * paid) by (nonlinear_arith);
}

/// The bound of the reference scenario: when every distribution divides
/// evenly into the total stake, rounding withholds at most one balance unit
/// per holder beyond the first.
pub proof fn lemma_conservation_exact_division(
    stakes: Seq<Balance>,
    total: Balance,
    amounts: Seq<Balance>,
)
    requires
        sum_seq(stakes) == total,
        total > 0,
        forall|i: int|
            0 <= i < amounts.len() ==> ((#[trigger] amounts[i]) * SCALE) % (total as int) == 0,
    ensures
        0 <= sum_seq(amounts) - sum_shares(stakes, accum_deltas(amounts, total)) <= stakes.len()
            - 1,
{
    let d = accum_deltas(amounts, total);
    let paid = sum_shares(stakes, d);
    let r = sum_seq(amounts);
    lemma_conservation(stakes, total, amounts);
    lemma_accum_deltas_exact(amounts, total);
    lemma_accum_deltas_bounds(amounts, total);
    lemma_sum_shares_bounds(stakes, d);
    assert(r * SCALE == (total as int) * d);
    assert(SCALE * (r - paid) == r * SCALE - SCALE * paid) by (nonlinear_arith);
    assert(SCALE * (r - paid) <= stakes.len() * (SCALE - 1));
    assert(stakes.len() > 0) by {
        if stakes.len() == 0 {
            assert(sum_seq(stakes) == 0);
        }
    }
    assert(r - paid < stakes.len()) by (nonlinear_arith)
        requires
            SCALE * (r - paid) <= stakes.len() * (SCALE - 1),
            SCALE >= 1,
            stakes.len() > 0,
            r - paid >= 0,
    ;
}

/// With even division at every step, the accumulator movement carries the
/// distributed value exactly.
proof fn lemma_accum_deltas_exact(amounts: Seq<Balance>, total: Balance)
    requires
        total > 0,
        forall|i: int|
            0 <= i < amounts.len() ==> ((#[trigger] amounts[i]) * SCALE) % (total as int) == 0,
    ensures
        (total as int) * accum_deltas(amounts, total) == sum_seq(amounts) * SCALE,
    decreases amounts.len(),
{
    if amounts.len() == 0 {
        assert((total as int) * 0 == 0) by (nonlinear_arith);
        assert(sum_seq(amounts) * SCALE == 0) by (nonlinear_arith)
            requires
                sum_seq(amounts) == 0,
        ;
    } else {
        let rest = amounts.drop_last();
        let x = amounts.last() * SCALE;
        let d = x / (total as int);
        assert(forall|i: int|
            0 <= i < rest.len() ==> ((#[trigger] rest[i]) * SCALE) % (total as int) == 0) by {
            assert(forall|i: int| 0 <= i < rest.len() ==> rest[i] == amounts[i]);
        }
        lemma_accum_deltas_exact(rest, total);
        assert(x % (total as int) == 0);
        vstd::arithmetic::div_mod::lemma_fundamental_div_mod(x, total as int);
        assert(sum_seq(amounts) * SCALE == sum_seq(rest) * SCALE + x) by (nonlinear_arith)
            requires
                sum_seq(amounts) == sum_seq(rest) + amounts.last(),
                x == amounts.last() * SCALE,
        ;
        assert((total as int) * accum_deltas(amounts, total) == (total as int) * accum_deltas(
            rest,
            total,
        ) + (total as int) * d) by (nonlinear_arith)
            requires
                accum_deltas(amounts, total) == accum_deltas(rest, total) + d,
        ;
    }
}

/// A sequence of balances equals, summed, the balance sum of the entries it
/// was read from.
pub proof fn lemma_values_sum(entries: Seq<(Key, Balance)>)
    ensures
        sum_seq(Seq::new(entries.len(), |i: int| entries[i].1)) == sum_balances(entries),
    decreases entries.len(),
{
    let values = Seq::new(entries.len(), |i: int| entries[i].1);
    if entries.len() > 0 {
        lemma_values_sum(entries.drop_last());
        assert(values.drop_last() =~= Seq::new(
            entries.drop_last().len(),
            |i: int| entries.drop_last()[i].1,
        ));
        assert(values.last() == entries.last().1);
    }
}

/// A single reward pool: one set of participants, any number of reward
/// currencies.
pub struct RewardPool {
    /// Sum of every participant's stake.
    pub total_stake: Balance,
    /// Stake per participant; keyed `{ a: participant, b: 0 }`.
    pub stakes: Store<Balance>,
    /// Cumulative reward per unit of stake; keyed `{ a: currency, b: 0 }`.
    /// Never decreases.
    pub reward_per_token: Store<FixedPoint>,
    /// Accumulator value at the participant's last settlement; keyed
    /// `{ a: participant, b: currency }`.
    pub reward_tally: Store<FixedPoint>,
    /// Settled but not yet withdrawn reward; keyed
    /// `{ a: participant, b: currency }`.
    pub escrow: Store<Balance>,
    /// Outstanding distributed value per currency (saturating bookkeeping);
    /// keyed `{ a: currency, b: 0 }`.
    pub total_rewards: Store<Balance>,
}

impl RewardPool {
    /// The participant's current stake.
    pub open spec fn stake_of(self, p: StakeId) -> int {
        if self.stakes.has(Key { a: p, b: 0 }) {
            self.stakes.val(Key { a: p, b: 0 }) as int
        } else {
            0
        }
    }

    /// The accumulator for a currency, in fixed-point units.
    pub open spec fn rpt_of(self, c: CurrencyId) -> int {
        if self.reward_per_token.has(Key { a: c, b: 0 }) {
            self.reward_per_token.val(Key { a: c, b: 0 }).units as int
        } else {
            0
        }
    }

    /// The accumulator value last settled for a participant and currency.
    pub open spec fn tally_of(self, p: StakeId, c: CurrencyId) -> int {
        if self.reward_tally.has(Key { a: p, b: c }) {
            self.reward_tally.val(Key { a: p, b: c }).units as int
        } else {
            0
        }
    }

    /// Reward settled for a participant but not yet withdrawn.
    pub open spec fn escrow_of(self, p: StakeId, c: CurrencyId) -> int {
        if self.escrow.has(Key { a: p, b: c }) {
            self.escrow.val(Key { a: p, b: c }) as int
        } else {
            0
        }
    }

    /// Outstanding distributed value for a currency.
    pub open spec fn total_rewards_of(self, c: CurrencyId) -> int {
        if self.total_rewards.has(Key { a: c, b: 0 }) {
            self.total_rewards.val(Key { a: c, b: 0 }) as int
        } else {
            0
        }
    }

    /// Unsettled reward of a participant, in fixed-point units: stake times
    /// the accumulator movement since the last settlement.
    pub open spec fn pending_units(self, p: StakeId, c: CurrencyId) -> int {
        self.stake_of(p) * (self.rpt_of(c) - self.tally_of(p, c))
    }

    /// The reward a participant can withdraw right now: escrowed value plus
    /// the settled-down unsettled part.
    pub open spec fn computed_reward(self, p: StakeId, c: CurrencyId) -> int {
        self.escrow_of(p, c) + self.pending_units(p, c) / (SCALE as int)
    }

    /// Whether settling `p` in currency `c` would exceed the balance range.
    pub open spec fn settle_step_overflows(self, p: StakeId, c: CurrencyId) -> bool {
        self.pending_units(p, c) > u128::MAX || self.escrow_of(p, c) + self.pending_units(p, c)
            / (SCALE as int) > u128::MAX
    }

    /// Whether settling `p` in any currency would exceed the balance range.
    pub open spec fn settle_overflows(self, p: StakeId) -> bool {
        exists|c: CurrencyId| #[trigger] self.settle_step_overflows(p, c)
    }

    /// Well-formed: tables have distinct keys, single-id tables stay on the
    /// first coordinate, the recorded total is the sum of all stakes, and no
    /// tally is ahead of its accumulator.
    pub open spec fn wf(self) -> bool {
        &&& self.stakes.wf()
        &&& self.reward_per_token.wf()
        &&& self.reward_tally.wf()
        &&& self.escrow.wf()
        &&& self.total_rewards.wf()
        &&& self.total_stake == sum_balances(self.stakes.entries())
        &&& forall|i: int|
            0 <= i < self.stakes.entries().len() ==> (#[trigger] self.stakes.entries()[i]).0.b
                == 0
        &&& forall|i: int|
            0 <= i < self.reward_per_token.entries().len() ==> (
            #[trigger] self.reward_per_token.entries()[i]).0.b == 0
        &&& forall|p: StakeId, c: CurrencyId| #[trigger] self.tally_of(p, c) <= self.rpt_of(c)
    }

    /// Whether a currency has a recorded accumulator entry.
    pub open spec fn rpt_has(self, c: CurrencyId) -> bool {
        self.reward_per_token.has(Key { a: c, b: 0 })
    }

    /// The position of a currency's accumulator entry.
    pub open spec fn rpt_index(self, c: CurrencyId) -> int {
        self.reward_per_token.idx(Key { a: c, b: 0 })
    }

    /// The accumulator entry at position `j` belongs to exactly the currency
    /// in its key.
    pub proof fn lemma_rpt_entry(self, j: int)
        requires
            self.wf(),
            0 <= j < self.reward_per_token.entries().len(),
        ensures
            self.rpt_has(self.reward_per_token.entries()[j].0.a),
            self.rpt_index(self.reward_per_token.entries()[j].0.a) == j,
            self.rpt_of(self.reward_per_token.entries()[j].0.a)
                == self.reward_per_token.entries()[j].1.units,
    {
        let key = self.reward_per_token.entries()[j].0;
        assert(key.b == 0);
        assert(key == Key { a: key.a, b: 0 });
        self.reward_per_token.lemma_idx_is(key, j);
    }

    /// No participant holds more than the recorded total.
    pub proof fn lemma_stake_le_total(self, p: StakeId)
        requires
            self.wf(),
        ensures
            0 <= self.stake_of(p) <= self.total_stake,
    {
        if self.stakes.has(Key { a: p, b: 0 }) {
            let i = self.stakes.idx(Key { a: p, b: 0 });
            assert(0 <= i < self.stakes.entries().len() && self.stakes.entries()[i].0 == Key {
                a: p,
                b: 0,
            });
            lemma_sum_at(self.stakes.entries(), i);
        } else {
            lemma_sum_nonneg(self.stakes.entries());
        }
    }

    /// An empty pool: no stake, no accumulator movement, nothing owed.
    pub fn new() -> (r: RewardPool)
        ensures
            r.wf(),
            r.entry_count() == 0,
            r.total_stake == 0,
            forall|q: StakeId| r.stake_of(q) == 0,
            forall|c: CurrencyId| r.rpt_of(c) == 0,
            forall|c: CurrencyId| r.total_rewards_of(c) == 0,
            forall|q: StakeId, c: CurrencyId| r.tally_of(q, c) == 0,
            forall|q: StakeId, c: CurrencyId| r.escrow_of(q, c) == 0,
            forall|q: StakeId, c: CurrencyId| r.computed_reward(q, c) == 0,
            forall|q: StakeId| !(#[trigger] r.settle_overflows(q)),
    {
        let r = RewardPool {
            total_stake: 0,
            stakes: Store::new(),
            reward_per_token: Store::new(),
            reward_tally: Store::new(),
            escrow: Store::new(),
            total_rewards: Store::new(),
        };
        proof {
            assert forall|q: StakeId| !(#[trigger] r.settle_overflows(q)) by {
                assert forall|c: CurrencyId| !(#[trigger] r.settle_step_overflows(q, c)) by {
                    assert(r.stake_of(q) == 0);
                    assert(r.pending_units(q, c) == 0 * (r.rpt_of(c) - r.tally_of(q, c)));
                    assert(0 * (r.rpt_of(c) - r.tally_of(q, c)) == 0);
                    assert(r.escrow_of(q, c) == 0);
                    assert(0int / (SCALE as int) == 0);
                }
            }
        }
        r
    }

    /// The participant's current stake.
    pub fn stake_amount(&self, p: StakeId) -> (r: Balance)
        requires
            self.wf(),
        ensures
            r == self.stake_of(p),
    {
        match self.stakes.get(Key { a: p, b: 0 }) {
            Some(v) => *v,
            None => 0,
        }
    }

    /// The accumulator for a currency.
    pub fn reward_per_token_value(&self, c: CurrencyId) -> (r: FixedPoint)
        requires
            self.wf(),
        ensures
            r.units == self.rpt_of(c),
    {
        match self.reward_per_token.get(Key { a: c, b: 0 }) {
            Some(v) => *v,
            None => FixedPoint { units: 0 },
        }
    }

    /// The accumulator value last settled for `p` in `c`.
    pub fn reward_tally_value(&self, p: StakeId, c: CurrencyId) -> (r: FixedPoint)
        requires
            self.wf(),
        ensures
            r.units == self.tally_of(p, c),
    {
        match self.reward_tally.get(Key { a: p, b: c }) {
            Some(v) => *v,
            None => FixedPoint { units: 0 },
        }
    }

    /// Reward settled for `p` in `c` but not yet withdrawn.
    pub fn escrow_amount(&self, p: StakeId, c: CurrencyId) -> (r: Balance)
        requires
            self.wf(),
        ensures
            r == self.escrow_of(p, c),
    {
        match self.escrow.get(Key { a: p, b: c }) {
            Some(v) => *v,
            None => 0,
        }
    }

    /// Outstanding distributed value for a currency.
    pub fn total_rewards_amount(&self, c: CurrencyId) -> (r: Balance)
        requires
            self.wf(),
        ensures
            r == self.total_rewards_of(c),
    {
        match self.total_rewards.get(Key { a: c, b: 0 }) {
            Some(v) => *v,
            None => 0,
        }
    }

    /// The reward `p` could withdraw in `c` right now. Read-only.
    pub fn compute_reward(&self, p: StakeId, currency: CurrencyId) -> (r: Result<Balance, Error>)
        requires
            self.wf(),
        ensures
            match r {
                Ok(v) => v == self.computed_reward(p, currency) && !self.settle_step_overflows(
                    p,
                    currency,
                ),
                Err(e) => e == Error::Overflow && self.settle_step_overflows(p, currency),
            },
    {
        let stake = self.stake_amount(p);
        let rptc = self.reward_per_token_value(currency);
        let tly = self.reward_tally_value(p, currency);
        proof {
            assert(self.tally_of(p, currency) <= self.rpt_of(currency));
        }
        let diff = rptc.units - tly.units;
        let prod = match stake.checked_mul(diff) {
            Some(x) => x,
            None => {
                return Err(Error::Overflow);
            },
        };
        let pend = prod / SCALE;
        let esc = self.escrow_amount(p, currency);
        match esc.checked_add(pend) {
            Some(v) => Ok(v),
            None => Err(Error::Overflow),
        }
    }

    /// Credit `amount` of `currency` to the pool as a whole.
    ///
    /// With positive total stake the per-currency accumulator rises by
    /// `amount * SCALE / total_stake`, making the value available to every
    /// current holder in proportion to stake, in O(1). With zero total stake
    /// the distribution is dropped: nothing changes and no error is raised.
    pub fn distribute_reward(&mut self, currency: CurrencyId, amount: Balance) -> (r: Result<
        (),
        Error,
    >)
        requires
            old(self).wf(),
        ensures
            final(self).wf(),
            final(self).total_stake == old(self).total_stake,
            forall|q: StakeId| final(self).stake_of(q) == old(self).stake_of(q),
            forall|q: StakeId, c: CurrencyId|
                final(self).tally_of(q, c) == old(self).tally_of(q, c),
            forall|q: StakeId, c: CurrencyId|
                final(self).escrow_of(q, c) == old(self).escrow_of(q, c),
            forall|c: CurrencyId| #[trigger] final(self).rpt_of(c) >= old(self).rpt_of(c),
            match r {
                Ok(()) => if old(self).total_stake == 0 {
                    *final(self) == *old(self)
                } else {
                    &&& amount * SCALE <= u128::MAX
                    &&& old(self).rpt_of(currency) + amount * SCALE / (old(self).total_stake as int)
                        <= u128::MAX
                    &&& final(self).rpt_of(currency) == old(self).rpt_of(currency) + amount * SCALE
                        / (old(self).total_stake as int)
                    &&& forall|c: CurrencyId|
                        c != currency ==> final(self).rpt_of(c) == old(self).rpt_of(c)
                    &&& final(self).total_rewards_of(currency) == if old(self).total_rewards_of(
                        currency,
                    ) + amount > u128::MAX {
                        u128::MAX as int
                    } else {
                        old(self).total_rewards_of(currency) + amount
                    }
                    &&& forall|c: CurrencyId|
                        c != currency ==> final(self).total_rewards_of(c) == old(
                        self,
                        ).total_rewards_of(c)
                },
                Err(e) => {
                    &&& e == Error::Overflow
                    &&& *final(self) == *old(self)
                    &&& old(self).total_stake > 0
                    &&& (amount * SCALE > u128::MAX || old(self).rpt_of(currency) + amount * SCALE
                        / (old(self).total_stake as int) > u128::MAX)
                },
            },
    {
        if self.total_stake == 0 {
            return Ok(());
        }
        let delta = match FixedPoint::ratio(amount, self.total_stake) {
            Some(d) => d,
            None => {
                return Err(Error::Overflow);
            },
        };
        let cur = self.reward_per_token_value(currency);
        let next = match cur.checked_add(delta) {
            Some(f) => f,
            None => {
                return Err(Error::Overflow);
            },
        };
        let ghost pre = *self;
        self.reward_per_token.insert(Key { a: currency, b: 0 }, next);
        let tr = self.total_rewards_amount_raw(currency);
        let trn = if amount <= u128::MAX - tr {
            tr + amount
        } else {
            u128::MAX
        };
        self.total_rewards.insert(Key { a: currency, b: 0 }, trn);
        proof {
            self.lemma_distribute_post(pre, currency);
        }
        Ok(())
    }

    /// `total_rewards_amount` without the full well-formedness requirement:
    /// only the rewards table itself has to be intact.
    fn total_rewards_amount_raw(&self, c: CurrencyId) -> (r: Balance)
        requires
            self.total_rewards.wf(),
        ensures
            r == self.total_rewards_of(c),
    {
        match self.total_rewards.get(Key { a: c, b: 0 }) {
            Some(v) => *v,
            None => 0,
        }
    }

    /// Raising one accumulator and one rewards total keeps the pool
    /// well-formed and every other table untouched.
    proof fn lemma_distribute_post(self, pre: RewardPool, currency: CurrencyId)
        requires
            pre.wf(),
            self.stakes == pre.stakes,
            self.total_stake == pre.total_stake,
            self.reward_tally == pre.reward_tally,
            self.escrow == pre.escrow,
            self.reward_per_token.wf(),
            self.total_rewards.wf(),
            self.rpt_of(currency) >= pre.rpt_of(currency),
            forall|c: CurrencyId| c != currency ==> self.rpt_of(c) == pre.rpt_of(c),
            forall|i: int|
                0 <= i < self.reward_per_token.entries().len() ==> (
                #[trigger] self.reward_per_token.entries()[i]).0.b == 0,
        ensures
            self.wf(),
    {
        assert forall|p: StakeId, c: CurrencyId| #[trigger]
            self.tally_of(p, c) <= self.rpt_of(c) by {
            assert(pre.tally_of(p, c) <= pre.rpt_of(c));
            assert(self.tally_of(p, c) == pre.tally_of(p, c));
        }
    }

    /// The participants' stakes in storage order.
    pub open spec fn stake_values(self) -> Seq<Balance> {
        Seq::new(self.stakes.entries().len(), |i: int| self.stakes.entries()[i].1)
    }

    /// The summed withdrawable rewards of the first `n` participants.
    pub open spec fn sum_computed_prefix(self, c: CurrencyId, n: int) -> int
        decreases n,
    {
        if n <= 0 {
            0
        } else {
            self.sum_computed_prefix(c, n - 1) + self.computed_reward(
                self.stakes.entries()[n - 1].0.a,
                c,
            )
        }
    }

    /// The pool's total withdrawable reward for a currency, summed over all
    /// participants.
    pub open spec fn sum_computed(self, c: CurrencyId) -> int {
        self.sum_computed_prefix(c, self.stakes.entries().len() as int)
    }

    /// Conservation, at the pool: when every participant stands settled at a
    /// common base accumulator value with nothing in escrow, the pool's
    /// total withdrawable reward for `c` is exactly the summed shares of the
    /// accumulator movement since that base — the quantity whose distance
    /// from the distributed value [`lemma_conservation`] bounds.
    pub proof fn lemma_sum_computed_as_shares(self, c: CurrencyId, base: int)
        requires
            self.wf(),
            base <= self.rpt_of(c),
            forall|j: int|
                0 <= j < self.stakes.entries().len() ==> self.tally_of(
                    (#[trigger] self.stakes.entries()[j]).0.a,
                    c,
                ) == base,
            forall|j: int|
                0 <= j < self.stakes.entries().len() ==> self.escrow_of(
                    (#[trigger] self.stakes.entries()[j]).0.a,
                    c,
                ) == 0,
        ensures
            self.sum_computed(c) == sum_shares(self.stake_values(), self.rpt_of(c) - base),
    {
        self.lemma_sum_computed_prefix_as_shares(c, base, self.stakes.entries().len() as int);
        assert(self.stake_values().subrange(0, self.stakes.entries().len() as int)
            =~= self.stake_values());
    }

    /// The prefix form of [`Self::lemma_sum_computed_as_shares`].
    proof fn lemma_sum_computed_prefix_as_shares(self, c: CurrencyId, base: int, n: int)
        requires
            self.wf(),
            base <= self.rpt_of(c),
            0 <= n <= self.stakes.entries().len(),
            forall|j: int|
                0 <= j < self.stakes.entries().len() ==> self.tally_of(
                    (#[trigger] self.stakes.entries()[j]).0.a,
                    c,
                ) == base,
            forall|j: int|
                0 <= j < self.stakes.entries().len() ==> self.escrow_of(
                    (#[trigger] self.stakes.entries()[j]).0.a,
                    c,
                ) == 0,
        ensures
            self.sum_computed_prefix(c, n) == sum_shares(
                self.stake_values().subrange(0, n),
                self.rpt_of(c) - base,
            ),
        decreases n,
    {
        let delta = self.rpt_of(c) - base;
        if n > 0 {
            self.lemma_sum_computed_prefix_as_shares(c, base, n - 1);
            let prefix = self.stake_values().subrange(0, n);
            assert(prefix.drop_last() =~= self.stake_values().subrange(0, n - 1));
            let p = self.stakes.entries()[n - 1].0.a;
            assert(self.stakes.entries()[n - 1].0.b == 0);
            assert(self.stakes.entries()[n - 1].0 == Key { a: p, b: 0 });
            self.stakes.lemma_idx_is(Key { a: p, b: 0 }, n - 1);
            assert(self.stake_of(p) == self.stakes.entries()[n - 1].1);
            assert(self.computed_reward(p, c) == 0 + self.stake_of(p) * delta / (SCALE as int));
            assert(prefix.last() == self.stakes.entries()[n - 1].1);
        } else {
            assert(self.stake_values().subrange(0, 0) =~= Seq::<Balance>::empty());
        }
    }

    /// Conservation of distributed value, end to end. Take a well-formed
    /// pool whose participants all stand settled at a common base
    /// accumulator value with empty escrow, and whose accumulator has since
    /// moved by the per-unit shares of a sequence of distributions at the
    /// pool's constant total stake. Then the pool's total withdrawable
    /// reward never exceeds what was distributed, and the shortfall is pure
    /// rounding: scaled by `SCALE`, at most one step per distribution
    /// (division remainder) plus one per participant (flooring).
    pub proof fn lemma_pool_conservation(
        self,
        c: CurrencyId,
        base: int,
        amounts: Seq<Balance>,
    )
        requires
            self.wf(),
            self.total_stake > 0,
            base <= self.rpt_of(c),
            self.rpt_of(c) - base == accum_deltas(amounts, self.total_stake),
            forall|j: int|
                0 <= j < self.stakes.entries().len() ==> self.tally_of(
                    (#[trigger] self.stakes.entries()[j]).0.a,
                    c,
                ) == base,
            forall|j: int|
                0 <= j < self.stakes.entries().len() ==> self.escrow_of(
                    (#[trigger] self.stakes.entries()[j]).0.a,
                    c,
                ) == 0,
        ensures
            0 <= self.sum_computed(c),
            self.sum_computed(c) <= sum_seq(amounts),
            SCALE * (sum_seq(amounts) - self.sum_computed(c)) <= amounts.len() * (
            self.total_stake - 1) + self.stakes.entries().len() * (SCALE - 1),
    {
        self.lemma_sum_computed_as_shares(c, base);
        lemma_values_sum(self.stakes.entries());
        lemma_conservation(self.stake_values(), self.total_stake, amounts);
    }

    /// The reference bound: when every distribution divides evenly into the
    /// total stake, the rounding shortfall is at most one balance unit per
    /// participant beyond the first.
    pub proof fn lemma_pool_conservation_exact_division(
        self,
        c: CurrencyId,
        base: int,
        amounts: Seq<Balance>,
    )
        requires
            self.wf(),
            self.total_stake > 0,
            base <= self.rpt_of(c),
            self.rpt_of(c) - base == accum_deltas(amounts, self.total_stake),
            forall|j: int|
                0 <= j < self.stakes.entries().len() ==> self.tally_of(
                    (#[trigger] self.stakes.entries()[j]).0.a,
                    c,
                ) == base,
            forall|j: int|
                0 <= j < self.stakes.entries().len() ==> self.escrow_of(
                    (#[trigger] self.stakes.entries()[j]).0.a,
                    c,
                ) == 0,
            forall|i: int|
                0 <= i < amounts.len() ==> ((#[trigger] amounts[i]) * SCALE) % (
                self.total_stake as int) == 0,
        ensures
            0 <= sum_seq(amounts) - self.sum_computed(c) <= self.stakes.entries().len() - 1,
    {
        self.lemma_sum_computed_as_shares(c, base);
        lemma_values_sum(self.stakes.entries());
        lemma_conservation_exact_division(self.stake_values(), self.total_stake, amounts);
    }

    /// `post` is `pre` with participant `p` settled: the participant's
    /// tallies stand at `pre`'s accumulators, the pending rewards moved into
    /// escrow, and every other participant's records are untouched.
    pub open spec fn settled_at(pre: RewardPool, post: RewardPool, p: StakeId) -> bool {
        &&& forall|c: CurrencyId| #[trigger] post.tally_of(p, c) == pre.rpt_of(c)
        &&& forall|c: CurrencyId| #[trigger]
            post.escrow_of(p, c) == pre.escrow_of(p, c) + pre.pending_units(p, c) / (SCALE as int)
        &&& forall|q: StakeId, c: CurrencyId|
            q != p ==> #[trigger] post.tally_of(q, c) == pre.tally_of(q, c) && post.escrow_of(
                q,
                c,
            ) == pre.escrow_of(q, c)
    }

    /// Whether settling `p` would exceed the balance range, checked without
    /// mutating anything: the read-only form of the settlement pass.
    pub fn settle_would_overflow(&self, p: StakeId) -> (r: bool)
        requires
            self.wf(),
        ensures
            r <==> self.settle_overflows(p),
    {
        let stake = self.stake_amount(p);
        let n = self.reward_per_token.len();
        let mut i: usize = 0;
        while i < n
            invariant
                self.wf(),
                stake == self.stake_of(p),
                n == self.reward_per_token.entries().len(),
                i <= n,
                forall|j: int|
                    0 <= j < i ==> !self.settle_step_overflows(
                        p,
                        (#[trigger] self.reward_per_token.entries()[j]).0.a,
                    ),
            decreases n - i,
        {
            let key = self.reward_per_token.key_at(i);
            let c = key.a;
            proof {
                self.lemma_rpt_entry(i as int);
                assert(self.tally_of(p, c) <= self.rpt_of(c));
            }
            let rptc = *self.reward_per_token.value_at(i);
            let tly = self.reward_tally_value(p, c);
            let diff = rptc.units - tly.units;
            let prod = match stake.checked_mul(diff) {
                Some(x) => x,
                None => {
                    proof {
                        assert(self.settle_step_overflows(p, c));
                    }
                    return true;
                },
            };
            let esc = self.escrow_amount(p, c);
            if esc.checked_add(prod / SCALE).is_none() {
                proof {
                    assert(self.settle_step_overflows(p, c));
                }
                return true;
            }
            i += 1;
        }
        proof {
            assert forall|c: CurrencyId| !(#[trigger] self.settle_step_overflows(p, c)) by {
                if self.rpt_has(c) {
                    let j = self.rpt_index(c);
                    assert(0 <= j < self.reward_per_token.entries().len()
                        && self.reward_per_token.entries()[j].0 == Key { a: c, b: 0 });
                    assert(self.reward_per_token.entries()[j].0.a == c);
                } else {
                    assert(self.tally_of(p, c) <= self.rpt_of(c));
                    assert(self.rpt_of(c) == 0);
                    assert(self.tally_of(p, c) == 0);
                    assert(self.pending_units(p, c) == self.stake_of(p) * 0);
                    assert(self.stake_of(p) * 0 == 0);
                    assert(0int / (SCALE as int) == 0);
                }
            }
        }
        false
    }

    /// Settle `p`: move the pending reward of every distributed currency
    /// into escrow and advance the participant's tallies to the current
    /// accumulators. What the participant can withdraw never changes here.
    fn settle(&mut self, p: StakeId) -> (r: Result<(), Error>)
        requires
            old(self).wf(),
        ensures
            final(self).wf(),
            final(self).total_stake == old(self).total_stake,
            final(self).stakes == old(self).stakes,
            final(self).reward_per_token == old(self).reward_per_token,
            final(self).total_rewards == old(self).total_rewards,
            match r {
                Ok(()) => {
                    &&& !old(self).settle_overflows(p)
                    &&& forall|c: CurrencyId| #[trigger]
                        final(self).tally_of(p, c) == old(self).rpt_of(c)
                    &&& forall|c: CurrencyId| #[trigger]
                        final(self).escrow_of(p, c) == old(self).escrow_of(p, c) + old(
                            self,
                        ).pending_units(p, c) / (SCALE as int)
                    &&& forall|q: StakeId, c: CurrencyId|
                        q != p ==> #[trigger] final(self).tally_of(q, c) == old(self).tally_of(
                            q,
                            c,
                        ) && final(self).escrow_of(q, c) == old(self).escrow_of(q, c)
                    &&& forall|q: StakeId, c: CurrencyId| #[trigger]
                        final(self).computed_reward(q, c) == old(self).computed_reward(q, c)
                },
                Err(e) => e == Error::Overflow && *final(self) == *old(self) && old(
                    self,
                ).settle_overflows(p),
            },
    {
        let ghost pre = *self;
        let stake = self.stake_amount(p);
        let n = self.reward_per_token.len();
        let mut owed: Vec<Balance> = Vec::new();
        let mut i: usize = 0;
        while i < n
            invariant
                *self == pre,
                pre == *old(self),
                pre.wf(),
                stake == pre.stake_of(p),
                n == pre.reward_per_token.entries().len(),
                i <= n,
                owed@.len() == i,
                forall|j: int|
                    0 <= j < i ==> owed@[j] == pre.escrow_of(
                        p,
                        (#[trigger] pre.reward_per_token.entries()[j]).0.a,
                    ) + pre.pending_units(p, pre.reward_per_token.entries()[j].0.a) / (
                    SCALE as int),
                forall|j: int|
                    0 <= j < i ==> !pre.settle_step_overflows(
                        p,
                        (#[trigger] pre.reward_per_token.entries()[j]).0.a,
                    ),
            decreases n - i,
        {
            let key = self.reward_per_token.key_at(i);
            let c = key.a;
            proof {
                pre.lemma_rpt_entry(i as int);
                assert(pre.tally_of(p, c) <= pre.rpt_of(c));
            }
            let rptc = *self.reward_per_token.value_at(i);
            let tly = self.reward_tally_value(p, c);
            let diff = rptc.units - tly.units;
            let prod = match stake.checked_mul(diff) {
                Some(x) => x,
                None => {
                    proof {
                        assert(pre.settle_step_overflows(p, c));
                    }
                    return Err(Error::Overflow);
                },
            };
            let esc = self.escrow_amount(p, c);
            let enew = match esc.checked_add(prod / SCALE) {
                Some(x) => x,
                None => {
                    proof {
                        assert(pre.settle_step_overflows(p, c));
                    }
                    return Err(Error::Overflow);
                },
            };
            owed.push(enew);
            i += 1;
        }
        let mut i2: usize = 0;
        while i2 < n
            invariant
                pre == *old(self),
                pre.wf(),
                stake == pre.stake_of(p),
                n == pre.reward_per_token.entries().len(),
                i2 <= n,
                owed@.len() == n,
                forall|j: int|
                    0 <= j < n ==> owed@[j] == pre.escrow_of(
                        p,
                        (#[trigger] pre.reward_per_token.entries()[j]).0.a,
                    ) + pre.pending_units(p, pre.reward_per_token.entries()[j].0.a) / (
                    SCALE as int),
                forall|j: int|
                    0 <= j < n ==> !pre.settle_step_overflows(
                        p,
                        (#[trigger] pre.reward_per_token.entries()[j]).0.a,
                    ),
                self.total_stake == pre.total_stake,
                self.stakes == pre.stakes,
                self.reward_per_token == pre.reward_per_token,
                self.total_rewards == pre.total_rewards,
                self.reward_tally.wf(),
                self.escrow.wf(),
                forall|j: int|
                    0 <= j < i2 ==> self.tally_of(
                        p,
                        (#[trigger] pre.reward_per_token.entries()[j]).0.a,
                    ) == pre.rpt_of(pre.reward_per_token.entries()[j].0.a) && self.escrow_of(
                        p,
                        pre.reward_per_token.entries()[j].0.a,
                    ) == owed@[j],
                forall|c: CurrencyId| #![trigger pre.tally_of(p, c)]
                    !(pre.rpt_has(c) && pre.rpt_index(c) < i2) ==> self.tally_of(p, c)
                        == pre.tally_of(p, c) && self.escrow_of(p, c) == pre.escrow_of(p, c),
                forall|q: StakeId, c: CurrencyId| #![trigger pre.tally_of(q, c)]
                    q != p ==> self.tally_of(q, c) == pre.tally_of(q, c) && self.escrow_of(q, c)
                        == pre.escrow_of(q, c),
            decreases n - i2,
        {
            let ghost head = *self;
            let key = self.reward_per_token.key_at(i2);
            let c = key.a;
            proof {
                pre.lemma_rpt_entry(i2 as int);
            }
            let rv = *self.reward_per_token.value_at(i2);
            self.reward_tally.insert(Key { a: p, b: c }, rv);
            self.escrow.insert(Key { a: p, b: c }, owed[i2]);
            proof {
                assert forall|j: int| 0 <= j < i2 + 1 implies self.tally_of(
                    p,
                    (#[trigger] pre.reward_per_token.entries()[j]).0.a,
                ) == pre.rpt_of(pre.reward_per_token.entries()[j].0.a) && self.escrow_of(
                    p,
                    pre.reward_per_token.entries()[j].0.a,
                ) == owed@[j] by {
                    pre.lemma_rpt_entry(j);
                    let cj = pre.reward_per_token.entries()[j].0.a;
                    if j < i2 {
                        assert(cj != c);
                        assert(Key { a: p, b: cj } != Key { a: p, b: c });
                        assert(head.tally_of(p, cj) == pre.rpt_of(cj) && head.escrow_of(p, cj)
                            == owed@[j]);
                        assert(self.reward_tally.has(Key { a: p, b: cj })
                            == head.reward_tally.has(Key { a: p, b: cj }));
                        assert(head.reward_tally.has(Key { a: p, b: cj })
                            ==> self.reward_tally.val(Key { a: p, b: cj }) == head.reward_tally.val(
                            Key { a: p, b: cj },
                        ));
                        assert(self.escrow.has(Key { a: p, b: cj }) == head.escrow.has(
                            Key { a: p, b: cj },
                        ));
                        assert(head.escrow.has(Key { a: p, b: cj }) ==> self.escrow.val(
                            Key { a: p, b: cj },
                        ) == head.escrow.val(Key { a: p, b: cj }));
                    } else {
                        assert(cj == c);
                        assert(self.reward_tally.has(Key { a: p, b: c })
                            && self.reward_tally.val(Key { a: p, b: c }) == rv);
                        assert(self.escrow.has(Key { a: p, b: c }) && self.escrow.val(
                            Key { a: p, b: c },
                        ) == owed@[j]);
                    }
                }
                assert forall|c2: CurrencyId| #![trigger pre.tally_of(p, c2)]
                    !(pre.rpt_has(c2) && pre.rpt_index(c2) < i2 + 1) implies self.tally_of(p, c2)
                        == pre.tally_of(p, c2) && self.escrow_of(p, c2) == pre.escrow_of(
                        p,
                        c2,
                    ) by {
                    assert(c2 != c);
                    assert(Key { a: p, b: c2 } != Key { a: p, b: c });
                    assert(!(pre.rpt_has(c2) && pre.rpt_index(c2) < i2));
                    assert(head.tally_of(p, c2) == pre.tally_of(p, c2));
                    assert(head.escrow_of(p, c2) == pre.escrow_of(p, c2));
                    assert(self.reward_tally.has(Key { a: p, b: c2 }) == head.reward_tally.has(
                        Key { a: p, b: c2 },
                    ));
                    assert(head.reward_tally.has(Key { a: p, b: c2 }) ==> self.reward_tally.val(
                        Key { a: p, b: c2 },
                    ) == head.reward_tally.val(Key { a: p, b: c2 }));
                    assert(self.escrow.has(Key { a: p, b: c2 }) == head.escrow.has(
                        Key { a: p, b: c2 },
                    ));
                    assert(head.escrow.has(Key { a: p, b: c2 }) ==> self.escrow.val(
                        Key { a: p, b: c2 },
                    ) == head.escrow.val(Key { a: p, b: c2 }));
                }
                assert forall|q: StakeId, c2: CurrencyId| #![trigger pre.tally_of(q, c2)]
                    q != p implies self.tally_of(q, c2) == pre.tally_of(q, c2) && self.escrow_of(
                        q,
                        c2,
                    ) == pre.escrow_of(q, c2) by {
                    assert(Key { a: q, b: c2 } != Key { a: p, b: c });
                    assert(head.tally_of(q, c2) == pre.tally_of(q, c2) && head.escrow_of(q, c2)
                        == pre.escrow_of(q, c2));
                    assert(self.reward_tally.has(Key { a: q, b: c2 }) == head.reward_tally.has(
                        Key { a: q, b: c2 },
                    ));
                    assert(head.reward_tally.has(Key { a: q, b: c2 }) ==> self.reward_tally.val(
                        Key { a: q, b: c2 },
                    ) == head.reward_tally.val(Key { a: q, b: c2 }));
                    assert(self.escrow.has(Key { a: q, b: c2 }) == head.escrow.has(
                        Key { a: q, b: c2 },
                    ));
                    assert(head.escrow.has(Key { a: q, b: c2 }) ==> self.escrow.val(
                        Key { a: q, b: c2 },
                    ) == head.escrow.val(Key { a: q, b: c2 }));
                }
            }
            i2 += 1;
        }
        proof {
            assert(self.settled_from(pre, p, owed@));
            self.lemma_settle_post(pre, p, owed@);
        }
        Ok(())
    }

    /// How a pool that has just settled `p` relates to its earlier self:
    /// the settlement amounts were collected in `owed`, tallies of the
    /// distributed currencies advanced, everything else stayed.
    spec fn settled_from(self, pre: RewardPool, p: StakeId, owed: Seq<Balance>) -> bool {
        &&& owed.len() == pre.reward_per_token.entries().len()
        &&& forall|j: int|
            0 <= j < owed.len() ==> owed[j] == pre.escrow_of(
                p,
                (#[trigger] pre.reward_per_token.entries()[j]).0.a,
            ) + pre.pending_units(p, pre.reward_per_token.entries()[j].0.a) / (SCALE as int)
        &&& forall|j: int|
            0 <= j < owed.len() ==> !pre.settle_step_overflows(
                p,
                (#[trigger] pre.reward_per_token.entries()[j]).0.a,
            )
        &&& self.total_stake == pre.total_stake
        &&& self.stakes == pre.stakes
        &&& self.reward_per_token == pre.reward_per_token
        &&& self.total_rewards == pre.total_rewards
        &&& self.reward_tally.wf()
        &&& self.escrow.wf()
        &&& forall|j: int|
            0 <= j < owed.len() ==> self.tally_of(
                p,
                (#[trigger] pre.reward_per_token.entries()[j]).0.a,
            ) == pre.rpt_of(pre.reward_per_token.entries()[j].0.a) && self.escrow_of(
                p,
                pre.reward_per_token.entries()[j].0.a,
            ) == owed[j]
        &&& forall|c: CurrencyId| #![trigger pre.tally_of(p, c)]
            !pre.rpt_has(c) ==> self.tally_of(p, c) == pre.tally_of(p, c) && self.escrow_of(p, c)
                == pre.escrow_of(p, c)
        &&& forall|q: StakeId, c: CurrencyId| #![trigger pre.tally_of(q, c)]
            q != p ==> self.tally_of(q, c) == pre.tally_of(q, c) && self.escrow_of(q, c)
                == pre.escrow_of(q, c)
    }

    /// One currency's view of a completed settlement.
    proof fn lemma_settle_point(self, pre: RewardPool, p: StakeId, owed: Seq<Balance>, c: CurrencyId)
        requires
            pre.wf(),
            self.settled_from(pre, p, owed),
        ensures
            self.tally_of(p, c) == pre.rpt_of(c),
            self.escrow_of(p, c) == pre.escrow_of(p, c) + pre.pending_units(p, c) / (SCALE as int),
            !pre.settle_step_overflows(p, c),
    {
        if pre.rpt_has(c) {
            let j = pre.rpt_index(c);
            assert(0 <= j < pre.reward_per_token.entries().len()
                && pre.reward_per_token.entries()[j].0 == Key { a: c, b: 0 });
            assert(pre.reward_per_token.entries()[j].0.a == c);
        } else {
            assert(pre.tally_of(p, c) <= pre.rpt_of(c));
            assert(pre.rpt_of(c) == 0);
            assert(pre.tally_of(p, c) == 0);
            assert(pre.pending_units(p, c) == pre.stake_of(p) * 0);
            assert(pre.stake_of(p) * 0 == 0);
            assert(0int / (SCALE as int) == 0);
        }
    }

    /// After both settlement passes the pool is well formed, `p` is fully
    /// settled, no overflow was possible, and nobody's withdrawable reward
    /// moved.
    proof fn lemma_settle_post(self, pre: RewardPool, p: StakeId, owed: Seq<Balance>)
        requires
            pre.wf(),
            self.settled_from(pre, p, owed),
        ensures
            self.wf(),
            !pre.settle_overflows(p),
            forall|c: CurrencyId| #[trigger] self.tally_of(p, c) == pre.rpt_of(c),
            forall|c: CurrencyId| #[trigger]
                self.escrow_of(p, c) == pre.escrow_of(p, c) + pre.pending_units(p, c) / (
                SCALE as int),
            forall|q: StakeId, c: CurrencyId|
                q != p ==> #[trigger] self.tally_of(q, c) == pre.tally_of(q, c) && self.escrow_of(
                    q,
                    c,
                ) == pre.escrow_of(q, c),
            forall|q: StakeId, c: CurrencyId| #[trigger]
                self.computed_reward(q, c) == pre.computed_reward(q, c),
    {
        assert forall|c: CurrencyId| #[trigger] self.tally_of(p, c) == pre.rpt_of(c) by {
            self.lemma_settle_point(pre, p, owed, c);
        }
        assert forall|c: CurrencyId| #[trigger]
            self.escrow_of(p, c) == pre.escrow_of(p, c) + pre.pending_units(p, c) / (
        SCALE as int) by {
            self.lemma_settle_point(pre, p, owed, c);
        }
        assert forall|c: CurrencyId| !(#[trigger] pre.settle_step_overflows(p, c)) by {
            self.lemma_settle_point(pre, p, owed, c);
        }
        assert(!pre.settle_overflows(p));
        assert forall|q: StakeId, c: CurrencyId|
            q != p implies #[trigger] self.tally_of(q, c) == pre.tally_of(q, c) && self.escrow_of(
                q,
                c,
            ) == pre.escrow_of(q, c) by {
            assert(pre.tally_of(q, c) == pre.tally_of(q, c));
        }
        assert forall|q: StakeId, c: CurrencyId| #[trigger]
            self.tally_of(q, c) <= self.rpt_of(c) by {
            if q == p {
                assert(self.tally_of(p, c) == pre.rpt_of(c));
                assert(self.rpt_of(c) == pre.rpt_of(c));
            } else {
                assert(pre.tally_of(q, c) <= pre.rpt_of(c));
                assert(self.tally_of(q, c) == pre.tally_of(q, c));
            }
        }
        assert forall|q: StakeId, c: CurrencyId| #[trigger]
            self.computed_reward(q, c) == pre.computed_reward(q, c) by {
            if q == p {
                self.lemma_settle_point(pre, p, owed, c);
                assert(self.stake_of(p) == pre.stake_of(p));
                assert(self.rpt_of(c) == pre.rpt_of(c));
                assert(self.pending_units(p, c) == pre.stake_of(p) * (pre.rpt_of(c) - pre.rpt_of(
                    c,
                )));
                assert(pre.stake_of(p) * (pre.rpt_of(c) - pre.rpt_of(c)) == pre.stake_of(p) * 0);
                assert(pre.stake_of(p) * 0 == 0);
                assert(0int / (SCALE as int) == 0);
            } else {
                assert(pre.tally_of(q, c) == pre.tally_of(q, c));
                assert(self.tally_of(q, c) == pre.tally_of(q, c));
                assert(self.escrow_of(q, c) == pre.escrow_of(q, c));
            }
        }
    }

    /// Add `amount` to `p`'s stake. The participant is settled first, so
    /// already-earned rewards keep their value; the added stake only shares
    /// in future distributions.
    pub fn deposit_stake(&mut self, p: StakeId, amount: Balance) -> (r: Result<(), Error>)
        requires
            old(self).wf(),
        ensures
            final(self).wf(),
            forall|c: CurrencyId| #[trigger] final(self).rpt_of(c) == old(self).rpt_of(c),
            forall|c: CurrencyId| #[trigger]
                final(self).total_rewards_of(c) == old(self).total_rewards_of(c),
            forall|q: StakeId, c: CurrencyId| #[trigger]
                final(self).computed_reward(q, c) == old(self).computed_reward(q, c),
            match r {
                Ok(()) => {
                    &&& final(self).stake_of(p) == old(self).stake_of(p) + amount
                    &&& final(self).total_stake == old(self).total_stake + amount
                    &&& forall|q: StakeId|
                        q != p ==> #[trigger] final(self).stake_of(q) == old(self).stake_of(q)
                    &&& Self::settled_at(*old(self), *final(self), p)
                    &&& old(self).total_stake + amount <= u128::MAX
                    &&& !old(self).settle_overflows(p)
                },
                Err(e) => {
                    &&& e == Error::Overflow
                    &&& *final(self) == *old(self)
                    &&& (old(self).total_stake + amount > u128::MAX || old(self).settle_overflows(
                        p,
                    ))
                },
            },
    {
        let total_new = match self.total_stake.checked_add(amount) {
            Some(t) => t,
            None => {
                return Err(Error::Overflow);
            },
        };
        match self.settle(p) {
            Ok(()) => (),
            Err(e) => {
                return Err(e);
            },
        }
        let ghost mid = *self;
        let stake_old = self.stake_amount(p);
        proof {
            mid.lemma_stake_le_total(p);
        }
        let stake_new = stake_old + amount;
        self.stakes.insert(Key { a: p, b: 0 }, stake_new);
        self.total_stake = total_new;
        proof {
            self.lemma_stake_change_post(mid, p, stake_new);
            assert forall|c: CurrencyId| #[trigger] self.tally_of(p, c) == old(self).rpt_of(
                c,
            ) by {
                assert(mid.tally_of(p, c) == old(self).rpt_of(c));
            }
            assert forall|c: CurrencyId| #[trigger]
                self.escrow_of(p, c) == old(self).escrow_of(p, c) + old(self).pending_units(p, c)
                / (SCALE as int) by {
                assert(mid.escrow_of(p, c) == old(self).escrow_of(p, c) + old(self).pending_units(
                    p,
                    c,
                ) / (SCALE as int));
            }
            assert forall|q: StakeId, c: CurrencyId| q != p implies #[trigger] self.tally_of(q, c)
                == old(self).tally_of(q, c) && self.escrow_of(q, c) == old(self).escrow_of(
                q,
                c,
            ) by {
                assert(mid.tally_of(q, c) == old(self).tally_of(q, c));
                assert(mid.escrow_of(q, c) == old(self).escrow_of(q, c));
            }
            assert(Self::settled_at(*old(self), *self, p));
        }
        Ok(())
    }

    /// Withdraw `amount` of `p`'s stake. The participant is settled first,
    /// so the reward already earned on the removed stake stays withdrawable.
    #[verifier::rlimit(60)]
    pub fn withdraw_stake(&mut self, p: StakeId, amount: Balance) -> (r: Result<(), Error>)
        requires
            old(self).wf(),
        ensures
            final(self).wf(),
            forall|c: CurrencyId| #[trigger] final(self).rpt_of(c) == old(self).rpt_of(c),
            forall|c: CurrencyId| #[trigger]
                final(self).total_rewards_of(c) == old(self).total_rewards_of(c),
            forall|q: StakeId, c: CurrencyId| #[trigger]
                final(self).computed_reward(q, c) == old(self).computed_reward(q, c),
            match r {
                Ok(()) => {
                    &&& amount <= old(self).stake_of(p)
                    &&& final(self).stake_of(p) == old(self).stake_of(p) - amount
                    &&& final(self).total_stake == old(self).total_stake - amount
                    &&& forall|q: StakeId|
                        q != p ==> #[trigger] final(self).stake_of(q) == old(self).stake_of(q)
                    &&& Self::settled_at(*old(self), *final(self), p)
                    &&& !old(self).settle_overflows(p)
                },
                Err(e) => {
                    &&& *final(self) == *old(self)
                    &&& (e == Error::InsufficientStake || e == Error::Overflow)
                    &&& (e == Error::InsufficientStake <==> amount > old(self).stake_of(p))
                    &&& (e == Error::Overflow ==> old(self).settle_overflows(p))
                },
            },
    {
        let stake_old = self.stake_amount(p);
        if amount > stake_old {
            return Err(Error::InsufficientStake);
        }
        match self.settle(p) {
            Ok(()) => (),
            Err(e) => {
                return Err(e);
            },
        }
        let ghost mid = *self;
        proof {
            mid.lemma_stake_le_total(p);
        }
        let stake_new = stake_old - amount;
        self.stakes.insert(Key { a: p, b: 0 }, stake_new);
        self.total_stake = self.total_stake - amount;
        proof {
            self.lemma_stake_change_post(mid, p, stake_new);
            assert forall|c: CurrencyId| #[trigger] self.tally_of(p, c) == old(self).rpt_of(
                c,
            ) by {
                assert(mid.tally_of(p, c) == old(self).rpt_of(c));
            }
            assert forall|c: CurrencyId| #[trigger]
                self.escrow_of(p, c) == old(self).escrow_of(p, c) + old(self).pending_units(p, c)
                / (SCALE as int) by {
                assert(mid.escrow_of(p, c) == old(self).escrow_of(p, c) + old(self).pending_units(
                    p,
                    c,
                ) / (SCALE as int));
            }
            assert forall|q: StakeId, c: CurrencyId| q != p implies #[trigger] self.tally_of(q, c)
                == old(self).tally_of(q, c) && self.escrow_of(q, c) == old(self).escrow_of(
                q,
                c,
            ) by {
                assert(mid.tally_of(q, c) == old(self).tally_of(q, c));
                assert(mid.escrow_of(q, c) == old(self).escrow_of(q, c));
            }
            assert(Self::settled_at(*old(self), *self, p));
        }
        Ok(())
    }

    /// Rebinding a settled participant's stake keeps the pool well formed,
    /// moves the total by the same difference, and leaves every withdrawable
    /// reward in place.
    proof fn lemma_stake_change_post(self, mid: RewardPool, p: StakeId, new_stake: Balance)
        requires
            mid.wf(),
            forall|c: CurrencyId| #[trigger] mid.tally_of(p, c) == mid.rpt_of(c),
            self.reward_per_token == mid.reward_per_token,
            self.reward_tally == mid.reward_tally,
            self.escrow == mid.escrow,
            self.total_rewards == mid.total_rewards,
            self.stakes.wf(),
            self.stakes.has(Key { a: p, b: 0 }),
            self.stakes.val(Key { a: p, b: 0 }) == new_stake,
            forall|k2: Key|
                k2 != (Key { a: p, b: 0 }) ==> self.stakes.has(k2) == mid.stakes.has(k2),
            forall|k2: Key|
                k2 != (Key { a: p, b: 0 }) && mid.stakes.has(k2) ==> self.stakes.val(k2)
                    == mid.stakes.val(k2),
            mid.stakes.has(Key { a: p, b: 0 }) ==> self.stakes.entries()
                == mid.stakes.entries().update(
                mid.stakes.idx(Key { a: p, b: 0 }),
                (Key { a: p, b: 0 }, new_stake),
            ),
            !mid.stakes.has(Key { a: p, b: 0 }) ==> self.stakes.entries()
                == mid.stakes.entries().push((Key { a: p, b: 0 }, new_stake)),
            self.total_stake == mid.total_stake - mid.stake_of(p) + new_stake,
        ensures
            self.wf(),
            self.stake_of(p) == new_stake,
            forall|q: StakeId| q != p ==> #[trigger] self.stake_of(q) == mid.stake_of(q),
            forall|c: CurrencyId| #[trigger] self.rpt_of(c) == mid.rpt_of(c),
            forall|c: CurrencyId| #[trigger]
                self.total_rewards_of(c) == mid.total_rewards_of(c),
            forall|q: StakeId, c: CurrencyId| #[trigger]
                self.computed_reward(q, c) == mid.computed_reward(q, c),
    {
        if mid.stakes.has(Key { a: p, b: 0 }) {
            let i = mid.stakes.idx(Key { a: p, b: 0 });
            assert(0 <= i < mid.stakes.entries().len() && mid.stakes.entries()[i].0 == Key {
                a: p,
                b: 0,
            });
            lemma_sum_update(mid.stakes.entries(), i, new_stake);
        } else {
            lemma_sum_push(mid.stakes.entries(), (Key { a: p, b: 0 }, new_stake));
        }
        assert(sum_balances(self.stakes.entries()) == self.total_stake);
        assert forall|i: int|
            0 <= i < self.stakes.entries().len() implies (#[trigger] self.stakes.entries()[i]).0.b
            == 0 by {
            if mid.stakes.has(Key { a: p, b: 0 }) {
                assert(self.stakes.entries()[i].0 == mid.stakes.entries()[i].0 || self.stakes.entries()[i].0
                    == (Key { a: p, b: 0 }));
            } else {
                if i < mid.stakes.entries().len() {
                    assert(self.stakes.entries()[i] == mid.stakes.entries()[i]);
                } else {
                    assert(self.stakes.entries()[i].0 == (Key { a: p, b: 0 }));
                }
            }
        }
        assert forall|q: StakeId, c: CurrencyId| #[trigger]
            self.tally_of(q, c) <= self.rpt_of(c) by {
            assert(mid.tally_of(q, c) <= mid.rpt_of(c));
        }
        assert forall|q: StakeId| q != p implies #[trigger] self.stake_of(q) == mid.stake_of(
            q,
        ) by {
            assert(Key { a: q, b: 0 } != Key { a: p, b: 0 });
        }
        assert forall|q: StakeId, c: CurrencyId| #[trigger]
            self.computed_reward(q, c) == mid.computed_reward(q, c) by {
            if q == p {
                assert(mid.tally_of(p, c) == mid.rpt_of(c));
                assert(self.pending_units(p, c) == self.stake_of(p) * (mid.rpt_of(c) - mid.rpt_of(
                    c,
                )));
                assert(self.stake_of(p) * 0 == 0);
                assert(mid.pending_units(p, c) == mid.stake_of(p) * 0);
            } else {
                assert(self.stake_of(q) == mid.stake_of(q));
            }
        }
    }
    /// Pay out everything `p` can withdraw in `currency` and reset the
    /// participant's record for that currency. The caller moves the returned
    /// amount; the pool only accounts for it.
    pub fn withdraw_reward(&mut self, p: StakeId, currency: CurrencyId) -> (r: Result<
        Balance,
        Error,
    >)
        requires
            old(self).wf(),
        ensures
            final(self).wf(),
            final(self).total_stake == old(self).total_stake,
            forall|q: StakeId| #[trigger] final(self).stake_of(q) == old(self).stake_of(q),
            forall|c: CurrencyId| #[trigger] final(self).rpt_of(c) == old(self).rpt_of(c),
            match r {
                Ok(w) => {
                    &&& w == old(self).computed_reward(p, currency)
                    &&& !old(self).settle_step_overflows(p, currency)
                    &&& final(self).computed_reward(p, currency) == 0
                    &&& forall|q: StakeId, c: CurrencyId|
                        !(q == p && c == currency) ==> #[trigger] final(self).computed_reward(q, c)
                            == old(self).computed_reward(q, c)
                    &&& final(self).total_rewards_of(currency) == if w <= old(
                        self,
                    ).total_rewards_of(currency) {
                        old(self).total_rewards_of(currency) - w
                    } else {
                        0int
                    }
                    &&& forall|c: CurrencyId|
                        c != currency ==> #[trigger] final(self).total_rewards_of(c) == old(
                            self,
                        ).total_rewards_of(c)
                },
                Err(e) => e == Error::Overflow && *final(self) == *old(self) && old(
                    self,
                ).settle_step_overflows(p, currency),
            },
    {
        let w = match self.compute_reward(p, currency) {
            Ok(w) => w,
            Err(e) => {
                return Err(e);
            },
        };
        let ghost pre = *self;
        let rptc = self.reward_per_token_value(currency);
        self.reward_tally.insert(Key { a: p, b: currency }, rptc);
        self.escrow.insert(Key { a: p, b: currency }, 0);
        let tr = self.total_rewards_amount_raw(currency);
        let trn = if w <= tr {
            tr - w
        } else {
            0
        };
        self.total_rewards.insert(Key { a: currency, b: 0 }, trn);
        proof {
            assert(self.tally_of(p, currency) == pre.rpt_of(currency));
            assert(self.escrow_of(p, currency) == 0);
            assert forall|q: StakeId, c: CurrencyId|
                !(q == p && c == currency) implies #[trigger] self.tally_of(q, c) == pre.tally_of(
                q,
                c,
            ) by {
                assert(Key { a: q, b: c } != Key { a: p, b: currency });
            }
            assert forall|q: StakeId, c: CurrencyId|
                !(q == p && c == currency) implies #[trigger] self.escrow_of(q, c) == pre.escrow_of(
                q,
                c,
            ) by {
                assert(Key { a: q, b: c } != Key { a: p, b: currency });
            }
            assert forall|q: StakeId, c: CurrencyId| #[trigger]
                self.tally_of(q, c) <= self.rpt_of(c) by {
                assert(pre.tally_of(q, c) <= pre.rpt_of(c));
                if q == p && c == currency {
                    assert(self.tally_of(p, currency) == pre.rpt_of(currency));
                }
            }
            assert forall|q: StakeId, c: CurrencyId|
                !(q == p && c == currency) implies #[trigger] self.computed_reward(q, c)
                == pre.computed_reward(q, c) by {
                assert(self.tally_of(q, c) == pre.tally_of(q, c));
                assert(self.escrow_of(q, c) == pre.escrow_of(q, c));
                assert(self.stake_of(q) == pre.stake_of(q));
                assert(self.rpt_of(c) == pre.rpt_of(c));
            }
            assert(self.pending_units(p, currency) == self.stake_of(p) * (pre.rpt_of(currency)
                - pre.rpt_of(currency)));
            assert(self.stake_of(p) * 0 == 0);
            assert(0int / (SCALE as int) == 0);
        }
        Ok(w)
    }

    /// How many entries the pool's five tables hold together.
    pub open spec fn entry_count(self) -> int {
        self.escrow.entries().len() + self.reward_tally.entries().len()
            + self.reward_per_token.entries().len() + self.stakes.entries().len()
            + self.total_rewards.entries().len() as int
    }

    /// A pool whose storage has been wiped completely.
    pub open spec fn is_cleared(self) -> bool {
        self.entry_count() == 0 && self.total_stake == 0
    }

    /// Remove up to `limit` stored entries, oldest tables last. Returns
    /// whether the storage is now completely empty; `false` reports an
    /// incomplete clear that must be resumed by calling again.
    pub fn clear_some(&mut self, limit: u64) -> (done: bool)
        requires
            old(self).wf(),
        ensures
            final(self).wf(),
            done <==> old(self).entry_count() <= limit,
            done ==> final(self).is_cleared(),
            final(self).entry_count() == if old(self).entry_count() <= limit {
                0int
            } else {
                old(self).entry_count() - limit
            },
            final(self).escrow.entries() == old(self).escrow.entries().subrange(
                0,
                final(self).escrow.entries().len() as int,
            ),
            final(self).reward_tally.entries() == old(self).reward_tally.entries().subrange(
                0,
                final(self).reward_tally.entries().len() as int,
            ),
            final(self).reward_per_token.entries() == old(
                self,
            ).reward_per_token.entries().subrange(
                0,
                final(self).reward_per_token.entries().len() as int,
            ),
            final(self).stakes.entries() == old(self).stakes.entries().subrange(
                0,
                final(self).stakes.entries().len() as int,
            ),
            final(self).total_rewards.entries() == old(self).total_rewards.entries().subrange(
                0,
                final(self).total_rewards.entries().len() as int,
            ),
    {
        proof {
            assert(self.escrow.entries().subrange(0, self.escrow.entries().len() as int)
                =~= self.escrow.entries());
            assert(self.reward_tally.entries().subrange(
                0,
                self.reward_tally.entries().len() as int,
            ) =~= self.reward_tally.entries());
            assert(self.reward_per_token.entries().subrange(
                0,
                self.reward_per_token.entries().len() as int,
            ) =~= self.reward_per_token.entries());
            assert(self.stakes.entries().subrange(0, self.stakes.entries().len() as int)
                =~= self.stakes.entries());
            assert(self.total_rewards.entries().subrange(
                0,
                self.total_rewards.entries().len() as int,
            ) =~= self.total_rewards.entries());
        }
        let mut budget = limit;
        while budget > 0 && self.escrow.len() > 0
            invariant
                self.wf(),
                budget <= limit,
                old(self).entry_count() - self.entry_count() == limit - budget,
                self.reward_tally == old(self).reward_tally,
                self.reward_per_token == old(self).reward_per_token,
                self.stakes == old(self).stakes,
                self.total_stake == old(self).total_stake,
                self.total_rewards == old(self).total_rewards,
                self.escrow.entries().len() <= old(self).escrow.entries().len(),
                self.reward_tally.entries().len() <= old(self).reward_tally.entries().len(),
                self.reward_per_token.entries().len() <= old(
                    self,
                ).reward_per_token.entries().len(),
                self.stakes.entries().len() <= old(self).stakes.entries().len(),
                self.total_rewards.entries().len() <= old(self).total_rewards.entries().len(),
                self.escrow.entries() == old(self).escrow.entries().subrange(
                    0,
                    self.escrow.entries().len() as int,
                ),
                self.reward_tally.entries() == old(self).reward_tally.entries().subrange(
                    0,
                    self.reward_tally.entries().len() as int,
                ),
                self.reward_per_token.entries() == old(
                    self,
                ).reward_per_token.entries().subrange(
                    0,
                    self.reward_per_token.entries().len() as int,
                ),
                self.stakes.entries() == old(self).stakes.entries().subrange(
                    0,
                    self.stakes.entries().len() as int,
                ),
                self.total_rewards.entries() == old(self).total_rewards.entries().subrange(
                    0,
                    self.total_rewards.entries().len() as int,
                ),
            decreases self.escrow.entries().len(),
        {
            let ghost head = *self;
            self.escrow.pop();
            proof {
                assert(old(self).escrow.entries().subrange(
                    0,
                    head.escrow.entries().len() as int,
                ).drop_last() =~= old(self).escrow.entries().subrange(
                    0,
                    head.escrow.entries().len() - 1,
                ));
            }
            budget = budget - 1;
            proof {
                assert forall|q: StakeId, c: CurrencyId| #[trigger]
                    self.tally_of(q, c) <= self.rpt_of(c) by {
                    assert(head.tally_of(q, c) <= head.rpt_of(c));
                }
            }
        }
        while budget > 0 && self.reward_tally.len() > 0
            invariant
                self.wf(),
                budget <= limit,
                old(self).entry_count() - self.entry_count() == limit - budget,
                budget > 0 ==> self.escrow.entries().len() == 0,
                self.reward_per_token == old(self).reward_per_token,
                self.stakes == old(self).stakes,
                self.total_stake == old(self).total_stake,
                self.total_rewards == old(self).total_rewards,
                self.escrow.entries().len() <= old(self).escrow.entries().len(),
                self.reward_tally.entries().len() <= old(self).reward_tally.entries().len(),
                self.reward_per_token.entries().len() <= old(
                    self,
                ).reward_per_token.entries().len(),
                self.stakes.entries().len() <= old(self).stakes.entries().len(),
                self.total_rewards.entries().len() <= old(self).total_rewards.entries().len(),
                self.escrow.entries() == old(self).escrow.entries().subrange(
                    0,
                    self.escrow.entries().len() as int,
                ),
                self.reward_tally.entries() == old(self).reward_tally.entries().subrange(
                    0,
                    self.reward_tally.entries().len() as int,
                ),
                self.reward_per_token.entries() == old(
                    self,
                ).reward_per_token.entries().subrange(
                    0,
                    self.reward_per_token.entries().len() as int,
                ),
                self.stakes.entries() == old(self).stakes.entries().subrange(
                    0,
                    self.stakes.entries().len() as int,
                ),
                self.total_rewards.entries() == old(self).total_rewards.entries().subrange(
                    0,
                    self.total_rewards.entries().len() as int,
                ),
            decreases self.reward_tally.entries().len(),
        {
            let ghost head = *self;
            self.reward_tally.pop();
            proof {
                assert(old(self).reward_tally.entries().subrange(
                    0,
                    head.reward_tally.entries().len() as int,
                ).drop_last() =~= old(self).reward_tally.entries().subrange(
                    0,
                    head.reward_tally.entries().len() - 1,
                ));
            }
            budget = budget - 1;
            proof {
                self.reward_tally.lemma_pop_pointwise(head.reward_tally);
                assert forall|q: StakeId, c: CurrencyId| #[trigger]
                    self.tally_of(q, c) <= self.rpt_of(c) by {
                    assert(head.tally_of(q, c) <= head.rpt_of(c));
                    if self.reward_tally.has(Key { a: q, b: c }) {
                        assert(self.tally_of(q, c) == head.tally_of(q, c));
                    } else {
                        assert(self.tally_of(q, c) == 0);
                        assert(head.rpt_of(c) >= head.tally_of(q, c) >= 0 || head.rpt_of(c) >= 0);
                        assert(self.rpt_of(c) == head.rpt_of(c));
                    }
                }
            }
        }
        while budget > 0 && self.reward_per_token.len() > 0
            invariant
                self.wf(),
                budget <= limit,
                old(self).entry_count() - self.entry_count() == limit - budget,
                budget > 0 ==> self.escrow.entries().len() == 0
                    && self.reward_tally.entries().len() == 0,
                self.stakes == old(self).stakes,
                self.total_stake == old(self).total_stake,
                self.total_rewards == old(self).total_rewards,
                self.escrow.entries().len() <= old(self).escrow.entries().len(),
                self.reward_tally.entries().len() <= old(self).reward_tally.entries().len(),
                self.reward_per_token.entries().len() <= old(
                    self,
                ).reward_per_token.entries().len(),
                self.stakes.entries().len() <= old(self).stakes.entries().len(),
                self.total_rewards.entries().len() <= old(self).total_rewards.entries().len(),
                self.escrow.entries() == old(self).escrow.entries().subrange(
                    0,
                    self.escrow.entries().len() as int,
                ),
                self.reward_tally.entries() == old(self).reward_tally.entries().subrange(
                    0,
                    self.reward_tally.entries().len() as int,
                ),
                self.reward_per_token.entries() == old(
                    self,
                ).reward_per_token.entries().subrange(
                    0,
                    self.reward_per_token.entries().len() as int,
                ),
                self.stakes.entries() == old(self).stakes.entries().subrange(
                    0,
                    self.stakes.entries().len() as int,
                ),
                self.total_rewards.entries() == old(self).total_rewards.entries().subrange(
                    0,
                    self.total_rewards.entries().len() as int,
                ),
            decreases self.reward_per_token.entries().len(),
        {
            let ghost head = *self;
            self.reward_per_token.pop();
            proof {
                assert(old(self).reward_per_token.entries().subrange(
                    0,
                    head.reward_per_token.entries().len() as int,
                ).drop_last() =~= old(self).reward_per_token.entries().subrange(
                    0,
                    head.reward_per_token.entries().len() - 1,
                ));
            }
            budget = budget - 1;
            proof {
                assert(forall|j: int|
                    0 <= j < self.reward_per_token.entries().len()
                        ==> (#[trigger] self.reward_per_token.entries()[j])
                        == head.reward_per_token.entries()[j]);
                assert forall|q: StakeId, c: CurrencyId| #[trigger]
                    self.tally_of(q, c) <= self.rpt_of(c) by {
                    assert(self.reward_tally.entries().len() == 0);
                    assert(!self.reward_tally.has(Key { a: q, b: c }));
                    assert(self.tally_of(q, c) == 0);
                    assert(self.rpt_of(c) >= 0);
                }
            }
        }
        while budget > 0 && self.stakes.len() > 0
            invariant
                self.wf(),
                budget <= limit,
                old(self).entry_count() - self.entry_count() == limit - budget,
                budget > 0 ==> self.escrow.entries().len() == 0
                    && self.reward_tally.entries().len() == 0
                    && self.reward_per_token.entries().len() == 0,
                self.total_rewards == old(self).total_rewards,
                self.escrow.entries().len() <= old(self).escrow.entries().len(),
                self.reward_tally.entries().len() <= old(self).reward_tally.entries().len(),
                self.reward_per_token.entries().len() <= old(
                    self,
                ).reward_per_token.entries().len(),
                self.stakes.entries().len() <= old(self).stakes.entries().len(),
                self.total_rewards.entries().len() <= old(self).total_rewards.entries().len(),
                self.escrow.entries() == old(self).escrow.entries().subrange(
                    0,
                    self.escrow.entries().len() as int,
                ),
                self.reward_tally.entries() == old(self).reward_tally.entries().subrange(
                    0,
                    self.reward_tally.entries().len() as int,
                ),
                self.reward_per_token.entries() == old(
                    self,
                ).reward_per_token.entries().subrange(
                    0,
                    self.reward_per_token.entries().len() as int,
                ),
                self.stakes.entries() == old(self).stakes.entries().subrange(
                    0,
                    self.stakes.entries().len() as int,
                ),
                self.total_rewards.entries() == old(self).total_rewards.entries().subrange(
                    0,
                    self.total_rewards.entries().len() as int,
                ),
            decreases self.stakes.entries().len(),
        {
            let ghost head = *self;
            let e = self.stakes.pop();
            proof {
                assert(old(self).stakes.entries().subrange(
                    0,
                    head.stakes.entries().len() as int,
                ).drop_last() =~= old(self).stakes.entries().subrange(
                    0,
                    head.stakes.entries().len() - 1,
                ));
            }
            proof {
                lemma_sum_drop_last(head.stakes.entries());
                lemma_sum_nonneg(self.stakes.entries());
            }
            match e {
                Some(kv) => {
                    self.total_stake = self.total_stake - kv.1;
                },
                None => (),
            }
            budget = budget - 1;
            proof {
                assert(forall|j: int|
                    0 <= j < self.stakes.entries().len() ==> (#[trigger] self.stakes.entries()[j])
                        == head.stakes.entries()[j]);
                assert forall|q: StakeId, c: CurrencyId| #[trigger]
                    self.tally_of(q, c) <= self.rpt_of(c) by {
                    assert(head.tally_of(q, c) <= head.rpt_of(c));
                }
            }
        }
        while budget > 0 && self.total_rewards.len() > 0
            invariant
                self.wf(),
                budget <= limit,
                old(self).entry_count() - self.entry_count() == limit - budget,
                budget > 0 ==> self.escrow.entries().len() == 0
                    && self.reward_tally.entries().len() == 0
                    && self.reward_per_token.entries().len() == 0 && self.stakes.entries().len()
                    == 0,
                self.escrow.entries().len() <= old(self).escrow.entries().len(),
                self.reward_tally.entries().len() <= old(self).reward_tally.entries().len(),
                self.reward_per_token.entries().len() <= old(
                    self,
                ).reward_per_token.entries().len(),
                self.stakes.entries().len() <= old(self).stakes.entries().len(),
                self.total_rewards.entries().len() <= old(self).total_rewards.entries().len(),
                self.escrow.entries() == old(self).escrow.entries().subrange(
                    0,
                    self.escrow.entries().len() as int,
                ),
                self.reward_tally.entries() == old(self).reward_tally.entries().subrange(
                    0,
                    self.reward_tally.entries().len() as int,
                ),
                self.reward_per_token.entries() == old(
                    self,
                ).reward_per_token.entries().subrange(
                    0,
                    self.reward_per_token.entries().len() as int,
                ),
                self.stakes.entries() == old(self).stakes.entries().subrange(
                    0,
                    self.stakes.entries().len() as int,
                ),
                self.total_rewards.entries() == old(self).total_rewards.entries().subrange(
                    0,
                    self.total_rewards.entries().len() as int,
                ),
            decreases self.total_rewards.entries().len(),
        {
            let ghost head = *self;
            self.total_rewards.pop();
            proof {
                assert(old(self).total_rewards.entries().subrange(
                    0,
                    head.total_rewards.entries().len() as int,
                ).drop_last() =~= old(self).total_rewards.entries().subrange(
                    0,
                    head.total_rewards.entries().len() - 1,
                ));
            }
            budget = budget - 1;
            proof {
                assert forall|q: StakeId, c: CurrencyId| #[trigger]
                    self.tally_of(q, c) <= self.rpt_of(c) by {
                    assert(head.tally_of(q, c) <= head.rpt_of(c));
                }
            }
        }
        let done = self.escrow.len() == 0 && self.reward_tally.len() == 0
            && self.reward_per_token.len() == 0 && self.stakes.len() == 0
            && self.total_rewards.len() == 0;
        proof {
            if done {
                lemma_sum_nonneg(self.stakes.entries());
            }
        }
        done
    }
}

} // verus!