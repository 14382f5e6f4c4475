//! Stake-weighted reward distribution with a two-tier pool hierarchy.
//!
//! The crate provides four pieces, leaves first:
//!
//! * [`reward::RewardPool`] — the accounting primitive: stake per participant
//!   and O(1) proportional distribution through a lazily settled accumulator.
//! * [`staking::NominatorStakingPool`] — one reward pool per vault and
//!   slashing epoch ("nonce"), so a forced loss never rewrites nominator
//!   records.
//! * [`hierarchy::PoolHierarchy`] — a capacity pool keyed by currency over a
//!   vault pool keyed by `(currency, vault)`; rewards cascade top-down.
//! * [`migration`] — the one-shot, version-gated transformer that moves a flat
//!   per-vault stake model into the hierarchy.
//!
//! All arithmetic is checked fixed-point: overflow is reported, never wrapped,
//! and a distribution against zero total stake is dropped without error.

use vstd::prelude::*;

pub mod fixed;
pub mod store;
pub mod reward;
pub mod staking;
pub mod hierarchy;
pub mod migration;

verus! {

/// Token amounts, stakes and settled rewards.
pub type Balance = u128;

/// Identifies a reward currency.
pub type CurrencyId = u64;

/// Identifies a participant of a single reward pool.
pub type StakeId = u64;

/// Identifies a vault.
pub type VaultAccount = u64;

/// Identifies a nominator of a vault.
pub type NominatorId = u64;

/// Why an operation was rejected. Every error leaves the state untouched.
#[derive(Clone, Copy, PartialEq, Eq, Structural, Debug)]
pub enum Error {
    /// An addition or multiplication would exceed the balance range.
    Overflow,
    /// A stake withdrawal asked for more than the participant holds.
    InsufficientStake,
    /// A conversion divided by a zero rate or threshold.
    ZeroDivisor,
    /// No exchange rate is known for the requested currency.
    PriceUnavailable,
}

} // verus!
